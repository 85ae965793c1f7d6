//! The fixed keyword table: a bidirectional mapping between mnemonic
//! operator names and their one-byte atom encodings, shared by every
//! disassembly and assembly call.

use vstd::prelude::*;

verus! {

/// The mnemonic for a one-byte operator atom, if it has one.
pub open spec fn kw_name(op: u8) -> Option<Seq<u8>> {
    if op == 1 {
        Some(seq!['q' as u8])
    } else if op == 2 {
        Some(seq!['a' as u8])
    } else if op == 3 {
        Some(seq!['i' as u8])
    } else if op == 4 {
        Some(seq!['c' as u8])
    } else if op == 5 {
        Some(seq!['f' as u8])
    } else if op == 6 {
        Some(seq!['r' as u8])
    } else if op == 7 {
        Some(seq!['l' as u8])
    } else if op == 8 {
        Some(seq!['x' as u8])
    } else if op == 9 {
        Some(seq!['=' as u8])
    } else if op == 10 {
        Some(seq!['>' as u8, 's' as u8])
    } else if op == 11 {
        Some(seq!['s' as u8, 'h' as u8, 'a' as u8, '2' as u8, '5' as u8, '6' as u8])
    } else if op == 12 {
        Some(seq!['s' as u8, 'u' as u8, 'b' as u8, 's' as u8, 't' as u8, 'r' as u8])
    } else if op == 13 {
        Some(seq!['s' as u8, 't' as u8, 'r' as u8, 'l' as u8, 'e' as u8, 'n' as u8])
    } else if op == 14 {
        Some(seq!['c' as u8, 'o' as u8, 'n' as u8, 'c' as u8, 'a' as u8, 't' as u8])
    } else if op == 16 {
        Some(seq!['+' as u8])
    } else if op == 17 {
        Some(seq!['-' as u8])
    } else if op == 18 {
        Some(seq!['*' as u8])
    } else if op == 19 {
        Some(seq!['/' as u8])
    } else if op == 20 {
        Some(seq!['d' as u8, 'i' as u8, 'v' as u8, 'm' as u8, 'o' as u8, 'd' as u8])
    } else if op == 21 {
        Some(seq!['>' as u8])
    } else if op == 22 {
        Some(seq!['a' as u8, 's' as u8, 'h' as u8])
    } else if op == 23 {
        Some(seq!['l' as u8, 's' as u8, 'h' as u8])
    } else if op == 24 {
        Some(seq!['l' as u8, 'o' as u8, 'g' as u8, 'a' as u8, 'n' as u8, 'd' as u8])
    } else if op == 25 {
        Some(seq!['l' as u8, 'o' as u8, 'g' as u8, 'i' as u8, 'o' as u8, 'r' as u8])
    } else if op == 26 {
        Some(seq!['l' as u8, 'o' as u8, 'g' as u8, 'x' as u8, 'o' as u8, 'r' as u8])
    } else if op == 27 {
        Some(seq!['l' as u8, 'o' as u8, 'g' as u8, 'n' as u8, 'o' as u8, 't' as u8])
    } else if op == 29 {
        Some(seq!['p' as u8, 'o' as u8, 'i' as u8, 'n' as u8, 't' as u8, '_' as u8, 'a' as u8, 'd' as u8, 'd' as u8])
    } else if op == 30 {
        Some(seq!['p' as u8, 'u' as u8, 'b' as u8, 'k' as u8, 'e' as u8, 'y' as u8, '_' as u8, 'f' as u8, 'o' as u8, 'r' as u8, '_' as u8, 'e' as u8, 'x' as u8, 'p' as u8])
    } else if op == 32 {
        Some(seq!['n' as u8, 'o' as u8, 't' as u8])
    } else if op == 33 {
        Some(seq!['a' as u8, 'n' as u8, 'y' as u8])
    } else if op == 34 {
        Some(seq!['a' as u8, 'l' as u8, 'l' as u8])
    } else if op == 36 {
        Some(seq!['s' as u8, 'o' as u8, 'f' as u8, 't' as u8, 'f' as u8, 'o' as u8, 'r' as u8, 'k' as u8])
    } else {
        None
    }
}

/// The one-byte operator an mnemonic stands for, if any.
pub open spec fn kw_byte(name: Seq<u8>) -> Option<u8> {
    if name.len() == 1 && name[0] == 'q' as u8 {
        Some(1u8)
    } else if name.len() == 1 && name[0] == 'a' as u8 {
        Some(2u8)
    } else if name.len() == 1 && name[0] == 'i' as u8 {
        Some(3u8)
    } else if name.len() == 1 && name[0] == 'c' as u8 {
        Some(4u8)
    } else if name.len() == 1 && name[0] == 'f' as u8 {
        Some(5u8)
    } else if name.len() == 1 && name[0] == 'r' as u8 {
        Some(6u8)
    } else if name.len() == 1 && name[0] == 'l' as u8 {
        Some(7u8)
    } else if name.len() == 1 && name[0] == 'x' as u8 {
        Some(8u8)
    } else if name.len() == 1 && name[0] == '=' as u8 {
        Some(9u8)
    } else if name.len() == 2 && name[0] == '>' as u8 && name[1] == 's' as u8 {
        Some(10u8)
    } else if name.len() == 6 && name[0] == 's' as u8 && name[1] == 'h' as u8 && name[2] == 'a' as u8 && name[3] == '2' as u8 && name[4] == '5' as u8 && name[5] == '6' as u8 {
        Some(11u8)
    } else if name.len() == 6 && name[0] == 's' as u8 && name[1] == 'u' as u8 && name[2] == 'b' as u8 && name[3] == 's' as u8 && name[4] == 't' as u8 && name[5] == 'r' as u8 {
        Some(12u8)
    } else if name.len() == 6 && name[0] == 's' as u8 && name[1] == 't' as u8 && name[2] == 'r' as u8 && name[3] == 'l' as u8 && name[4] == 'e' as u8 && name[5] == 'n' as u8 {
        Some(13u8)
    } else if name.len() == 6 && name[0] == 'c' as u8 && name[1] == 'o' as u8 && name[2] == 'n' as u8 && name[3] == 'c' as u8 && name[4] == 'a' as u8 && name[5] == 't' as u8 {
        Some(14u8)
    } else if name.len() == 1 && name[0] == '+' as u8 {
        Some(16u8)
    } else if name.len() == 1 && name[0] == '-' as u8 {
        Some(17u8)
    } else if name.len() == 1 && name[0] == '*' as u8 {
        Some(18u8)
    } else if name.len() == 1 && name[0] == '/' as u8 {
        Some(19u8)
    } else if name.len() == 6 && name[0] == 'd' as u8 && name[1] == 'i' as u8 && name[2] == 'v' as u8 && name[3] == 'm' as u8 && name[4] == 'o' as u8 && name[5] == 'd' as u8 {
        Some(20u8)
    } else if name.len() == 1 && name[0] == '>' as u8 {
        Some(21u8)
    } else if name.len() == 3 && name[0] == 'a' as u8 && name[1] == 's' as u8 && name[2] == 'h' as u8 {
        Some(22u8)
    } else if name.len() == 3 && name[0] == 'l' as u8 && name[1] == 's' as u8 && name[2] == 'h' as u8 {
        Some(23u8)
    } else if name.len() == 6 && name[0] == 'l' as u8 && name[1] == 'o' as u8 && name[2] == 'g' as u8 && name[3] == 'a' as u8 && name[4] == 'n' as u8 && name[5] == 'd' as u8 {
        Some(24u8)
    } else if name.len() == 6 && name[0] == 'l' as u8 && name[1] == 'o' as u8 && name[2] == 'g' as u8 && name[3] == 'i' as u8 && name[4] == 'o' as u8 && name[5] == 'r' as u8 {
        Some(25u8)
    } else if name.len() == 6 && name[0] == 'l' as u8 && name[1] == 'o' as u8 && name[2] == 'g' as u8 && name[3] == 'x' as u8 && name[4] == 'o' as u8 && name[5] == 'r' as u8 {
        Some(26u8)
    } else if name.len() == 6 && name[0] == 'l' as u8 && name[1] == 'o' as u8 && name[2] == 'g' as u8 && name[3] == 'n' as u8 && name[4] == 'o' as u8 && name[5] == 't' as u8 {
        Some(27u8)
    } else if name.len() == 9 && name[0] == 'p' as u8 && name[1] == 'o' as u8 && name[2] == 'i' as u8 && name[3] == 'n' as u8 && name[4] == 't' as u8 && name[5] == '_' as u8 && name[6] == 'a' as u8 && name[7] == 'd' as u8 && name[8] == 'd' as u8 {
        Some(29u8)
    } else if name.len() == 14 && name[0] == 'p' as u8 && name[1] == 'u' as u8 && name[2] == 'b' as u8 && name[3] == 'k' as u8 && name[4] == 'e' as u8 && name[5] == 'y' as u8 && name[6] == '_' as u8 && name[7] == 'f' as u8 && name[8] == 'o' as u8 && name[9] == 'r' as u8 && name[10] == '_' as u8 && name[11] == 'e' as u8 && name[12] == 'x' as u8 && name[13] == 'p' as u8 {
        Some(30u8)
    } else if name.len() == 3 && name[0] == 'n' as u8 && name[1] == 'o' as u8 && name[2] == 't' as u8 {
        Some(32u8)
    } else if name.len() == 3 && name[0] == 'a' as u8 && name[1] == 'n' as u8 && name[2] == 'y' as u8 {
        Some(33u8)
    } else if name.len() == 3 && name[0] == 'a' as u8 && name[1] == 'l' as u8 && name[2] == 'l' as u8 {
        Some(34u8)
    } else if name.len() == 8 && name[0] == 's' as u8 && name[1] == 'o' as u8 && name[2] == 'f' as u8 && name[3] == 't' as u8 && name[4] == 'f' as u8 && name[5] == 'o' as u8 && name[6] == 'r' as u8 && name[7] == 'k' as u8 {
        Some(36u8)
    } else {
        None
    }
}

/// The keyword written for an atom, which must be a single byte.
pub open spec fn kw_from_atom(b: Seq<u8>) -> Option<Seq<u8>> {
    if b.len() == 1 {
        kw_name(b[0])
    } else {
        None
    }
}

/// The atom bytes a keyword assembles to.
pub open spec fn kw_atom(name: Seq<u8>) -> Option<Seq<u8>> {
    match kw_byte(name) {
        Some(op) => Some(seq![op]),
        None => None,
    }
}

/// Look up the mnemonic for an atom.
pub fn keyword_from_atom(b: &[u8]) -> (r: Option<Vec<u8>>)
    ensures
        match r {
            Some(name) => kw_from_atom(b@) == Some(name@),
            None => kw_from_atom(b@) is None,
        },
{
    if b.len() != 1 {
        return None;
    }
    let op = b[0];
    if op == 1 {
        let name: Vec<u8> = vec!['q' as u8];
        proof {
            assert(name@ =~= seq!['q' as u8]);
        }
        Some(name)
    } else if op == 2 {
        let name: Vec<u8> = vec!['a' as u8];
        proof {
            assert(name@ =~= seq!['a' as u8]);
        }
        Some(name)
    } else if op == 3 {
        let name: Vec<u8> = vec!['i' as u8];
        proof {
            assert(name@ =~= seq!['i' as u8]);
        }
        Some(name)
    } else if op == 4 {
        let name: Vec<u8> = vec!['c' as u8];
        proof {
            assert(name@ =~= seq!['c' as u8]);
        }
        Some(name)
    } else if op == 5 {
        let name: Vec<u8> = vec!['f' as u8];
        proof {
            assert(name@ =~= seq!['f' as u8]);
        }
        Some(name)
    } else if op == 6 {
        let name: Vec<u8> = vec!['r' as u8];
        proof {
            assert(name@ =~= seq!['r' as u8]);
        }
        Some(name)
    } else if op == 7 {
        let name: Vec<u8> = vec!['l' as u8];
        proof {
            assert(name@ =~= seq!['l' as u8]);
        }
        Some(name)
    } else if op == 8 {
        let name: Vec<u8> = vec!['x' as u8];
        proof {
            assert(name@ =~= seq!['x' as u8]);
        }
        Some(name)
    } else if op == 9 {
        let name: Vec<u8> = vec!['=' as u8];
        proof {
            assert(name@ =~= seq!['=' as u8]);
        }
        Some(name)
    } else if op == 10 {
        let name: Vec<u8> = vec!['>' as u8, 's' as u8];
        proof {
            assert(name@ =~= seq!['>' as u8, 's' as u8]);
        }
        Some(name)
    } else if op == 11 {
        let name: Vec<u8> = vec!['s' as u8, 'h' as u8, 'a' as u8, '2' as u8, '5' as u8, '6' as u8];
        proof {
            assert(name@ =~= seq!['s' as u8, 'h' as u8, 'a' as u8, '2' as u8, '5' as u8, '6' as u8]);
        }
        Some(name)
    } else if op == 12 {
        let name: Vec<u8> = vec!['s' as u8, 'u' as u8, 'b' as u8, 's' as u8, 't' as u8, 'r' as u8];
        proof {
            assert(name@ =~= seq!['s' as u8, 'u' as u8, 'b' as u8, 's' as u8, 't' as u8, 'r' as u8]);
        }
        Some(name)
    } else if op == 13 {
        let name: Vec<u8> = vec!['s' as u8, 't' as u8, 'r' as u8, 'l' as u8, 'e' as u8, 'n' as u8];
        proof {
            assert(name@ =~= seq!['s' as u8, 't' as u8, 'r' as u8, 'l' as u8, 'e' as u8, 'n' as u8]);
        }
        Some(name)
    } else if op == 14 {
        let name: Vec<u8> = vec!['c' as u8, 'o' as u8, 'n' as u8, 'c' as u8, 'a' as u8, 't' as u8];
        proof {
            assert(name@ =~= seq!['c' as u8, 'o' as u8, 'n' as u8, 'c' as u8, 'a' as u8, 't' as u8]);
        }
        Some(name)
    } else if op == 16 {
        let name: Vec<u8> = vec!['+' as u8];
        proof {
            assert(name@ =~= seq!['+' as u8]);
        }
        Some(name)
    } else if op == 17 {
        let name: Vec<u8> = vec!['-' as u8];
        proof {
            assert(name@ =~= seq!['-' as u8]);
        }
        Some(name)
    } else if op == 18 {
        let name: Vec<u8> = vec!['*' as u8];
        proof {
            assert(name@ =~= seq!['*' as u8]);
        }
        Some(name)
    } else if op == 19 {
        let name: Vec<u8> = vec!['/' as u8];
        proof {
            assert(name@ =~= seq!['/' as u8]);
        }
        Some(name)
    } else if op == 20 {
        let name: Vec<u8> = vec!['d' as u8, 'i' as u8, 'v' as u8, 'm' as u8, 'o' as u8, 'd' as u8];
        proof {
            assert(name@ =~= seq!['d' as u8, 'i' as u8, 'v' as u8, 'm' as u8, 'o' as u8, 'd' as u8]);
        }
        Some(name)
    } else if op == 21 {
        let name: Vec<u8> = vec!['>' as u8];
        proof {
            assert(name@ =~= seq!['>' as u8]);
        }
        Some(name)
    } else if op == 22 {
        let name: Vec<u8> = vec!['a' as u8, 's' as u8, 'h' as u8];
        proof {
            assert(name@ =~= seq!['a' as u8, 's' as u8, 'h' as u8]);
        }
        Some(name)
    } else if op == 23 {
        let name: Vec<u8> = vec!['l' as u8, 's' as u8, 'h' as u8];
        proof {
            assert(name@ =~= seq!['l' as u8, 's' as u8, 'h' as u8]);
        }
        Some(name)
    } else if op == 24 {
        let name: Vec<u8> = vec!['l' as u8, 'o' as u8, 'g' as u8, 'a' as u8, 'n' as u8, 'd' as u8];
        proof {
            assert(name@ =~= seq!['l' as u8, 'o' as u8, 'g' as u8, 'a' as u8, 'n' as u8, 'd' as u8]);
        }
        Some(name)
    } else if op == 25 {
        let name: Vec<u8> = vec!['l' as u8, 'o' as u8, 'g' as u8, 'i' as u8, 'o' as u8, 'r' as u8];
        proof {
            assert(name@ =~= seq!['l' as u8, 'o' as u8, 'g' as u8, 'i' as u8, 'o' as u8, 'r' as u8]);
        }
        Some(name)
    } else if op == 26 {
        let name: Vec<u8> = vec!['l' as u8, 'o' as u8, 'g' as u8, 'x' as u8, 'o' as u8, 'r' as u8];
        proof {
            assert(name@ =~= seq!['l' as u8, 'o' as u8, 'g' as u8, 'x' as u8, 'o' as u8, 'r' as u8]);
        }
        Some(name)
    } else if op == 27 {
        let name: Vec<u8> = vec!['l' as u8, 'o' as u8, 'g' as u8, 'n' as u8, 'o' as u8, 't' as u8];
        proof {
            assert(name@ =~= seq!['l' as u8, 'o' as u8, 'g' as u8, 'n' as u8, 'o' as u8, 't' as u8]);
        }
        Some(name)
    } else if op == 29 {
        let name: Vec<u8> = vec!['p' as u8, 'o' as u8, 'i' as u8, 'n' as u8, 't' as u8, '_' as u8, 'a' as u8, 'd' as u8, 'd' as u8];
        proof {
            assert(name@ =~= seq!['p' as u8, 'o' as u8, 'i' as u8, 'n' as u8, 't' as u8, '_' as u8, 'a' as u8, 'd' as u8, 'd' as u8]);
        }
        Some(name)
    } else if op == 30 {
        let name: Vec<u8> = vec!['p' as u8, 'u' as u8, 'b' as u8, 'k' as u8, 'e' as u8, 'y' as u8, '_' as u8, 'f' as u8, 'o' as u8, 'r' as u8, '_' as u8, 'e' as u8, 'x' as u8, 'p' as u8];
        proof {
            assert(name@ =~= seq!['p' as u8, 'u' as u8, 'b' as u8, 'k' as u8, 'e' as u8, 'y' as u8, '_' as u8, 'f' as u8, 'o' as u8, 'r' as u8, '_' as u8, 'e' as u8, 'x' as u8, 'p' as u8]);
        }
        Some(name)
    } else if op == 32 {
        let name: Vec<u8> = vec!['n' as u8, 'o' as u8, 't' as u8];
        proof {
            assert(name@ =~= seq!['n' as u8, 'o' as u8, 't' as u8]);
        }
        Some(name)
    } else if op == 33 {
        let name: Vec<u8> = vec!['a' as u8, 'n' as u8, 'y' as u8];
        proof {
            assert(name@ =~= seq!['a' as u8, 'n' as u8, 'y' as u8]);
        }
        Some(name)
    } else if op == 34 {
        let name: Vec<u8> = vec!['a' as u8, 'l' as u8, 'l' as u8];
        proof {
            assert(name@ =~= seq!['a' as u8, 'l' as u8, 'l' as u8]);
        }
        Some(name)
    } else if op == 36 {
        let name: Vec<u8> = vec!['s' as u8, 'o' as u8, 'f' as u8, 't' as u8, 'f' as u8, 'o' as u8, 'r' as u8, 'k' as u8];
        proof {
            assert(name@ =~= seq!['s' as u8, 'o' as u8, 'f' as u8, 't' as u8, 'f' as u8, 'o' as u8, 'r' as u8, 'k' as u8]);
        }
        Some(name)
    } else {
        None
    }
}

/// Look up the atom a keyword stands for.
pub fn keyword_to_atom(name: &[u8]) -> (r: Option<Vec<u8>>)
    ensures
        match r {
            Some(atom) => kw_atom(name@) == Some(atom@),
            None => kw_atom(name@) is None,
        },
{
    if name.len() == 1 && name[0] == 'q' as u8 {
        let atom: Vec<u8> = vec![1u8];
        proof {
            assert(atom@ =~= seq![1u8]);
        }
        Some(atom)
    } else if name.len() == 1 && name[0] == 'a' as u8 {
        let atom: Vec<u8> = vec![2u8];
        proof {
            assert(atom@ =~= seq![2u8]);
        }
        Some(atom)
    } else if name.len() == 1 && name[0] == 'i' as u8 {
        let atom: Vec<u8> = vec![3u8];
        proof {
            assert(atom@ =~= seq![3u8]);
        }
        Some(atom)
    } else if name.len() == 1 && name[0] == 'c' as u8 {
        let atom: Vec<u8> = vec![4u8];
        proof {
            assert(atom@ =~= seq![4u8]);
        }
        Some(atom)
    } else if name.len() == 1 && name[0] == 'f' as u8 {
        let atom: Vec<u8> = vec![5u8];
        proof {
            assert(atom@ =~= seq![5u8]);
        }
        Some(atom)
    } else if name.len() == 1 && name[0] == 'r' as u8 {
        let atom: Vec<u8> = vec![6u8];
        proof {
            assert(atom@ =~= seq![6u8]);
        }
        Some(atom)
    } else if name.len() == 1 && name[0] == 'l' as u8 {
        let atom: Vec<u8> = vec![7u8];
        proof {
            assert(atom@ =~= seq![7u8]);
        }
        Some(atom)
    } else if name.len() == 1 && name[0] == 'x' as u8 {
        let atom: Vec<u8> = vec![8u8];
        proof {
            assert(atom@ =~= seq![8u8]);
        }
        Some(atom)
    } else if name.len() == 1 && name[0] == '=' as u8 {
        let atom: Vec<u8> = vec![9u8];
        proof {
            assert(atom@ =~= seq![9u8]);
        }
        Some(atom)
    } else if name.len() == 2 && name[0] == '>' as u8 && name[1] == 's' as u8 {
        let atom: Vec<u8> = vec![10u8];
        proof {
            assert(atom@ =~= seq![10u8]);
        }
        Some(atom)
    } else if name.len() == 6 && name[0] == 's' as u8 && name[1] == 'h' as u8 && name[2] == 'a' as u8 && name[3] == '2' as u8 && name[4] == '5' as u8 && name[5] == '6' as u8 {
        let atom: Vec<u8> = vec![11u8];
        proof {
            assert(atom@ =~= seq![11u8]);
        }
        Some(atom)
    } else if name.len() == 6 && name[0] == 's' as u8 && name[1] == 'u' as u8 && name[2] == 'b' as u8 && name[3] == 's' as u8 && name[4] == 't' as u8 && name[5] == 'r' as u8 {
        let atom: Vec<u8> = vec![12u8];
        proof {
            assert(atom@ =~= seq![12u8]);
        }
        Some(atom)
    } else if name.len() == 6 && name[0] == 's' as u8 && name[1] == 't' as u8 && name[2] == 'r' as u8 && name[3] == 'l' as u8 && name[4] == 'e' as u8 && name[5] == 'n' as u8 {
        let atom: Vec<u8> = vec![13u8];
        proof {
            assert(atom@ =~= seq![13u8]);
        }
        Some(atom)
    } else if name.len() == 6 && name[0] == 'c' as u8 && name[1] == 'o' as u8 && name[2] == 'n' as u8 && name[3] == 'c' as u8 && name[4] == 'a' as u8 && name[5] == 't' as u8 {
        let atom: Vec<u8> = vec![14u8];
        proof {
            assert(atom@ =~= seq![14u8]);
        }
        Some(atom)
    } else if name.len() == 1 && name[0] == '+' as u8 {
        let atom: Vec<u8> = vec![16u8];
        proof {
            assert(atom@ =~= seq![16u8]);
        }
        Some(atom)
    } else if name.len() == 1 && name[0] == '-' as u8 {
        let atom: Vec<u8> = vec![17u8];
        proof {
            assert(atom@ =~= seq![17u8]);
        }
        Some(atom)
    } else if name.len() == 1 && name[0] == '*' as u8 {
        let atom: Vec<u8> = vec![18u8];
        proof {
            assert(atom@ =~= seq![18u8]);
        }
        Some(atom)
    } else if name.len() == 1 && name[0] == '/' as u8 {
        let atom: Vec<u8> = vec![19u8];
        proof {
            assert(atom@ =~= seq![19u8]);
        }
        Some(atom)
    } else if name.len() == 6 && name[0] == 'd' as u8 && name[1] == 'i' as u8 && name[2] == 'v' as u8 && name[3] == 'm' as u8 && name[4] == 'o' as u8 && name[5] == 'd' as u8 {
        let atom: Vec<u8> = vec![20u8];
        proof {
            assert(atom@ =~= seq![20u8]);
        }
        Some(atom)
    } else if name.len() == 1 && name[0] == '>' as u8 {
        let atom: Vec<u8> = vec![21u8];
        proof {
            assert(atom@ =~= seq![21u8]);
        }
        Some(atom)
    } else if name.len() == 3 && name[0] == 'a' as u8 && name[1] == 's' as u8 && name[2] == 'h' as u8 {
        let atom: Vec<u8> = vec![22u8];
        proof {
            assert(atom@ =~= seq![22u8]);
        }
        Some(atom)
    } else if name.len() == 3 && name[0] == 'l' as u8 && name[1] == 's' as u8 && name[2] == 'h' as u8 {
        let atom: Vec<u8> = vec![23u8];
        proof {
            assert(atom@ =~= seq![23u8]);
        }
        Some(atom)
    } else if name.len() == 6 && name[0] == 'l' as u8 && name[1] == 'o' as u8 && name[2] == 'g' as u8 && name[3] == 'a' as u8 && name[4] == 'n' as u8 && name[5] == 'd' as u8 {
        let atom: Vec<u8> = vec![24u8];
        proof {
            assert(atom@ =~= seq![24u8]);
        }
        Some(atom)
    } else if name.len() == 6 && name[0] == 'l' as u8 && name[1] == 'o' as u8 && name[2] == 'g' as u8 && name[3] == 'i' as u8 && name[4] == 'o' as u8 && name[5] == 'r' as u8 {
        let atom: Vec<u8> = vec![25u8];
        proof {
            assert(atom@ =~= seq![25u8]);
        }
        Some(atom)
    } else if name.len() == 6 && name[0] == 'l' as u8 && name[1] == 'o' as u8 && name[2] == 'g' as u8 && name[3] == 'x' as u8 && name[4] == 'o' as u8 && name[5] == 'r' as u8 {
        let atom: Vec<u8> = vec![26u8];
        proof {
            assert(atom@ =~= seq![26u8]);
        }
        Some(atom)
    } else if name.len() == 6 && name[0] == 'l' as u8 && name[1] == 'o' as u8 && name[2] == 'g' as u8 && name[3] == 'n' as u8 && name[4] == 'o' as u8 && name[5] == 't' as u8 {
        let atom: Vec<u8> = vec![27u8];
        proof {
            assert(atom@ =~= seq![27u8]);
        }
        Some(atom)
    } else if name.len() == 9 && name[0] == 'p' as u8 && name[1] == 'o' as u8 && name[2] == 'i' as u8 && name[3] == 'n' as u8 && name[4] == 't' as u8 && name[5] == '_' as u8 && name[6] == 'a' as u8 && name[7] == 'd' as u8 && name[8] == 'd' as u8 {
        let atom: Vec<u8> = vec![29u8];
        proof {
            assert(atom@ =~= seq![29u8]);
        }
        Some(atom)
    } else if name.len() == 14 && name[0] == 'p' as u8 && name[1] == 'u' as u8 && name[2] == 'b' as u8 && name[3] == 'k' as u8 && name[4] == 'e' as u8 && name[5] == 'y' as u8 && name[6] == '_' as u8 && name[7] == 'f' as u8 && name[8] == 'o' as u8 && name[9] == 'r' as u8 && name[10] == '_' as u8 && name[11] == 'e' as u8 && name[12] == 'x' as u8 && name[13] == 'p' as u8 {
        let atom: Vec<u8> = vec![30u8];
        proof {
            assert(atom@ =~= seq![30u8]);
        }
        Some(atom)
    } else if name.len() == 3 && name[0] == 'n' as u8 && name[1] == 'o' as u8 && name[2] == 't' as u8 {
        let atom: Vec<u8> = vec![32u8];
        proof {
            assert(atom@ =~= seq![32u8]);
        }
        Some(atom)
    } else if name.len() == 3 && name[0] == 'a' as u8 && name[1] == 'n' as u8 && name[2] == 'y' as u8 {
        let atom: Vec<u8> = vec![33u8];
        proof {
            assert(atom@ =~= seq![33u8]);
        }
        Some(atom)
    } else if name.len() == 3 && name[0] == 'a' as u8 && name[1] == 'l' as u8 && name[2] == 'l' as u8 {
        let atom: Vec<u8> = vec![34u8];
        proof {
            assert(atom@ =~= seq![34u8]);
        }
        Some(atom)
    } else if name.len() == 8 && name[0] == 's' as u8 && name[1] == 'o' as u8 && name[2] == 'f' as u8 && name[3] == 't' as u8 && name[4] == 'f' as u8 && name[5] == 'o' as u8 && name[6] == 'r' as u8 && name[7] == 'k' as u8 {
        let atom: Vec<u8> = vec![36u8];
        proof {
            assert(atom@ =~= seq![36u8]);
        }
        Some(atom)
    } else {
        None
    }
}

/// A keyword found for an atom assembles back to that very atom.
pub proof fn lemma_kw_roundtrip(b: Seq<u8>)
    ensures
        kw_from_atom(b) matches Some(name) ==> kw_atom(name) == Some(b),
{
    if b.len() == 1 {
        match kw_name(b[0]) {
            Some(name) => {
                assert(kw_atom(name) == Some(b)) by {
                    assert(seq![b[0]] =~= b);
                }
            },
            None => {},
        }
    }
}

} // verus!
