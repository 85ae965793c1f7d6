//! The conversion seams of the compile and disassemble tools: source text
//! to the hex of its canonical encoding, and hex back to source text. The
//! tools' argument handling and file reading live with the caller.

use vstd::prelude::*;

use crate::arena::{Arena, SExp};
use crate::binutils::{assemble, bytes_to_hex, disassemble};
use crate::ir::{ir_of_tree, ir_to_tree};
use crate::ir_reader::{hex_bytes, hex_digit_val, is_hex_digit, parse_expr_spec};
use crate::ir_writer::{hex_digits, ir_text};
use crate::serialize::{decode_spec, encodable, encoded, node_from_bytes, node_to_bytes};

verus! {

/// Compiles source text to serialized form.
pub struct OpcConversion {}

/// Disassembles serialized form to source text.
pub struct OpdConversion {}

impl OpcConversion {
    /// Assemble source text; yield the assembled tree and the hex spelling
    /// of its canonical encoding. Succeeds exactly when the text parses
    /// and every atom of the assembled tree is under the size ceiling.
    pub fn invoke(&self, allocator: &mut Arena, text: &String) -> (r: Result<
        (SExp, String),
        String,
    >)
        requires
            old(allocator).wf(),
        ensures
            final(allocator).wf(),
            final(allocator).extends(*old(allocator)),
            match r {
                Ok(p) => {
                    &&& parse_expr_spec(vstd::utf8::encode_utf8(text@), 0) matches Some(ie)
                        && final(allocator).tree(p.0) == ir_to_tree(ie.0)
                    &&& final(allocator).contains(p.0)
                    &&& encodable(final(allocator).tree(p.0))
                    &&& vstd::utf8::encode_utf8(p.1@) == hex_digits(
                        encoded(final(allocator).tree(p.0)),
                    )
                },
                Err(_) => {
                    ||| parse_expr_spec(vstd::utf8::encode_utf8(text@), 0) is None
                    ||| parse_expr_spec(vstd::utf8::encode_utf8(text@), 0) matches Some(ie)
                        && !encodable(ir_to_tree(ie.0))
                },
            },
    {
        match assemble(allocator, text) {
            Ok(sexp) => {
                match node_to_bytes(allocator, sexp) {
                    Ok(bytes) => {
                        let hex = bytes_to_hex(bytes.as_slice());
                        Ok((sexp, hex))
                    },
                    Err(_) => Err(String::from_str("atom too big to serialize")),
                }
            },
            Err(_) => Err(String::from_str("failed to parse input")),
        }
    }
}

fn hex_digit_value(c: u8) -> (r: Option<u8>)
    ensures
        r is Some <==> is_hex_digit(c),
        r matches Some(v) ==> v < 16 && v == hex_digit_val(c),
{
    if c >= '0' as u8 && c <= '9' as u8 {
        Some(c - '0' as u8)
    } else if c >= 'a' as u8 && c <= 'f' as u8 {
        Some(c - 'a' as u8 + 10)
    } else if c >= 'A' as u8 && c <= 'F' as u8 {
        Some(c - 'A' as u8 + 10)
    } else {
        None
    }
}

/// Every character of the text is a hex digit.
pub open spec fn all_hex_digits(tb: Seq<u8>) -> bool {
    forall|k: int| 0 <= k < tb.len() ==> is_hex_digit(#[trigger] tb[k])
}

impl OpdConversion {
    /// Decode a hex-spelled canonical encoding into a tree; yield the tree
    /// and its source text. Succeeds exactly when the text is an even
    /// count of hex digits whose bytes encode a tree.
    #[verifier::loop_isolation(false)]
    pub fn invoke(&self, allocator: &mut Arena, hex_text: &String) -> (r: Result<
        (SExp, String),
        String,
    >)
        requires
            old(allocator).wf(),
        ensures
            final(allocator).wf(),
            final(allocator).extends(*old(allocator)),
            match r {
                Ok(p) => {
                    &&& vstd::utf8::encode_utf8(hex_text@).len() % 2 == 0
                    &&& all_hex_digits(vstd::utf8::encode_utf8(hex_text@))
                    &&& decode_spec(hex_bytes(vstd::utf8::encode_utf8(hex_text@))) matches Some(
                        tn,
                    ) && final(allocator).tree(p.0) == tn.0
                    &&& final(allocator).contains(p.0)
                    &&& vstd::utf8::encode_utf8(p.1@) == ir_text(
                        ir_of_tree(final(allocator).tree(p.0), true, true),
                    )
                },
                Err(_) => {
                    ||| vstd::utf8::encode_utf8(hex_text@).len() % 2 != 0
                    ||| !all_hex_digits(vstd::utf8::encode_utf8(hex_text@))
                    ||| decode_spec(hex_bytes(vstd::utf8::encode_utf8(hex_text@))) is None
                },
            },
    {
        let chars = hex_text.as_str().as_bytes();
        let ghost tb = vstd::utf8::encode_utf8(hex_text@);
        let mut bytes: Vec<u8> = Vec::new();
        let mut i: usize = 0;
        if chars.len() % 2 != 0 {
            proof {
                crate::arena::lemma_extends_refl(*allocator);
            }
            return Err(String::from_str("odd number of hex digits"));
        }
        proof {
            assert(tb.subrange(0, 0) =~= Seq::<u8>::empty());
            assert(hex_bytes(Seq::<u8>::empty()) == Seq::<u8>::empty());
            assert(bytes@ =~= hex_bytes(tb.subrange(0, 0)));
        }
        while i < chars.len()
            invariant
                i <= chars@.len(),
                i % 2 == 0,
                chars@.len() % 2 == 0,
                bytes@ == hex_bytes(tb.subrange(0, i as int)),
                forall|k: int| 0 <= k < i ==> is_hex_digit(#[trigger] tb[k]),
            decreases chars@.len() - i,
        {
            let hi = match hex_digit_value(chars[i]) {
                Some(v) => v,
                None => {
                    proof {
                        crate::arena::lemma_extends_refl(*allocator);
                        assert(!is_hex_digit(tb[i as int]));
                    }
                    return Err(String::from_str("invalid hex digit"));
                },
            };
            let lo = match hex_digit_value(chars[i + 1]) {
                Some(v) => v,
                None => {
                    proof {
                        crate::arena::lemma_extends_refl(*allocator);
                        assert(!is_hex_digit(tb[i + 1]));
                    }
                    return Err(String::from_str("invalid hex digit"));
                },
            };
            bytes.push(hi * 16 + lo);
            i = i + 2;
            proof {
                let p0 = tb.subrange(0, i - 2);
                let p2 = tb.subrange(0, i as int);
                assert(p2.drop_last().drop_last() =~= p0);
                assert(p2[p2.len() - 2] == tb[i - 2]);
                assert(p2.last() == tb[i - 1]);
                assert(hex_digit_val(tb[i - 2]) == hi);
                assert(hex_digit_val(tb[i - 1]) == lo);
                assert(p2.len() >= 2);
                assert(hex_bytes(p2) == hex_bytes(p0).push((hi * 16 + lo) as u8));
                assert(bytes@ =~= hex_bytes(p2));
            }
        }
        proof {
            assert(tb.subrange(0, tb.len() as int) =~= tb);
            assert(bytes@ == hex_bytes(tb));
        }
        match node_from_bytes(allocator, bytes.as_slice()) {
            Ok(sexp) => {
                let text = disassemble(allocator, sexp);
                Ok((sexp, text))
            },
            Err(_) => Err(String::from_str("bad encoding")),
        }
    }
}

} // verus!
