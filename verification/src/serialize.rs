//! The canonical binary codec. One tree has exactly one encoding, chosen
//! left-to-right and depth-first: a pair is `0xff` followed by both children;
//! an atom is a single byte, or a variable-length size prefix followed by its
//! bytes. Encoding and decoding both walk an explicit operation stack, so
//! adversarially deep input cannot exhaust the call stack.

use vstd::prelude::*;

use crate::arena::{Arena, SExp, Tree};
use crate::casts::{be_value, lemma_be_value_bound, lemma_be_value_cons, pow256};

verus! {

/// Atoms of this many bytes or more have no encoding.
pub const ATOM_SIZE_LIMIT: u64 = 0x4_0000_0000;

/// What can go wrong while encoding or decoding.
#[derive(Clone, Copy, PartialEq, Eq, Structural, Debug)]
pub enum SerializeError {
    /// Truncated input, an oversized or malformed length prefix.
    BadEncoding,
    /// An internal invariant was violated; never returned on malformed input.
    InternalError,
    /// An atom of `ATOM_SIZE_LIMIT` or more bytes was given to the encoder.
    AtomTooBig,
}

/// The error every malformed input decodes to.
pub fn bad_encoding() -> (e: SerializeError)
    ensures
        e == SerializeError::BadEncoding,
{
    SerializeError::BadEncoding
}

/// The error for broken internal invariants.
pub fn internal_error() -> (e: SerializeError)
    ensures
        e == SerializeError::InternalError,
{
    SerializeError::InternalError
}

/// The size prefix of an atom of `n` bytes, for `n < ATOM_SIZE_LIMIT`:
/// the length is packed into the low bits of one to five leading bytes,
/// whose count is given by the number of leading one bits of the first byte.
pub open spec fn size_prefix(n: nat) -> Seq<u8> {
    if n < 0x40 {
        seq![(0x80 + n) as u8]
    } else if n < 0x2000 {
        seq![(0xc0 + n / 0x100) as u8, (n % 0x100) as u8]
    } else if n < 0x10_0000 {
        seq![
            (0xe0 + n / 0x1_0000) as u8,
            ((n / 0x100) % 0x100) as u8,
            (n % 0x100) as u8,
        ]
    } else if n < 0x800_0000 {
        seq![
            (0xf0 + n / 0x100_0000) as u8,
            ((n / 0x1_0000) % 0x100) as u8,
            ((n / 0x100) % 0x100) as u8,
            (n % 0x100) as u8,
        ]
    } else {
        seq![
            (0xf8 + n / 0x1_0000_0000) as u8,
            ((n / 0x100_0000) % 0x100) as u8,
            ((n / 0x1_0000) % 0x100) as u8,
            ((n / 0x100) % 0x100) as u8,
            (n % 0x100) as u8,
        ]
    }
}

/// The canonical encoding of a single atom.
pub open spec fn atom_encoding(b: Seq<u8>) -> Seq<u8> {
    if b.len() == 0 {
        seq![0x80u8]
    } else if b.len() == 1 && b[0] <= 0x7f {
        b
    } else {
        size_prefix(b.len()) + b
    }
}

/// A tree is encodable when every atom in it is under the size ceiling.
pub open spec fn encodable(t: Tree) -> bool
    decreases t,
{
    match t {
        Tree::Atom(b) => b.len() < ATOM_SIZE_LIMIT,
        Tree::Pair(l, r) => encodable(*l) && encodable(*r),
    }
}

/// The canonical encoding of a tree.
pub open spec fn encoded(t: Tree) -> Seq<u8>
    decreases t,
{
    match t {
        Tree::Atom(b) => atom_encoding(b),
        Tree::Pair(l, r) => seq![0xffu8] + encoded(*l) + encoded(*r),
    }
}

/// Emit the size prefix for an atom of `size` bytes; sizes at or above the
/// ceiling are rejected.
pub fn encode_size(size: u64) -> (r: Result<Vec<u8>, SerializeError>)
    ensures
        match r {
            Ok(v) => size < ATOM_SIZE_LIMIT && v@ == size_prefix(size as nat),
            Err(e) => size >= ATOM_SIZE_LIMIT && e == SerializeError::AtomTooBig,
        },
{
    let mut v: Vec<u8> = Vec::new();
    if size < 0x40 {
        v.push((0x80 + size) as u8);
    } else if size < 0x2000 {
        v.push((0xc0 + size / 0x100) as u8);
        v.push((size % 0x100) as u8);
    } else if size < 0x10_0000 {
        v.push((0xe0 + size / 0x1_0000) as u8);
        v.push(((size / 0x100) % 0x100) as u8);
        v.push((size % 0x100) as u8);
    } else if size < 0x800_0000 {
        v.push((0xf0 + size / 0x100_0000) as u8);
        v.push(((size / 0x1_0000) % 0x100) as u8);
        v.push(((size / 0x100) % 0x100) as u8);
        v.push((size % 0x100) as u8);
    } else if size < 0x4_0000_0000 {
        v.push((0xf8 + size / 0x1_0000_0000) as u8);
        v.push(((size / 0x100_0000) % 0x100) as u8);
        v.push(((size / 0x1_0000) % 0x100) as u8);
        v.push(((size / 0x100) % 0x100) as u8);
        v.push((size % 0x100) as u8);
    } else {
        return Err(SerializeError::AtomTooBig);
    }
    proof {
        assert(v@ =~= size_prefix(size as nat));
    }
    Ok(v)
}

spec fn stack_all_contained(a: Arena, hs: Seq<SExp>) -> bool {
    forall|i: int| 0 <= i < hs.len() ==> a.contains(#[trigger] hs[i])
}

spec fn stack_all_encodable(a: Arena, hs: Seq<SExp>) -> bool {
    forall|i: int| 0 <= i < hs.len() ==> encodable(a.tree(#[trigger] hs[i]))
}

/// The bytes still to be emitted: the top of the stack is serialized first.
spec fn stack_encodings(a: Arena, hs: Seq<SExp>) -> Seq<u8>
    decreases hs.len(),
{
    if hs.len() == 0 {
        Seq::empty()
    } else {
        encoded(a.tree(hs.last())) + stack_encodings(a, hs.drop_last())
    }
}

/// Total node count of the trees still on the stack; the loop measure.
spec fn stack_sizes(a: Arena, hs: Seq<SExp>) -> nat
    decreases hs.len(),
{
    if hs.len() == 0 {
        0
    } else {
        a.tree(hs.last()).size() + stack_sizes(a, hs.drop_last())
    }
}

proof fn lemma_stack_pop(a: Arena, hs: Seq<SExp>)
    requires
        hs.len() > 0,
    ensures
        stack_all_contained(a, hs) <==> (a.contains(hs.last()) && stack_all_contained(
            a,
            hs.drop_last(),
        )),
        stack_all_encodable(a, hs) <==> (encodable(a.tree(hs.last())) && stack_all_encodable(
            a,
            hs.drop_last(),
        )),
{
    let rest = hs.drop_last();
    if a.contains(hs.last()) && stack_all_contained(a, rest) {
        assert forall|i: int| 0 <= i < hs.len() implies a.contains(#[trigger] hs[i]) by {
            if i < hs.len() - 1 {
                assert(hs[i] == rest[i]);
            }
        }
    }
    if encodable(a.tree(hs.last())) && stack_all_encodable(a, rest) {
        assert forall|i: int| 0 <= i < hs.len() implies encodable(a.tree(#[trigger] hs[i])) by {
            if i < hs.len() - 1 {
                assert(hs[i] == rest[i]);
            }
        }
    }
    assert(stack_all_contained(a, hs) ==> a.contains(hs.last()));
    assert(stack_all_encodable(a, hs) ==> encodable(a.tree(hs.last())));
    assert forall|i: int| 0 <= i < rest.len() implies rest[i] == hs[i] by {}
}

proof fn lemma_stack_push(a: Arena, hs: Seq<SExp>, x: SExp)
    ensures
        stack_all_contained(a, hs.push(x)) <==> (a.contains(x) && stack_all_contained(a, hs)),
        stack_all_encodable(a, hs.push(x)) <==> (encodable(a.tree(x)) && stack_all_encodable(
            a,
            hs,
        )),
{
    let post = hs.push(x);
    assert(post.last() == x);
    assert(post.drop_last() =~= hs);
    lemma_stack_pop(a, post);
}

/// Append the canonical encoding of `node` to the stream `f`. Fails, leaving
/// a partial stream behind, exactly when some atom of the tree is over the
/// size ceiling.
pub fn node_to_stream(a: &Arena, node: SExp, f: &mut Vec<u8>) -> (r: Result<
    (),
    SerializeError,
>)
    requires
        a.wf(),
        a.contains(node),
    ensures
        match r {
            Ok(_) => encodable(a.tree(node)) && final(f)@ == old(f)@ + encoded(a.tree(node)),
            Err(e) => !encodable(a.tree(node)) && e == SerializeError::AtomTooBig,
        },
{
    let ghost f0 = f@;
    let ghost goal = encoded(a.tree(node));
    let mut values: Vec<SExp> = Vec::new();
    values.push(node);
    proof {
        assert(values@.last() == node);
        assert(values@.drop_last() =~= Seq::<SExp>::empty());
        lemma_stack_pop(*a, values@);
        assert(stack_encodings(*a, values@.drop_last()) =~= Seq::<u8>::empty());
        assert(stack_encodings(*a, values@) == encoded(a.tree(node)) + stack_encodings(
            *a,
            values@.drop_last(),
        ));
        assert(f@ + stack_encodings(*a, values@) =~= f0 + goal);
    }
    while values.len() > 0
        invariant
            a.wf(),
            a.contains(node),
            goal == encoded(a.tree(node)),
            stack_all_contained(*a, values@),
            encodable(a.tree(node)) <==> stack_all_encodable(*a, values@),
            encodable(a.tree(node)) ==> f@ + stack_encodings(*a, values@) == f0 + goal,
        decreases stack_sizes(*a, values@),
    {
        let ghost pre = values@;
        let h = match values.pop() {
            Some(h) => h,
            None => {
                return Err(SerializeError::InternalError);
            },
        };
        proof {
            assert(h == pre.last());
            assert(values@ == pre.drop_last());
            lemma_stack_pop(*a, pre);
            assert(stack_encodings(*a, pre) == encoded(a.tree(h)) + stack_encodings(*a, values@));
            assert(stack_responses(*a, pre) == responses_of(a.tree(h)) + stack_responses(
                *a,
                values@,
            ));
            assert(stack_sizes(*a, pre) == a.tree(h).size() + stack_sizes(*a, values@));
        }
        let ghost rest_enc = stack_encodings(*a, values@);
        let ghost rest_resp = stack_responses(*a, values@);
        let ghost fpre = f@;
        if a.is_pair(h) {
            let (l, r) = a.pair(h);
            f.push(0xff);
            values.push(r);
            let ghost mid = values@;
            values.push(l);
            proof {
                let ht = a.tree(h);
                lemma_stack_push(*a, pre.drop_last(), r);
                lemma_stack_push(*a, mid, l);
                assert(encodable(ht) == (encodable(a.tree(l)) && encodable(a.tree(r))));
                assert(stack_sizes(*a, values@) == a.tree(l).size() + stack_sizes(*a, mid)) by {
                    assert(values@.last() == l);
                    assert(values@.drop_last() =~= mid);
                }
                assert(stack_sizes(*a, mid) == a.tree(r).size() + stack_sizes(*a, pre.drop_last()))
                    by {
                    assert(mid.last() == r);
                    assert(mid.drop_last() =~= pre.drop_last());
                }
                assert(ht.size() == 1 + a.tree(l).size() + a.tree(r).size());
                assert(stack_sizes(*a, values@) < stack_sizes(*a, pre));
                if encodable(a.tree(node)) {
                    assert(stack_encodings(*a, values@) == encoded(a.tree(l)) + stack_encodings(
                        *a,
                        mid,
                    )) by {
                        assert(values@.last() == l);
                        assert(values@.drop_last() =~= mid);
                    }
                    assert(stack_encodings(*a, mid) == encoded(a.tree(r)) + rest_enc) by {
                        assert(mid.last() == r);
                        assert(mid.drop_last() =~= pre.drop_last());
                    }
                    assert(encoded(ht) == seq![0xffu8] + encoded(a.tree(l)) + encoded(a.tree(r)));
                    assert(f@ =~= fpre + seq![0xffu8]);
                    assert(f@ + stack_encodings(*a, values@) =~= fpre + stack_encodings(*a, pre));
                }
            }
        } else {
            let ghost b = a.tree(h)->Atom_0;
            let atom = a.atom(h);
            if atom.len() == 0 {
                f.push(0x80);
                proof {
                    assert(atom_encoding(b) =~= seq![0x80u8]);
                    assert(f@ =~= fpre + atom_encoding(b));
                }
            } else if atom.len() == 1 && atom[0] <= 0x7f {
                let byte = atom[0];
                f.push(byte);
                proof {
                    assert(b =~= seq![byte]);
                    assert(atom_encoding(b) == b);
                    assert(f@ =~= fpre + atom_encoding(b));
                }
            } else {
                match encode_size(atom.len() as u64) {
                    Ok(prefix) => {
                        f.extend_from_slice(prefix.as_slice());
                        f.extend_from_slice(atom.as_slice());
                        proof {
                            assert(atom_encoding(b) == size_prefix(b.len()) + b);
                            assert(f@ =~= fpre + atom_encoding(b));
                        }
                    },
                    Err(_) => {
                        proof {
                            assert(!encodable(a.tree(h)));
                        }
                        return Err(SerializeError::AtomTooBig);
                    },
                }
            }
            proof {
                assert(encodable(a.tree(h)));
                assert(f@ =~= fpre + atom_encoding(b));
                if encodable(a.tree(node)) {
                    assert(f@ + rest_enc =~= fpre + (atom_encoding(b) + rest_enc));
                    assert(stack_encodings(*a, pre) == atom_encoding(b) + rest_enc);
                    assert(f@ + rest_enc =~= f0 + goal);
                }
            }
        }
    }
    proof {
        assert(values@.len() == 0);
        assert(encodable(a.tree(node)));
        assert(f@ + stack_encodings(*a, values@) =~= f@);
    }
    Ok(())
}

/// Number of leading one bits of a size-prefix first byte, which is the
/// total prefix length in bytes. Meaningful for bytes with the top bit set.
pub open spec fn prefix_len_of(b0: u8) -> int {
    if b0 < 0xc0 {
        1
    } else if b0 < 0xe0 {
        2
    } else if b0 < 0xf0 {
        3
    } else if b0 < 0xf8 {
        4
    } else if b0 < 0xfc {
        5
    } else if b0 < 0xfe {
        6
    } else {
        7
    }
}

/// The length bits carried by a size-prefix first byte.
pub open spec fn prefix_bits_of(b0: u8) -> nat {
    if b0 < 0xc0 {
        (b0 - 0x80) as nat
    } else if b0 < 0xe0 {
        (b0 - 0xc0) as nat
    } else if b0 < 0xf0 {
        (b0 - 0xe0) as nat
    } else if b0 < 0xf8 {
        (b0 - 0xf0) as nat
    } else if b0 < 0xfc {
        (b0 - 0xf8) as nat
    } else if b0 < 0xfe {
        (b0 - 0xfc) as nat
    } else {
        0
    }
}

/// Reading a size prefix at the head of `b` (whose first byte has its top
/// bit set): the announced atom length and the prefix length in bytes, or
/// nothing for a malformed, truncated or oversized prefix.
pub open spec fn decode_size_spec(b: Seq<u8>) -> Option<(int, int)> {
    let k = prefix_len_of(b[0]);
    if k > 6 {
        None
    } else if b.len() < k {
        None
    } else {
        let v = prefix_bits_of(b[0]) * pow256((k - 1) as nat) + be_value(b.subrange(1, k));
        if v >= ATOM_SIZE_LIMIT {
            None
        } else {
            Some((v as int, k))
        }
    }
}

/// The one meaning of a byte string under the wire format: the tree encoded
/// at its head together with the number of bytes that encoding occupies, or
/// nothing when no tree is encoded there.
pub open spec fn decode_spec(b: Seq<u8>) -> Option<(Tree, int)>
    decreases b.len(),
{
    if b.len() == 0 {
        None
    } else if b[0] == 0xff {
        let rest = b.skip(1);
        match decode_spec(rest) {
            Some(ln) => {
                if 0 <= ln.1 <= rest.len() {
                    let rest2 = rest.skip(ln.1);
                    match decode_spec(rest2) {
                        Some(rn) => Some(
                            (Tree::Pair(Box::new(ln.0), Box::new(rn.0)), 1 + ln.1 + rn.1),
                        ),
                        None => None,
                    }
                } else {
                    None
                }
            },
            None => None,
        }
    } else if b[0] <= 0x7f {
        Some((Tree::Atom(seq![b[0]]), 1))
    } else if b[0] == 0x80 {
        Some((Tree::Atom(Seq::empty()), 1))
    } else {
        match decode_size_spec(b) {
            Some(sk) => {
                if sk.1 + sk.0 <= b.len() {
                    Some((Tree::Atom(b.subrange(sk.1, sk.1 + sk.0)), sk.1 + sk.0))
                } else {
                    None
                }
            },
            None => None,
        }
    }
}

/// A successful decode consumes at least one byte and at most the input.
pub proof fn lemma_decode_consumed_bounds(b: Seq<u8>)
    ensures
        decode_spec(b) matches Some(tn) ==> 1 <= tn.1 <= b.len(),
    decreases b.len(),
{
    if b.len() > 0 && b[0] == 0xff {
        let rest = b.skip(1);
        lemma_decode_consumed_bounds(rest);
        match decode_spec(rest) {
            Some(ln) => {
                if 0 <= ln.1 <= rest.len() {
                    lemma_decode_consumed_bounds(rest.skip(ln.1));
                }
            },
            None => {},
        }
    }
}

spec fn pow256_6_facts() -> bool {
    &&& pow256(0) == 1
    &&& pow256(1) == 0x100
    &&& pow256(2) == 0x1_0000
    &&& pow256(3) == 0x100_0000
    &&& pow256(4) == 0x1_0000_0000
    &&& pow256(5) == 0x100_0000_0000
}

proof fn lemma_pow256_6()
    ensures
        pow256_6_facts(),
{
    assert(pow256(0) == 1);
    assert(pow256(1) == 0x100);
    assert(pow256(2) == 0x1_0000);
    assert(pow256(3) == 0x100_0000);
    assert(pow256(4) == 0x1_0000_0000);
    assert(pow256(5) == 0x100_0000_0000);
}

/// Read the size prefix that starts at `b[start]`. Mirrors
/// [`decode_size_spec`] on the tail of `b` from `start`.
pub fn decode_size(b: &[u8], start: usize) -> (r: Result<(u64, usize), SerializeError>)
    requires
        start < b@.len(),
        b@[start as int] >= 0x80,
    ensures
        match r {
            Ok(vk) => {
                &&& decode_size_spec(b@.skip(start as int)) == Some(
                    (vk.0 as int, vk.1 as int),
                )
                &&& start + vk.1 <= b@.len()
                &&& vk.0 < ATOM_SIZE_LIMIT
                &&& 1 <= vk.1 <= 6
            },
            Err(e) => decode_size_spec(b@.skip(start as int)) is None && e
                == SerializeError::BadEncoding,
        },
{
    let ghost s = b@.skip(start as int);
    proof {
        assert(s[0] == b@[start as int]);
    }
    let b0 = b[start];
    let k: usize = if b0 < 0xc0 {
        1
    } else if b0 < 0xe0 {
        2
    } else if b0 < 0xf0 {
        3
    } else if b0 < 0xf8 {
        4
    } else if b0 < 0xfc {
        5
    } else if b0 < 0xfe {
        6
    } else {
        7
    };
    if k > 6 {
        return Err(SerializeError::BadEncoding);
    }
    if b.len() - start < k {
        proof {
            assert(s.len() < k);
        }
        return Err(SerializeError::BadEncoding);
    }
    let bits: u64 = if b0 < 0xc0 {
        (b0 - 0x80) as u64
    } else if b0 < 0xe0 {
        (b0 - 0xc0) as u64
    } else if b0 < 0xf0 {
        (b0 - 0xe0) as u64
    } else if b0 < 0xf8 {
        (b0 - 0xf0) as u64
    } else if b0 < 0xfc {
        (b0 - 0xf8) as u64
    } else {
        (b0 - 0xfc) as u64
    };
    let mut v: u64 = bits;
    let mut j: usize = 1;
    proof {
        lemma_pow256_6();
        assert(s.subrange(1, 1) =~= Seq::<u8>::empty());
        assert(be_value(s.subrange(1, 1)) == 0);
    }
    while j < k
        invariant
            pow256_6_facts(),
            1 <= j <= k <= 6,
            start + k <= b@.len(),
            b@.len() <= usize::MAX,
            s == b@.skip(start as int),
            s.len() >= k,
            prefix_bits_of(s[0]) == bits,
            bits < 0x40,
            v == prefix_bits_of(s[0]) * pow256((j - 1) as nat) + be_value(s.subrange(1, j as int)),
            v < 0x40 * pow256((j - 1) as nat) + pow256((j - 1) as nat),
        decreases k - j,
    {
        let byte = b[start + j];
        proof {
            assert(s[j as int] == b@[start + j]);
            let prefix = s.subrange(1, j as int);
            let prefix2 = s.subrange(1, j + 1);
            assert(prefix2.drop_last() =~= prefix);
            assert(prefix2.last() == s[j as int]);
            assert(be_value(prefix2) == be_value(prefix) * 256 + s[j as int]);
            let p = pow256((j - 1) as nat);
            assert(pow256(j as nat) == 256 * p);
            assert((prefix_bits_of(s[0]) * p + be_value(prefix)) * 256 + s[j as int]
                == prefix_bits_of(s[0]) * (256 * p) + (be_value(prefix) * 256 + s[
                j as int
            ])) by (nonlinear_arith);
            assert(pow256((j - 1) as nat) <= pow256(4)) by {
                if j == 1 {
                    assert((j - 1) as nat == 0);
                } else if j == 2 {
                    assert((j - 1) as nat == 1);
                } else if j == 3 {
                    assert((j - 1) as nat == 2);
                } else if j == 4 {
                    assert((j - 1) as nat == 3);
                } else {
                    assert((j - 1) as nat == 4);
                }
            }
            assert(v < 0x41 * pow256((j - 1) as nat));
            assert(v * 256 + byte < 0x41 * pow256(j as nat)) by (nonlinear_arith)
                requires
                    v < 0x41 * pow256((j - 1) as nat),
                    byte < 256,
                    pow256(j as nat) == 256 * pow256((j - 1) as nat),
            ;
            assert(pow256(j as nat) <= 0x100_0000_0000) by (nonlinear_arith)
                requires
                    pow256((j - 1) as nat) <= pow256(4),
                    pow256(j as nat) == 256 * pow256((j - 1) as nat),
                    pow256(4) == 0x1_0000_0000,
            ;
            assert(v * 256 + byte < 0x41 * 0x100_0000_0000) by (nonlinear_arith)
                requires
                    v * 256 + byte < 0x41 * pow256(j as nat),
                    pow256(j as nat) <= 0x100_0000_0000,
            ;
        }
        v = v * 256 + (byte as u64);
        j = j + 1;
    }
    proof {
        assert(j == k);
        assert(s.subrange(1, k as int) == s.subrange(1, j as int));
    }
    if v >= ATOM_SIZE_LIMIT {
        return Err(SerializeError::BadEncoding);
    }
    Ok((v, k))
}

/// Pending work while decoding: parse one value, or combine the two most
/// recently produced values into a pair.
#[derive(Clone, Copy, PartialEq, Eq, Structural, Debug)]
enum ParseOp {
    SExp,
    Cons,
}

/// How an operation changes the number of produced values.
spec fn op_weight(op: ParseOp) -> int {
    match op {
        ParseOp::SExp => 1,
        ParseOp::Cons => -1,
    }
}

spec fn bal(ops: Seq<ParseOp>) -> int
    decreases ops.len(),
{
    if ops.len() == 0 {
        0
    } else {
        bal(ops.drop_last()) + op_weight(ops.last())
    }
}

/// Every combine step will find its two operands on the value stack.
spec fn cons_ok(ops: Seq<ParseOp>, nvals: int) -> bool {
    forall|p: int|
        0 <= p < ops.len() && #[trigger] ops[p] == ParseOp::Cons ==> nvals + bal(ops.skip(p + 1))
            >= 2
}

/// What the decoder's state will produce: operations run from the top of
/// `ops`, each parse consuming input at `pos`, until one value remains.
spec fn finish(ops: Seq<ParseOp>, vals: Seq<Tree>, b: Seq<u8>, pos: int) -> Option<(Tree, int)>
    decreases ops.len(),
{
    if ops.len() == 0 {
        if vals.len() == 1 {
            Some((vals[0], pos))
        } else {
            None
        }
    } else {
        match ops.last() {
            ParseOp::SExp => {
                if 0 <= pos <= b.len() {
                    match decode_spec(b.skip(pos)) {
                        Some(tn) => finish(ops.drop_last(), vals.push(tn.0), b, pos + tn.1),
                        None => None,
                    }
                } else {
                    None
                }
            },
            ParseOp::Cons => {
                if vals.len() >= 2 {
                    let pair = Tree::Pair(
                        Box::new(vals[vals.len() - 2]),
                        Box::new(vals.last()),
                    );
                    finish(ops.drop_last(), vals.drop_last().drop_last().push(pair), b, pos)
                } else {
                    None
                }
            },
        }
    }
}

spec fn trees_of(a: Arena, hs: Seq<SExp>) -> Seq<Tree> {
    Seq::new(hs.len(), |i: int| a.tree(hs[i]))
}

proof fn lemma_bal_push(s: Seq<ParseOp>, x: ParseOp)
    ensures
        bal(s.push(x)) == bal(s) + op_weight(x),
{
    assert(s.push(x).drop_last() =~= s);
    assert(s.push(x).last() == x);
}

proof fn lemma_bal_skip_push(s: Seq<ParseOp>, x: ParseOp, i: int)
    requires
        0 <= i <= s.len(),
    ensures
        bal(s.push(x).skip(i)) == bal(s.skip(i)) + op_weight(x),
{
    assert(s.push(x).skip(i) =~= s.skip(i).push(x));
    lemma_bal_push(s.skip(i), x);
}

proof fn lemma_trees_of_push(a: Arena, hs: Seq<SExp>, h: SExp)
    ensures
        trees_of(a, hs.push(h)) =~= trees_of(a, hs).push(a.tree(h)),
{
}

proof fn lemma_trees_of_extends(a1: Arena, a2: Arena, hs: Seq<SExp>)
    requires
        a2.extends(a1),
        stack_all_contained(a1, hs),
    ensures
        trees_of(a2, hs) =~= trees_of(a1, hs),
        stack_all_contained(a2, hs),
{
    assert forall|i: int| 0 <= i < hs.len() implies a2.contains(#[trigger] hs[i]) && a2.tree(
        hs[i],
    ) == a1.tree(hs[i]) by {
        assert(a1.contains(hs[i]));
    }
}

/// Parsing one value at `pos` and continuing is the same as running the
/// machine with that parse on top of the operation stack.
proof fn lemma_finish_sexp_step(
    ops: Seq<ParseOp>,
    vals: Seq<Tree>,
    b: Seq<u8>,
    pos: int,
    t: Tree,
    n: int,
)
    requires
        ops.len() > 0,
        ops.last() == ParseOp::SExp,
        0 <= pos <= b.len(),
        decode_spec(b.skip(pos)) == Some((t, n)),
    ensures
        finish(ops, vals, b, pos) == finish(ops.drop_last(), vals.push(t), b, pos + n),
{
}

proof fn lemma_finish_sexp_fail(ops: Seq<ParseOp>, vals: Seq<Tree>, b: Seq<u8>, pos: int)
    requires
        ops.len() > 0,
        ops.last() == ParseOp::SExp,
        0 <= pos <= b.len(),
        decode_spec(b.skip(pos)) is None,
    ensures
        finish(ops, vals, b, pos) is None,
{
}

proof fn lemma_finish_cons_step(ops: Seq<ParseOp>, vals: Seq<Tree>, b: Seq<u8>, pos: int)
    requires
        ops.len() > 0,
        ops.last() == ParseOp::Cons,
        vals.len() >= 2,
    ensures
        finish(ops, vals, b, pos) == finish(
            ops.drop_last(),
            vals.drop_last().drop_last().push(
                Tree::Pair(Box::new(vals[vals.len() - 2]), Box::new(vals.last())),
            ),
            b,
            pos,
        ),
{
}

/// Reading a pair marker replaces one pending parse by two parses and a
/// combine, without changing what the machine will produce.
proof fn lemma_finish_pair_expand(ops: Seq<ParseOp>, vals: Seq<Tree>, b: Seq<u8>, pos: int)
    requires
        ops.len() > 0,
        ops.last() == ParseOp::SExp,
        0 <= pos < b.len(),
        b[pos] == 0xff,
    ensures
        finish(
            ops.drop_last().push(ParseOp::Cons).push(ParseOp::SExp).push(ParseOp::SExp),
            vals,
            b,
            pos + 1,
        ) == finish(ops, vals, b, pos),
{
    let dl = ops.drop_last();
    let ops1 = dl.push(ParseOp::Cons);
    let ops2 = ops1.push(ParseOp::SExp);
    let ops3 = ops2.push(ParseOp::SExp);
    let rest = b.skip(pos);
    let rest1 = b.skip(pos + 1);
    assert(rest.len() > 0 && rest[0] == 0xff);
    assert(rest.skip(1) =~= rest1);
    assert(ops3.last() == ParseOp::SExp && ops3.drop_last() =~= ops2);
    assert(ops2.last() == ParseOp::SExp && ops2.drop_last() =~= ops1);
    assert(ops1.last() == ParseOp::Cons && ops1.drop_last() =~= dl);
    match decode_spec(rest1) {
        None => {
            assert(finish(ops3, vals, b, pos + 1) is None);
            assert(decode_spec(rest) is None);
            assert(finish(ops, vals, b, pos) is None);
        },
        Some(ln) => {
            let l = ln.0;
            let n1 = ln.1;
            lemma_decode_consumed_bounds(rest1);
            assert(finish(ops3, vals, b, pos + 1) == finish(ops2, vals.push(l), b, pos + 1 + n1));
            let rest2 = b.skip(pos + 1 + n1);
            assert(rest1.skip(n1) =~= rest2);
            match decode_spec(rest2) {
                None => {
                    assert(finish(ops2, vals.push(l), b, pos + 1 + n1) is None);
                    assert(decode_spec(rest) is None);
                    assert(finish(ops, vals, b, pos) is None);
                },
                Some(rn) => {
                    let r = rn.0;
                    let n2 = rn.1;
                    lemma_decode_consumed_bounds(rest2);
                    assert(finish(ops2, vals.push(l), b, pos + 1 + n1) == finish(
                        ops1,
                        vals.push(l).push(r),
                        b,
                        pos + 1 + n1 + n2,
                    ));
                    let vv = vals.push(l).push(r);
                    assert(vv.len() >= 2);
                    assert(vv[vv.len() - 2] == l && vv.last() == r);
                    assert(vv.drop_last().drop_last() =~= vals);
                    let pair = Tree::Pair(Box::new(l), Box::new(r));
                    assert(finish(ops1, vv, b, pos + 1 + n1 + n2) == finish(
                        dl,
                        vals.push(pair),
                        b,
                        pos + 1 + n1 + n2,
                    ));
                    assert(decode_spec(rest) == Some((pair, 1 + n1 + n2)));
                    assert(finish(ops, vals, b, pos) == finish(
                        dl,
                        vals.push(pair),
                        b,
                        pos + 1 + n1 + n2,
                    ));
                },
            }
        },
    }
}

/// Bookkeeping shared by every step that parses one atom: the arena grew by
/// the parsed atom, the value stack by its handle, and one pending parse was
/// retired.
proof fn lemma_atom_step_bookkeeping(
    a_pre: Arena,
    a_post: Arena,
    ops_pre: Seq<ParseOp>,
    vals_pre: Seq<SExp>,
    vals_post: Seq<SExp>,
    h: SExp,
    b: Seq<u8>,
    p_pre: int,
    t: Tree,
    n: int,
)
    requires
        a_post.extends(a_pre),
        stack_all_contained(a_pre, vals_pre),
        a_post.contains(h),
        a_post.tree(h) == t,
        vals_post =~= vals_pre.push(h),
        ops_pre.len() > 0,
        ops_pre.last() == ParseOp::SExp,
        0 <= p_pre <= b.len(),
        decode_spec(b.skip(p_pre)) == Some((t, n)),
        cons_ok(ops_pre, vals_pre.len() as int),
    ensures
        stack_all_contained(a_post, vals_post),
        trees_of(a_post, vals_post) =~= trees_of(a_pre, vals_pre).push(t),
        finish(ops_pre.drop_last(), trees_of(a_post, vals_post), b, p_pre + n) == finish(
            ops_pre,
            trees_of(a_pre, vals_pre),
            b,
            p_pre,
        ),
        vals_post.len() + bal(ops_pre.drop_last()) == vals_pre.len() + bal(ops_pre),
        cons_ok(ops_pre.drop_last(), vals_post.len() as int),
{
    lemma_trees_of_extends(a_pre, a_post, vals_pre);
    assert forall|i: int| 0 <= i < vals_post.len() implies a_post.contains(
        #[trigger] vals_post[i],
    ) by {
        if i < vals_post.len() - 1 {
            assert(vals_post[i] == vals_pre[i]);
            assert(a_pre.contains(vals_pre[i]));
        }
    }
    assert(trees_of(a_post, vals_post) =~= trees_of(a_pre, vals_pre).push(t)) by {
        assert forall|i: int| 0 <= i < vals_post.len() implies trees_of(a_post, vals_post)[i]
            == trees_of(a_pre, vals_pre).push(t)[i] by {
            if i < vals_post.len() - 1 {
                assert(vals_post[i] == vals_pre[i]);
                assert(a_pre.contains(vals_pre[i]));
                assert(a_post.tree(vals_post[i]) == a_pre.tree(vals_pre[i]));
            } else {
                assert(vals_post[i] == h);
            }
        }
    }
    lemma_finish_sexp_step(ops_pre, trees_of(a_pre, vals_pre), b, p_pre, t, n);
    assert(trees_of(a_post, vals_post) == trees_of(a_pre, vals_pre).push(t));
    let dl = ops_pre.drop_last();
    assert(ops_pre =~= dl.push(ParseOp::SExp));
    lemma_bal_push(dl, ParseOp::SExp);
    assert forall|p: int|
        0 <= p < dl.len() && #[trigger] dl[p] == ParseOp::Cons implies vals_post.len() + bal(
        dl.skip(p + 1),
    ) >= 2 by {
        assert(dl[p] == ops_pre[p]);
        lemma_bal_skip_push(dl, ParseOp::SExp, p + 1);
        assert(vals_pre.len() + bal(ops_pre.skip(p + 1)) >= 2);
    }
}

/// Decode the value that starts at `*pos`, advancing `*pos` past it.
/// Succeeds exactly when the wire format gives the bytes at `*pos` a
/// meaning; bytes after the one encoded value are left unread.
#[verifier::loop_isolation(false)]
pub fn node_from_stream(a: &mut Arena, b: &[u8], pos: &mut usize) -> (r: Result<
    SExp,
    SerializeError,
>)
    requires
        old(a).wf(),
        *old(pos) <= b@.len(),
    ensures
        final(a).wf(),
        final(a).extends(*old(a)),
        match r {
            Ok(h) => {
                &&& final(a).contains(h)
                &&& decode_spec(b@.skip(*old(pos) as int)) matches Some(tn) && final(a).tree(h)
                    == tn.0 && *final(pos) == *old(pos) + tn.1 && *final(pos) <= b@.len()
            },
            Err(e) => decode_spec(b@.skip(*old(pos) as int)) is None && e
                == SerializeError::BadEncoding,
        },
{
    let ghost a0 = *old(a);
    let ghost pos0 = *old(pos) as int;
    let ghost goal = decode_spec(b@.skip(pos0));
    let blen = b.len();
    let mut values: Vec<SExp> = Vec::new();
    let mut ops: Vec<ParseOp> = Vec::new();
    ops.push(ParseOp::SExp);
    proof {
        assert(blen == b@.len());
        assert(a.extends(a0)) by {
            assert forall|h: SExp| a0.contains(h) implies #[trigger] a.contains(h) && a.tree(h)
                == a0.tree(h) by {}
        }
        lemma_decode_consumed_bounds(b@.skip(pos0));
        assert(ops@.last() == ParseOp::SExp && ops@.drop_last() =~= Seq::<ParseOp>::empty());
        assert(bal(Seq::<ParseOp>::empty()) == 0);
        assert(bal(ops@) == 1);
        assert(trees_of(*a, values@) =~= Seq::<Tree>::empty());
        match goal {
            Some(tn) => {
                lemma_finish_sexp_step(ops@, trees_of(*a, values@), b@, pos0, tn.0, tn.1);
                assert(Seq::<Tree>::empty().push(tn.0).len() == 1);
                assert(finish(ops@, trees_of(*a, values@), b@, pos0) == Some((tn.0, pos0 + tn.1)));
            },
            None => {
                lemma_finish_sexp_fail(ops@, trees_of(*a, values@), b@, pos0);
            },
        }
    }
    while ops.len() > 0
        invariant
            a.wf(),
            a.extends(a0),
            b@.len() <= usize::MAX,
            *pos <= b@.len(),
            stack_all_contained(*a, values@),
            values@.len() + bal(ops@) == 1,
            cons_ok(ops@, values@.len() as int),
            finish(ops@, trees_of(*a, values@), b@, *pos as int) == (match goal {
                Some(tn) => Some((tn.0, pos0 + tn.1)),
                None => None,
            }),
        decreases b@.len() - *pos, ops@.len(),
    {
        let ghost ops_pre = ops@;
        let ghost vals_pre = values@;
        let ghost p_pre = *pos as int;
        let op = match ops.pop() {
            Some(op) => op,
            None => {
                return Err(SerializeError::InternalError);
            },
        };
        proof {
            assert(op == ops_pre.last());
            assert(ops@ == ops_pre.drop_last());
        }
        match op {
            ParseOp::SExp => {
                if *pos >= b.len() {
                    proof {
                        assert(b@.skip(p_pre).len() == 0);
                        lemma_finish_sexp_fail(ops_pre, trees_of(*a, vals_pre), b@, p_pre);
                        assert(goal is None);
                    }
                    return Err(SerializeError::BadEncoding);
                }
                let b0 = b[*pos];
                proof {
                    assert(b@.skip(p_pre)[0] == b@[p_pre]);
                }
                if b0 == 0xff {
                    *pos = *pos + 1;
                    ops.push(ParseOp::Cons);
                    ops.push(ParseOp::SExp);
                    ops.push(ParseOp::SExp);
                    proof {
                        let dl = ops_pre.drop_last();
                        assert(ops_pre =~= dl.push(ParseOp::SExp));
                        assert(ops@ =~= dl.push(ParseOp::Cons).push(ParseOp::SExp).push(
                            ParseOp::SExp,
                        ));
                        lemma_finish_pair_expand(ops_pre, trees_of(*a, vals_pre), b@, p_pre);
                        // value balance
                        lemma_bal_push(dl, ParseOp::SExp);
                        lemma_bal_push(dl, ParseOp::Cons);
                        lemma_bal_push(dl.push(ParseOp::Cons), ParseOp::SExp);
                        lemma_bal_push(
                            dl.push(ParseOp::Cons).push(ParseOp::SExp),
                            ParseOp::SExp,
                        );
                        // every combine still finds its operands
                        assert forall|p: int|
                            0 <= p < ops@.len() && #[trigger] ops@[p] == ParseOp::Cons implies
                            vals_pre.len() + bal(ops@.skip(p + 1)) >= 2 by {
                            if p < dl.len() {
                                assert(ops@[p] == dl[p] && dl[p] == ops_pre[p]);
                                lemma_bal_skip_push(dl, ParseOp::SExp, p + 1);
                                lemma_bal_skip_push(dl, ParseOp::Cons, p + 1);
                                lemma_bal_skip_push(dl.push(ParseOp::Cons), ParseOp::SExp, p + 1);
                                lemma_bal_skip_push(
                                    dl.push(ParseOp::Cons).push(ParseOp::SExp),
                                    ParseOp::SExp,
                                    p + 1,
                                );
                                assert(vals_pre.len() + bal(ops_pre.skip(p + 1)) >= 2);
                            } else if p == dl.len() {
                                assert(ops@.skip(p + 1) =~= Seq::<ParseOp>::empty().push(
                                    ParseOp::SExp,
                                ).push(ParseOp::SExp));
                                assert(bal(Seq::<ParseOp>::empty()) == 0);
                                lemma_bal_push(Seq::<ParseOp>::empty(), ParseOp::SExp);
                                lemma_bal_push(
                                    Seq::<ParseOp>::empty().push(ParseOp::SExp),
                                    ParseOp::SExp,
                                );
                                assert(bal(ops@.skip(p + 1)) == 2);
                            } else {
                                assert(ops@[p] == ParseOp::SExp);
                            }
                        }
                    }
                } else if b0 == 0x80 {
                    *pos = *pos + 1;
                    let ghost a_pre = *a;
                    let h = a.null();
                    values.push(h);
                    proof {
                        crate::arena::lemma_extends_trans(a0, a_pre, *a);
                        lemma_atom_step_bookkeeping(
                            a_pre,
                            *a,
                            ops_pre,
                            vals_pre,
                            values@,
                            h,
                            b@,
                            p_pre,
                            Tree::nil(),
                            1,
                        );
                        assert(decode_spec(b@.skip(p_pre)) == Some((Tree::nil(), 1int)));
                    }
                } else if b0 <= 0x7f {
                    *pos = *pos + 1;
                    let mut v: Vec<u8> = Vec::new();
                    v.push(b0);
                    let ghost a_pre = *a;
                    let h = a.new_atom(v);
                    values.push(h);
                    proof {
                        assert(v@ =~= seq![b@.skip(p_pre)[0]]);
                        crate::arena::lemma_extends_trans(a0, a_pre, *a);
                        lemma_atom_step_bookkeeping(
                            a_pre,
                            *a,
                            ops_pre,
                            vals_pre,
                            values@,
                            h,
                            b@,
                            p_pre,
                            Tree::Atom(seq![b@.skip(p_pre)[0]]),
                            1,
                        );
                        assert(decode_spec(b@.skip(p_pre)) == Some(
                            (Tree::Atom(seq![b@.skip(p_pre)[0]]), 1int),
                        ));
                    }
                } else {
                    match decode_size(b, *pos) {
                        Ok((size, k)) => {
                            let remaining = b.len() - (*pos + k);
                            if size > remaining as u64 {
                                proof {
                                    assert(decode_spec(b@.skip(p_pre)) is None);
                                    lemma_finish_sexp_fail(
                                        ops_pre,
                                        trees_of(*a, vals_pre),
                                        b@,
                                        p_pre,
                                    );
                                    assert(goal is None);
                                }
                                return Err(SerializeError::BadEncoding);
                            }
                            let size_us = size as usize;
                            let blob = vstd::slice::slice_to_vec(
                                vstd::slice::slice_subrange(b, *pos + k, *pos + k + size_us),
                            );
                            let ghost t = Tree::Atom(
                                b@.skip(p_pre).subrange(k as int, k + size as int),
                            );
                            *pos = *pos + k + size_us;
                            let ghost a_pre = *a;
                            let h = a.new_atom(blob);
                            values.push(h);
                            proof {
                                assert(blob@ =~= b@.skip(p_pre).subrange(
                                    k as int,
                                    k + size as int,
                                ));
                                assert(decode_spec(b@.skip(p_pre)) == Some((t, k + size as int)));
                                crate::arena::lemma_extends_trans(a0, a_pre, *a);
                                lemma_atom_step_bookkeeping(
                                    a_pre,
                                    *a,
                                    ops_pre,
                                    vals_pre,
                                    values@,
                                    h,
                                    b@,
                                    p_pre,
                                    t,
                                    k + size as int,
                                );
                            }
                        },
                        Err(_) => {
                            proof {
                                assert(decode_spec(b@.skip(p_pre)) is None);
                                lemma_finish_sexp_fail(ops_pre, trees_of(*a, vals_pre), b@, p_pre);
                                assert(goal is None);
                            }
                            return Err(SerializeError::BadEncoding);
                        },
                    }
                }
            },
            ParseOp::Cons => {
                proof {
                    assert(ops_pre[ops_pre.len() - 1] == ParseOp::Cons);
                    assert(ops_pre.skip(ops_pre.len() as int) =~= Seq::<ParseOp>::empty());
                    assert(vals_pre.len() >= 2);
                }
                let v2 = match values.pop() {
                    Some(v) => v,
                    None => {
                        return Err(SerializeError::InternalError);
                    },
                };
                let v1 = match values.pop() {
                    Some(v) => v,
                    None => {
                        return Err(SerializeError::InternalError);
                    },
                };
                let ghost a_pre = *a;
                let h = a.new_pair(v1, v2);
                values.push(h);
                proof {
                    crate::arena::lemma_extends_trans(a0, a_pre, *a);
                    assert(stack_all_contained(a_pre, vals_pre));
                    assert(a_pre.contains(v1) && a_pre.contains(v2)) by {
                        assert(vals_pre[vals_pre.len() - 1] == v2);
                        assert(vals_pre[vals_pre.len() - 2] == v1);
                    }
                    lemma_trees_of_extends(a_pre, *a, vals_pre);
                    assert(stack_all_contained(*a, values@)) by {
                        assert forall|i: int| 0 <= i < values@.len() implies a.contains(
                            #[trigger] values@[i],
                        ) by {
                            if i < values@.len() - 1 {
                                assert(values@[i] == vals_pre[i]);
                                assert(a_pre.contains(vals_pre[i]));
                            }
                        }
                    }
                    let tv = trees_of(a_pre, vals_pre);
                    let pair = Tree::Pair(Box::new(tv[tv.len() - 2]), Box::new(tv.last()));
                    lemma_finish_cons_step(ops_pre, tv, b@, p_pre);
                    assert(a.tree(h) == pair);
                    assert(trees_of(*a, values@) =~= tv.drop_last().drop_last().push(pair)) by {
                        assert forall|i: int| 0 <= i < values@.len() implies trees_of(
                            *a,
                            values@,
                        )[i] == tv.drop_last().drop_last().push(pair)[i] by {
                            if i < values@.len() - 1 {
                                assert(values@[i] == vals_pre[i]);
                                assert(a_pre.contains(vals_pre[i]));
                                assert(a.tree(values@[i]) == a_pre.tree(vals_pre[i]));
                            }
                        }
                    }
                    assert(finish(ops@, trees_of(*a, values@), b@, *pos as int) == finish(
                        ops_pre,
                        tv,
                        b@,
                        p_pre,
                    ));
                    // balance
                    assert(bal(ops_pre) == bal(ops@) + op_weight(ParseOp::Cons));
                    assert forall|p: int|
                        0 <= p < ops@.len() && #[trigger] ops@[p] == ParseOp::Cons implies
                        values@.len() + bal(ops@.skip(p + 1)) >= 2 by {
                        assert(ops@[p] == ops_pre[p]);
                        lemma_bal_skip_push(ops@, ParseOp::Cons, p + 1);
                        assert(ops_pre =~= ops@.push(ParseOp::Cons));
                        assert(vals_pre.len() + bal(ops_pre.skip(p + 1)) >= 2);
                    }
                }
            },
        }
    }
    let ghost vfin = values@;
    proof {
        assert(bal(ops@) == 0);
        assert(vfin.len() == 1);
        assert(finish(ops@, trees_of(*a, vfin), b@, *pos as int) == Some(
            (trees_of(*a, vfin)[0], *pos as int),
        ));
        assert(goal is Some);
    }
    match values.pop() {
        Some(h) => {
            proof {
                assert(h == vfin.last());
                assert(vfin.last() == vfin[0]);
                assert(a.tree(h) == trees_of(*a, vfin)[0]);
                assert(a.contains(h));
            }
            Ok(h)
        },
        None => Err(SerializeError::InternalError),
    }
}

/// Decode one value from the start of `b`; trailing bytes are ignored.
pub fn node_from_bytes(a: &mut Arena, b: &[u8]) -> (r: Result<SExp, SerializeError>)
    requires
        old(a).wf(),
    ensures
        final(a).wf(),
        final(a).extends(*old(a)),
        match r {
            Ok(h) => {
                &&& final(a).contains(h)
                &&& decode_spec(b@) matches Some(tn) && final(a).tree(h) == tn.0
            },
            Err(e) => decode_spec(b@) is None && e == SerializeError::BadEncoding,
        },
{
    let mut pos: usize = 0;
    let r = node_from_stream(a, b, &mut pos);
    proof {
        assert(b@.skip(0) =~= b@);
    }
    r
}

/// What remains to be measured: `k` values parsed one after another starting
/// at `pos`, ending at the position after the last one.
spec fn sl_finish(k: nat, b: Seq<u8>, pos: int) -> Option<int>
    decreases k,
{
    if k == 0 {
        Some(pos)
    } else if 0 <= pos <= b.len() {
        match decode_spec(b.skip(pos)) {
            Some(tn) => sl_finish((k - 1) as nat, b, pos + tn.1),
            None => None,
        }
    } else {
        None
    }
}

proof fn lemma_sl_pair_expand(k: nat, b: Seq<u8>, pos: int)
    requires
        k >= 1,
        0 <= pos < b.len(),
        b[pos] == 0xff,
    ensures
        sl_finish(k + 1, b, pos + 1) == sl_finish(k, b, pos),
{
    let rest = b.skip(pos);
    let rest1 = b.skip(pos + 1);
    assert(rest.len() > 0 && rest[0] == 0xff);
    assert(rest.skip(1) =~= rest1);
    match decode_spec(rest1) {
        None => {
            assert(decode_spec(rest) is None);
        },
        Some(ln) => {
            lemma_decode_consumed_bounds(rest1);
            assert(sl_finish(k + 1, b, pos + 1) == sl_finish(k, b, pos + 1 + ln.1));
            let rest2 = b.skip(pos + 1 + ln.1);
            assert(rest1.skip(ln.1) =~= rest2);
            match decode_spec(rest2) {
                None => {
                    assert(decode_spec(rest) is None);
                    assert(sl_finish(k, b, pos + 1 + ln.1) is None);
                },
                Some(rn) => {
                    lemma_decode_consumed_bounds(rest2);
                    assert(decode_spec(rest) == Some(
                        (
                            Tree::Pair(Box::new(ln.0), Box::new(rn.0)),
                            1 + ln.1 + rn.1,
                        ),
                    ));
                    assert(sl_finish(k, b, pos + 1 + ln.1) == sl_finish(
                        (k - 1) as nat,
                        b,
                        pos + 1 + ln.1 + rn.1,
                    ));
                    assert(sl_finish(k, b, pos) == sl_finish(
                        (k - 1) as nat,
                        b,
                        pos + 1 + ln.1 + rn.1,
                    ));
                },
            }
        },
    }
}

/// The byte length of the one value encoded at the start of `b`, computed
/// with the same operation-stack walk as decoding but without building a
/// tree. Succeeds exactly when decoding would.
#[verifier::loop_isolation(false)]
pub fn serialized_length_from_bytes(b: &[u8]) -> (r: Result<u64, SerializeError>)
    ensures
        match r {
            Ok(n) => decode_spec(b@) matches Some(tn) && n == tn.1,
            Err(e) => decode_spec(b@) is None && e == SerializeError::BadEncoding,
        },
{
    let ghost goal = decode_spec(b@);
    let blen = b.len();
    let mut ops: Vec<ParseOp> = Vec::new();
    ops.push(ParseOp::SExp);
    let mut pos: usize = 0;
    proof {
        assert(b@.skip(0) =~= b@);
        lemma_decode_consumed_bounds(b@);
        match goal {
            Some(tn) => {
                assert(sl_finish(1, b@, 0) == sl_finish(0, b@, tn.1));
            },
            None => {},
        }
    }
    while ops.len() > 0
        invariant
            pos <= b@.len(),
            b@.len() <= usize::MAX,
            sl_finish(ops@.len(), b@, pos as int) == (match goal {
                Some(tn) => Some(tn.1),
                None => None,
            }),
        decreases b@.len() - pos, ops@.len(),
    {
        let ghost k_pre = ops@.len();
        let ghost p_pre = pos as int;
        let _op = match ops.pop() {
            Some(op) => op,
            None => {
                return Err(SerializeError::InternalError);
            },
        };
        if pos >= blen {
            proof {
                assert(b@.skip(p_pre).len() == 0);
                assert(sl_finish(k_pre, b@, p_pre) is None);
            }
            return Err(SerializeError::BadEncoding);
        }
        let b0 = b[pos];
        proof {
            assert(b@.skip(p_pre)[0] == b@[p_pre]);
        }
        if b0 == 0xff {
            pos = pos + 1;
            ops.push(ParseOp::SExp);
            ops.push(ParseOp::SExp);
            proof {
                lemma_sl_pair_expand((k_pre - 1 + 1) as nat, b@, p_pre);
                assert(ops@.len() == k_pre + 1);
            }
        } else if b0 == 0x80 || b0 <= 0x7f {
            pos = pos + 1;
            proof {
                assert(decode_spec(b@.skip(p_pre)) matches Some(tn) && tn.1 == 1);
                assert(sl_finish(k_pre, b@, p_pre) == sl_finish((k_pre - 1) as nat, b@, p_pre + 1));
            }
        } else {
            match decode_size(b, pos) {
                Ok((size, k)) => {
                    let remaining = blen - (pos + k);
                    if size > remaining as u64 {
                        proof {
                            assert(decode_spec(b@.skip(p_pre)) is None);
                            assert(sl_finish(k_pre, b@, p_pre) is None);
                        }
                        return Err(SerializeError::BadEncoding);
                    }
                    let size_us = size as usize;
                    pos = pos + k + size_us;
                    proof {
                        assert(decode_spec(b@.skip(p_pre)) matches Some(tn) && tn.1 == k + size);
                        assert(sl_finish(k_pre, b@, p_pre) == sl_finish(
                            (k_pre - 1) as nat,
                            b@,
                            pos as int,
                        ));
                    }
                },
                Err(_) => {
                    proof {
                        assert(decode_spec(b@.skip(p_pre)) is None);
                        assert(sl_finish(k_pre, b@, p_pre) is None);
                    }
                    return Err(SerializeError::BadEncoding);
                },
            }
        }
    }
    proof {
        assert(sl_finish(0, b@, pos as int) == Some(pos as int));
        assert(goal is Some);
    }
    Ok(pos as u64)
}

proof fn lemma_be_seq2(x: u8, y: u8)
    ensures
        be_value(seq![x, y]) == x * 256 + y,
{
    assert(seq![x, y].drop_last() =~= seq![x]);
    assert(seq![x].drop_last() =~= Seq::<u8>::empty());
    assert(be_value(Seq::<u8>::empty()) == 0);
    assert(be_value(seq![x]) == x);
    assert(seq![x, y].last() == y);
}

proof fn lemma_be_seq3(x: u8, y: u8, z: u8)
    ensures
        be_value(seq![x, y, z]) == x * 0x1_0000 + y * 0x100 + z,
{
    lemma_be_seq2(x, y);
    assert(seq![x, y, z].drop_last() =~= seq![x, y]);
    assert(seq![x, y, z].last() == z);
}

proof fn lemma_be_seq4(w: u8, x: u8, y: u8, z: u8)
    ensures
        be_value(seq![w, x, y, z]) == w * 0x100_0000 + x * 0x1_0000 + y * 0x100 + z,
{
    lemma_be_seq3(w, x, y);
    assert(seq![w, x, y, z].drop_last() =~= seq![w, x, y]);
    assert(seq![w, x, y, z].last() == z);
}

/// Reading back the size prefix of `n` yields `n` again, whatever follows.
proof fn lemma_size_prefix_roundtrip(n: nat, tail: Seq<u8>)
    requires
        n < ATOM_SIZE_LIMIT,
    ensures
        size_prefix(n).len() <= 5,
        (size_prefix(n) + tail)[0] >= 0x81 || n == 0,
        (size_prefix(n) + tail)[0] != 0xff,
        decode_size_spec(size_prefix(n) + tail) == Some(
            (n as int, size_prefix(n).len() as int),
        ),
{
    let p = size_prefix(n);
    let s = p + tail;
    let m = n as u64;
    lemma_pow256_6();
    assert(s[0] == p[0]);
    if n < 0x40 {
        assert(p =~= seq![(0x80 + n) as u8]);
        assert(s[0] == 0x80 + n);
        assert(prefix_len_of(s[0]) == 1);
        assert(prefix_bits_of(s[0]) == n);
        assert(s.subrange(1, 1) =~= Seq::<u8>::empty());
        assert(be_value(Seq::<u8>::empty()) == 0);
    } else if n < 0x2000 {
        assert(m / 0x100 < 0x20 && 0xc0 + m / 0x100 < 0x100 && (m / 0x100) * 0x100 + m % 0x100
            == m && m / 0x100 >= 0) by (bit_vector)
            requires
                m < 0x2000u64,
        ;
        assert(s[0] == 0xc0 + n / 0x100);
        assert(prefix_len_of(s[0]) == 2);
        assert(prefix_bits_of(s[0]) == n / 0x100);
        assert(s.subrange(1, 2) =~= seq![(n % 0x100) as u8]);
        assert(be_value(seq![(n % 0x100) as u8]) == n % 0x100) by {
            assert(seq![(n % 0x100) as u8].drop_last() =~= Seq::<u8>::empty());
            assert(be_value(Seq::<u8>::empty()) == 0);
        }
    } else if n < 0x10_0000 {
        assert(m / 0x1_0000 < 0x10 && 0xe0 + m / 0x1_0000 < 0xf0 && (m / 0x1_0000) * 0x1_0000 + (m
            / 0x100 % 0x100) * 0x100 + m % 0x100 == m) by (bit_vector)
            requires
                m < 0x10_0000u64,
        ;
        assert(s[0] == 0xe0 + n / 0x1_0000);
        assert(prefix_len_of(s[0]) == 3);
        assert(prefix_bits_of(s[0]) == n / 0x1_0000);
        assert(s.subrange(1, 3) =~= seq![((n / 0x100) % 0x100) as u8, (n % 0x100) as u8]);
        lemma_be_seq2(((n / 0x100) % 0x100) as u8, (n % 0x100) as u8);
    } else if n < 0x800_0000 {
        assert(m / 0x100_0000 < 0x8 && 0xf0 + m / 0x100_0000 < 0xf8 && (m / 0x100_0000)
            * 0x100_0000 + (m / 0x1_0000 % 0x100) * 0x1_0000 + (m / 0x100 % 0x100) * 0x100 + m
            % 0x100 == m) by (bit_vector)
            requires
                m < 0x800_0000u64,
        ;
        assert(s[0] == 0xf0 + n / 0x100_0000);
        assert(prefix_len_of(s[0]) == 4);
        assert(prefix_bits_of(s[0]) == n / 0x100_0000);
        assert(s.subrange(1, 4) =~= seq![
            ((n / 0x1_0000) % 0x100) as u8,
            ((n / 0x100) % 0x100) as u8,
            (n % 0x100) as u8,
        ]);
        lemma_be_seq3(
            ((n / 0x1_0000) % 0x100) as u8,
            ((n / 0x100) % 0x100) as u8,
            (n % 0x100) as u8,
        );
    } else {
        assert(m / 0x1_0000_0000 < 0x4 && 0xf8 + m / 0x1_0000_0000 < 0xfc && (m / 0x1_0000_0000)
            * 0x1_0000_0000 + (m / 0x100_0000 % 0x100) * 0x100_0000 + (m / 0x1_0000 % 0x100)
            * 0x1_0000 + (m / 0x100 % 0x100) * 0x100 + m % 0x100 == m) by (bit_vector)
            requires
                m < 0x4_0000_0000u64,
                m >= 0x800_0000u64,
        ;
        assert(s[0] == 0xf8 + n / 0x1_0000_0000);
        assert(prefix_len_of(s[0]) == 5);
        assert(prefix_bits_of(s[0]) == n / 0x1_0000_0000);
        assert(s.subrange(1, 5) =~= seq![
            ((n / 0x100_0000) % 0x100) as u8,
            ((n / 0x1_0000) % 0x100) as u8,
            ((n / 0x100) % 0x100) as u8,
            (n % 0x100) as u8,
        ]);
        lemma_be_seq4(
            ((n / 0x100_0000) % 0x100) as u8,
            ((n / 0x1_0000) % 0x100) as u8,
            ((n / 0x100) % 0x100) as u8,
            (n % 0x100) as u8,
        );
    }
}

/// Round trip: decoding starts over the canonical encoding of any encodable
/// tree and yields exactly that tree, consuming exactly its encoding,
/// whatever bytes follow.
pub proof fn lemma_decode_encoded(t: Tree, rest: Seq<u8>)
    requires
        encodable(t),
    ensures
        decode_spec(encoded(t) + rest) == Some((t, encoded(t).len() as int)),
    decreases t,
{
    let s = encoded(t) + rest;
    match t {
        Tree::Atom(b) => {
            if b.len() == 0 {
                assert(s[0] == 0x80);
                assert(b =~= Seq::<u8>::empty());
            } else if b.len() == 1 && b[0] <= 0x7f {
                assert(s[0] == b[0]);
                assert(seq![s[0]] =~= b);
            } else {
                lemma_size_prefix_roundtrip(b.len(), b + rest);
                let p = size_prefix(b.len());
                assert(s =~= p + (b + rest));
                let k = p.len() as int;
                assert(s[0] != 0xff && s[0] > 0x80 && s[0] > 0x7f) by {
                    assert((p + (b + rest))[0] == s[0]);
                }
                assert(decode_size_spec(s) == Some((b.len() as int, k)));
                assert(k + b.len() <= s.len());
                assert(s.subrange(k, k + b.len() as int) =~= b);
                assert(decode_spec(s) == Some((Tree::Atom(b), k + b.len())));
            }
        },
        Tree::Pair(l, r) => {
            let el = encoded(*l);
            let er = encoded(*r);
            assert(encoded(t) == seq![0xffu8] + el + er);
            assert(s[0] == 0xff);
            assert(s.skip(1) =~= el + (er + rest));
            lemma_decode_encoded(*l, er + rest);
            assert(decode_spec(s.skip(1)) == Some((*l, el.len() as int)));
            assert(0 <= el.len() <= s.skip(1).len());
            assert(s.skip(1).skip(el.len() as int) =~= er + rest);
            lemma_decode_encoded(*r, rest);
            assert(decode_spec(s.skip(1).skip(el.len() as int)) == Some((*r, er.len() as int)));
            assert(decode_spec(s) == Some(
                (Tree::Pair(Box::new(*l), Box::new(*r)), 1 + el.len() as int + er.len() as int),
            ));
            assert(Tree::Pair(Box::new(*l), Box::new(*r)) == t);
            assert(encoded(t).len() == 1 + el.len() + er.len());
        },
    }
}

/// Round trip over the exact encoding: `decode(encode(t)) == t`.
pub proof fn lemma_round_trip(t: Tree)
    requires
        encodable(t),
    ensures
        decode_spec(encoded(t)) == Some((t, encoded(t).len() as int)),
{
    lemma_decode_encoded(t, Seq::empty());
    assert(encoded(t) + Seq::<u8>::empty() =~= encoded(t));
}

/// Whatever decodes is itself encodable: the decoder enforces the atom
/// size ceiling.
pub proof fn lemma_decoded_encodable(b: Seq<u8>)
    ensures
        decode_spec(b) matches Some(tn) ==> encodable(tn.0),
    decreases b.len(),
{
    if b.len() > 0 && b[0] == 0xff {
        let rest = b.skip(1);
        lemma_decode_consumed_bounds(rest);
        lemma_decoded_encodable(rest);
        match decode_spec(rest) {
            Some(ln) => {
                if 0 <= ln.1 <= rest.len() {
                    lemma_decoded_encodable(rest.skip(ln.1));
                }
            },
            None => {},
        }
    }
}

/// Round trip through the builder: any tree the tree builder constructs
/// from a host value decodes back from its own encoding, as long as its
/// atoms are under the size ceiling.
pub proof fn lemma_built_tree_round_trip(a: Arena, v: crate::sexp::CastableType)
    requires
        crate::sexp::castable_wf(a, v),
        encodable(crate::sexp::lift(a, v)),
    ensures
        decode_spec(encoded(crate::sexp::lift(a, v))) == Some(
            (crate::sexp::lift(a, v), encoded(crate::sexp::lift(a, v)).len() as int),
        ),
{
    lemma_round_trip(crate::sexp::lift(a, v));
}

/// Injectivity: distinct encodable trees have distinct encodings.
pub proof fn lemma_encode_injective(t1: Tree, t2: Tree)
    requires
        encodable(t1),
        encodable(t2),
        t1 != t2,
    ensures
        encoded(t1) != encoded(t2),
{
    if encoded(t1) == encoded(t2) {
        lemma_round_trip(t1);
        lemma_round_trip(t2);
        assert(false);
    }
}

/// The canonical encoding of `node` as a fresh byte string.
pub fn node_to_bytes(a: &Arena, node: SExp) -> (r: Result<Vec<u8>, SerializeError>)
    requires
        a.wf(),
        a.contains(node),
    ensures
        match r {
            Ok(v) => encodable(a.tree(node)) && v@ == encoded(a.tree(node)),
            Err(e) => !encodable(a.tree(node)) && e == SerializeError::AtomTooBig,
        },
{
    let mut buffer: Vec<u8> = Vec::new();
    match node_to_stream(a, node, &mut buffer) {
        Ok(_) => {
            proof {
                assert(buffer@ =~= encoded(a.tree(node)));
            }
            Ok(buffer)
        },
        Err(e) => Err(e),
    }
}

/// The bytes a response sequence contributes, in emission order.
pub open spec fn concat_response_values(rs: Seq<crate::clvm_api::ClvmResponse>) -> Seq<u8>
    decreases rs.len(),
{
    if rs.len() == 0 {
        Seq::empty()
    } else {
        concat_response_values(rs.drop_last()) + rs.last().value@
    }
}

/// What one response chunk says: its tag, its bytes, its encoding label
/// and its payload length.
pub open spec fn chunk_view(r: crate::clvm_api::ClvmResponse) -> (
    Seq<char>,
    Seq<u8>,
    Seq<char>,
    int,
) {
    (r.value_type@, r.value@, r.encoded@, r.value_len as int)
}

pub open spec fn views_of(rs: Seq<crate::clvm_api::ClvmResponse>) -> Seq<
    (Seq<char>, Seq<u8>, Seq<char>, int),
> {
    Seq::new(rs.len(), |i: int| chunk_view(rs[i]))
}

/// The chunk sequence a tree frames to, depth first: the empty atom, a
/// self-delimiting small atom, a prefixed atom, and the pair marker each
/// get one tagged chunk; a pair's children follow its marker.
pub open spec fn responses_of(t: Tree) -> Seq<(Seq<char>, Seq<u8>, Seq<char>, int)>
    decreases t,
{
    match t {
        Tree::Atom(b) => {
            if b.len() == 0 {
                seq![("empty"@, seq![0x80u8], "u8"@, 0int)]
            } else if b.len() == 1 && b[0] <= 0x7f {
                seq![("byte"@, b, "u8"@, 1int)]
            } else {
                seq![("buffer"@, atom_encoding(b), "u64"@, (b.len() as i32) as int)]
            }
        },
        Tree::Pair(l, r) => seq![("CONS_BOX_MARKER"@, seq![0xffu8], "u8"@, 1int)] + responses_of(
            *l,
        ) + responses_of(*r),
    }
}

/// The chunks still to be emitted: the top of the stack is framed first.
spec fn stack_responses(a: Arena, hs: Seq<SExp>) -> Seq<(Seq<char>, Seq<u8>, Seq<char>, int)>
    decreases hs.len(),
{
    if hs.len() == 0 {
        Seq::empty()
    } else {
        responses_of(a.tree(hs.last())) + stack_responses(a, hs.drop_last())
    }
}

/// Frame the canonical encoding of `node` as a sequence of tagged chunks:
/// one record per node, whose `value` fields concatenate to the canonical
/// encoding. Fails exactly when some atom is over the size ceiling.
#[verifier::loop_isolation(false)]
pub fn prepare_response_for_flutter(a: &Arena, node: SExp) -> (r: Result<
    Vec<crate::clvm_api::ClvmResponse>,
    SerializeError,
>)
    requires
        a.wf(),
        a.contains(node),
    ensures
        match r {
            Ok(v) => {
                &&& encodable(a.tree(node))
                &&& concat_response_values(v@) == encoded(a.tree(node))
                &&& views_of(v@) == responses_of(a.tree(node))
            },
            Err(e) => !encodable(a.tree(node)) && e == SerializeError::AtomTooBig,
        },
{
    let ghost goal = encoded(a.tree(node));
    let ghost rgoal = responses_of(a.tree(node));
    let mut out: Vec<crate::clvm_api::ClvmResponse> = Vec::new();
    let mut values: Vec<SExp> = Vec::new();
    values.push(node);
    proof {
        assert(values@.last() == node);
        assert(values@.drop_last() =~= Seq::<SExp>::empty());
        lemma_stack_pop(*a, values@);
        assert(stack_encodings(*a, values@.drop_last()) =~= Seq::<u8>::empty());
        assert(stack_encodings(*a, values@) == encoded(a.tree(node)) + stack_encodings(
            *a,
            values@.drop_last(),
        ));
        assert(concat_response_values(out@) + stack_encodings(*a, values@) =~= goal);
        assert(stack_responses(*a, values@.drop_last()) =~= Seq::<
            (Seq<char>, Seq<u8>, Seq<char>, int),
        >::empty());
        assert(stack_responses(*a, values@) == responses_of(a.tree(node)) + stack_responses(
            *a,
            values@.drop_last(),
        ));
        assert(views_of(out@) + stack_responses(*a, values@) =~= rgoal);
    }
    while values.len() > 0
        invariant
            stack_all_contained(*a, values@),
            encodable(a.tree(node)) <==> stack_all_encodable(*a, values@),
            encodable(a.tree(node)) ==> concat_response_values(out@) + stack_encodings(
                *a,
                values@,
            ) == goal,
            encodable(a.tree(node)) ==> views_of(out@) + stack_responses(*a, values@) == rgoal,
        decreases stack_sizes(*a, values@),
    {
        let ghost pre = values@;
        let ghost out_pre = out@;
        let h = match values.pop() {
            Some(h) => h,
            None => {
                return Err(SerializeError::InternalError);
            },
        };
        proof {
            assert(h == pre.last());
            assert(values@ == pre.drop_last());
            lemma_stack_pop(*a, pre);
            assert(stack_encodings(*a, pre) == encoded(a.tree(h)) + stack_encodings(*a, values@));
            assert(stack_responses(*a, pre) == responses_of(a.tree(h)) + stack_responses(
                *a,
                values@,
            ));
            assert(stack_sizes(*a, pre) == a.tree(h).size() + stack_sizes(*a, values@));
        }
        let ghost rest_enc = stack_encodings(*a, values@);
        let ghost rest_resp = stack_responses(*a, values@);
        if a.is_pair(h) {
            let (l, r) = a.pair(h);
            let mut marker: Vec<u8> = Vec::new();
            marker.push(0xff);
            let record = crate::clvm_api::ClvmResponse {
                value_type: String::from_str("CONS_BOX_MARKER"),
                value: marker,
                encoded: String::from_str("u8"),
                value_len: 1,
            };
            out.push(record);
            values.push(r);
            let ghost mid = values@;
            values.push(l);
            proof {
                let ht = a.tree(h);
                lemma_stack_push(*a, pre.drop_last(), r);
                lemma_stack_push(*a, mid, l);
                assert(encodable(ht) == (encodable(a.tree(l)) && encodable(a.tree(r))));
                assert(stack_sizes(*a, values@) == a.tree(l).size() + stack_sizes(*a, mid)) by {
                    assert(values@.last() == l);
                    assert(values@.drop_last() =~= mid);
                }
                assert(stack_sizes(*a, mid) == a.tree(r).size() + stack_sizes(*a, pre.drop_last()))
                    by {
                    assert(mid.last() == r);
                    assert(mid.drop_last() =~= pre.drop_last());
                }
                assert(ht.size() == 1 + a.tree(l).size() + a.tree(r).size());
                assert(stack_sizes(*a, values@) < stack_sizes(*a, pre));
                if encodable(a.tree(node)) {
                    assert(stack_encodings(*a, values@) == encoded(a.tree(l)) + stack_encodings(
                        *a,
                        mid,
                    )) by {
                        assert(values@.last() == l);
                        assert(values@.drop_last() =~= mid);
                    }
                    assert(stack_encodings(*a, mid) == encoded(a.tree(r)) + rest_enc) by {
                        assert(mid.last() == r);
                        assert(mid.drop_last() =~= pre.drop_last());
                    }
                    assert(encoded(ht) == seq![0xffu8] + encoded(a.tree(l)) + encoded(a.tree(r)));
                    assert(concat_response_values(out@) =~= concat_response_values(out_pre)
                        + seq![0xffu8]) by {
                        assert(out@.drop_last() =~= out_pre);
                        assert(out@.last().value@ =~= seq![0xffu8]);
                    }
                    assert(concat_response_values(out@) + stack_encodings(*a, values@)
                        =~= concat_response_values(out_pre) + stack_encodings(*a, pre));
                    // the chunk views advance the same way
                    assert(stack_responses(*a, values@) == responses_of(a.tree(l))
                        + stack_responses(*a, mid)) by {
                        assert(values@.last() == l);
                        assert(values@.drop_last() =~= mid);
                    }
                    assert(stack_responses(*a, mid) == responses_of(a.tree(r)) + rest_resp) by {
                        assert(mid.last() == r);
                        assert(mid.drop_last() =~= pre.drop_last());
                    }
                    assert(responses_of(ht) == seq![
                        ("CONS_BOX_MARKER"@, seq![0xffu8], "u8"@, 1int),
                    ] + responses_of(a.tree(l)) + responses_of(a.tree(r)));
                    assert(chunk_view(out@.last()) == (
                        "CONS_BOX_MARKER"@,
                        seq![0xffu8],
                        "u8"@,
                        1int,
                    )) by {
                        assert(out@.last().value@ =~= seq![0xffu8]);
                    }
                    assert(views_of(out@) =~= views_of(out_pre) + seq![chunk_view(out@.last())])
                        by {
                        assert(out@.drop_last() =~= out_pre);
                    }
                    assert(views_of(out@) + stack_responses(*a, values@) =~= views_of(out_pre)
                        + stack_responses(*a, pre));
                }
            }
        } else {
            let ghost b = a.tree(h)->Atom_0;
            let atom = a.atom(h);
            let record = if atom.len() == 0 {
                let mut v: Vec<u8> = Vec::new();
                v.push(0x80);
                proof {
                    assert(v@ =~= atom_encoding(b));
                }
                crate::clvm_api::ClvmResponse {
                    value_type: String::from_str("empty"),
                    value: v,
                    encoded: String::from_str("u8"),
                    value_len: 0,
                }
            } else if atom.len() == 1 && atom[0] <= 0x7f {
                let mut v: Vec<u8> = Vec::new();
                v.push(atom[0]);
                proof {
                    assert(b =~= seq![b[0]]);
                    assert(v@ =~= atom_encoding(b));
                }
                crate::clvm_api::ClvmResponse {
                    value_type: String::from_str("byte"),
                    value: v,
                    encoded: String::from_str("u8"),
                    value_len: 1,
                }
            } else {
                let mut v = match encode_size(atom.len() as u64) {
                    Ok(prefix) => prefix,
                    Err(_) => {
                        proof {
                            assert(!encodable(a.tree(h)));
                        }
                        return Err(SerializeError::AtomTooBig);
                    },
                };
                v.extend_from_slice(atom.as_slice());
                proof {
                    assert(v@ =~= atom_encoding(b));
                }
                let len = atom.len();
                crate::clvm_api::ClvmResponse {
                    value_type: String::from_str("buffer"),
                    value: v,
                    encoded: String::from_str("u64"),
                    value_len: #[verifier::truncate] (len as i32),
                }
            };
            let ghost recv = record.value@;
            out.push(record);
            proof {
                assert(encodable(a.tree(h)));
                assert(recv == atom_encoding(b));
                if encodable(a.tree(node)) {
                    assert(concat_response_values(out@) =~= concat_response_values(out_pre)
                        + atom_encoding(b)) by {
                        assert(out@.drop_last() =~= out_pre);
                    }
                    assert(concat_response_values(out@) + rest_enc =~= concat_response_values(
                        out_pre,
                    ) + (atom_encoding(b) + rest_enc));
                    assert(stack_encodings(*a, pre) == atom_encoding(b) + rest_enc);
                    // the one chunk emitted is exactly the atom's framing
                    assert(a.tree(h) == Tree::Atom(b));
                    if b.len() == 0 {
                        assert(out@.last().value@ =~= seq![0x80u8]);
                        assert(chunk_view(out@.last()) == ("empty"@, seq![0x80u8], "u8"@, 0int));
                        assert(responses_of(a.tree(h)) == seq![chunk_view(out@.last())]);
                    } else if b.len() == 1 && b[0] <= 0x7f {
                        assert(out@.last().value@ =~= b);
                        assert(chunk_view(out@.last()) == ("byte"@, b, "u8"@, 1int));
                        assert(responses_of(a.tree(h)) == seq![chunk_view(out@.last())]);
                    } else {
                        assert(chunk_view(out@.last()) == (
                            "buffer"@,
                            atom_encoding(b),
                            "u64"@,
                            (b.len() as i32) as int,
                        ));
                        assert(responses_of(a.tree(h)) == seq![chunk_view(out@.last())]);
                    }
                    assert(views_of(out@) =~= views_of(out_pre) + seq![chunk_view(out@.last())])
                        by {
                        assert(out@.drop_last() =~= out_pre);
                    }
                    assert(stack_responses(*a, pre) == responses_of(a.tree(h)) + rest_resp);
                    assert(views_of(out@) + rest_resp =~= views_of(out_pre) + stack_responses(
                        *a,
                        pre,
                    ));
                }
            }
        }
    }
    proof {
        assert(values@.len() == 0);
        assert(encodable(a.tree(node)));
        assert(concat_response_values(out@) + stack_encodings(*a, values@) =~= concat_response_values(
            out@,
        ));
        assert(views_of(out@) + stack_responses(*a, values@) =~= views_of(out@));
    }
    Ok(out)
}

} // verus!
