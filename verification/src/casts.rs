//! Byte-level number semantics shared by the codec and the textual codec:
//! big-endian unsigned values, the signed two's-complement reading of an
//! atom, and the canonical (minimal) signed encoding.

use vstd::prelude::*;

verus! {

/// 256 to the power `n`.
pub open spec fn pow256(n: nat) -> nat
    decreases n,
{
    if n == 0 {
        1
    } else {
        256 * pow256((n - 1) as nat)
    }
}

/// The unsigned big-endian value of a byte string.
pub open spec fn be_value(s: Seq<u8>) -> nat
    decreases s.len(),
{
    if s.len() == 0 {
        0
    } else {
        (be_value(s.drop_last()) * 256 + s.last()) as nat
    }
}

/// The signed two's-complement big-endian value of a byte string; the empty
/// string denotes zero.
pub open spec fn int_value(s: Seq<u8>) -> int {
    if s.len() == 0 {
        0
    } else if s[0] >= 0x80 {
        be_value(s) - pow256(s.len())
    } else {
        be_value(s) as int
    }
}

/// A signed encoding is minimal when no leading byte could be dropped
/// without changing the value it denotes.
pub open spec fn is_minimal(s: Seq<u8>) -> bool {
    &&& !(s.len() >= 1 && s[0] == 0x00 && (s.len() == 1 || s[1] < 0x80))
    &&& !(s.len() >= 2 && s[0] == 0xff && s[1] >= 0x80)
}

pub proof fn lemma_pow256_pos(n: nat)
    ensures
        pow256(n) >= 1,
    decreases n,
{
    if n > 0 {
        lemma_pow256_pos((n - 1) as nat);
    }
}

pub proof fn lemma_be_value_bound(s: Seq<u8>)
    ensures
        be_value(s) < pow256(s.len()),
    decreases s.len(),
{
    if s.len() == 0 {
    } else {
        lemma_be_value_bound(s.drop_last());
        assert(be_value(s.drop_last()) <= pow256((s.len() - 1) as nat) - 1);
        assert(be_value(s) <= (pow256((s.len() - 1) as nat) - 1) * 256 + 255) by {
            assert(be_value(s.drop_last()) * 256 <= (pow256((s.len() - 1) as nat) - 1) * 256)
                by (nonlinear_arith)
                requires
                    be_value(s.drop_last()) <= pow256((s.len() - 1) as nat) - 1,
            ;
        }
        assert(pow256(s.len()) == 256 * pow256((s.len() - 1) as nat));
    }
}

/// Dropping a redundant leading byte keeps the denoted integer.
pub proof fn lemma_drop_redundant_head(s: Seq<u8>)
    requires
        s.len() >= 1,
        (s[0] == 0x00 && (s.len() == 1 || s[1] < 0x80)) || (s[0] == 0xff && s.len() >= 2 && s[1]
            >= 0x80),
    ensures
        int_value(s.skip(1)) == int_value(s),
{
    lemma_be_value_cons(s);
    let rest = s.skip(1);
    if s[0] == 0x00 {
        if s.len() == 1 {
            assert(rest.len() == 0);
            assert(be_value(s) == 0);
        } else {
            assert(be_value(s) == be_value(rest));
            assert(rest[0] == s[1]);
        }
    } else {
        let k = rest.len();
        assert(be_value(s) == 255 * pow256(k) + be_value(rest));
        assert(pow256(k + 1) == 256 * pow256(k));
        assert(rest[0] == s[1] && rest[0] >= 0x80);
        assert(int_value(s) == be_value(s) - pow256(s.len()));
        assert(int_value(rest) == be_value(rest) - pow256(k));
    }
}

/// The canonical form of a signed big-endian encoding: redundant leading
/// bytes dropped, zero written as the empty string.
pub open spec fn spec_canonical(s: Seq<u8>) -> Seq<u8>
    decreases s.len(),
{
    if s.len() >= 2 && (s[0] == 0x00 && s[1] < 0x80 || s[0] == 0xff && s[1] >= 0x80) {
        spec_canonical(s.skip(1))
    } else if s.len() == 1 && s[0] == 0x00 {
        Seq::empty()
    } else {
        s
    }
}

proof fn lemma_pow256_mono(m: nat, n: nat)
    requires
        m <= n,
    ensures
        pow256(m) <= pow256(n),
    decreases n,
{
    if m < n {
        lemma_pow256_mono(m, (n - 1) as nat);
        lemma_pow256_pos((n - 1) as nat);
    }
}

proof fn lemma_be_fixed_len_injective(s1: Seq<u8>, s2: Seq<u8>)
    requires
        s1.len() == s2.len(),
        be_value(s1) == be_value(s2),
    ensures
        s1 == s2,
    decreases s1.len(),
{
    if s1.len() == 0 {
        assert(s1 =~= s2);
    } else {
        assert(be_value(s1) == be_value(s1.drop_last()) * 256 + s1.last());
        assert(be_value(s2) == be_value(s2.drop_last()) * 256 + s2.last());
        assert(s1.last() == s2.last() && be_value(s1.drop_last()) == be_value(s2.drop_last()))
            by (nonlinear_arith)
            requires
                be_value(s1.drop_last()) * 256 + s1.last() == be_value(s2.drop_last()) * 256
                    + s2.last(),
                s1.last() < 256,
                s2.last() < 256,
        ;
        lemma_be_fixed_len_injective(s1.drop_last(), s2.drop_last());
        assert forall|i: int| 0 <= i < s1.len() implies s1[i] == s2[i] by {
            if i < s1.len() - 1 {
                assert(s1.drop_last()[i] == s1[i]);
                assert(s2.drop_last()[i] == s2[i]);
            } else {
                assert(s1.last() == s1[i] && s2.last() == s2[i]);
            }
        }
        assert(s1 =~= s2);
    }
}

/// The value range a minimal encoding with a clear sign bit can denote.
proof fn lemma_minimal_pos_bounds(s: Seq<u8>)
    requires
        is_minimal(s),
        s.len() >= 1,
        s[0] < 0x80,
    ensures
        int_value(s) >= 1,
        s.len() >= 2 ==> int_value(s) >= 128 * pow256((s.len() - 2) as nat),
        int_value(s) < 128 * pow256((s.len() - 1) as nat),
{
    let n = s.len();
    let p = pow256((n - 1) as nat);
    lemma_be_value_cons(s);
    lemma_be_value_bound(s.skip(1));
    lemma_pow256_pos((n - 1) as nat);
    assert(be_value(s) == s[0] * p + be_value(s.skip(1)));
    assert(s[0] * p <= 0x7f * p) by (nonlinear_arith)
        requires
            s[0] <= 0x7f,
            p >= 0,
    ;
    assert(be_value(s) < 128 * p);
    if n == 1 {
        assert(s[0] != 0);
        assert(be_value(s) == s[0]);
    } else {
        let q = pow256((n - 2) as nat);
        assert(p == 256 * q);
        lemma_pow256_pos((n - 2) as nat);
        if s[0] >= 1 {
            assert(s[0] * p >= p) by (nonlinear_arith)
                requires
                    s[0] >= 1,
                    p >= 0,
            ;
            assert(be_value(s) >= 128 * q);
        } else {
            assert(s[1] >= 0x80);
            lemma_be_value_cons(s.skip(1));
            assert(s.skip(1)[0] == s[1]);
            assert(s.skip(1).len() - 1 == n - 2);
            assert(be_value(s.skip(1)) >= 0x80 * q) by (nonlinear_arith)
                requires
                    be_value(s.skip(1)) >= s.skip(1)[0] * pow256((s.skip(1).len() - 1) as nat),
                    s.skip(1)[0] >= 0x80,
                    pow256((s.skip(1).len() - 1) as nat) == q,
                    q >= 1,
            ;
            assert(be_value(s) >= 128 * q);
        }
        assert(be_value(s) >= 1) by {
            assert(128 * q >= 1) by (nonlinear_arith)
                requires
                    q >= 1,
            ;
        }
    }
}

/// The value range a minimal encoding with a set sign bit can denote.
proof fn lemma_minimal_neg_bounds(s: Seq<u8>)
    requires
        is_minimal(s),
        s.len() >= 1,
        s[0] >= 0x80,
    ensures
        int_value(s) <= -1,
        int_value(s) >= -(128 * pow256((s.len() - 1) as nat)),
        s.len() >= 2 ==> int_value(s) < -(128 * pow256((s.len() - 2) as nat)),
{
    let n = s.len();
    let p = pow256((n - 1) as nat);
    lemma_be_value_cons(s);
    lemma_be_value_bound(s);
    lemma_be_value_bound(s.skip(1));
    lemma_pow256_pos((n - 1) as nat);
    assert(pow256(n) == 256 * p);
    assert(int_value(s) == be_value(s) - 256 * p);
    assert(be_value(s) <= 256 * p - 1);
    assert(be_value(s) >= s[0] * p) by {
        assert(be_value(s) == s[0] * p + be_value(s.skip(1)));
    }
    assert(s[0] * p >= 128 * p) by (nonlinear_arith)
        requires
            s[0] >= 128,
            p >= 0,
    ;
    if n >= 2 {
        let q = pow256((n - 2) as nat);
        assert(p == 256 * q);
        lemma_pow256_pos((n - 2) as nat);
        if s[0] <= 0xfe {
            assert(s[0] * p <= 0xfe * p) by (nonlinear_arith)
                requires
                    s[0] <= 0xfe,
                    p >= 0,
            ;
            assert(be_value(s) <= 0xfe * p + (p - 1));
            assert(0xfe * p + (p - 1) < 256 * p - 128 * q) by (nonlinear_arith)
                requires
                    p == 256 * q,
                    q >= 1,
            ;
        } else {
            assert(s[0] == 0xff);
            assert(s[1] < 0x80);
            lemma_be_value_cons(s.skip(1));
            lemma_be_value_bound(s.skip(1).skip(1));
            assert(s.skip(1)[0] == s[1]);
            assert(s.skip(1).len() - 1 == n - 2);
            assert(be_value(s.skip(1)) <= 0x7f * q + (q - 1)) by (nonlinear_arith)
                requires
                    be_value(s.skip(1)) == s.skip(1)[0] * q + be_value(s.skip(1).skip(1)),
                    s.skip(1)[0] <= 0x7f,
                    be_value(s.skip(1).skip(1)) <= q - 1,
                    q >= 1,
            ;
            assert(be_value(s) <= 0xff * p + 0x80 * q - 1) by {
                assert(s[0] * p == 0xff * p);
            }
            assert(0xff * p + 0x80 * q - 1 < 256 * p - 128 * q) by (nonlinear_arith)
                requires
                    p == 256 * q,
                    q >= 1,
            ;
        }
    }
}

/// One integer, one minimal encoding: the canonical signed form is unique.
pub proof fn lemma_minimal_unique(s1: Seq<u8>, s2: Seq<u8>)
    requires
        is_minimal(s1),
        is_minimal(s2),
        int_value(s1) == int_value(s2),
    ensures
        s1 == s2,
{
    let v = int_value(s1);
    if s1.len() == 0 || s2.len() == 0 {
        if s1.len() >= 1 {
            if s1[0] < 0x80 {
                lemma_minimal_pos_bounds(s1);
            } else {
                lemma_minimal_neg_bounds(s1);
            }
        }
        if s2.len() >= 1 {
            if s2[0] < 0x80 {
                lemma_minimal_pos_bounds(s2);
            } else {
                lemma_minimal_neg_bounds(s2);
            }
        }
        assert(s1.len() == 0 && s2.len() == 0);
        assert(s1 =~= s2);
    } else {
        if s1[0] < 0x80 {
            lemma_minimal_pos_bounds(s1);
        } else {
            lemma_minimal_neg_bounds(s1);
        }
        if s2[0] < 0x80 {
            lemma_minimal_pos_bounds(s2);
        } else {
            lemma_minimal_neg_bounds(s2);
        }
        assert((s1[0] < 0x80) == (s2[0] < 0x80));
        lemma_minimal_same_len(s1, s2);
        lemma_minimal_same_len(s2, s1);
        assert(s1.len() == s2.len());
        if s1[0] < 0x80 {
            assert(be_value(s1) == v && be_value(s2) == v);
        } else {
            assert(be_value(s1) == v + pow256(s1.len()));
            assert(be_value(s2) == v + pow256(s2.len()));
        }
        lemma_be_fixed_len_injective(s1, s2);
    }
}

/// Of two minimal encodings of one value, neither is longer.
proof fn lemma_minimal_same_len(s1: Seq<u8>, s2: Seq<u8>)
    requires
        is_minimal(s1),
        is_minimal(s2),
        int_value(s1) == int_value(s2),
        s1.len() >= 1,
        s2.len() >= 1,
        (s1[0] < 0x80) == (s2[0] < 0x80),
    ensures
        s1.len() <= s2.len(),
{
    if s1.len() > s2.len() {
        let v = int_value(s1);
        if s1[0] < 0x80 {
            lemma_minimal_pos_bounds(s1);
            lemma_minimal_pos_bounds(s2);
            assert(s1.len() >= 2);
            assert(v >= 128 * pow256((s1.len() - 2) as nat));
            assert(v < 128 * pow256((s2.len() - 1) as nat));
            lemma_pow256_mono((s2.len() - 1) as nat, (s1.len() - 2) as nat);
            assert(128 * pow256((s2.len() - 1) as nat) <= 128 * pow256((s1.len() - 2) as nat))
                by (nonlinear_arith)
                requires
                    pow256((s2.len() - 1) as nat) <= pow256((s1.len() - 2) as nat),
            ;
        } else {
            lemma_minimal_neg_bounds(s1);
            lemma_minimal_neg_bounds(s2);
            assert(s1.len() >= 2);
            assert(v < -(128 * pow256((s1.len() - 2) as nat)));
            assert(v >= -(128 * pow256((s2.len() - 1) as nat)));
            lemma_pow256_mono((s2.len() - 1) as nat, (s1.len() - 2) as nat);
            assert(128 * pow256((s2.len() - 1) as nat) <= 128 * pow256((s1.len() - 2) as nat))
                by (nonlinear_arith)
                requires
                    pow256((s2.len() - 1) as nat) <= pow256((s1.len() - 2) as nat),
            ;
        }
    }
}

/// An arbitrary-precision signed integer, held as its canonical (minimal
/// two's-complement big-endian) atom bytes; the empty string is zero.
pub struct Number {
    bytes: Vec<u8>,
}

impl Number {
    /// The atom bytes this number is written as.
    pub closed spec fn rep(self) -> Seq<u8> {
        self.bytes@
    }

    /// The integer denoted.
    pub open spec fn value(self) -> int {
        int_value(self.rep())
    }

    pub open spec fn wf(self) -> bool {
        is_minimal(self.rep())
    }

    /// Read a number from signed big-endian bytes, normalizing away
    /// redundant leading bytes.
    pub fn from_bytes(b: Vec<u8>) -> (n: Number)
        ensures
            n.wf(),
            n.value() == int_value(b@),
            n.rep() == spec_canonical(b@),
    {
        let ghost orig = b@;
        let mut bytes = b;
        while bytes.len() >= 2 && (bytes[0] == 0x00 && bytes[1] < 0x80 || bytes[0] == 0xff
            && bytes[1] >= 0x80)
            invariant
                int_value(bytes@) == int_value(orig),
                spec_canonical(bytes@) == spec_canonical(orig),
            decreases bytes@.len(),
        {
            proof {
                lemma_drop_redundant_head(bytes@);
            }
            let ghost pre = bytes@;
            bytes.remove(0);
            proof {
                assert(bytes@ =~= pre.skip(1));
            }
        }
        if bytes.len() == 1 && bytes[0] == 0x00 {
            proof {
                lemma_drop_redundant_head(bytes@);
            }
            let ghost pre = bytes@;
            bytes.remove(0);
            proof {
                assert(bytes@ =~= pre.skip(1));
            }
        }
        Number { bytes }
    }

    /// The canonical signed big-endian encoding of this number.
    pub fn to_bytes(&self) -> (r: Vec<u8>)
        ensures
            r@ == self.rep(),
    {
        vstd::slice::slice_to_vec(self.bytes.as_slice())
    }
}

/// The one minimal signed encoding of an integer.
pub open spec fn min_bytes(v: int) -> Seq<u8> {
    choose|s: Seq<u8>| is_minimal(s) && int_value(s) == v
}

/// A well-formed number is written as the minimal encoding of its value.
pub proof fn lemma_rep_is_min_bytes(n: Number)
    requires
        n.wf(),
    ensures
        n.rep() == min_bytes(n.value()),
{
    assert(is_minimal(n.rep()) && int_value(n.rep()) == n.value());
    let w = choose|s: Seq<u8>| is_minimal(s) && int_value(s) == n.value();
    assert(is_minimal(w) && int_value(w) == n.value());
    lemma_minimal_unique(n.rep(), w);
}

/// Two well-formed numbers denoting one integer are written the same:
/// the canonical encoding is a bijection onto the integers.
pub proof fn lemma_number_rep_unique(n1: Number, n2: Number)
    requires
        n1.wf(),
        n2.wf(),
        n1.value() == n2.value(),
    ensures
        n1.rep() == n2.rep(),
{
    lemma_minimal_unique(n1.rep(), n2.rep());
}

/// 10 to the power `n`.
pub open spec fn pow10(n: nat) -> nat
    decreases n,
{
    if n == 0 {
        1
    } else {
        10 * pow10((n - 1) as nat)
    }
}

/// The value of a string of decimal digits (digit values, most significant
/// first).
pub open spec fn ds_value(s: Seq<u8>) -> nat
    decreases s.len(),
{
    if s.len() == 0 {
        0
    } else {
        (ds_value(s.drop_last()) * 10 + s.last()) as nat
    }
}

/// The same digits read least significant first.
spec fn ls_value(s: Seq<u8>) -> nat
    decreases s.len(),
{
    if s.len() == 0 {
        0
    } else {
        (s[0] + 10 * ls_value(s.skip(1))) as nat
    }
}

proof fn lemma_ds_of_reverse(s: Seq<u8>)
    ensures
        ds_value(s.reverse()) == ls_value(s),
    decreases s.len(),
{
    if s.len() > 0 {
        lemma_ds_of_reverse(s.skip(1));
        assert(s.reverse().drop_last() =~= s.skip(1).reverse());
        assert(s.reverse().last() == s[0]);
    }
}

proof fn lemma_be_zero(s: Seq<u8>)
    ensures
        (be_value(s) == 0) <==> (forall|i: int| 0 <= i < s.len() ==> s[i] == 0),
    decreases s.len(),
{
    if s.len() > 0 {
        lemma_be_zero(s.drop_last());
        if be_value(s) == 0 {
            assert forall|i: int| 0 <= i < s.len() implies s[i] == 0 by {
                if i < s.len() - 1 {
                    assert(s.drop_last()[i] == s[i]);
                } else {
                    assert(s.last() == s[i]);
                }
            }
        }
        if forall|i: int| 0 <= i < s.len() ==> s[i] == 0 {
            assert forall|i: int| 0 <= i < s.drop_last().len() implies s.drop_last()[i] == 0 by {
                assert(s.drop_last()[i] == s[i]);
            }
            assert(s.last() == 0);
        }
    }
}

/// True when the big-endian bytes denote zero.
fn mag_is_zero(mag: &[u8]) -> (r: bool)
    ensures
        r == (be_value(mag@) == 0),
{
    proof {
        lemma_be_zero(mag@);
    }
    let mut i: usize = 0;
    while i < mag.len()
        invariant
            i <= mag@.len(),
            forall|j: int| 0 <= j < i ==> mag@[j] == 0,
        decreases mag@.len() - i,
    {
        if mag[i] != 0 {
            proof {
                lemma_be_zero(mag@);
                assert(mag@[i as int] != 0);
            }
            return false;
        }
        i = i + 1;
    }
    true
}

/// Divide big-endian bytes by ten: quotient of the same width, remainder.
fn divmod10(mag: &[u8]) -> (r: (Vec<u8>, u8))
    ensures
        r.0@.len() == mag@.len(),
        be_value(r.0@) * 10 + r.1 == be_value(mag@),
        r.1 < 10,
{
    let mut q: Vec<u8> = Vec::new();
    let mut rem: u16 = 0;
    let mut i: usize = 0;
    proof {
        assert(mag@.subrange(0, 0) =~= Seq::<u8>::empty());
        assert(q@ =~= Seq::<u8>::empty());
    }
    while i < mag.len()
        invariant
            i <= mag@.len(),
            q@.len() == i,
            rem < 10,
            be_value(q@) * 10 + rem == be_value(mag@.subrange(0, i as int)),
        decreases mag@.len() - i,
    {
        let cur: u16 = rem * 256 + (mag[i] as u16);
        let qi: u16 = cur / 10;
        proof {
            let pre_q = q@;
            let pre = mag@.subrange(0, i as int);
            let post = mag@.subrange(0, i + 1);
            assert(post.drop_last() =~= pre);
            assert(post.last() == mag@[i as int]);
            assert(be_value(post) == be_value(pre) * 256 + mag@[i as int]);
            assert(qi < 256);
            assert(cur == qi * 10 + cur % 10);
            assert((be_value(pre_q) * 10 + rem) * 256 + mag@[i as int] == (be_value(pre_q) * 256
                + qi) * 10 + (cur % 10)) by (nonlinear_arith)
                requires
                    cur == rem * 256 + mag@[i as int],
                    cur == qi * 10 + cur % 10,
            ;
        }
        let ghost pre_q = q@;
        q.push(qi as u8);
        rem = cur % 10;
        i = i + 1;
        proof {
            assert(q@.drop_last() =~= pre_q);
            assert(q@.last() == qi as u8);
            assert((qi as u8) as int == qi as int);
            assert(be_value(q@) == be_value(pre_q) * 256 + qi);
        }
    }
    proof {
        assert(mag@.subrange(0, mag@.len() as int) =~= mag@);
    }
    (q, rem as u8)
}

/// Dividing a positive value by ten shrinks it.
proof fn lemma_div10_shrinks(q: nat, r: nat, v: nat)
    requires
        q * 10 + r == v,
        v > 0,
        r < 10,
    ensures
        q < v,
{
    if q >= v {
        assert(q * 10 >= v * 10) by (nonlinear_arith)
            requires
                q >= v,
        ;
        assert(v * 10 > v) by (nonlinear_arith)
            requires
                v > 0,
        ;
    }
}

/// The decimal digits (most significant first, no redundant leading zero)
/// of an unsigned big-endian value.
fn mag_to_digits(mag: Vec<u8>) -> (r: Vec<u8>)
    ensures
        r@.len() >= 1,
        forall|i: int| 0 <= i < r@.len() ==> r@[i] < 10,
        ds_value(r@) == be_value(mag@),
        r@.len() > 1 ==> r@[0] != 0,
{
    let ghost total = be_value(mag@);
    let mut out: Vec<u8> = Vec::new();
    let mut cur = mag;
    proof {
        assert(ls_value(out@) == 0);
        assert(pow10(0) == 1);
    }
    while !mag_is_zero(cur.as_slice())
        invariant
            be_value(cur@) * pow10(out@.len()) + ls_value(out@) == total,
            forall|i: int| 0 <= i < out@.len() ==> out@[i] < 10,
            out@.len() >= 1 ==> out@.last() != 0 || be_value(cur@) > 0,
        decreases be_value(cur@),
    {
        let (q, r) = divmod10(cur.as_slice());
        let ghost pre_out = out@;
        proof {
            lemma_div10_shrinks(be_value(q@), r as nat, be_value(cur@));
            let k = out@.len();
            assert((be_value(q@) * 10 + r) * pow10(k) == be_value(q@) * (10 * pow10(k)) + r
                * pow10(k)) by (nonlinear_arith);
            assert(pow10(k + 1) == 10 * pow10(k));
        }
        out.push(r);
        cur = q;
        proof {
            assert(out@.drop_last() =~= pre_out);
            assert(out@.last() == r);
            lemma_ls_snoc(out@);
        }
    }
    proof {
        assert(pow10(out@.len()) >= 1) by {
            lemma_pow10_pos(out@.len());
        }
        assert(ls_value(out@) == total) by {
            assert(be_value(cur@) == 0);
        }
    }
    if out.len() == 0 {
        proof {
            assert(total == 0);
        }
        out.push(0);
        proof {
            assert(out@ =~= seq![0u8]);
            assert(out@.drop_last() =~= Seq::<u8>::empty());
            assert(ds_value(out@.drop_last()) == 0);
            assert(ds_value(out@) == 0);
        }
        return out;
    }
    // reverse into most-significant-first order
    let mut res: Vec<u8> = Vec::new();
    let n = out.len();
    let mut i: usize = 0;
    while i < n
        invariant
            n == out@.len(),
            i <= n,
            res@.len() == i,
            forall|j: int| 0 <= j < i ==> res@[j] == out@[n - 1 - j],
        decreases n - i,
    {
        res.push(out[n - 1 - i]);
        i = i + 1;
    }
    proof {
        assert(res@ =~= out@.reverse());
        lemma_ds_of_reverse(out@);
        assert(out@.last() != 0);
        assert(res@[0] == out@[n - 1]);
    }
    res
}

proof fn lemma_pow10_pos(n: nat)
    ensures
        pow10(n) >= 1,
    decreases n,
{
    if n > 0 {
        lemma_pow10_pos((n - 1) as nat);
    }
}

proof fn lemma_ls_snoc(s: Seq<u8>)
    requires
        s.len() >= 1,
    ensures
        ls_value(s) == ls_value(s.drop_last()) + s.last() * pow10((s.len() - 1) as nat),
    decreases s.len(),
{
    if s.len() == 1 {
        assert(s.skip(1).len() == 0);
        assert(ls_value(s.skip(1)) == 0);
        assert(s.drop_last().len() == 0);
        assert(ls_value(s.drop_last()) == 0);
        assert(pow10(0) == 1);
        assert(s[0] == s.last());
        assert(ls_value(s) == s[0] + 10 * ls_value(s.skip(1)));
        assert(pow10((s.len() - 1) as nat) == 1);
        assert(s.last() * pow10((s.len() - 1) as nat) == s.last()) by (nonlinear_arith)
            requires
                pow10((s.len() - 1) as nat) == 1,
        ;
        assert(ls_value(s) == ls_value(s.drop_last()) + s.last() * pow10((s.len() - 1) as nat));
    } else {
        lemma_ls_snoc(s.skip(1));
        assert(s.skip(1).drop_last() =~= s.drop_last().skip(1));
        assert(s.skip(1).last() == s.last());
        assert(s.drop_last()[0] == s[0]);
        let k = (s.len() - 2) as nat;
        assert(ls_value(s) == s[0] + 10 * ls_value(s.skip(1)));
        assert(ls_value(s.skip(1)) == ls_value(s.drop_last().skip(1)) + s.last() * pow10(k));
        assert(10 * (ls_value(s.drop_last().skip(1)) + s.last() * pow10(k)) == 10 * ls_value(
            s.drop_last().skip(1),
        ) + s.last() * (10 * pow10(k))) by (nonlinear_arith);
        assert(pow10(k + 1) == 10 * pow10(k));
        assert(ls_value(s.drop_last()) == s[0] + 10 * ls_value(s.drop_last().skip(1)));
        assert(ls_value(s) == ls_value(s.drop_last()) + s.last() * pow10((s.len() - 1) as nat));
    }
}

/// Multiply big-endian bytes by ten and add a digit, in place.
fn mul10_add(mag: &mut Vec<u8>, d: u8)
    requires
        d < 10,
        old(mag)@.len() > 0 ==> old(mag)@[0] != 0,
    ensures
        be_value(final(mag)@) == 10 * be_value(old(mag)@) + d,
        final(mag)@.len() > 0 ==> final(mag)@[0] != 0,
{
    let ghost orig = mag@;
    let n = mag.len();
    let mut carry: u16 = d as u16;
    let mut i: usize = n;
    proof {
        assert(mag@.skip(n as int).len() == 0);
        assert(be_value(mag@.skip(n as int)) == 0);
        assert(orig.skip(n as int).len() == 0);
        assert(be_value(orig.skip(n as int)) == 0);
        assert(pow256(0) == 1);
        assert(pow256((n - n) as nat) == 1);
        assert(10 * be_value(orig.skip(n as int)) + d == carry * pow256((n - n) as nat)
            + be_value(mag@.skip(n as int)));
    }
    while i > 0
        invariant
            i <= n,
            n == mag@.len(),
            n == orig.len(),
            carry < 256,
            forall|j: int| 0 <= j < i ==> mag@[j] == orig[j],
            orig.len() > 0 ==> orig[0] != 0,
            (i == 0 && n > 0 && carry == 0) ==> mag@[0] != 0,
            10 * be_value(orig.skip(i as int)) + d == carry * pow256((n - i) as nat) + be_value(
                mag@.skip(i as int),
            ),
        decreases i,
    {
        i = i - 1;
        let v: u16 = (mag[i] as u16) * 10 + carry;
        let ghost pre = mag@;
        mag[i] = (v % 256) as u8;
        let newcarry = v / 256;
        proof {
            let k = (n - i - 1) as nat;
            assert(orig.skip(i as int)[0] == orig[i as int]);
            assert(orig.skip(i as int).skip(1) =~= orig.skip(i + 1));
            lemma_be_value_cons(orig.skip(i as int));
            assert(mag@.skip(i as int)[0] == v % 256);
            assert(mag@.skip(i as int).skip(1) =~= pre.skip(i + 1));
            assert(pre.skip(i + 1) =~= mag@.skip(i + 1));
            lemma_be_value_cons(mag@.skip(i as int));
            assert(v == newcarry * 256 + v % 256);
            assert(10 * (orig[i as int] * pow256(k) + be_value(orig.skip(i + 1))) + d == (10
                * orig[i as int]) * pow256(k) + (10 * be_value(orig.skip(i + 1)) + d))
                by (nonlinear_arith);
            assert(10 * orig[i as int] + carry == v) by {
                assert(pre[i as int] == orig[i as int]);
            }
            assert((10 * orig[i as int]) * pow256(k) + carry * pow256(k) == v * pow256(k))
                by (nonlinear_arith)
                requires
                    10 * orig[i as int] + carry == v,
            ;
            assert(v * pow256(k) == newcarry * (256 * pow256(k)) + (v % 256) * pow256(k))
                by (nonlinear_arith)
                requires
                    v == newcarry * 256 + v % 256,
            ;
            assert(pow256(k + 1) == 256 * pow256(k));
            assert forall|j: int| 0 <= j < i implies mag@[j] == orig[j] by {
                assert(mag@[j] == pre[j]);
            }
            if i == 0 && newcarry == 0 {
                assert(v < 256);
                assert(orig[0] != 0);
                assert(v >= 10);
                assert(mag@[0] == v % 256);
            }
        }
        carry = newcarry;
    }
    proof {
        assert(mag@.skip(0) =~= mag@);
        assert(orig.skip(0) =~= orig);
    }
    if carry > 0 {
        let ghost pre = mag@;
        mag.insert(0, carry as u8);
        proof {
            assert(mag@.skip(1) =~= pre);
            assert(mag@[0] == carry);
            lemma_be_value_cons(mag@);
        }
    }
}

/// The two's complement of a nonzero big-endian string, at the same width.
fn twos_complement(s: &[u8]) -> (r: Vec<u8>)
    requires
        be_value(s@) > 0,
    ensures
        r@.len() == s@.len(),
        be_value(r@) == pow256(s@.len()) - be_value(s@),
{
    let n = s.len();
    let mut r: Vec<u8> = Vec::new();
    let mut j: usize = 0;
    while j < n
        invariant
            j <= n,
            n == s@.len(),
            r@.len() == j,
        decreases n - j,
    {
        r.push(0);
        j = j + 1;
    }
    let mut carry: u16 = 1;
    let mut i: usize = n;
    proof {
        assert(s@.skip(n as int).len() == 0);
        assert(be_value(s@.skip(n as int)) == 0);
        assert(r@.skip(n as int).len() == 0);
        assert(be_value(r@.skip(n as int)) == 0);
    }
    while i > 0
        invariant
            i <= n,
            n == s@.len(),
            r@.len() == n,
            carry == 0 || carry == 1,
            (be_value(s@.skip(i as int)) == 0) ==> (be_value(r@.skip(i as int)) == 0 && carry
                == 1),
            (be_value(s@.skip(i as int)) > 0) ==> (be_value(r@.skip(i as int)) == pow256(
                (n - i) as nat,
            ) - be_value(s@.skip(i as int)) && carry == 0),
        decreases i,
    {
        i = i - 1;
        let v: u16 = 255 - (s[i] as u16) + carry;
        let ghost pre = r@;
        if v >= 256 {
            r[i] = 0;
            carry = 1;
        } else {
            r[i] = v as u8;
            carry = 0;
        }
        proof {
            let k = (n - i - 1) as nat;
            assert(s@.skip(i as int)[0] == s@[i as int]);
            assert(s@.skip(i as int).skip(1) =~= s@.skip(i + 1));
            lemma_be_value_cons(s@.skip(i as int));
            assert(r@.skip(i as int)[0] == r@[i as int]);
            assert(r@.skip(i as int).skip(1) =~= r@.skip(i + 1));
            assert(pre.skip(i + 1) =~= r@.skip(i + 1));
            lemma_be_value_cons(r@.skip(i as int));
            assert(pow256(k + 1) == 256 * pow256(k));
            lemma_be_value_bound(s@.skip(i + 1));
            lemma_pow256_pos(k);
            if be_value(s@.skip(i as int)) == 0 {
                assert(s@[i as int] == 0) by (nonlinear_arith)
                    requires
                        s@[i as int] * pow256(k) + be_value(s@.skip(i + 1)) == 0,
                        pow256(k) >= 1,
                ;
                assert(be_value(s@.skip(i + 1)) == 0);
            }
            if be_value(s@.skip(i as int)) > 0 {
                assert(s@[i as int] * pow256(k) + be_value(s@.skip(i + 1)) > 0);
                if be_value(s@.skip(i + 1)) == 0 {
                    assert(s@[i as int] > 0) by (nonlinear_arith)
                        requires
                            s@[i as int] * pow256(k) + be_value(s@.skip(i + 1)) > 0,
                            be_value(s@.skip(i + 1)) == 0,
                    ;
                    assert((256 - s@[i as int]) * pow256(k) == pow256(k + 1) - s@[i as int]
                        * pow256(k)) by (nonlinear_arith)
                        requires
                            pow256(k + 1) == 256 * pow256(k),
                    ;
                } else {
                    assert((255 - s@[i as int]) * pow256(k) + (pow256(k) - be_value(
                        s@.skip(i + 1),
                    )) == pow256(k + 1) - (s@[i as int] * pow256(k) + be_value(s@.skip(i + 1))))
                        by (nonlinear_arith)
                        requires
                            pow256(k + 1) == 256 * pow256(k),
                    ;
                }
            }
        }
    }
    proof {
        assert(s@.skip(0) =~= s@);
        assert(r@.skip(0) =~= r@);
    }
    r
}

/// The big-endian bytes of a digit string (no redundant leading zero byte).
fn digits_to_mag(digits: &[u8]) -> (r: Vec<u8>)
    requires
        forall|i: int| 0 <= i < digits@.len() ==> digits@[i] < 10,
    ensures
        be_value(r@) == ds_value(digits@),
        r@.len() > 0 ==> r@[0] != 0,
{
    let mut mag: Vec<u8> = Vec::new();
    let mut i: usize = 0;
    proof {
        assert(digits@.subrange(0, 0) =~= Seq::<u8>::empty());
    }
    while i < digits.len()
        invariant
            i <= digits@.len(),
            forall|j: int| 0 <= j < digits@.len() ==> digits@[j] < 10,
            be_value(mag@) == ds_value(digits@.subrange(0, i as int)),
            mag@.len() > 0 ==> mag@[0] != 0,
        decreases digits@.len() - i,
    {
        let d = digits[i];
        mul10_add(&mut mag, d);
        i = i + 1;
        proof {
            let pre = digits@.subrange(0, i - 1);
            let post = digits@.subrange(0, i as int);
            assert(post.drop_last() =~= pre);
            assert(post.last() == digits@[i - 1]);
        }
    }
    proof {
        assert(digits@.subrange(0, digits@.len() as int) =~= digits@);
    }
    mag
}

/// The sign and decimal digits of a number: `(true, ds)` for a negative
/// value of magnitude `ds`, `(false, ds)` otherwise. Digits come most
/// significant first with no redundant leading zero.
pub fn number_to_decimal(n: &Number) -> (r: (bool, Vec<u8>))
    ensures
        r.1@.len() >= 1,
        forall|i: int| 0 <= i < r.1@.len() ==> r.1@[i] < 10,
        r.1@.len() > 1 ==> r.1@[0] != 0,
        r.0 ==> n.value() < 0 && ds_value(r.1@) == -n.value(),
        !r.0 ==> n.value() >= 0 && ds_value(r.1@) == n.value(),
{
    let bytes = n.to_bytes();
    if bytes.len() == 0 {
        let mut digits: Vec<u8> = Vec::new();
        digits.push(0);
        proof {
            assert(digits@ =~= seq![0u8]);
            assert(digits@.drop_last() =~= Seq::<u8>::empty());
            assert(ds_value(Seq::<u8>::empty()) == 0);
            assert(digits@.last() == 0);
            assert(ds_value(digits@) == 0);
        }
        (false, digits)
    } else if bytes[0] < 0x80 {
        let digits = mag_to_digits(bytes);
        (false, digits)
    } else {
        proof {
            lemma_be_value_cons(n.rep());
            lemma_pow256_pos((n.rep().len() - 1) as nat);
            assert(be_value(n.rep()) >= 0x80 * pow256((n.rep().len() - 1) as nat))
                by (nonlinear_arith)
                requires
                    be_value(n.rep()) == n.rep()[0] * pow256((n.rep().len() - 1) as nat)
                        + be_value(n.rep().skip(1)),
                    n.rep()[0] >= 0x80,
                    pow256((n.rep().len() - 1) as nat) >= 1,
            ;
        }
        let t = twos_complement(bytes.as_slice());
        proof {
            lemma_be_value_bound(n.rep());
            assert(n.value() == be_value(n.rep()) - pow256(n.rep().len()));
            assert(be_value(t@) == pow256(n.rep().len()) - be_value(n.rep()));
        }
        let digits = mag_to_digits(t);
        (true, digits)
    }
}

/// The number written with the given sign and decimal digits.
pub fn number_from_decimal(digits: &[u8], negative: bool) -> (n: Number)
    requires
        forall|i: int| 0 <= i < digits@.len() ==> digits@[i] < 10,
    ensures
        n.wf(),
        negative ==> n.value() == -(ds_value(digits@) as int),
        !negative ==> n.value() == ds_value(digits@),
{
    let mag = digits_to_mag(digits);
    let mut padded: Vec<u8> = Vec::new();
    padded.push(0);
    let ghost magv = mag@;
    let mut mag = mag;
    padded.append(&mut mag);
    proof {
        assert(padded@ =~= seq![0u8] + magv);
        assert(padded@.len() == 1 + magv.len());
        assert(padded@.skip(1) =~= magv);
        lemma_be_value_cons(padded@);
        assert(padded@[0] == 0);
        assert(be_value(padded@) == padded@[0] * pow256((padded@.len() - 1) as nat) + be_value(
            padded@.skip(1),
        ));
        assert(padded@[0] * pow256((padded@.len() - 1) as nat) == 0) by (nonlinear_arith)
            requires
                padded@[0] == 0,
        ;
        assert(be_value(padded@.skip(1)) == be_value(magv));
        assert(be_value(padded@) == be_value(magv));
    }
    if negative {
        if mag_is_zero(padded.as_slice()) {
            Number::from_bytes(padded)
        } else {
            let nlen = padded.len();
            let t = twos_complement(padded.as_slice());
            proof {
                lemma_be_value_bound(magv);
                assert(be_value(t@) == pow256(padded@.len()) - be_value(padded@));
                assert(pow256(padded@.len()) == 256 * pow256(magv.len()));
                // the top byte of the complement has its sign bit set
                lemma_be_value_cons(t@);
                lemma_be_value_bound(t@.skip(1));
                let p = pow256((t@.len() - 1) as nat);
                assert(t@.len() - 1 == magv.len());
                lemma_pow256_pos(magv.len());
                assert(be_value(padded@) <= p - 1) by {
                    lemma_be_value_bound(magv);
                }
                assert(be_value(t@) >= 255 * p) by (nonlinear_arith)
                    requires
                        be_value(t@) == pow256(t@.len()) - be_value(padded@),
                        pow256(t@.len()) == 256 * p,
                        be_value(padded@) <= p - 1,
                        p >= 1,
                ;
                assert(t@[0] >= 0x80) by (nonlinear_arith)
                    requires
                        be_value(t@) == t@[0] * p + be_value(t@.skip(1)),
                        be_value(t@.skip(1)) < p,
                        be_value(t@) >= 255 * p,
                        p >= 1,
                ;
                assert(int_value(t@) == be_value(t@) - pow256(t@.len()));
                assert(int_value(t@) == -(be_value(magv) as int));
            }
            Number::from_bytes(t)
        }
    } else {
        let n = Number::from_bytes(padded);
        proof {
            if magv.len() == 0 {
                assert(int_value(padded@) == be_value(padded@));
            } else {
                assert(padded@[0] == 0);
                assert(int_value(padded@) == be_value(padded@));
            }
        }
        n
    }
}

/// Prepending a byte to a big-endian string.
pub proof fn lemma_be_value_cons(s: Seq<u8>)
    requires
        s.len() >= 1,
    ensures
        be_value(s) == s[0] * pow256((s.len() - 1) as nat) + be_value(s.skip(1)),
    decreases s.len(),
{
    if s.len() == 1 {
        assert(s.drop_last().len() == 0);
        assert(be_value(s.drop_last()) == 0);
        assert(s.skip(1).len() == 0);
        assert(be_value(s.skip(1)) == 0);
        assert(s.last() == s[0]);
        assert(be_value(s) == s[0]);
        assert(pow256((s.len() - 1) as nat) == 1);
    } else {
        let dl = s.drop_last();
        let n = (s.len() - 2) as nat;
        lemma_be_value_cons(dl);
        assert(dl[0] == s[0]);
        assert(dl.skip(1) =~= s.skip(1).drop_last());
        assert(s.skip(1).last() == s.last());
        assert(be_value(s) == be_value(dl) * 256 + s.last());
        assert(be_value(dl) == s[0] * pow256(n) + be_value(dl.skip(1)));
        assert((s[0] * pow256(n) + be_value(dl.skip(1))) * 256 + s.last() == s[0] * (256 * pow256(
            n,
        )) + (be_value(dl.skip(1)) * 256 + s.last())) by (nonlinear_arith);
        assert(pow256((s.len() - 1) as nat) == 256 * pow256(n));
        assert(be_value(s.skip(1)) == be_value(s.skip(1).drop_last()) * 256 + s.skip(1).last());
        assert(be_value(s) == s[0] * pow256((s.len() - 1) as nat) + be_value(s.skip(1)));
    }
}

} // verus!
