//! Printing the textual form: whitespace-separated tokens, `()` for nil,
//! list sugar with a dotted tail where needed, quoted strings with escapes,
//! decimal integers and `0x` hex literals. All output is printable ASCII.

use vstd::prelude::*;

use crate::casts::{ds_value, int_value, Number, number_to_decimal};
use crate::ir::{printable_bytes, IRRepr, IRView};

verus! {

/// One escaped character of a quoted string.
pub open spec fn esc1(c: u8) -> Seq<u8> {
    if c == '"' as u8 || c == '\\' as u8 {
        seq!['\\' as u8, c]
    } else {
        seq![c]
    }
}

/// A quoted string's body, with quote and backslash escaped.
pub open spec fn escaped(b: Seq<u8>) -> Seq<u8>
    decreases b.len(),
{
    if b.len() == 0 {
        Seq::empty()
    } else {
        esc1(b[0]) + escaped(b.skip(1))
    }
}

/// The decimal digits of `n`, most significant first.
pub open spec fn dec_digits(n: nat) -> Seq<u8>
    decreases n,
{
    if n < 10 {
        seq![(0x30 + n) as u8]
    } else {
        dec_digits(n / 10).push((0x30 + n % 10) as u8)
    }
}

/// The decimal form of a signed atom.
pub open spec fn int_text(b: Seq<u8>) -> Seq<u8> {
    if int_value(b) >= 0 {
        dec_digits(int_value(b) as nat)
    } else {
        seq!['-' as u8] + dec_digits((-int_value(b)) as nat)
    }
}

/// A hex digit, lower case.
pub open spec fn hex_char(n: u8) -> u8 {
    if n < 10 {
        (0x30 + n) as u8
    } else {
        ('a' as u8 + (n - 10)) as u8
    }
}

/// Two hex digits per byte.
pub open spec fn hex_digits(b: Seq<u8>) -> Seq<u8>
    decreases b.len(),
{
    if b.len() == 0 {
        Seq::empty()
    } else {
        seq![hex_char(b[0] / 16), hex_char(b[0] % 16)] + hex_digits(b.skip(1))
    }
}

/// The exact text a textual node prints as.
pub open spec fn ir_text(ir: IRView) -> Seq<u8>
    decreases ir, 0nat,
{
    match ir {
        IRView::Null => seq!['(' as u8, ')' as u8],
        IRView::Quotes(b) => seq!['"' as u8] + escaped(b) + seq!['"' as u8],
        IRView::Int(b, _) => int_text(b),
        IRView::Hex(b) => seq!['0' as u8, 'x' as u8] + hex_digits(b),
        IRView::Symbol(s) => s,
        IRView::Cons(l, r) => seq!['(' as u8] + ir_text(*l) + ir_tail(*r),
    }
}

/// The text after a list's first element: further elements, a closing
/// paren, or a dotted tail.
pub open spec fn ir_tail(ir: IRView) -> Seq<u8>
    decreases ir, 1nat,
{
    match ir {
        IRView::Null => seq![')' as u8],
        IRView::Cons(a, b) => seq![' ' as u8] + ir_text(*a) + ir_tail(*b),
        _ => seq![' ' as u8, '.' as u8, ' ' as u8] + ir_text(ir) + seq![')' as u8],
    }
}

/// Textual nodes the printer handles: quoted bodies hold printable ASCII
/// and symbols hold nonempty printable names without spaces.
pub open spec fn ir_wf(ir: IRView) -> bool
    decreases ir,
{
    match ir {
        IRView::Null => true,
        IRView::Quotes(b) => printable_bytes(b),
        IRView::Int(_, _) => true,
        IRView::Hex(_) => true,
        IRView::Symbol(s) => s.len() >= 1 && forall|i: int|
            0 <= i < s.len() ==> 0x21 <= #[trigger] s[i] <= 0x7e,
        IRView::Cons(l, r) => ir_wf(*l) && ir_wf(*r),
    }
}

proof fn lemma_escaped_snoc(b: Seq<u8>)
    requires
        b.len() >= 1,
    ensures
        escaped(b) == escaped(b.drop_last()) + esc1(b.last()),
    decreases b.len(),
{
    if b.len() == 1 {
        assert(b.skip(1).len() == 0);
        assert(b.drop_last().len() == 0);
        assert(escaped(b) =~= esc1(b[0]) + Seq::<u8>::empty());
        assert(escaped(b.drop_last()) + esc1(b.last()) =~= esc1(b[0]));
        assert(escaped(b) =~= escaped(b.drop_last()) + esc1(b.last()));
    } else {
        lemma_escaped_snoc(b.skip(1));
        assert(b.skip(1).drop_last() =~= b.drop_last().skip(1));
        assert(b.skip(1).last() == b.last());
        assert(b.drop_last()[0] == b[0]);
        assert(escaped(b) == esc1(b[0]) + escaped(b.skip(1)));
        assert(escaped(b.drop_last()) == esc1(b[0]) + escaped(b.drop_last().skip(1)));
        assert(escaped(b) =~= escaped(b.drop_last()) + esc1(b.last()));
    }
}

pub proof fn lemma_hex_snoc_pub(b: Seq<u8>)
    requires
        b.len() >= 1,
    ensures
        hex_digits(b) == hex_digits(b.drop_last()) + seq![
            hex_char(b.last() / 16),
            hex_char(b.last() % 16),
        ],
{
    lemma_hex_snoc(b);
}

proof fn lemma_hex_snoc(b: Seq<u8>)
    requires
        b.len() >= 1,
    ensures
        hex_digits(b) == hex_digits(b.drop_last()) + seq![
            hex_char(b.last() / 16),
            hex_char(b.last() % 16),
        ],
    decreases b.len(),
{
    if b.len() == 1 {
        assert(b.skip(1).len() == 0);
        assert(hex_digits(b.skip(1)) == Seq::<u8>::empty());
        assert(b.drop_last().len() == 0);
        assert(hex_digits(b.drop_last()) == Seq::<u8>::empty());
        assert(b.last() == b[0]);
        assert(hex_digits(b) == seq![hex_char(b[0] / 16), hex_char(b[0] % 16)] + hex_digits(
            b.skip(1),
        ));
        assert(hex_digits(b) =~= hex_digits(b.drop_last()) + seq![
            hex_char(b.last() / 16),
            hex_char(b.last() % 16),
        ]);
    } else {
        lemma_hex_snoc(b.skip(1));
        assert(b.skip(1).drop_last() =~= b.drop_last().skip(1));
        assert(b.skip(1).last() == b.last());
        assert(b.drop_last()[0] == b[0]);
        assert(hex_digits(b) == seq![hex_char(b[0] / 16), hex_char(b[0] % 16)] + hex_digits(
            b.skip(1),
        ));
        assert(hex_digits(b.drop_last()) == seq![hex_char(b[0] / 16), hex_char(b[0] % 16)]
            + hex_digits(b.drop_last().skip(1)));
        assert(hex_digits(b) =~= hex_digits(b.drop_last()) + seq![
            hex_char(b.last() / 16),
            hex_char(b.last() % 16),
        ]);
    }
}

/// A digit string of a positive-leading well-formed shape is the one
/// decimal spelling of its value.
proof fn lemma_dec_digits_unique(d: Seq<u8>)
    requires
        d.len() >= 1,
        forall|i: int| 0 <= i < d.len() ==> #[trigger] d[i] < 10,
        d.len() > 1 ==> d[0] != 0,
    ensures
        Seq::new(d.len(), |i: int| (0x30 + d[i]) as u8) == dec_digits(ds_value(d)),
    decreases d.len(),
{
    let ascii = Seq::new(d.len(), |i: int| (0x30 + d[i]) as u8);
    if d.len() == 1 {
        assert(d.drop_last().len() == 0);
        assert(ds_value(d.drop_last()) == 0);
        assert(ds_value(d) == d[0]);
        assert(ascii =~= seq![(0x30 + d[0]) as u8]);
        assert(dec_digits(ds_value(d)) == seq![(0x30 + ds_value(d)) as u8]);
    } else {
        let prefix = d.drop_last();
        lemma_ds_lower(prefix);
        assert forall|i: int| 0 <= i < prefix.len() implies #[trigger] prefix[i] < 10 by {
            assert(prefix[i] == d[i]);
        }
        lemma_dec_digits_unique(prefix);
        let n = ds_value(d);
        assert(n == ds_value(prefix) * 10 + d.last());
        assert(n / 10 == ds_value(prefix) && n % 10 == d.last()) by (nonlinear_arith)
            requires
                n == ds_value(prefix) * 10 + d.last(),
                d.last() < 10,
        ;
        assert(n >= 10) by (nonlinear_arith)
            requires
                n == ds_value(prefix) * 10 + d.last(),
                ds_value(prefix) >= 1,
        ;
        assert(dec_digits(n) == dec_digits(ds_value(prefix)).push((0x30 + d.last()) as u8));
        assert(ascii =~= Seq::new(prefix.len(), |i: int| (0x30 + prefix[i]) as u8).push(
            (0x30 + d.last()) as u8,
        ));
    }
}

/// A digit string with a nonzero leading digit denotes at least one.
proof fn lemma_ds_lower(d: Seq<u8>)
    requires
        d.len() >= 1,
        d.len() > 1 ==> d[0] != 0,
        forall|i: int| 0 <= i < d.len() ==> #[trigger] d[i] < 10,
    ensures
        d.len() > 1 ==> ds_value(d) >= 1,
        d[0] != 0 ==> ds_value(d) >= 1,
    decreases d.len(),
{
    if d.len() == 1 {
        assert(ds_value(d.drop_last()) == 0);
        assert(ds_value(d) == d[0]);
    } else {
        let prefix = d.drop_last();
        assert(prefix[0] == d[0]);
        assert forall|i: int| 0 <= i < prefix.len() implies #[trigger] prefix[i] < 10 by {
            assert(prefix[i] == d[i]);
        }
        lemma_ds_lower(prefix);
        assert(ds_value(prefix) >= 1);
        assert(ds_value(d) == ds_value(prefix) * 10 + d.last());
        assert(ds_value(prefix) * 10 >= 10) by (nonlinear_arith)
            requires
                ds_value(prefix) >= 1,
        ;
    }
}

/// Append the text of one node.
pub fn write_node(ir: &IRRepr, out: &mut Vec<u8>)
    ensures
        final(out)@ == old(out)@ + ir_text(ir.view()),
    decreases ir, 0nat,
{
    let ghost base = out@;
    match ir {
        IRRepr::Null => {
            out.push('(' as u8);
            out.push(')' as u8);
            proof {
                assert(out@ =~= base + ir_text(ir.view()));
            }
        },
        IRRepr::Quotes(b) => {
            out.push('"' as u8);
            let mut i: usize = 0;
            proof {
                assert(b@.subrange(0, 0) =~= Seq::<u8>::empty());
                assert(out@ =~= base + seq!['"' as u8] + escaped(b@.subrange(0, 0)));
            }
            while i < b.len()
                invariant
                    i <= b@.len(),
                    out@ == base + seq!['"' as u8] + escaped(b@.subrange(0, i as int)),
                decreases b@.len() - i,
            {
                let c = b[i];
                if c == '"' as u8 || c == '\\' as u8 {
                    out.push('\\' as u8);
                    out.push(c);
                } else {
                    out.push(c);
                }
                i = i + 1;
                proof {
                    let pre = b@.subrange(0, i - 1);
                    let post = b@.subrange(0, i as int);
                    assert(post.drop_last() =~= pre);
                    assert(post.last() == b@[i - 1]);
                    lemma_escaped_snoc(post);
                    assert(out@ =~= base + seq!['"' as u8] + escaped(post));
                }
            }
            out.push('"' as u8);
            proof {
                assert(b@.subrange(0, b@.len() as int) =~= b@);
                assert(out@ =~= base + ir_text(ir.view()));
            }
        },
        IRRepr::Int(b, _signed) => {
            let n = Number::from_bytes(vstd::slice::slice_to_vec(b.as_slice()));
            let (neg, digits) = number_to_decimal(&n);
            if neg {
                out.push('-' as u8);
            }
            let ghost base2 = out@;
            let mut i: usize = 0;
            proof {
                assert(digits@.subrange(0, 0) =~= Seq::<u8>::empty());
            }
            while i < digits.len()
                invariant
                    i <= digits@.len(),
                    forall|j: int| 0 <= j < digits@.len() ==> #[trigger] digits@[j] < 10,
                    out@ == base2 + Seq::new(i as nat, |j: int| (0x30 + digits@[j]) as u8),
                decreases digits@.len() - i,
            {
                let d = digits[i];
                out.push(0x30 + d);
                i = i + 1;
                proof {
                    assert(out@ =~= base2 + Seq::new(i as nat, |j: int| (0x30 + digits@[j]) as u8));
                }
            }
            proof {
                lemma_dec_digits_unique(digits@);
                assert(Seq::new(digits@.len(), |j: int| (0x30 + digits@[j]) as u8) == dec_digits(
                    ds_value(digits@),
                ));
                assert(out@ =~= base + int_text(b@));
            }
        },
        IRRepr::Hex(b) => {
            out.push('0' as u8);
            out.push('x' as u8);
            let mut i: usize = 0;
            proof {
                assert(b@.subrange(0, 0) =~= Seq::<u8>::empty());
                assert(out@ =~= base + seq!['0' as u8, 'x' as u8] + hex_digits(
                    b@.subrange(0, 0),
                ));
            }
            while i < b.len()
                invariant
                    i <= b@.len(),
                    out@ == base + seq!['0' as u8, 'x' as u8] + hex_digits(
                        b@.subrange(0, i as int),
                    ),
                decreases b@.len() - i,
            {
                let c = b[i];
                let hi = c / 16;
                let lo = c % 16;
                if hi < 10 {
                    out.push(0x30 + hi);
                } else {
                    out.push('a' as u8 + (hi - 10));
                }
                if lo < 10 {
                    out.push(0x30 + lo);
                } else {
                    out.push('a' as u8 + (lo - 10));
                }
                i = i + 1;
                proof {
                    let pre = b@.subrange(0, i - 1);
                    let post = b@.subrange(0, i as int);
                    assert(post.drop_last() =~= pre);
                    assert(post.last() == b@[i - 1]);
                    lemma_hex_snoc(post);
                    assert(out@ =~= base + seq!['0' as u8, 'x' as u8] + hex_digits(post));
                }
            }
            proof {
                assert(b@.subrange(0, b@.len() as int) =~= b@);
                assert(out@ =~= base + ir_text(ir.view()));
            }
        },
        IRRepr::Symbol(s) => {
            out.extend_from_slice(s.as_slice());
            proof {
                assert(out@ =~= base + ir_text(ir.view()));
            }
        },
        IRRepr::Cons(l, r) => {
            out.push('(' as u8);
            write_node(l, out);
            write_tail(r, out);
            proof {
                assert(out@ =~= base + ir_text(ir.view()));
            }
        },
    }
}

/// Append the text that follows a list's first element.
pub fn write_tail(ir: &IRRepr, out: &mut Vec<u8>)
    ensures
        final(out)@ == old(out)@ + ir_tail(ir.view()),
    decreases ir, 1nat,
{
    let ghost base = out@;
    match ir {
        IRRepr::Null => {
            out.push(')' as u8);
            proof {
                assert(out@ =~= base + ir_tail(ir.view()));
            }
        },
        IRRepr::Cons(a, b) => {
            out.push(' ' as u8);
            write_node(a, out);
            write_tail(b, out);
            proof {
                assert(out@ =~= base + ir_tail(ir.view()));
            }
        },
        _ => {
            out.push(' ' as u8);
            out.push('.' as u8);
            out.push(' ' as u8);
            write_node(ir, out);
            out.push(')' as u8);
            proof {
                assert(out@ =~= base + ir_tail(ir.view()));
            }
        },
    }
}

/// The text of a whole textual tree, as bytes.
pub fn write_ir_bytes(ir: &IRRepr) -> (r: Vec<u8>)
    ensures
        r@ == ir_text(ir.view()),
{
    let mut out: Vec<u8> = Vec::new();
    write_node(ir, &mut out);
    proof {
        assert(out@ =~= ir_text(ir.view()));
    }
    out
}

} // verus!
