//! Disassembly and assembly: between trees and their human-readable text.
//! Every textual shape of an atom assembles back to the same atom, so the
//! textual codec loses nothing.

use vstd::prelude::*;

use crate::arena::{Arena, EvalError, SExp, Tree};
use crate::ir::{
    ir_of_tree, ir_to_tree, printable_bytes, spec_ir_for_atom, IRRepr, IRView,
};
use crate::ir_reader::{parse_expr_spec, read_ir, ParseError};
use crate::ir_writer::{ir_text, ir_wf, write_ir_bytes};
use crate::keywords::{keyword_from_atom, keyword_to_atom, kw_name};

verus! {

/// True when every character of the text is printable ASCII, the condition
/// for an atom to be shown as a quoted string.
pub fn is_printable_string(s: &String) -> (r: bool)
    ensures
        r == printable_bytes(vstd::utf8::encode_utf8(s@)),
{
    let bytes = s.as_str().as_bytes();
    printable_slice(bytes)
}

fn printable_slice(b: &[u8]) -> (r: bool)
    ensures
        r == printable_bytes(b@),
{
    let mut i: usize = 0;
    while i < b.len()
        invariant
            i <= b@.len(),
            forall|j: int| 0 <= j < i ==> 0x20 <= #[trigger] b@[j] <= 0x7e,
        decreases b@.len() - i,
    {
        let c = b[i];
        if c < 0x20 || c > 0x7e {
            return false;
        }
        i = i + 1;
    }
    true
}

/// The presentation chosen for one atom; see [`spec_ir_for_atom`].
pub fn ir_for_atom(atom: &Vec<u8>, allow_keyword: bool) -> (r: IRRepr)
    ensures
        r.view() == spec_ir_for_atom(atom@, allow_keyword),
{
    if atom.len() == 0 {
        IRRepr::Null
    } else if atom.len() > 2 && printable_slice(atom.as_slice()) {
        IRRepr::Quotes(vstd::slice::slice_to_vec(atom.as_slice()))
    } else {
        let kw = if allow_keyword {
            keyword_from_atom(atom.as_slice())
        } else {
            None
        };
        match kw {
            Some(name) => IRRepr::Symbol(name),
            None => {
                if atom.len() == 1 || atom[0] != 0 {
                    IRRepr::Int(vstd::slice::slice_to_vec(atom.as_slice()), true)
                } else {
                    IRRepr::Hex(vstd::slice::slice_to_vec(atom.as_slice()))
                }
            },
        }
    }
}

/// Lower a textual node into a tree in the arena; see [`ir_to_tree`].
/// Symbols resolve through the keyword table, the escape marker strips to
/// the literal bytes, and unknown names degrade to literal atoms.
pub fn assemble_from_ir(a: &mut Arena, ir: &IRRepr) -> (r: Result<SExp, EvalError>)
    requires
        old(a).wf(),
    ensures
        final(a).wf(),
        final(a).extends(*old(a)),
        r matches Ok(h) && final(a).contains(h) && final(a).tree(h) == ir_to_tree(ir.view()),
    decreases ir,
{
    match ir {
        IRRepr::Null => {
            let h = a.null();
            proof {
                assert(Tree::nil() == ir_to_tree(ir.view()));
            }
            Ok(h)
        },
        IRRepr::Quotes(b) => {
            let h = a.new_atom(vstd::slice::slice_to_vec(b.as_slice()));
            Ok(h)
        },
        IRRepr::Int(b, _signed) => {
            let h = a.new_atom(vstd::slice::slice_to_vec(b.as_slice()));
            Ok(h)
        },
        IRRepr::Hex(b) => {
            let h = a.new_atom(vstd::slice::slice_to_vec(b.as_slice()));
            Ok(h)
        },
        IRRepr::Symbol(s) => {
            if s.len() >= 1 && s[0] == '#' as u8 {
                let stripped = vstd::slice::slice_to_vec(
                    vstd::slice::slice_subrange(s.as_slice(), 1, s.len()),
                );
                proof {
                    assert(stripped@ =~= s@.skip(1));
                }
                let h = a.new_atom(stripped);
                Ok(h)
            } else {
                match keyword_to_atom(s.as_slice()) {
                    Some(atom) => {
                        let h = a.new_atom(atom);
                        Ok(h)
                    },
                    None => {
                        let h = a.new_atom(vstd::slice::slice_to_vec(s.as_slice()));
                        Ok(h)
                    },
                }
            }
        },
        IRRepr::Cons(l, r) => {
            let ghost a0 = *a;
            let lh = match assemble_from_ir(a, l) {
                Ok(h) => h,
                Err(e) => {
                    return Err(e);
                },
            };
            let ghost a1 = *a;
            let rh = match assemble_from_ir(a, r) {
                Ok(h) => h,
                Err(e) => {
                    return Err(e);
                },
            };
            let ghost a2 = *a;
            let h = a.new_pair(lh, rh);
            proof {
                assert(a1.contains(lh));
                assert(a2.tree(lh) == a1.tree(lh));
                crate::arena::lemma_extends_trans(a0, a1, a2);
                crate::arena::lemma_extends_trans(a0, a2, *a);
            }
            Ok(h)
        },
    }
}

spec fn all_ascii(b: Seq<u8>) -> bool {
    forall|i: int| 0 <= i < b.len() ==> #[trigger] b[i] < 0x80
}

proof fn lemma_ascii_concat(x: Seq<u8>, y: Seq<u8>)
    requires
        all_ascii(x),
        all_ascii(y),
    ensures
        all_ascii(x + y),
{
    assert forall|i: int| 0 <= i < (x + y).len() implies #[trigger] (x + y)[i] < 0x80 by {
        if i < x.len() {
            assert((x + y)[i] == x[i]);
        } else {
            assert((x + y)[i] == y[i - x.len()]);
        }
    }
}

/// Every byte printed for a well-formed textual node is ASCII.
proof fn lemma_ir_text_ascii(ir: IRView)
    requires
        ir_wf(ir),
    ensures
        all_ascii(ir_text(ir)),
    decreases ir, 0nat,
{
    match ir {
        IRView::Null => {
            assert forall|i: int| 0 <= i < ir_text(ir).len() implies #[trigger] ir_text(ir)[i]
                < 0x80 by {
                assert(i == 0 || i == 1);
            }
        },
        IRView::Quotes(b) => {
            lemma_escaped_ascii(b);
            assert(all_ascii(seq!['"' as u8])) by {
                assert(seq!['"' as u8][0] < 0x80);
            }
            lemma_ascii_concat(seq!['"' as u8], crate::ir_writer::escaped(b));
            lemma_ascii_concat(seq!['"' as u8] + crate::ir_writer::escaped(b), seq!['"' as u8]);
        },
        IRView::Int(b, _) => {
            lemma_int_text_ascii(b);
        },
        IRView::Hex(b) => {
            lemma_hex_ascii(b);
            assert(all_ascii(seq!['0' as u8, 'x' as u8])) by {
                assert(seq!['0' as u8, 'x' as u8][0] < 0x80);
                assert(seq!['0' as u8, 'x' as u8][1] < 0x80);
            }
            lemma_ascii_concat(seq!['0' as u8, 'x' as u8], crate::ir_writer::hex_digits(b));
        },
        IRView::Symbol(s) => {
            assert forall|i: int| 0 <= i < s.len() implies #[trigger] s[i] < 0x80 by {
                assert(0x21 <= s[i] <= 0x7e);
            }
        },
        IRView::Cons(l, r) => {
            lemma_ir_text_ascii(*l);
            lemma_ir_tail_ascii(*r);
            assert(all_ascii(seq!['(' as u8])) by {
                assert(seq!['(' as u8][0] < 0x80);
            }
            lemma_ascii_concat(seq!['(' as u8], ir_text(*l));
            lemma_ascii_concat(seq!['(' as u8] + ir_text(*l), crate::ir_writer::ir_tail(*r));
        },
    }
}

proof fn lemma_ir_tail_ascii(ir: IRView)
    requires
        ir_wf(ir),
    ensures
        all_ascii(crate::ir_writer::ir_tail(ir)),
    decreases ir, 1nat,
{
    match ir {
        IRView::Null => {
            assert forall|i: int|
                0 <= i < crate::ir_writer::ir_tail(ir).len() implies
                #[trigger] crate::ir_writer::ir_tail(ir)[i] < 0x80 by {
                assert(i == 0);
            }
        },
        IRView::Cons(a, b) => {
            lemma_ir_text_ascii(*a);
            lemma_ir_tail_ascii(*b);
            assert(all_ascii(seq![' ' as u8])) by {
                assert(seq![' ' as u8][0] < 0x80);
            }
            lemma_ascii_concat(seq![' ' as u8], ir_text(*a));
            lemma_ascii_concat(seq![' ' as u8] + ir_text(*a), crate::ir_writer::ir_tail(*b));
        },
        _ => {
            lemma_ir_text_ascii(ir);
            assert(all_ascii(seq![' ' as u8, '.' as u8, ' ' as u8])) by {
                assert(seq![' ' as u8, '.' as u8, ' ' as u8][0] < 0x80);
                assert(seq![' ' as u8, '.' as u8, ' ' as u8][1] < 0x80);
                assert(seq![' ' as u8, '.' as u8, ' ' as u8][2] < 0x80);
            }
            assert(all_ascii(seq![')' as u8])) by {
                assert(seq![')' as u8][0] < 0x80);
            }
            lemma_ascii_concat(seq![' ' as u8, '.' as u8, ' ' as u8], ir_text(ir));
            lemma_ascii_concat(
                seq![' ' as u8, '.' as u8, ' ' as u8] + ir_text(ir),
                seq![')' as u8],
            );
        },
    }
}

proof fn lemma_escaped_ascii(b: Seq<u8>)
    requires
        printable_bytes(b),
    ensures
        all_ascii(crate::ir_writer::escaped(b)),
    decreases b.len(),
{
    if b.len() == 0 {
        assert(crate::ir_writer::escaped(b).len() == 0);
    } else {
        assert(printable_bytes(b.skip(1))) by {
            assert forall|i: int| 0 <= i < b.skip(1).len() implies 0x20 <= #[trigger] b.skip(1)[i]
                <= 0x7e by {
                assert(b.skip(1)[i] == b[i + 1]);
            }
        }
        lemma_escaped_ascii(b.skip(1));
        assert(0x20 <= b[0] <= 0x7e);
        assert(all_ascii(crate::ir_writer::esc1(b[0]))) by {
            let e = crate::ir_writer::esc1(b[0]);
            assert forall|i: int| 0 <= i < e.len() implies #[trigger] e[i] < 0x80 by {
                assert(i == 0 || i == 1);
            }
        }
        lemma_ascii_concat(crate::ir_writer::esc1(b[0]), crate::ir_writer::escaped(b.skip(1)));
    }
}

proof fn lemma_dec_digits_ascii(n: nat)
    ensures
        all_ascii(crate::ir_writer::dec_digits(n)),
    decreases n,
{
    if n < 10 {
        assert forall|i: int|
            0 <= i < crate::ir_writer::dec_digits(n).len() implies
            #[trigger] crate::ir_writer::dec_digits(n)[i] < 0x80 by {
            assert(i == 0);
        }
    } else {
        lemma_dec_digits_ascii(n / 10);
        let d = crate::ir_writer::dec_digits(n);
        assert forall|i: int| 0 <= i < d.len() implies #[trigger] d[i] < 0x80 by {
            if i < d.len() - 1 {
                assert(d[i] == crate::ir_writer::dec_digits(n / 10)[i]);
            } else {
                assert(d[i] == (0x30 + n % 10) as u8);
            }
        }
    }
}

proof fn lemma_int_text_ascii(b: Seq<u8>)
    ensures
        all_ascii(crate::ir_writer::int_text(b)),
{
    if crate::casts::int_value(b) >= 0 {
        lemma_dec_digits_ascii(crate::casts::int_value(b) as nat);
    } else {
        lemma_dec_digits_ascii((-crate::casts::int_value(b)) as nat);
        assert(all_ascii(seq!['-' as u8])) by {
            assert(seq!['-' as u8][0] < 0x80);
        }
        lemma_ascii_concat(
            seq!['-' as u8],
            crate::ir_writer::dec_digits((-crate::casts::int_value(b)) as nat),
        );
    }
}

proof fn lemma_hex_ascii(b: Seq<u8>)
    ensures
        all_ascii(crate::ir_writer::hex_digits(b)),
    decreases b.len(),
{
    if b.len() == 0 {
        assert(crate::ir_writer::hex_digits(b).len() == 0);
    } else {
        lemma_hex_ascii(b.skip(1));
        let two = seq![
            crate::ir_writer::hex_char(b[0] / 16),
            crate::ir_writer::hex_char(b[0] % 16),
        ];
        assert(all_ascii(two)) by {
            assert forall|i: int| 0 <= i < two.len() implies #[trigger] two[i] < 0x80 by {
                assert(i == 0 || i == 1);
            }
        }
        lemma_ascii_concat(two, crate::ir_writer::hex_digits(b.skip(1)));
    }
}

/// The presentation of any tree is well formed: quoted bodies are
/// printable and symbols are keyword names.
proof fn lemma_ir_of_tree_wf(t: Tree, head: bool, allow_keyword: bool)
    ensures
        ir_wf(ir_of_tree(t, head, allow_keyword)),
    decreases t,
{
    match t {
        Tree::Atom(b) => {
            let ir = spec_ir_for_atom(b, head && allow_keyword);
            match ir {
                IRView::Symbol(s) => {
                    assert(b.len() == 1);
                    lemma_kw_names_wf(b[0]);
                },
                _ => {},
            }
        },
        Tree::Pair(l, r) => {
            lemma_ir_of_tree_wf(*l, (*l is Pair) || head, allow_keyword);
            lemma_ir_of_tree_wf(*r, false, allow_keyword);
        },
    }
}

/// Every keyword name is nonempty printable text without spaces.
proof fn lemma_kw_names_wf(op: u8)
    ensures
        kw_name(op) matches Some(nm) ==> nm.len() >= 1 && forall|i: int|
            0 <= i < nm.len() ==> 0x21 <= #[trigger] nm[i] <= 0x7e,
{
}

/// ASCII bytes are a valid UTF-8 encoding.
proof fn lemma_ascii_valid_utf8(b: Seq<u8>)
    requires
        forall|i: int| 0 <= i < b.len() ==> #[trigger] b[i] < 0x80,
    ensures
        vstd::utf8::valid_utf8(b),
    decreases b.len(),
{
    if b.len() > 0 {
        assert(vstd::utf8::is_leading_byte_width_1(b[0]));
        assert(vstd::utf8::valid_first_scalar(b));
        assert(vstd::utf8::length_of_first_scalar(b) == 1);
        let rest = vstd::utf8::pop_first_scalar(b);
        assert(rest =~= b.skip(1));
        assert forall|i: int| 0 <= i < rest.len() implies #[trigger] rest[i] < 0x80 by {
            assert(rest[i] == b[i + 1]);
        }
        lemma_ascii_valid_utf8(rest);
    }
}

/// Relies on `String::from_utf8`: succeeds exactly on valid UTF-8 and
/// returns the string whose UTF-8 encoding is the input.
#[verifier::external_body]
pub(crate) fn string_from_utf8(v: Vec<u8>) -> (r: Option<String>)
    ensures
        match r {
            Some(s) => vstd::utf8::encode_utf8(s@) == v@,
            None => !vstd::utf8::valid_utf8(v@),
        },
{
    match String::from_utf8(v) {
        Ok(s) => Some(s),
        Err(_) => None,
    }
}

/// The lower-case hex spelling of a byte string.
pub fn bytes_to_hex(b: &[u8]) -> (r: String)
    ensures
        vstd::utf8::encode_utf8(r@) == crate::ir_writer::hex_digits(b@),
{
    let mut out: Vec<u8> = Vec::new();
    let mut i: usize = 0;
    proof {
        assert(b@.subrange(0, 0) =~= Seq::<u8>::empty());
        assert(out@ =~= crate::ir_writer::hex_digits(b@.subrange(0, 0)));
    }
    while i < b.len()
        invariant
            i <= b@.len(),
            out@ == crate::ir_writer::hex_digits(b@.subrange(0, i as int)),
        decreases b@.len() - i,
    {
        let c = b[i];
        let hi = c / 16;
        let lo = c % 16;
        if hi < 10 {
            out.push(0x30 + hi);
        } else {
            out.push('a' as u8 + (hi - 10));
        }
        if lo < 10 {
            out.push(0x30 + lo);
        } else {
            out.push('a' as u8 + (lo - 10));
        }
        i = i + 1;
        proof {
            let pre = b@.subrange(0, i - 1);
            let post = b@.subrange(0, i as int);
            assert(post.drop_last() =~= pre);
            assert(post.last() == b@[i - 1]);
            crate::ir_writer::lemma_hex_snoc_pub(post);
            assert(out@ =~= crate::ir_writer::hex_digits(post));
        }
    }
    proof {
        assert(b@.subrange(0, b@.len() as int) =~= b@);
        lemma_hex_ascii(b@);
        lemma_ascii_valid_utf8(out@);
    }
    match string_from_utf8(out) {
        Some(s) => s,
        None => vstd::pervasive::unreached(),
    }
}

/// Render a tree as source text, resolving head-position operator atoms to
/// their keywords.
pub fn disassemble_with_kw(a: &Arena, sexp: SExp) -> (r: String)
    requires
        a.wf(),
        a.contains(sexp),
    ensures
        vstd::utf8::encode_utf8(r@) == ir_text(ir_of_tree(a.tree(sexp), true, true)),
{
    let symbols = disassemble_to_ir_with_kw(a, sexp, true, true);
    let bytes = write_ir_bytes(&symbols);
    proof {
        lemma_ir_of_tree_wf(a.tree(sexp), true, true);
        lemma_ir_text_ascii(symbols.view());
        assert(forall|i: int| 0 <= i < bytes@.len() ==> #[trigger] bytes@[i] < 0x80);
        lemma_ascii_valid_utf8(bytes@);
    }
    match string_from_utf8(bytes) {
        Some(s) => s,
        None => vstd::pervasive::unreached(),
    }
}

/// Render a tree as source text.
pub fn disassemble(a: &Arena, sexp: SExp) -> (r: String)
    requires
        a.wf(),
        a.contains(sexp),
    ensures
        vstd::utf8::encode_utf8(r@) == ir_text(ir_of_tree(a.tree(sexp), true, true)),
{
    disassemble_with_kw(a, sexp)
}

/// Parse source text and lower it to a tree in the arena. Succeeds exactly
/// when the text's UTF-8 bytes parse, and yields the lowering of the one
/// textual node they denote.
pub fn assemble(a: &mut Arena, s: &String) -> (r: Result<SExp, ParseError>)
    requires
        old(a).wf(),
    ensures
        final(a).wf(),
        final(a).extends(*old(a)),
        match r {
            Ok(h) => {
                &&& final(a).contains(h)
                &&& parse_expr_spec(vstd::utf8::encode_utf8(s@), 0) matches Some(ie) && final(a).tree(
                    h,
                ) == ir_to_tree(ie.0)
            },
            Err(_) => parse_expr_spec(vstd::utf8::encode_utf8(s@), 0) is None,
        },
{
    let bytes = s.as_str().as_bytes();
    match read_ir(bytes) {
        Ok(ir) => {
            match assemble_from_ir(a, &ir) {
                Ok(h) => Ok(h),
                Err(_) => Err(ParseError { pos: 0 }),
            }
        },
        Err(e) => {
            proof {
                assert(a.extends(*old(a))) by {
                    crate::arena::lemma_extends_refl(*a);
                }
            }
            Err(e)
        },
    }
}

/// Render a tree to its textual form; see [`ir_of_tree`]. The head flag
/// marks a position that could hold an operator.
pub fn disassemble_to_ir_with_kw(a: &Arena, sexp: SExp, head: bool, allow_keyword: bool) -> (r:
    IRRepr)
    requires
        a.wf(),
        a.contains(sexp),
    ensures
        r.view() == ir_of_tree(a.tree(sexp), head, allow_keyword),
    decreases a.tree(sexp).size(),
{
    if a.is_pair(sexp) {
        let (l, r) = a.pair(sexp);
        let new_head = a.is_pair(l) || head;
        let v0 = disassemble_to_ir_with_kw(a, l, new_head, allow_keyword);
        let v1 = disassemble_to_ir_with_kw(a, r, false, allow_keyword);
        IRRepr::Cons(Box::new(v0), Box::new(v1))
    } else {
        let bytes = a.atom(sexp);
        ir_for_atom(bytes, head && allow_keyword)
    }
}

} // verus!
