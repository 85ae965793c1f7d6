//! Parsing source text into the textual form: whitespace-separated tokens,
//! `()` for nil, both `(a b c)` list sugar and `(a . b)` dotted pairs,
//! quoted strings with escapes, `0x` hex literals, decimal integers, and
//! bare symbols.

use vstd::prelude::*;

use crate::casts::{ds_value, number_from_decimal};
use crate::ir::IRRepr;

verus! {

/// A syntax fault, with the byte offset it was noticed at.
#[derive(Clone, Copy, PartialEq, Eq, Structural, Debug)]
pub struct ParseError {
    pub pos: usize,
}

pub open spec fn is_ws(c: u8) -> bool {
    c == 0x20 || c == 0x09 || c == 0x0a || c == 0x0d
}

fn ws(c: u8) -> (r: bool)
    ensures
        r == is_ws(c),
{
    c == 0x20 || c == 0x09 || c == 0x0a || c == 0x0d
}

/// The position of the first non-whitespace character at or after `pos`.
pub open spec fn sskip_ws(b: Seq<u8>, pos: int) -> int
    decreases b.len() - pos,
{
    if 0 <= pos && pos < b.len() && is_ws(b[pos]) {
        sskip_ws(b, pos + 1)
    } else {
        pos
    }
}

proof fn lemma_sskip_ws_bounds(b: Seq<u8>, pos: int)
    requires
        0 <= pos <= b.len(),
    ensures
        pos <= sskip_ws(b, pos) <= b.len(),
        sskip_ws(b, pos) < b.len() ==> !is_ws(b[sskip_ws(b, pos)]),
    decreases b.len() - pos,
{
    if pos < b.len() && is_ws(b[pos]) {
        lemma_sskip_ws_bounds(b, pos + 1);
    }
}

fn skip_ws(b: &[u8], pos: &mut usize)
    requires
        *old(pos) <= b@.len(),
    ensures
        *old(pos) <= *final(pos) <= b@.len(),
        *final(pos) < b@.len() ==> !is_ws(b@[*final(pos) as int]),
        *final(pos) == sskip_ws(b@, *old(pos) as int),
{
    while *pos < b.len() && ws(b[*pos])
        invariant
            *pos <= b@.len(),
            *old(pos) <= *pos,
            sskip_ws(b@, *old(pos) as int) == sskip_ws(b@, *pos as int),
        decreases b@.len() - *pos,
    {
        *pos = *pos + 1;
    }
}

fn hex_val(c: u8) -> (r: Option<u8>)
    ensures
        r is Some <==> is_hex_digit(c),
        r matches Some(v) ==> v < 16 && v == hex_digit_val(c),
{
    if c >= '0' as u8 && c <= '9' as u8 {
        Some(c - '0' as u8)
    } else if c >= 'a' as u8 && c <= 'f' as u8 {
        Some(c - 'a' as u8 + 10)
    } else if c >= 'A' as u8 && c <= 'F' as u8 {
        Some(c - 'A' as u8 + 10)
    } else {
        None
    }
}

/// The body a quoted string denotes from `pos` on: the unescaped bytes
/// and the position after the closing quote, or nothing when the input
/// ends before the quote closes.
pub open spec fn squoted(b: Seq<u8>, pos: int, quote: u8) -> Option<(Seq<u8>, int)>
    decreases b.len() - pos,
    when 0 <= pos <= b.len()
{
    if pos >= b.len() {
        None
    } else if b[pos] == quote {
        Some((Seq::empty(), pos + 1))
    } else if b[pos] == '\\' as u8 {
        if pos + 1 >= b.len() {
            None
        } else {
            match squoted(b, pos + 2, quote) {
                Some(se) => Some((seq![b[pos + 1]] + se.0, se.1)),
                None => None,
            }
        }
    } else {
        match squoted(b, pos + 1, quote) {
            Some(se) => Some((seq![b[pos]] + se.0, se.1)),
            None => None,
        }
    }
}

/// Read a quoted string body after its opening quote; a backslash escapes
/// the next character.
#[verifier::loop_isolation(false)]
fn read_quoted(b: &[u8], pos: &mut usize, quote: u8) -> (r: Result<IRRepr, ParseError>)
    requires
        *old(pos) <= b@.len(),
    ensures
        *old(pos) <= *final(pos) <= b@.len(),
        match r {
            Ok(ir) => squoted(b@, *old(pos) as int, quote) matches Some(se) && ir.view()
                == crate::ir::IRView::Quotes(se.0) && *final(pos) == se.1,
            Err(e) => squoted(b@, *old(pos) as int, quote) is None,
        },
{
    let ghost p0 = *old(pos) as int;
    let mut collected: Vec<u8> = Vec::new();
    while *pos < b.len()
        invariant
            *old(pos) <= *pos <= b@.len(),
            squoted(b@, p0, quote) == (match squoted(b@, *pos as int, quote) {
                Some(se) => Some::<(Seq<u8>, int)>((collected@ + se.0, se.1)),
                None => None::<(Seq<u8>, int)>,
            }),
        decreases b@.len() - *pos,
    {
        let c = b[*pos];
        if c == quote {
            *pos = *pos + 1;
            proof {
                assert(collected@ + Seq::<u8>::empty() =~= collected@);
            }
            return Ok(IRRepr::Quotes(collected));
        } else if c == '\\' as u8 {
            *pos = *pos + 1;
            if *pos >= b.len() {
                return Err(ParseError { pos: *pos });
            }
            let ghost coll_pre = collected@;
            collected.push(b[*pos]);
            *pos = *pos + 1;
            proof {
                match squoted(b@, *pos as int, quote) {
                    Some(se) => {
                        assert(coll_pre + (seq![b@[*pos - 1]] + se.0) =~= collected@ + se.0);
                    },
                    None => {},
                }
            }
        } else {
            let ghost coll_pre = collected@;
            collected.push(c);
            *pos = *pos + 1;
            proof {
                match squoted(b@, *pos as int, quote) {
                    Some(se) => {
                        assert(coll_pre + (seq![b@[*pos - 1]] + se.0) =~= collected@ + se.0);
                    },
                    None => {},
                }
            }
        }
    }
    Err(ParseError { pos: *pos })
}

pub open spec fn spec_is_delim(c: u8) -> bool {
    c == '(' as u8 || c == ')' as u8 || is_ws(c)
}

/// The position where the bare word starting at `pos` ends.
pub open spec fn word_end(b: Seq<u8>, pos: int) -> int
    decreases b.len() - pos,
{
    if 0 <= pos && pos < b.len() && !spec_is_delim(b[pos]) {
        word_end(b, pos + 1)
    } else {
        pos
    }
}

proof fn lemma_word_end_bounds(b: Seq<u8>, pos: int)
    requires
        0 <= pos <= b.len(),
    ensures
        pos <= word_end(b, pos) <= b.len(),
        pos < b.len() && !spec_is_delim(b[pos]) ==> pos < word_end(b, pos),
    decreases b.len() - pos,
{
    if pos < b.len() && !spec_is_delim(b[pos]) {
        lemma_word_end_bounds(b, pos + 1);
    }
}

fn is_delim(c: u8) -> (r: bool)
    ensures
        r == spec_is_delim(c),
{
    c == '(' as u8 || c == ')' as u8 || c == 0x20 || c == 0x09 || c == 0x0a || c == 0x0d
}

/// Classify a bare word: a `0x` hex literal, a decimal integer, or a
/// symbol taken literally.
pub open spec fn is_hex_digit(c: u8) -> bool {
    ('0' as u8 <= c <= '9' as u8) || ('a' as u8 <= c <= 'f' as u8) || ('A' as u8 <= c
        <= 'F' as u8)
}

pub open spec fn hex_digit_val(c: u8) -> u8 {
    if '0' as u8 <= c <= '9' as u8 {
        (c - '0' as u8) as u8
    } else if 'a' as u8 <= c <= 'f' as u8 {
        (c - 'a' as u8 + 10) as u8
    } else {
        (c - 'A' as u8 + 10) as u8
    }
}

/// The bytes spelled by a string of hex digits: pairs from the end, with a
/// lone leading digit forming a half byte.
pub open spec fn hex_bytes(s: Seq<u8>) -> Seq<u8>
    decreases s.len(),
{
    if s.len() == 0 {
        Seq::empty()
    } else if s.len() == 1 {
        seq![hex_digit_val(s[0])]
    } else {
        hex_bytes(s.drop_last().drop_last()).push(
            (hex_digit_val(s[s.len() - 2]) * 16 + hex_digit_val(s.last())) as u8,
        )
    }
}

/// A word of the shape `0x…`, to be read as a hex literal.
pub open spec fn hex_shaped(w: Seq<u8>) -> bool {
    w.len() >= 2 && w[0] == '0' as u8 && (w[1] == 'x' as u8 || w[1] == 'X' as u8)
}

/// A word of the shape `[+-]?[0-9]+`, to be read as a decimal integer.
pub open spec fn decimal_shaped(w: Seq<u8>) -> bool {
    let from: int = if w.len() >= 1 && (w[0] == '-' as u8 || w[0] == '+' as u8) {
        1
    } else {
        0
    };
    from < w.len() && forall|k: int| from <= k < w.len() ==> '0' as u8 <= #[trigger] w[k]
        <= '9' as u8
}

/// The digit values of a decimal word, sign skipped.
pub open spec fn decimal_digit_values(w: Seq<u8>) -> Seq<u8> {
    let from: int = if w.len() >= 1 && (w[0] == '-' as u8 || w[0] == '+' as u8) {
        1
    } else {
        0
    };
    Seq::new((w.len() - from) as nat, |k: int| (w[from + k] - 0x30) as u8)
}

/// The integer a decimal word denotes.
pub open spec fn decimal_word_value(w: Seq<u8>) -> int {
    if w.len() >= 1 && w[0] == '-' as u8 {
        -(ds_value(decimal_digit_values(w)) as int)
    } else {
        ds_value(decimal_digit_values(w)) as int
    }
}

/// Classify a bare word: a `0x` hex literal, a decimal integer, or a
/// symbol taken literally.
fn classify_word(word: Vec<u8>, start: usize) -> (r: Result<IRRepr, ParseError>)
    ensures
        match r {
            Ok(ir) => match ir.view() {
                crate::ir::IRView::Hex(b) => {
                    &&& hex_shaped(word@)
                    &&& (forall|k: int| 2 <= k < word@.len() ==> is_hex_digit(#[trigger] word@[k]))
                    &&& b == hex_bytes(word@.skip(2))
                },
                crate::ir::IRView::Int(b, s) => {
                    &&& !hex_shaped(word@) && decimal_shaped(word@)
                    &&& b == crate::casts::min_bytes(decimal_word_value(word@))
                    &&& s == true
                },
                crate::ir::IRView::Symbol(s) => {
                    &&& s == word@
                    &&& !hex_shaped(word@) && !decimal_shaped(word@)
                },
                _ => false,
            },
            Err(e) => hex_shaped(word@) && !(forall|k: int|
                2 <= k < word@.len() ==> is_hex_digit(#[trigger] word@[k])) && e.pos == start,
        },
{
    if word.len() == 0 {
        proof {
            assert(!hex_shaped(word@) && !decimal_shaped(word@));
        }
        return Ok(IRRepr::Symbol(word));
    }
    // hex literal
    if word.len() >= 2 && word[0] == '0' as u8 && (word[1] == 'x' as u8 || word[1] == 'X' as u8) {
        let mut bytes: Vec<u8> = Vec::new();
        let mut i: usize = 2;
        proof {
            assert(word@.skip(2).subrange(0, 0) =~= Seq::<u8>::empty());
            assert(hex_bytes(Seq::<u8>::empty()) == Seq::<u8>::empty());
            assert(bytes@ =~= hex_bytes(word@.skip(2).subrange(0, 0)));
        }
        // an odd count of digits gets a leading half-byte
        if (word.len() - 2) % 2 == 1 {
            match hex_val(word[2]) {
                Some(v) => {
                    bytes.push(v);
                    i = 3;
                    proof {
                        assert(word@.skip(2).subrange(0, 1) =~= seq![word@[2]]);
                        assert(bytes@ =~= hex_bytes(word@.skip(2).subrange(0, 1)));
                    }
                },
                None => {
                    proof {
                        assert(!is_hex_digit(word@[2]));
                    }
                    return Err(ParseError { pos: start });
                },
            }
        }
        while i < word.len()
            invariant
                2 <= i <= word@.len() + 1,
                hex_shaped(word@),
                i % 2 == word@.len() % 2,
                bytes@ == hex_bytes(word@.skip(2).subrange(0, i - 2)),
                forall|k: int| 2 <= k < i ==> is_hex_digit(#[trigger] word@[k]),
            decreases word@.len() - i,
        {
            if i + 1 >= word.len() {
                proof {
                    assert(false);
                }
                return Err(ParseError { pos: start });
            }
            let hi = match hex_val(word[i]) {
                Some(v) => v,
                None => {
                    proof {
                        assert(!is_hex_digit(word@[i as int]));
                    }
                    return Err(ParseError { pos: start });
                },
            };
            let lo = match hex_val(word[i + 1]) {
                Some(v) => v,
                None => {
                    proof {
                        assert(!is_hex_digit(word@[i + 1]));
                    }
                    return Err(ParseError { pos: start });
                },
            };
            let ghost bytes_pre = bytes@;
            bytes.push(hi * 16 + lo);
            i = i + 2;
            proof {
                let d = word@.skip(2);
                let p0 = d.subrange(0, i - 4);
                let p2 = d.subrange(0, i - 2);
                assert(p2.drop_last().drop_last() =~= p0);
                assert(p2[p2.len() - 2] == word@[i - 2]);
                assert(p2.last() == word@[i - 1]);
                assert(hex_digit_val(word@[i - 2]) == hi);
                assert(hex_digit_val(word@[i - 1]) == lo);
                assert(p2.len() >= 2);
                assert(hex_bytes(p2) == hex_bytes(p0).push((hi * 16 + lo) as u8));
                assert(bytes@ =~= hex_bytes(p2));
            }
        }
        proof {
            assert(word@.skip(2).subrange(0, word@.len() - 2) =~= word@.skip(2));
        }
        return Ok(IRRepr::Hex(bytes));
    }
    // decimal integer, optionally signed
    let negative = word[0] == '-' as u8;
    let signed = negative || word[0] == '+' as u8;
    let first_digit: usize = if signed {
        1
    } else {
        0
    };
    if first_digit < word.len() {
        let mut all_digits = true;
        let mut digits: Vec<u8> = Vec::new();
        let mut i = first_digit;
        while i < word.len()
            invariant
                first_digit <= i <= word@.len(),
                first_digit <= 1,
                word@.len() >= 1,
                first_digit == (if word@[0] == '-' as u8 || word@[0] == '+' as u8 {
                    1int
                } else {
                    0int
                }),
                forall|j: int| 0 <= j < digits@.len() ==> #[trigger] digits@[j] < 10,
                all_digits ==> digits@ =~= Seq::new(
                    (i - first_digit) as nat,
                    |k: int| (word@[first_digit + k] - 0x30) as u8,
                ),
                all_digits ==> forall|k: int|
                    first_digit <= k < i ==> '0' as u8 <= #[trigger] word@[k] <= '9' as u8,
                !all_digits ==> !decimal_shaped(word@),
            decreases word@.len() - i,
        {
            let c = word[i];
            if c >= '0' as u8 && c <= '9' as u8 {
                digits.push(c - '0' as u8);
                proof {
                    if all_digits {
                        assert(digits@ =~= Seq::new(
                            (i + 1 - first_digit) as nat,
                            |k: int| (word@[first_digit + k] - 0x30) as u8,
                        ));
                    }
                }
            } else {
                proof {
                    assert(!('0' as u8 <= word@[i as int] <= '9' as u8));
                    assert(!decimal_shaped(word@));
                }
                all_digits = false;
            }
            i = i + 1;
        }
        if all_digits {
            proof {
                assert(decimal_shaped(word@));
                assert(digits@ =~= decimal_digit_values(word@));
            }
            let n = number_from_decimal(digits.as_slice(), negative);
            proof {
                crate::casts::lemma_rep_is_min_bytes(n);
            }
            let b = n.to_bytes();
            return Ok(IRRepr::Int(b, true));
        }
    }
    proof {
        if first_digit >= word.len() {
            assert(!decimal_shaped(word@));
        }
    }
    Ok(IRRepr::Symbol(word))
}

/// Read one expression starting at `*pos`; exactly [`parse_expr_spec`].
fn read_expr(b: &[u8], pos: &mut usize) -> (r: Result<IRRepr, ParseError>)
    requires
        *old(pos) <= b@.len(),
    ensures
        *old(pos) <= *final(pos) <= b@.len(),
        r is Ok ==> *old(pos) < *final(pos),
        match r {
            Ok(ir) => parse_expr_spec(b@, *old(pos) as int) matches Some(ie) && ir.view() == ie.0
                && *final(pos) == ie.1,
            Err(_) => parse_expr_spec(b@, *old(pos) as int) is None,
        },
    decreases b@.len() - *old(pos), 0nat,
{
    let ghost p0 = *old(pos) as int;
    skip_ws(b, pos);
    if *pos >= b.len() {
        proof {
            assert(parse_expr_spec(b@, p0) is None);
        }
        return Err(ParseError { pos: *pos });
    }
    let c = b[*pos];
    let ghost p = *pos as int;
    proof {
        assert(p == sskip_ws(b@, p0));
        assert(c == b@[p]);
    }
    if c == '(' as u8 {
        *pos = *pos + 1;
        let r = read_list(b, pos);
        proof {
            assert(parse_expr_spec(b@, p0) == parse_list_spec(b@, p + 1));
        }
        r
    } else if c == '"' as u8 || c == '\'' as u8 {
        *pos = *pos + 1;
        let r = read_quoted(b, pos, c);
        proof {
            match squoted(b@, p + 1, c) {
                Some(se) => {
                    assert(parse_expr_spec(b@, p0) == Some(
                        (crate::ir::IRView::Quotes(se.0), se.1),
                    ));
                },
                None => {
                    assert(parse_expr_spec(b@, p0) is None);
                },
            }
        }
        r
    } else if c == ')' as u8 {
        proof {
            assert(parse_expr_spec(b@, p0) is None);
        }
        Err(ParseError { pos: *pos })
    } else {
        let start = *pos;
        proof {
            assert(!spec_is_delim(b@[start as int]));
        }
        let mut word: Vec<u8> = Vec::new();
        while *pos < b.len() && !is_delim(b[*pos])
            invariant
                start <= *pos <= b@.len(),
                word@ == b@.subrange(start as int, *pos as int),
                start < b@.len() && !spec_is_delim(b@[start as int]),
                word_end(b@, start as int) == word_end(b@, *pos as int),
            decreases b@.len() - *pos,
        {
            word.push(b[*pos]);
            *pos = *pos + 1;
            proof {
                assert(word@ =~= b@.subrange(start as int, *pos as int));
            }
        }
        let ghost wv = word@;
        let ghost wend = word_end(b@, p);
        proof {
            assert(*pos > start);
            assert(word_end(b@, start as int) == *pos);
            assert(wv == b@.subrange(p, wend));
            assert(parse_expr_spec(b@, p0) == spec_classify(wv, wend));
        }
        let r = classify_word(word, start);
        proof {
            match &r {
                Ok(ir) => {
                    match ir.view() {
                        crate::ir::IRView::Hex(bb) => {
                            assert(spec_classify(wv, wend) == Some(
                                (crate::ir::IRView::Hex(hex_bytes(wv.skip(2))), wend),
                            ));
                            assert(ir.view() == crate::ir::IRView::Hex(hex_bytes(wv.skip(2))));
                        },
                        crate::ir::IRView::Int(bb, sgn) => {
                            assert(spec_classify(wv, wend) == Some(
                                (
                                    crate::ir::IRView::Int(
                                        crate::casts::min_bytes(decimal_word_value(wv)),
                                        true,
                                    ),
                                    wend,
                                ),
                            ));
                        },
                        crate::ir::IRView::Symbol(ss) => {
                            assert(spec_classify(wv, wend) == Some(
                                (crate::ir::IRView::Symbol(wv), wend),
                            ));
                        },
                        _ => {
                            assert(false);
                        },
                    }
                },
                Err(_) => {
                    assert(spec_classify(wv, wend) is None);
                },
            }
        }
        r
    }
}

/// Read the elements after an opening paren: further expressions, a
/// closing paren, or a dotted tail; exactly [`parse_list_spec`].
fn read_list(b: &[u8], pos: &mut usize) -> (r: Result<IRRepr, ParseError>)
    requires
        *old(pos) <= b@.len(),
    ensures
        *old(pos) <= *final(pos) <= b@.len(),
        match r {
            Ok(ir) => parse_list_spec(b@, *old(pos) as int) matches Some(ie) && ir.view() == ie.0
                && *final(pos) == ie.1,
            Err(_) => parse_list_spec(b@, *old(pos) as int) is None,
        },
    decreases b@.len() - *old(pos), 1nat,
{
    skip_ws(b, pos);
    if *pos >= b.len() {
        return Err(ParseError { pos: *pos });
    }
    let c = b[*pos];
    if c == ')' as u8 {
        *pos = *pos + 1;
        return Ok(IRRepr::Null);
    }
    if c == '.' as u8 && (*pos + 1 >= b.len() || is_delim(b[*pos + 1])) {
        *pos = *pos + 1;
        let tail = match read_expr(b, pos) {
            Ok(ir) => ir,
            Err(e) => {
                return Err(e);
            },
        };
        skip_ws(b, pos);
        if *pos < b.len() && b[*pos] == ')' as u8 {
            *pos = *pos + 1;
            return Ok(tail);
        }
        return Err(ParseError { pos: *pos });
    }
    let first = match read_expr(b, pos) {
        Ok(ir) => ir,
        Err(e) => {
            return Err(e);
        },
    };
    let rest = match read_list(b, pos) {
        Ok(ir) => ir,
        Err(e) => {
            return Err(e);
        },
    };
    Ok(IRRepr::Cons(Box::new(first), Box::new(rest)))
}

/// The classification of a bare word, with the position its token ends at.
pub open spec fn spec_classify(word: Seq<u8>, end: int) -> Option<(crate::ir::IRView, int)> {
    if hex_shaped(word) {
        if forall|k: int| 2 <= k < word.len() ==> is_hex_digit(#[trigger] word[k]) {
            Some((crate::ir::IRView::Hex(hex_bytes(word.skip(2))), end))
        } else {
            None
        }
    } else if decimal_shaped(word) {
        Some(
            (
                crate::ir::IRView::Int(
                    crate::casts::min_bytes(decimal_word_value(word)),
                    true,
                ),
                end,
            ),
        )
    } else {
        Some((crate::ir::IRView::Symbol(word), end))
    }
}

/// The one meaning of the source text from `pos` on: the textual node that
/// starts there and the position after it, or nothing on a syntax fault.
pub open spec fn parse_expr_spec(b: Seq<u8>, pos: int) -> Option<(crate::ir::IRView, int)>
    decreases b.len() - pos, 0nat,
    via parse_expr_spec_dec
{
    if !(0 <= pos <= b.len()) {
        None
    } else {
        let p = sskip_ws(b, pos);
        if p >= b.len() {
            None
        } else if b[p] == '(' as u8 {
            parse_list_spec(b, p + 1)
        } else if b[p] == '"' as u8 || b[p] == '\'' as u8 {
            match squoted(b, p + 1, b[p]) {
                Some(se) => Some((crate::ir::IRView::Quotes(se.0), se.1)),
                None => None,
            }
        } else if b[p] == ')' as u8 {
            None
        } else {
            spec_classify(b.subrange(p, word_end(b, p)), word_end(b, p))
        }
    }
}

/// The meaning of a list body: elements up to a closing paren, or a dotted
/// tail before it.
pub open spec fn parse_list_spec(b: Seq<u8>, pos: int) -> Option<(crate::ir::IRView, int)>
    decreases b.len() - pos, 1nat,
    via parse_list_spec_dec
{
    if !(0 <= pos <= b.len()) {
        None
    } else {
        let p = sskip_ws(b, pos);
        if p >= b.len() {
            None
        } else if b[p] == ')' as u8 {
            Some((crate::ir::IRView::Null, p + 1))
        } else if b[p] == '.' as u8 && (p + 1 >= b.len() || spec_is_delim(b[p + 1])) {
            match parse_expr_spec(b, p + 1) {
                Some(te) => {
                    if !(p + 1 <= te.1 <= b.len()) {
                        None
                    } else {
                        let q = sskip_ws(b, te.1);
                        if q < b.len() && b[q] == ')' as u8 {
                            Some((te.0, q + 1))
                        } else {
                            None
                        }
                    }
                },
                None => None,
            }
        } else {
            match parse_expr_spec(b, p) {
                Some(fe) => {
                    if !(p < fe.1 <= b.len()) {
                        None
                    } else {
                        match parse_list_spec(b, fe.1) {
                            Some(re) => Some(
                                (
                                    crate::ir::IRView::Cons(Box::new(fe.0), Box::new(re.0)),
                                    re.1,
                                ),
                            ),
                            None => None,
                        }
                    }
                },
                None => None,
            }
        }
    }
}

#[via_fn]
proof fn parse_expr_spec_dec(b: Seq<u8>, pos: int) {
    if 0 <= pos <= b.len() {
        lemma_sskip_ws_bounds(b, pos);
    }
}

#[via_fn]
proof fn parse_list_spec_dec(b: Seq<u8>, pos: int) {
    if 0 <= pos <= b.len() {
        lemma_sskip_ws_bounds(b, pos);
    }
}

/// Unescaping what the printer escaped gives the original text back: the
/// quoted-string leg of the textual round trip.
pub proof fn lemma_quoted_round_trip(b: Seq<u8>, s: Seq<u8>, pos: int, rest: Seq<u8>)
    requires
        0 <= pos <= s.len(),
        s.subrange(pos, s.len() as int) == crate::ir_writer::escaped(b) + seq!['"' as u8] + rest,
    ensures
        squoted(s, pos, '"' as u8) == Some(
            (b, pos + crate::ir_writer::escaped(b).len() + 1),
        ),
    decreases b.len(),
{
    let tail = s.subrange(pos, s.len() as int);
    let e = crate::ir_writer::escaped(b);
    assert(tail.len() == s.len() - pos);
    assert(tail.len() == e.len() + 1 + rest.len());
    assert(pos < s.len());
    assert forall|k: int| 0 <= k < tail.len() implies #[trigger] tail[k] == s[pos + k] by {}
    if b.len() == 0 {
        assert(e.len() == 0);
        assert(s[pos] == tail[0]);
        assert(tail[0] == '"' as u8);
    } else {
        let c = b[0];
        let e1 = crate::ir_writer::esc1(c);
        let brest = b.skip(1);
        assert(e == e1 + crate::ir_writer::escaped(brest));
        let target = crate::ir_writer::escaped(brest) + seq!['"' as u8] + rest;
        assert(tail =~= e1 + target);
        if c == '"' as u8 || c == '\\' as u8 {
            assert(e1 =~= seq!['\\' as u8, c]);
            assert(s[pos] == tail[0] && tail[0] == '\\' as u8);
            assert(s[pos + 1] == tail[1] && tail[1] == c);
            assert(pos + 1 < s.len());
            assert(s.subrange(pos + 2, s.len() as int) =~= target) by {
                assert forall|k: int| 0 <= k < s.len() - pos - 2 implies #[trigger] s.subrange(
                    pos + 2,
                    s.len() as int,
                )[k] == target[k] by {
                    assert(s.subrange(pos + 2, s.len() as int)[k] == s[pos + 2 + k]);
                    assert(s[pos + 2 + k] == tail[2 + k]);
                    assert((e1 + target)[2 + k] == target[k]);
                }
            }
            lemma_quoted_round_trip(brest, s, pos + 2, rest);
            match squoted(s, pos + 2, '"' as u8) {
                Some(se) => {
                    assert(seq![s[pos + 1]] + se.0 =~= b);
                },
                None => {},
            }
        } else {
            assert(e1 =~= seq![c]);
            assert(s[pos] == tail[0] && tail[0] == c);
            assert(s.subrange(pos + 1, s.len() as int) =~= target) by {
                assert forall|k: int| 0 <= k < s.len() - pos - 1 implies #[trigger] s.subrange(
                    pos + 1,
                    s.len() as int,
                )[k] == target[k] by {
                    assert(s.subrange(pos + 1, s.len() as int)[k] == s[pos + 1 + k]);
                    assert(s[pos + 1 + k] == tail[1 + k]);
                    assert((e1 + target)[1 + k] == target[k]);
                }
            }
            lemma_quoted_round_trip(brest, s, pos + 1, rest);
            match squoted(s, pos + 1, '"' as u8) {
                Some(se) => {
                    assert(seq![s[pos]] + se.0 =~= b);
                },
                None => {},
            }
        }
    }
}

/// Reading back the printer's hex digits gives the original bytes: the hex
/// leg of the textual round trip.
pub proof fn lemma_hex_round_trip(b: Seq<u8>)
    ensures
        crate::ir_writer::hex_digits(b).len() == 2 * b.len(),
        forall|k: int|
            0 <= k < 2 * b.len() ==> is_hex_digit(#[trigger] crate::ir_writer::hex_digits(b)[k]),
        hex_bytes(crate::ir_writer::hex_digits(b)) == b,
    decreases b.len(),
{
    let d = crate::ir_writer::hex_digits(b);
    if b.len() == 0 {
        assert(d.len() == 0);
        assert(hex_bytes(d) =~= b);
    } else {
        lemma_hex_round_trip(b.drop_last());
        crate::ir_writer::lemma_hex_snoc_pub(b);
        let dp = crate::ir_writer::hex_digits(b.drop_last());
        let hi = crate::ir_writer::hex_char(b.last() / 16);
        let lo = crate::ir_writer::hex_char(b.last() % 16);
        assert(d == dp + seq![hi, lo]);
        lemma_hex_char_inverts(b.last() / 16);
        lemma_hex_char_inverts(b.last() % 16);
        assert forall|k: int| 0 <= k < 2 * b.len() implies is_hex_digit(#[trigger] d[k]) by {
            if k < dp.len() {
                assert(d[k] == dp[k]);
            } else {
                assert(d[k] == hi || d[k] == lo);
            }
        }
        assert(d.len() >= 2);
        assert(d.drop_last().drop_last() =~= dp);
        assert(d[d.len() - 2] == hi && d.last() == lo);
        assert(hex_digit_val(hi) * 16 + hex_digit_val(lo) == b.last()) by {
            assert(b.last() / 16 < 16 && b.last() % 16 < 16);
        }
        assert(hex_bytes(d) == hex_bytes(dp).push(b.last()));
        assert(hex_bytes(d) =~= b);
    }
}

/// A hex digit printed and read back keeps its value.
proof fn lemma_hex_char_inverts(n: u8)
    requires
        n < 16,
    ensures
        is_hex_digit(crate::ir_writer::hex_char(n)),
        hex_digit_val(crate::ir_writer::hex_char(n)) == n,
{
}

/// Reading back the printer's decimal digits gives the original value: the
/// integer leg of the textual round trip.
pub proof fn lemma_decimal_round_trip(n: nat)
    ensures
        forall|k: int|
            0 <= k < crate::ir_writer::dec_digits(n).len() ==> '0' as u8
                <= #[trigger] crate::ir_writer::dec_digits(n)[k] <= '9' as u8,
        ds_value(
            Seq::new(
                crate::ir_writer::dec_digits(n).len(),
                |k: int| (crate::ir_writer::dec_digits(n)[k] - 0x30) as u8,
            ),
        ) == n,
    decreases n,
{
    let d = crate::ir_writer::dec_digits(n);
    let vals = Seq::new(d.len(), |k: int| (d[k] - 0x30) as u8);
    if n < 10 {
        assert(d =~= seq![(0x30 + n) as u8]);
        assert(vals =~= seq![n as u8]);
        assert(vals.drop_last() =~= Seq::<u8>::empty());
        assert(ds_value(vals.drop_last()) == 0);
        assert(ds_value(vals) == n);
    } else {
        lemma_decimal_round_trip(n / 10);
        let dp = crate::ir_writer::dec_digits(n / 10);
        let valsp = Seq::new(dp.len(), |k: int| (dp[k] - 0x30) as u8);
        assert(d == dp.push((0x30 + n % 10) as u8));
        assert forall|k: int| 0 <= k < d.len() implies '0' as u8 <= #[trigger] d[k]
            <= '9' as u8 by {
            if k < dp.len() {
                assert(d[k] == dp[k]);
            }
        }
        assert(vals.drop_last() =~= valsp);
        assert(vals.last() == n % 10);
        assert(ds_value(vals) == ds_value(valsp) * 10 + n % 10);
        assert((n / 10) * 10 + n % 10 == n);
    }
}

/// Read the one expression at the start of the text; trailing text is left
/// unread.
pub fn read_ir(b: &[u8]) -> (r: Result<IRRepr, ParseError>)
    ensures
        match r {
            Ok(ir) => parse_expr_spec(b@, 0) matches Some(ie) && ir.view() == ie.0,
            Err(_) => parse_expr_spec(b@, 0) is None,
        },
{
    let mut pos: usize = 0;
    read_expr(b, &mut pos)
}

} // verus!
