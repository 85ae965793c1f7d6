//! The argument marshaller: a pure structural mapping from wire-tagged
//! argument records into the tree builder's input values. A tuple demands
//! exactly two children; text must be valid UTF-8; a curve point must be a
//! valid 48-byte compressed encoding.

use vstd::prelude::*;

use crate::arena::{Arena, SExp};
use crate::casts::{spec_canonical, Number};
use crate::clvm_api::{ArgBytesType, ClvmArg};
use crate::sexp::{
    abs_cast, abs_cast_list, castable_wf, castable_wf_list, glift, to_sexp_type, CastView,
    CastableType, G1Element,
};

verus! {

/// Why an argument record could not be lowered.
#[derive(Clone, Copy, PartialEq, Eq, Structural, Debug)]
pub enum MarshalError {
    /// A tuple record without exactly two children.
    Arity,
    /// A curve-point record whose payload is not a valid compressed point.
    InvalidPoint,
    /// A text record whose payload is not valid UTF-8.
    InvalidText,
}

/// Whether 48 bytes are a canonical compressed curve-point encoding; a
/// function of the bytes alone.
pub uninterp spec fn g1_valid(b: Seq<u8>) -> bool;

/// Relies on bls12_381's `G1Affine::from_compressed`: whether the 48 bytes
/// decode to a point depends on the bytes alone.
#[verifier::external_body]
fn g1_check(bytes: &[u8]) -> (r: bool)
    requires
        bytes@.len() == 48,
    ensures
        r == g1_valid(bytes@),
{
    let mut arr = [0u8; 48];
    arr.copy_from_slice(bytes);
    bool::from(bls12_381::G1Affine::from_compressed(&arr).is_some())
}

/// The reading an argument record marshals to, or the fault that stops it.
pub open spec fn marshal_view(arg: ClvmArg) -> Result<CastView, MarshalError>
    decreases arg,
{
    match arg.value_type {
        ArgBytesType::Hex => Ok(CastView::Atom(arg.value@)),
        ArgBytesType::Bytes => Ok(CastView::Atom(arg.value@)),
        ArgBytesType::String => if vstd::utf8::valid_utf8(arg.value@) {
            Ok(CastView::Atom(arg.value@))
        } else {
            Err(MarshalError::InvalidText)
        },
        ArgBytesType::Number => Ok(CastView::Atom(spec_canonical(arg.value@))),
        ArgBytesType::G1Affine => if arg.value@.len() == 48 && g1_valid(arg.value@) {
            Ok(CastView::Atom(arg.value@))
        } else {
            Err(MarshalError::InvalidPoint)
        },
        ArgBytesType::ListOf => match marshal_view_list(arg.children@) {
            Ok(vs) => Ok(CastView::List(vs)),
            Err(e) => Err(e),
        },
        ArgBytesType::TupleOf => if arg.children@.len() == 2 {
            match marshal_view(arg.children@[0]) {
                Ok(a) => match marshal_view(arg.children@[1]) {
                    Ok(b) => Ok(CastView::Pair(Box::new(a), Box::new(b))),
                    Err(e) => Err(e),
                },
                Err(e) => Err(e),
            }
        } else {
            Err(MarshalError::Arity)
        },
    }
}

pub open spec fn marshal_view_list(s: Seq<ClvmArg>) -> Result<Seq<CastView>, MarshalError>
    decreases s,
{
    if s.len() == 0 {
        Ok(Seq::empty())
    } else {
        match marshal_view(s[0]) {
            Ok(g) => match marshal_view_list(s.skip(1)) {
                Ok(rest) => Ok(seq![g] + rest),
                Err(e) => Err(e),
            },
            Err(e) => Err(e),
        }
    }
}

/// The converted value is well formed in the given arena and reads as the
/// given view there.
pub open spec fn reads_as(ar: Arena, v: CastableType, gv: CastView) -> bool {
    castable_wf(ar, v) && abs_cast(ar, v) == gv
}

/// The list of converted values reads as the given views in the arena.
pub open spec fn list_reads_as(ar: Arena, vs: Seq<CastableType>, gvs: Seq<CastView>) -> bool {
    castable_wf_list(ar, vs) && abs_cast_list(ar, vs) == gvs
}

/// Whatever the conversion yields reads the same in every arena, since it
/// holds no subtree handles.
pub open spec fn conversion_ok(arg: ClvmArg, v: CastableType, gv: CastView) -> bool {
    &&& marshal_view(arg) == Ok::<CastView, MarshalError>(gv)
    &&& forall|ar: Arena| #[trigger] reads_as(ar, v, gv)
}

/// Convert one argument record into a builder value.
pub fn convert_to_casteable_type(argument: &ClvmArg) -> (r: Result<CastableType, MarshalError>)
    ensures
        match r {
            Ok(v) => exists|gv: CastView| #[trigger] conversion_ok(*argument, v, gv),
            Err(e) => marshal_view(*argument) == Err::<CastView, MarshalError>(e),
        },
    decreases argument, 1nat,
{
    match argument.value_type {
        ArgBytesType::Hex => to_hex_type(argument),
        ArgBytesType::Bytes => to_bytes_type(argument),
        ArgBytesType::String => to_string_type(argument),
        ArgBytesType::Number => to_number_type(argument),
        ArgBytesType::G1Affine => to_g1_affine_type(argument),
        ArgBytesType::ListOf => to_list_of_type(argument),
        ArgBytesType::TupleOf => to_tuple_of_type(argument),
    }
}

/// A hex-tagged record: its payload bytes, verbatim.
pub fn to_hex_type(hex_text: &ClvmArg) -> (r: Result<CastableType, MarshalError>)
    requires
        hex_text.value_type == ArgBytesType::Hex || hex_text.value_type == ArgBytesType::Bytes,
    ensures
        r matches Ok(v) && exists|gv: CastView| #[trigger] conversion_ok(*hex_text, v, gv),
{
    to_bytes_type(hex_text)
}

/// A byte-tagged record: its payload bytes, verbatim.
pub fn to_bytes_type(raw: &ClvmArg) -> (r: Result<CastableType, MarshalError>)
    requires
        raw.value_type == ArgBytesType::Hex || raw.value_type == ArgBytesType::Bytes,
    ensures
        r matches Ok(v) && exists|gv: CastView| #[trigger] conversion_ok(*raw, v, gv),
{
    let v = CastableType::Bytes(vstd::slice::slice_to_vec(raw.value.as_slice()));
    proof {
        let gv = CastView::Atom(raw.value@);
        assert forall|ar: Arena| #[trigger] reads_as(ar, v, gv) by {
            assert(castable_wf(ar, v));
            assert(abs_cast(ar, v) == gv);
        }
        assert(conversion_ok(*raw, v, gv));
    }
    Ok(v)
}

/// A text-tagged record: its payload decoded as UTF-8.
pub fn to_string_type(text: &ClvmArg) -> (r: Result<CastableType, MarshalError>)
    requires
        text.value_type == ArgBytesType::String,
    ensures
        match r {
            Ok(v) => exists|gv: CastView| #[trigger] conversion_ok(*text, v, gv),
            Err(e) => marshal_view(*text) == Err::<CastView, MarshalError>(e),
        },
{
    match crate::binutils::string_from_utf8(vstd::slice::slice_to_vec(text.value.as_slice())) {
        Some(s) => {
            let v = CastableType::String(s);
            proof {
                let gv = CastView::Atom(text.value@);
                assert(vstd::utf8::valid_utf8(text.value@)) by {
                    vstd::utf8::encode_utf8_valid_utf8(s@);
                }
                assert forall|ar: Arena| #[trigger] reads_as(ar, v, gv) by {
                    assert(castable_wf(ar, v));
                    assert(abs_cast(ar, v) == gv);
                }
                assert(conversion_ok(*text, v, gv));
            }
            Ok(v)
        },
        None => Err(MarshalError::InvalidText),
    }
}

/// A number-tagged record: its payload read as a signed big-endian
/// integer, re-encoded canonically.
pub fn to_number_type(number: &ClvmArg) -> (r: Result<CastableType, MarshalError>)
    requires
        number.value_type == ArgBytesType::Number,
    ensures
        r matches Ok(v) && exists|gv: CastView| #[trigger] conversion_ok(*number, v, gv),
{
    let n = Number::from_bytes(vstd::slice::slice_to_vec(number.value.as_slice()));
    let v = CastableType::Number(n);
    proof {
        let gv = CastView::Atom(spec_canonical(number.value@));
        assert forall|ar: Arena| #[trigger] reads_as(ar, v, gv) by {
            assert(castable_wf(ar, v));
            assert(abs_cast(ar, v) == gv);
        }
        assert(conversion_ok(*number, v, gv));
    }
    Ok(v)
}

/// A curve-point record: 48 bytes checked against the curve.
pub fn to_g1_affine_type(number: &ClvmArg) -> (r: Result<CastableType, MarshalError>)
    requires
        number.value_type == ArgBytesType::G1Affine,
    ensures
        match r {
            Ok(v) => exists|gv: CastView| #[trigger] conversion_ok(*number, v, gv),
            Err(e) => marshal_view(*number) == Err::<CastView, MarshalError>(e),
        },
{
    if number.value.len() != 48 {
        return Err(MarshalError::InvalidPoint);
    }
    if !g1_check(number.value.as_slice()) {
        return Err(MarshalError::InvalidPoint);
    }
    let g = G1Element::new(vstd::slice::slice_to_vec(number.value.as_slice()));
    let v = CastableType::G1Affine(g);
    proof {
        let gv = CastView::Atom(number.value@);
        assert forall|ar: Arena| #[trigger] reads_as(ar, v, gv) by {
            assert(castable_wf(ar, v));
            assert(abs_cast(ar, v) == gv);
        }
        assert(conversion_ok(*number, v, gv));
    }
    Ok(v)
}

/// A fixed-size array from a vector that must hold exactly 48 bytes.
pub fn vector_to_fixed_array(v: Vec<u8>) -> (r: [u8; 48])
    requires
        v@.len() == 48,
    ensures
        r@ == v@,
{
    let mut arr = [0u8; 48];
    let mut i: usize = 0;
    while i < 48
        invariant
            i <= 48,
            v@.len() == 48,
            arr@.len() == 48,
            forall|j: int| 0 <= j < i ==> arr@[j] == v@[j],
        decreases 48 - i,
    {
        arr[i] = v[i];
        i = i + 1;
    }
    proof {
        assert(arr@ =~= v@);
    }
    arr
}

/// A list record: each child converted in order.
pub fn to_list_of_type(list: &ClvmArg) -> (r: Result<CastableType, MarshalError>)
    requires
        list.value_type == ArgBytesType::ListOf,
    ensures
        match r {
            Ok(v) => exists|gv: CastView| #[trigger] conversion_ok(*list, v, gv),
            Err(e) => marshal_view(*list) == Err::<CastView, MarshalError>(e),
        },
    decreases *list, 0nat,
{
    let mut items: Vec<CastableType> = Vec::new();
    let ghost children = list.children@;
    let mut gitems: Ghost<Seq<CastView>> = Ghost(Seq::empty());
    let mut i: usize = 0;
    proof {
        assert(children.skip(0) =~= children);
        assert forall|ar: Arena| #[trigger] list_reads_as(ar, items@, gitems@) by {
            assert(items@.len() == 0);
            assert(castable_wf_list(ar, items@));
            assert(abs_cast_list(ar, items@) =~= gitems@);
        }
    }
    while i < list.children.len()
        invariant
            i <= children.len(),
            children == list.children@,
            list.value_type == ArgBytesType::ListOf,
            marshal_view_list(children) == (match marshal_view_list(children.skip(i as int)) {
                Ok(rest) => Ok::<Seq<CastView>, MarshalError>(gitems@ + rest),
                Err(e) => Err::<Seq<CastView>, MarshalError>(e),
            }),
            gitems@.len() == items@.len(),
            forall|ar: Arena| #[trigger] list_reads_as(ar, items@, gitems@),
        decreases children.len() - i,
    {
        let child = &list.children[i];
        proof {
            assert(children.skip(i as int)[0] == children[i as int]);
            assert(children.skip(i as int).skip(1) =~= children.skip(i + 1));
        }
        match convert_to_casteable_type(child) {
            Ok(cv) => {
                let ghost gv = choose|gv: CastView| conversion_ok(children[i as int], cv, gv);
                proof {
                    assert(conversion_ok(children[i as int], cv, gv));
                }
                let ghost items_pre = items@;
                let ghost gitems_pre = gitems@;
                items.push(cv);
                proof {
                    gitems@ = gitems_pre.push(gv);
                }
                proof {
                    assert forall|ar: Arena| #[trigger] list_reads_as(ar, items@, gitems@) by {
                        assert(list_reads_as(ar, items_pre, gitems_pre));
                        assert(reads_as(ar, cv, gv));
                        lemma_list_snoc(ar, items_pre, cv);
                        assert(castable_wf_list(ar, items@) && abs_cast_list(ar, items@)
                            == gitems@);
                    }
                    assert(gitems@ + (match marshal_view_list(children.skip(i + 1)) {
                        Ok(rest) => rest,
                        Err(_) => Seq::empty(),
                    }) =~= gitems_pre + (seq![gv] + (match marshal_view_list(
                        children.skip(i + 1),
                    ) {
                        Ok(rest) => rest,
                        Err(_) => Seq::empty(),
                    })));
                }
                i = i + 1;
            },
            Err(e) => {
                proof {
                    assert(marshal_view(children[i as int]) == Err::<CastView, MarshalError>(e));
                    assert(marshal_view_list(children.skip(i as int)) == Err::<
                        Seq<CastView>,
                        MarshalError,
                    >(e));
                }
                return Err(e);
            },
        }
    }
    proof {
        assert(children.skip(children.len() as int) =~= Seq::<ClvmArg>::empty());
        assert(marshal_view_list(children.skip(children.len() as int)) == Ok::<
            Seq<CastView>,
            MarshalError,
        >(Seq::empty()));
        assert(gitems@ + Seq::<CastView>::empty() =~= gitems@);
    }
    let v = CastableType::ListOf(items);
    proof {
        let gv = CastView::List(gitems@);
        assert(marshal_view(*list) == Ok::<CastView, MarshalError>(gv));
        assert forall|ar: Arena| #[trigger] reads_as(ar, v, gv) by {
            assert(list_reads_as(ar, items@, gitems@));
            assert(castable_wf(ar, v));
            assert(abs_cast(ar, v) == gv);
        }
        assert(conversion_ok(*list, v, gv));
    }
    Ok(v)
}

/// Reading one more converted value extends the list reading by one.
proof fn lemma_list_snoc(ar: Arena, s: Seq<CastableType>, x: CastableType)
    ensures
        abs_cast_list(ar, s.push(x)) == abs_cast_list(ar, s).push(abs_cast(ar, x)),
        castable_wf_list(ar, s.push(x)) == (castable_wf_list(ar, s) && castable_wf(ar, x)),
    decreases s.len(),
{
    let sp = s.push(x);
    if s.len() == 0 {
        assert(sp[0] == x);
        assert(sp.skip(1) =~= Seq::<CastableType>::empty());
        assert(abs_cast_list(ar, sp.skip(1)) == Seq::<CastView>::empty());
        assert(castable_wf_list(ar, sp.skip(1)));
        assert(abs_cast_list(ar, sp) == seq![abs_cast(ar, x)] + Seq::<CastView>::empty());
        assert(abs_cast_list(ar, s) == Seq::<CastView>::empty());
        assert(castable_wf_list(ar, s));
        assert(abs_cast_list(ar, sp) =~= abs_cast_list(ar, s).push(abs_cast(ar, x)));
        assert(castable_wf_list(ar, sp) == (castable_wf(ar, x) && castable_wf_list(
            ar,
            sp.skip(1),
        )));
    } else {
        assert(sp[0] == s[0]);
        assert(sp.skip(1) =~= s.skip(1).push(x));
        lemma_list_snoc(ar, s.skip(1), x);
        assert(abs_cast_list(ar, sp) == seq![abs_cast(ar, s[0])] + abs_cast_list(
            ar,
            s.skip(1).push(x),
        ));
        assert(abs_cast_list(ar, s) == seq![abs_cast(ar, s[0])] + abs_cast_list(ar, s.skip(1)));
        assert(castable_wf_list(ar, sp) == (castable_wf(ar, sp[0]) && castable_wf_list(
            ar,
            sp.skip(1),
        )));
        assert(castable_wf_list(ar, s) == (castable_wf(ar, s[0]) && castable_wf_list(
            ar,
            s.skip(1),
        )));
        assert(abs_cast_list(ar, sp) =~= abs_cast_list(ar, s).push(abs_cast(ar, x)));
    }
}

/// A tuple record: exactly two children, converted in order.
pub fn to_tuple_of_type(list: &ClvmArg) -> (r: Result<CastableType, MarshalError>)
    requires
        list.value_type == ArgBytesType::TupleOf,
    ensures
        match r {
            Ok(v) => exists|gv: CastView| #[trigger] conversion_ok(*list, v, gv),
            Err(e) => marshal_view(*list) == Err::<CastView, MarshalError>(e),
        },
    decreases *list, 0nat,
{
    if list.children.len() != 2 {
        return Err(MarshalError::Arity);
    }
    let first = match convert_to_casteable_type(&list.children[0]) {
        Ok(v) => v,
        Err(e) => {
            return Err(e);
        },
    };
    let second = match convert_to_casteable_type(&list.children[1]) {
        Ok(v) => v,
        Err(e) => {
            return Err(e);
        },
    };
    let ghost gfirst = choose|gv: CastView| conversion_ok(list.children@[0], first, gv);
    let ghost gsecond = choose|gv: CastView| conversion_ok(list.children@[1], second, gv);
    let v = CastableType::TupleOf(Box::new(first), Box::new(second));
    proof {
        assert(conversion_ok(list.children@[0], first, gfirst));
        assert(conversion_ok(list.children@[1], second, gsecond));
        let gv = CastView::Pair(Box::new(gfirst), Box::new(gsecond));
        assert forall|ar: Arena| #[trigger] reads_as(ar, v, gv) by {
            assert(reads_as(ar, first, gfirst));
            assert(reads_as(ar, second, gsecond));
            assert(castable_wf(ar, v));
            assert(abs_cast(ar, v) == gv);
        }
        assert(conversion_ok(*list, v, gv));
    }
    Ok(v)
}

/// Lower an argument record all the way to a tree in the arena.
pub fn to_clvm_object(allocator: &mut Arena, argument: &ClvmArg) -> (r: Result<
    SExp,
    MarshalError,
>)
    requires
        old(allocator).wf(),
    ensures
        final(allocator).wf(),
        final(allocator).extends(*old(allocator)),
        match r {
            Ok(h) => {
                &&& final(allocator).contains(h)
                &&& marshal_view(*argument) matches Ok(gv) && final(allocator).tree(h) == glift(
                    gv,
                )
            },
            Err(e) => marshal_view(*argument) == Err::<CastView, MarshalError>(e),
        },
{
    let value = match convert_to_casteable_type(argument) {
        Ok(v) => v,
        Err(e) => {
            proof {
                crate::arena::lemma_extends_refl(*allocator);
            }
            return Err(e);
        },
    };
    let ghost gv = choose|gv: CastView| conversion_ok(*argument, value, gv);
    proof {
        assert(conversion_ok(*argument, value, gv));
        assert(reads_as(*allocator, value, gv));
    }
    match to_sexp_type(allocator, value) {
        Ok(h) => Ok(h),
        Err(_) => vstd::pervasive::unreached(),
    }
}

} // verus!
