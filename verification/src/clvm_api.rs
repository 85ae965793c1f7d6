//! The calling surface: wire-shaped argument and response records, running
//! a serialized program through the external evaluator, and content
//! hashing. The evaluator itself is a black box; everything around it —
//! marshalling, serialization, response framing — is this library's logic.

use vstd::prelude::*;

use crate::arena::Arena;
use crate::serialize::{
    concat_response_values, decode_spec, encodable, encoded, node_from_bytes, node_to_bytes,
    prepare_response_for_flutter,
};
use crate::sexp::glift;
use crate::sha256tree::{sha256tree, tree_hash_spec};
use crate::types_converter::{marshal_view, to_clvm_object, MarshalError};

verus! {

/// One framed chunk of a serialized response: its kind, the bytes it
/// contributes to the canonical encoding, how they are encoded, and the
/// payload length.
#[derive(Clone, Debug)]
pub struct ClvmResponse {
    pub value_type: String,
    pub value: Vec<u8>,
    pub encoded: String,
    pub value_len: i32,
}

/// The tag of a wire-shaped argument.
#[derive(Clone, Copy, PartialEq, Eq, Structural, Debug)]
pub enum ArgBytesType {
    Hex,
    String,
    Bytes,
    Number,
    G1Affine,
    ListOf,
    TupleOf,
}

/// A wire-shaped argument: a tag, a byte payload, and children used by the
/// list and tuple shapes.
pub struct ClvmArg {
    pub value_type: ArgBytesType,
    pub value: Vec<u8>,
    pub children: Vec<ClvmArg>,
}

/// The cost and framed result of one evaluation.
#[derive(Clone, Debug)]
pub struct ProgramResponse {
    pub cost: u64,
    pub value: Vec<ClvmResponse>,
}

/// Why a run could not produce a response.
#[derive(Clone, Copy, PartialEq, Eq, Structural, Debug)]
pub enum RunError {
    /// The arguments could not be lowered to a tree.
    Marshal(MarshalError),
    /// The argument tree held an atom over the size ceiling.
    ArgsTooBig,
    /// The evaluator rejected the program or its evaluation failed.
    Eval,
    /// The evaluator returned bytes that do not decode.
    BadOutput,
}

/// What the external evaluator yields for a serialized program, serialized
/// environment and cost ceiling: a cost and the serialized result, or
/// nothing on any fault.
pub uninterp spec fn eval_outcome(program: Seq<u8>, env: Seq<u8>, max_cost: u64) -> Option<
    (u64, Seq<u8>),
>;

/// Relies on clvmr's `run_program` with the standard dialect, with
/// clvmr's `serde::node_from_bytes` and `serde::node_to_bytes` converting
/// at both ends; the outcome depends on the three inputs alone. Every
/// fault — malformed bytes, an evaluation error, cost exhaustion — comes
/// back as `None`.
#[verifier::external_body]
fn run_external(program: &[u8], env: &[u8], max_cost: u64) -> (r: Option<(u64, Vec<u8>)>)
    ensures
        match r {
            Some(cr) => eval_outcome(program@, env@, max_cost) == Some((cr.0, cr.1@)),
            None => eval_outcome(program@, env@, max_cost) is None,
        },
{
    let mut allocator = clvmr::Allocator::new();
    let program = clvmr::serde::node_from_bytes(&mut allocator, program).ok()?;
    let env = clvmr::serde::node_from_bytes(&mut allocator, env).ok()?;
    let dialect = clvmr::ChiaDialect::new(clvmr::ClvmFlags::empty());
    let reduction = clvmr::run_program(&mut allocator, &dialect, program, env, max_cost).ok()?;
    let bytes = clvmr::serde::node_to_bytes(&allocator, reduction.1).ok()?;
    Some((reduction.0, bytes))
}

/// The cost ceiling every run is given.
pub const MAX_COST: u64 = 12_000_000_000;

/// Run a serialized program against marshalled arguments: lower the
/// arguments to a tree, hand program and serialized arguments to the
/// evaluator, and frame whatever tree it returns.
pub fn run_serialized_program(program_data: Vec<u8>, program_args: &ClvmArg) -> (r: Result<
    ProgramResponse,
    RunError,
>)
    ensures
        match r {
            Ok(resp) => {
                &&& marshal_view(*program_args) matches Ok(gv)
                &&& encodable(glift(gv))
                &&& eval_outcome(program_data@, encoded(glift(gv)), MAX_COST) matches Some(co)
                &&& resp.cost == co.0
                &&& decode_spec(co.1) matches Some(tn) && concat_response_values(resp.value@)
                    == encoded(tn.0)
            },
            Err(e) => match e {
                RunError::Marshal(me) => marshal_view(*program_args) == Err::<
                    crate::sexp::CastView,
                    MarshalError,
                >(me),
                RunError::ArgsTooBig => marshal_view(*program_args) matches Ok(gv) && !encodable(
                    glift(gv),
                ),
                RunError::Eval => marshal_view(*program_args) matches Ok(gv) && encodable(
                    glift(gv),
                ) && eval_outcome(program_data@, encoded(glift(gv)), MAX_COST) is None,
                RunError::BadOutput => {
                    &&& marshal_view(*program_args) matches Ok(gv)
                    &&& encodable(glift(gv))
                    &&& eval_outcome(program_data@, encoded(glift(gv)), MAX_COST) matches Some(co)
                        && decode_spec(co.1) is None
                },
            },
        },
{
    let mut allocator = Arena::new();
    let args = match to_clvm_object(&mut allocator, program_args) {
        Ok(h) => h,
        Err(e) => {
            return Err(RunError::Marshal(e));
        },
    };
    let env_bytes = match node_to_bytes(&allocator, args) {
        Ok(b) => b,
        Err(_) => {
            return Err(RunError::ArgsTooBig);
        },
    };
    match run_external(program_data.as_slice(), env_bytes.as_slice(), MAX_COST) {
        Some((cost, out_bytes)) => {
            let mut out_arena = Arena::new();
            let node = match node_from_bytes(&mut out_arena, out_bytes.as_slice()) {
                Ok(h) => h,
                Err(_) => {
                    return Err(RunError::BadOutput);
                },
            };
            proof {
                crate::serialize::lemma_decoded_encodable(out_bytes@);
            }
            let values_response = match prepare_response_for_flutter(&out_arena, node) {
                Ok(v) => v,
                Err(_) => vstd::pervasive::unreached(),
            };
            Ok(ProgramResponse { cost, value: values_response })
        },
        None => Err(RunError::Eval),
    }
}

/// Lower the argument to a tree and hash it for content addressing.
pub fn calc_tree_hash(arg: &ClvmArg) -> (r: Result<Vec<u8>, MarshalError>)
    ensures
        match r {
            Ok(h) => marshal_view(*arg) matches Ok(gv) && h@ == tree_hash_spec(glift(gv))
                && h@.len() == 32,
            Err(e) => marshal_view(*arg) == Err::<crate::sexp::CastView, MarshalError>(e),
        },
{
    let mut allocator = Arena::new();
    let node = match to_clvm_object(&mut allocator, arg) {
        Ok(h) => h,
        Err(e) => {
            return Err(e);
        },
    };
    Ok(sha256tree(&allocator, node))
}

} // verus!
