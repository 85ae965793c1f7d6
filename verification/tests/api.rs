use clvm_core::arena::Arena;
use clvm_core::clvm_api::{
    calc_tree_hash, run_serialized_program, ArgBytesType, ClvmArg, RunError,
};
use clvm_core::serialize::{node_to_bytes, prepare_response_for_flutter, node_from_bytes};
use clvm_core::sexp::{to_sexp_type, CastableType};
use clvm_core::sha256tree::sha256tree;
use clvm_core::types_converter::{to_clvm_object, MarshalError};

fn bytes_arg(value: &[u8]) -> ClvmArg {
    ClvmArg {
        value_type: ArgBytesType::Bytes,
        value: value.to_vec(),
        children: Vec::new(),
    }
}

fn list_arg(children: Vec<ClvmArg>) -> ClvmArg {
    ClvmArg {
        value_type: ArgBytesType::ListOf,
        value: Vec::new(),
        children,
    }
}

#[test]
fn list_lowering_builds_nil_terminated_chain() {
    let mut a = Arena::new();
    let value = CastableType::ListOf(vec![
        CastableType::Bytes(vec![1]),
        CastableType::Bytes(vec![2]),
    ]);
    let built = to_sexp_type(&mut a, value).unwrap();
    // the same chain built by hand: (1 2) == Pair(1, Pair(2, ()))
    let nil = a.null();
    let two = a.new_atom(vec![2]);
    let one = a.new_atom(vec![1]);
    let t1 = a.new_pair(two, nil);
    let expected = a.new_pair(one, t1);
    assert_eq!(
        node_to_bytes(&a, built).unwrap(),
        node_to_bytes(&a, expected).unwrap()
    );
}

#[test]
fn builder_handles_every_shape() {
    let mut a = Arena::new();
    let existing = a.one();
    let value = CastableType::TupleOf(
        Box::new(CastableType::CLVMObject(existing)),
        Box::new(CastableType::String("hi".to_string())),
    );
    let built = to_sexp_type(&mut a, value).unwrap();
    assert_eq!(
        node_to_bytes(&a, built).unwrap(),
        vec![0xff, 0x01, 0x82, 0x68, 0x69]
    );
    let value = CastableType::ListOf(Vec::new());
    let built = to_sexp_type(&mut a, value).unwrap();
    assert_eq!(node_to_bytes(&a, built).unwrap(), vec![0x80]);
}

#[test]
fn deep_list_builds_without_recursion() {
    let depth = 100_000usize;
    let mut items = Vec::new();
    for _ in 0..depth {
        items.push(CastableType::Bytes(vec![1]));
    }
    let mut a = Arena::new();
    let built = to_sexp_type(&mut a, CastableType::ListOf(items)).unwrap();
    assert_eq!(built.list_len(&a), depth);
}

#[test]
fn marshaller_maps_each_tag() {
    let mut a = Arena::new();
    let h = to_clvm_object(&mut a, &bytes_arg(&[0x41])).unwrap();
    assert_eq!(node_to_bytes(&a, h).unwrap(), vec![0x41]);

    let hexish = ClvmArg {
        value_type: ArgBytesType::Hex,
        value: vec![0xde, 0xad],
        children: Vec::new(),
    };
    let h = to_clvm_object(&mut a, &hexish).unwrap();
    assert_eq!(node_to_bytes(&a, h).unwrap(), vec![0x82, 0xde, 0xad]);

    let text = ClvmArg {
        value_type: ArgBytesType::String,
        value: b"ok".to_vec(),
        children: Vec::new(),
    };
    let h = to_clvm_object(&mut a, &text).unwrap();
    assert_eq!(node_to_bytes(&a, h).unwrap(), vec![0x82, 0x6f, 0x6b]);

    // numbers are canonicalized: 0x00 0x07 denotes 7
    let num = ClvmArg {
        value_type: ArgBytesType::Number,
        value: vec![0x00, 0x07],
        children: Vec::new(),
    };
    let h = to_clvm_object(&mut a, &num).unwrap();
    assert_eq!(node_to_bytes(&a, h).unwrap(), vec![0x07]);

    let tup = ClvmArg {
        value_type: ArgBytesType::TupleOf,
        value: Vec::new(),
        children: vec![bytes_arg(&[1]), bytes_arg(&[2])],
    };
    let h = to_clvm_object(&mut a, &tup).unwrap();
    assert_eq!(node_to_bytes(&a, h).unwrap(), vec![0xff, 0x01, 0x02]);

    let lst = list_arg(vec![bytes_arg(&[1]), bytes_arg(&[2])]);
    let h = to_clvm_object(&mut a, &lst).unwrap();
    assert_eq!(
        node_to_bytes(&a, h).unwrap(),
        vec![0xff, 0x01, 0xff, 0x02, 0x80]
    );
}

#[test]
fn marshaller_rejects_bad_records() {
    let mut a = Arena::new();
    let one_child_tuple = ClvmArg {
        value_type: ArgBytesType::TupleOf,
        value: Vec::new(),
        children: vec![bytes_arg(&[1])],
    };
    assert_eq!(
        to_clvm_object(&mut a, &one_child_tuple).unwrap_err(),
        MarshalError::Arity
    );

    let bad_text = ClvmArg {
        value_type: ArgBytesType::String,
        value: vec![0xff, 0xfe],
        children: Vec::new(),
    };
    assert_eq!(
        to_clvm_object(&mut a, &bad_text).unwrap_err(),
        MarshalError::InvalidText
    );

    let bad_point = ClvmArg {
        value_type: ArgBytesType::G1Affine,
        value: vec![0u8; 48],
        children: Vec::new(),
    };
    assert_eq!(
        to_clvm_object(&mut a, &bad_point).unwrap_err(),
        MarshalError::InvalidPoint
    );
    let short_point = ClvmArg {
        value_type: ArgBytesType::G1Affine,
        value: vec![0u8; 4],
        children: Vec::new(),
    };
    assert_eq!(
        to_clvm_object(&mut a, &short_point).unwrap_err(),
        MarshalError::InvalidPoint
    );
}

#[test]
fn valid_curve_point_becomes_its_atom() {
    let compressed = bls12_381::G1Affine::generator().to_compressed();
    let arg = ClvmArg {
        value_type: ArgBytesType::G1Affine,
        value: compressed.to_vec(),
        children: Vec::new(),
    };
    let mut a = Arena::new();
    let h = to_clvm_object(&mut a, &arg).unwrap();
    let enc = node_to_bytes(&a, h).unwrap();
    assert_eq!(enc[0], 0x80 | 48);
    assert_eq!(&enc[1..], &compressed[..]);
}

#[test]
fn tree_hash_matches_known_vectors() {
    // the hash of nil: sha256(0x01)
    let nil_hash = calc_tree_hash(&bytes_arg(&[])).unwrap();
    assert_eq!(
        nil_hash,
        hex_to_bytes("4bf5122f344554c53bde2ebb8cd2b7e3d1600ad631c385a5d7cce23c7785459a")
    );
    // the hash of the atom 1: sha256(0x01 0x01)
    let one_hash = calc_tree_hash(&bytes_arg(&[1])).unwrap();
    assert_eq!(
        one_hash,
        hex_to_bytes("9dcf97a184f32623d11a73124ceb99a5709b083721e878a16d78f596718ba7b2")
    );
    // a pair hashes its children's hashes behind a two tag
    let pair_arg = ClvmArg {
        value_type: ArgBytesType::TupleOf,
        value: Vec::new(),
        children: vec![bytes_arg(&[]), bytes_arg(&[1])],
    };
    let pair_hash = calc_tree_hash(&pair_arg).unwrap();
    let mut buf = vec![2u8];
    buf.extend_from_slice(&nil_hash);
    buf.extend_from_slice(&one_hash);
    let expected = <sha2::Sha256 as sha2::Digest>::digest(&buf).to_vec();
    assert_eq!(pair_hash, expected);

    let mut a = Arena::new();
    let nil = a.null();
    assert_eq!(sha256tree(&a, nil), nil_hash);
}

#[test]
fn response_chunks_concatenate_to_the_encoding() {
    let bytes = vec![0xff, 0x01, 0x82, 0xde, 0xad];
    let mut a = Arena::new();
    let h = node_from_bytes(&mut a, &bytes).unwrap();
    let records = prepare_response_for_flutter(&a, h).unwrap();
    let concat: Vec<u8> = records.iter().flat_map(|r| r.value.clone()).collect();
    assert_eq!(concat, bytes);
    assert_eq!(records[0].value_type, "CONS_BOX_MARKER");
    assert_eq!(records[0].encoded, "u8");
    assert_eq!(records[0].value_len, 1);
    assert_eq!(records[1].value_type, "byte");
    assert_eq!(records[1].encoded, "u8");
    assert_eq!(records[1].value_len, 1);
    assert_eq!(records[2].value_type, "buffer");
    assert_eq!(records[2].encoded, "u64");
    assert_eq!(records[2].value_len, 2);
    // the empty atom's chunk
    let mut a2 = Arena::new();
    let nil = a2.null();
    let nil_records = prepare_response_for_flutter(&a2, nil).unwrap();
    assert_eq!(nil_records.len(), 1);
    assert_eq!(nil_records[0].value_type, "empty");
    assert_eq!(nil_records[0].value, vec![0x80]);
    assert_eq!(nil_records[0].encoded, "u8");
    assert_eq!(nil_records[0].value_len, 0);
}

#[test]
fn run_serialized_program_evaluates_quote() {
    // (q . 3)
    let program = vec![0xff, 0x01, 0x03];
    let resp = run_serialized_program(program, &bytes_arg(&[])).unwrap();
    assert!(resp.cost > 0);
    let concat: Vec<u8> = resp.value.iter().flat_map(|r| r.value.clone()).collect();
    assert_eq!(concat, vec![0x03]);
}

#[test]
fn run_serialized_program_adds() {
    // (+ (q . 2) (q . 3))
    let program = vec![
        0xff, 0x10, 0xff, 0xff, 0x01, 0x02, 0xff, 0xff, 0x01, 0x03, 0x80,
    ];
    let resp = run_serialized_program(program, &bytes_arg(&[])).unwrap();
    let concat: Vec<u8> = resp.value.iter().flat_map(|r| r.value.clone()).collect();
    assert_eq!(concat, vec![0x05]);
}

#[test]
fn run_serialized_program_reports_eval_faults() {
    // the bare opcode 8 (raise) applied to nothing: evaluation fails
    let program = vec![0xff, 0x08, 0x80];
    let err = run_serialized_program(program, &bytes_arg(&[])).unwrap_err();
    assert_eq!(err, RunError::Eval);
    // a malformed program is an evaluator-side fault too
    let err = run_serialized_program(vec![0xff], &bytes_arg(&[])).unwrap_err();
    assert_eq!(err, RunError::Eval);
}

fn hex_to_bytes(s: &str) -> Vec<u8> {
    let chars: Vec<u8> = s.bytes().collect();
    let mut out = Vec::new();
    let mut i = 0;
    while i + 1 < chars.len() {
        let v = |c: u8| -> u8 {
            if c.is_ascii_digit() {
                c - b'0'
            } else {
                c - b'a' + 10
            }
        };
        out.push(v(chars[i]) * 16 + v(chars[i + 1]));
        i += 2;
    }
    out
}
