use clvm_core::arena::Arena;
use clvm_core::serialize::{
    node_from_bytes, node_from_stream, node_to_bytes, serialized_length_from_bytes,
    SerializeError,
};

fn atom(a: &mut Arena, bytes: &[u8]) -> clvm_core::arena::SExp {
    a.new_atom(bytes.to_vec())
}

#[test]
fn empty_atom_encodes_to_80() {
    let mut a = Arena::new();
    let h = a.null();
    assert_eq!(node_to_bytes(&a, h).unwrap(), vec![0x80]);
}

#[test]
fn small_atom_is_self_delimiting() {
    let mut a = Arena::new();
    let h = atom(&mut a, &[0x41]);
    assert_eq!(node_to_bytes(&a, h).unwrap(), vec![0x41]);
}

#[test]
fn high_bit_single_byte_needs_prefix() {
    let mut a = Arena::new();
    let h = atom(&mut a, &[0x80]);
    // one prefix byte carrying the length one, then the raw byte
    assert_eq!(node_to_bytes(&a, h).unwrap(), vec![0x81, 0x80]);
}

#[test]
fn pair_marker_prefixes_children() {
    let mut a = Arena::new();
    let nil1 = a.null();
    let nil2 = a.null();
    let p = a.new_pair(nil1, nil2);
    assert_eq!(node_to_bytes(&a, p).unwrap(), vec![0xff, 0x80, 0x80]);
}

#[test]
fn size_prefix_boundary_one_byte() {
    let mut a = Arena::new();
    let h = atom(&mut a, &vec![7u8; 63]);
    let enc = node_to_bytes(&a, h).unwrap();
    assert_eq!(enc.len(), 64);
    assert_eq!(enc[0], 0x80 | 63);
    assert_eq!(&enc[1..], &vec![7u8; 63][..]);
}

#[test]
fn size_prefix_boundary_two_bytes() {
    let mut a = Arena::new();
    let h = atom(&mut a, &vec![7u8; 64]);
    let enc = node_to_bytes(&a, h).unwrap();
    assert_eq!(enc.len(), 66);
    assert_eq!(enc[0], 0xc0);
    assert_eq!(enc[1], 64);
    assert_eq!(&enc[2..], &vec![7u8; 64][..]);
}

#[test]
fn oversize_length_prefix_is_rejected() {
    // a six-byte prefix announcing 0x4_0000_0000 payload bytes
    let bytes = vec![0xfc, 0x04, 0x00, 0x00, 0x00, 0x00];
    let mut a = Arena::new();
    assert_eq!(
        node_from_bytes(&mut a, &bytes).unwrap_err(),
        SerializeError::BadEncoding
    );
    assert_eq!(
        serialized_length_from_bytes(&bytes).unwrap_err(),
        SerializeError::BadEncoding
    );
}

#[test]
fn truncated_input_is_rejected() {
    let mut a = Arena::new();
    for bad in [
        &[][..],
        &[0xff][..],
        &[0xff, 0x01][..],
        &[0xc1][..],
        &[0x83, 0x01][..],
    ] {
        assert_eq!(
            node_from_bytes(&mut a, bad).unwrap_err(),
            SerializeError::BadEncoding
        );
    }
}

#[test]
fn round_trip_structures() {
    let mut a = Arena::new();
    let one = a.one();
    let nil = a.null();
    let x = atom(&mut a, b"hello world, this atom needs a prefix");
    let p1 = a.new_pair(one, nil);
    let p2 = a.new_pair(x, p1);
    let p3 = a.new_pair(p2, p2);
    for h in [one, nil, x, p1, p2, p3] {
        let enc = node_to_bytes(&a, h).unwrap();
        let mut b = Arena::new();
        let back = node_from_bytes(&mut b, &enc).unwrap();
        assert_eq!(node_to_bytes(&b, back).unwrap(), enc);
    }
}

#[test]
fn distinct_trees_have_distinct_encodings() {
    let mut a = Arena::new();
    let nil = a.null();
    let one = a.one();
    let p = a.new_pair(one, nil);
    let q = a.new_pair(nil, one);
    let encs = [
        node_to_bytes(&a, nil).unwrap(),
        node_to_bytes(&a, one).unwrap(),
        node_to_bytes(&a, p).unwrap(),
        node_to_bytes(&a, q).unwrap(),
    ];
    for i in 0..encs.len() {
        for j in 0..encs.len() {
            if i != j {
                assert_ne!(encs[i], encs[j]);
            }
        }
    }
}

#[test]
fn serialized_length_ignores_trailing_bytes() {
    // (1 . 2) followed by garbage
    let bytes = vec![0xff, 0x01, 0x02, 0xde, 0xad];
    assert_eq!(serialized_length_from_bytes(&bytes).unwrap(), 3);
}

#[test]
fn stream_decode_advances_position() {
    let bytes = vec![0x01, 0x02, 0x80];
    let mut a = Arena::new();
    let mut pos = 0usize;
    let h1 = node_from_stream(&mut a, &bytes, &mut pos).unwrap();
    assert_eq!(pos, 1);
    let h2 = node_from_stream(&mut a, &bytes, &mut pos).unwrap();
    assert_eq!(pos, 2);
    let h3 = node_from_stream(&mut a, &bytes, &mut pos).unwrap();
    assert_eq!(pos, 3);
    assert_eq!(node_to_bytes(&a, h1).unwrap(), vec![0x01]);
    assert_eq!(node_to_bytes(&a, h2).unwrap(), vec![0x02]);
    assert_eq!(node_to_bytes(&a, h3).unwrap(), vec![0x80]);
}

#[test]
fn non_canonical_prefix_still_decodes() {
    // the atom 0x41 written with a needless length prefix
    let mut a = Arena::new();
    let h = node_from_bytes(&mut a, &[0x81, 0x41]).unwrap();
    // re-encoding yields the canonical one-byte form
    assert_eq!(node_to_bytes(&a, h).unwrap(), vec![0x41]);
}

#[test]
fn deep_right_leaning_chain_decodes_and_encodes() {
    let depth = 100_000usize;
    let mut bytes = Vec::new();
    for _ in 0..depth {
        bytes.push(0xff);
        bytes.push(0x01);
    }
    bytes.push(0x80);
    let mut a = Arena::new();
    let h = node_from_bytes(&mut a, &bytes).unwrap();
    let enc = node_to_bytes(&a, h).unwrap();
    assert_eq!(enc, bytes);
    assert_eq!(
        serialized_length_from_bytes(&bytes).unwrap(),
        bytes.len() as u64
    );
}

#[test]
fn list_len_walks_right_spine() {
    let mut a = Arena::new();
    let nil = a.null();
    let one = a.one();
    let l1 = a.new_pair(one, nil);
    let l2 = a.new_pair(one, l1);
    let l3 = a.new_pair(one, l2);
    assert_eq!(nil.list_len(&a), 0);
    assert_eq!(l1.list_len(&a), 1);
    assert_eq!(l3.list_len(&a), 3);
    assert!(nil.nullp(&a));
    assert!(!one.nullp(&a));
    assert!(l1.listp(&a));
    assert!(!one.listp(&a));
    let (f, r) = l3.explode(&a).unwrap();
    assert!(!f.listp(&a));
    assert_eq!(r.list_len(&a), 2);
    assert!(l3.first(&a).is_ok());
    assert!(one.rest(&a).is_err());
}
