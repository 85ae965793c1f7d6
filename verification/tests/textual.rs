use clvm_core::arena::{Arena, SExp};
use clvm_core::binutils::{assemble, bytes_to_hex, disassemble, is_printable_string};
use clvm_core::casts::{number_from_decimal, number_to_decimal, Number};
use clvm_core::cmds::{OpcConversion, OpdConversion};
use clvm_core::gensym::gensym;
use clvm_core::serialize::node_to_bytes;

fn atom(a: &mut Arena, bytes: &[u8]) -> SExp {
    a.new_atom(bytes.to_vec())
}

fn reassembles_to_same_tree(a: &mut Arena, h: SExp) {
    let text = disassemble(a, h);
    let expected = node_to_bytes(a, h).unwrap();
    let back = assemble(a, &text).unwrap();
    assert_eq!(node_to_bytes(a, back).unwrap(), expected, "text was {:?}", text);
}

#[test]
fn nil_prints_as_parens() {
    let mut a = Arena::new();
    let h = a.null();
    assert_eq!(disassemble(&a, h), "()");
}

#[test]
fn small_integers_print_in_decimal() {
    let mut a = Arena::new();
    let n42 = atom(&mut a, &[0x2a]);
    assert_eq!(disassemble(&a, n42), "42");
    let minus_one = atom(&mut a, &[0xff]);
    assert_eq!(disassemble(&a, minus_one), "-1");
    let big = atom(&mut a, &[0x01, 0x00]);
    assert_eq!(disassemble(&a, big), "256");
    let minus_128 = atom(&mut a, &[0x80]);
    assert_eq!(disassemble(&a, minus_128), "-128");
}

#[test]
fn keyword_atom_prints_in_head_position_only() {
    let mut a = Arena::new();
    let nil = a.null();
    let apply = atom(&mut a, &[0x02]);
    let p = a.new_pair(apply, nil);
    assert_eq!(disassemble(&a, p), "(a)");
    // in tail position the same atom prints as a number
    let two = atom(&mut a, &[0x02]);
    let q = a.new_pair(nil, two);
    assert_eq!(disassemble(&a, q), "(() . 2)");
}

#[test]
fn printable_atoms_print_quoted() {
    let mut a = Arena::new();
    let h = atom(&mut a, b"hello");
    assert_eq!(disassemble(&a, h), "\"hello\"");
}

#[test]
fn leading_zero_atoms_print_in_hex() {
    let mut a = Arena::new();
    let h = atom(&mut a, &[0x00, 0x01]);
    assert_eq!(disassemble(&a, h), "0x0001");
}

#[test]
fn list_sugar_and_dotted_tails() {
    let mut a = Arena::new();
    let nil = a.null();
    let one = a.one();
    let two = atom(&mut a, &[0x2b]);
    let inner = a.new_pair(two, nil);
    let fortytwo = atom(&mut a, &[0x2a]);
    let lst = a.new_pair(fortytwo, inner);
    assert_eq!(disassemble(&a, lst), "(42 43)");
    let three = atom(&mut a, &[0x03]);
    let dotted = a.new_pair(one, three);
    // the head atom 1 resolves to its keyword
    assert_eq!(disassemble(&a, dotted), "(q . 3)");
}

#[test]
fn assemble_parses_lists_dots_and_literals() {
    let mut a = Arena::new();
    let h = assemble(&mut a, &"(q . 1)".to_string()).unwrap();
    assert_eq!(node_to_bytes(&a, h).unwrap(), vec![0xff, 0x01, 0x01]);
    let h = assemble(&mut a, &"(1 2)".to_string()).unwrap();
    assert_eq!(node_to_bytes(&a, h).unwrap(), vec![0xff, 0x01, 0xff, 0x02, 0x80]);
    let h = assemble(&mut a, &"0x0001".to_string()).unwrap();
    assert_eq!(node_to_bytes(&a, h).unwrap(), vec![0x82, 0x00, 0x01]);
    let h = assemble(&mut a, &"-1".to_string()).unwrap();
    assert_eq!(node_to_bytes(&a, h).unwrap(), vec![0x81, 0xff]);
    let h = assemble(&mut a, &"\"hi\"".to_string()).unwrap();
    assert_eq!(node_to_bytes(&a, h).unwrap(), vec![0x82, 0x68, 0x69]);
    let h = assemble(&mut a, &"#a".to_string()).unwrap();
    assert_eq!(node_to_bytes(&a, h).unwrap(), vec![0x61]);
    let h = assemble(&mut a, &"sym".to_string()).unwrap();
    assert_eq!(node_to_bytes(&a, h).unwrap(), vec![0x83, 0x73, 0x79, 0x6d]);
    assert!(assemble(&mut a, &"(1".to_string()).is_err());
    assert!(assemble(&mut a, &"".to_string()).is_err());
}

#[test]
fn disassembly_assembly_round_trip() {
    let mut a = Arena::new();
    let nil = a.null();
    reassembles_to_same_tree(&mut a, nil);
    // a known keyword in operator position
    let mut a = Arena::new();
    let nil = a.null();
    let apply = atom(&mut a, &[0x02]);
    let kw = a.new_pair(apply, nil);
    reassembles_to_same_tree(&mut a, kw);
    // a printable string
    let mut a = Arena::new();
    let s = atom(&mut a, b"printable text");
    reassembles_to_same_tree(&mut a, s);
    // small positive and negative integers
    let mut a = Arena::new();
    let pos = atom(&mut a, &[0x2a]);
    reassembles_to_same_tree(&mut a, pos);
    let mut a = Arena::new();
    let neg = atom(&mut a, &[0xd6]);
    reassembles_to_same_tree(&mut a, neg);
    // arbitrary non-printable bytes
    let mut a = Arena::new();
    let blob = atom(&mut a, &[0x00, 0x07, 0xfe, 0x01]);
    reassembles_to_same_tree(&mut a, blob);
    // a nested structure mixing all of them
    let mut a = Arena::new();
    let nil = a.null();
    let apply = atom(&mut a, &[0x02]);
    let s = atom(&mut a, b"text!");
    let n = atom(&mut a, &[0x81, 0x00]);
    let t1 = a.new_pair(n, nil);
    let t2 = a.new_pair(s, t1);
    let t3 = a.new_pair(apply, t2);
    reassembles_to_same_tree(&mut a, t3);
}

#[test]
fn printable_string_checks_ascii_range() {
    assert!(is_printable_string(&"hello world!".to_string()));
    assert!(!is_printable_string(&"tab\tbreaks".to_string()));
    assert!(!is_printable_string(&"newline\n".to_string()));
    assert!(!is_printable_string(&"caf\u{e9}".to_string()));
    assert!(is_printable_string(&"".to_string()));
}

#[test]
fn number_canonicalization() {
    assert_eq!(Number::from_bytes(vec![0x00, 0x07]).to_bytes(), vec![0x07]);
    assert_eq!(Number::from_bytes(vec![0x00]).to_bytes(), Vec::<u8>::new());
    assert_eq!(Number::from_bytes(vec![0xff, 0xff]).to_bytes(), vec![0xff]);
    assert_eq!(
        Number::from_bytes(vec![0x00, 0x80]).to_bytes(),
        vec![0x00, 0x80]
    );
    assert_eq!(
        Number::from_bytes(vec![0xff, 0x00]).to_bytes(),
        vec![0xff, 0x00]
    );
}

#[test]
fn decimal_conversion_round_trips() {
    let n = number_from_decimal(&[1, 2, 3], false);
    assert_eq!(n.to_bytes(), vec![0x7b]);
    let n = number_from_decimal(&[1, 2, 8], true);
    assert_eq!(n.to_bytes(), vec![0x80]);
    let n = number_from_decimal(&[2, 5, 6], false);
    assert_eq!(n.to_bytes(), vec![0x01, 0x00]);
    let n = number_from_decimal(&[0], false);
    assert_eq!(n.to_bytes(), Vec::<u8>::new());
    let n = number_from_decimal(&[1, 2, 8], false);
    assert_eq!(n.to_bytes(), vec![0x00, 0x80]);
    // a value wider than a machine word
    let digits: Vec<u8> = vec![1, 8, 4, 4, 6, 7, 4, 4, 0, 7, 3, 7, 0, 9, 5, 5, 1, 6, 1, 7];
    let n = number_from_decimal(&digits, false);
    let (neg, back) = number_to_decimal(&n);
    assert!(!neg);
    assert_eq!(back, digits);
    let m = number_from_decimal(&digits, true);
    let (neg, back) = number_to_decimal(&m);
    assert!(neg);
    assert_eq!(back, digits);
}

#[test]
fn gensym_appends_counter() {
    assert_eq!(gensym(b"arg".to_vec(), 0), b"arg_$_1".to_vec());
    assert_eq!(gensym(b"x".to_vec(), 41), b"x_$_42".to_vec());
}

#[test]
fn opc_and_opd_are_inverse_seams() {
    let mut a = Arena::new();
    let (_, hex) = OpcConversion {}
        .invoke(&mut a, &"(q . 1)".to_string())
        .unwrap();
    assert_eq!(hex, "ff0101");
    let (_, text) = OpdConversion {}.invoke(&mut a, &"ff0101".to_string()).unwrap();
    assert_eq!(text, "(q . 1)");
    assert!(OpdConversion {}
        .invoke(&mut a, &"zz".to_string())
        .is_err());
    assert!(OpdConversion {}
        .invoke(&mut a, &"f".to_string())
        .is_err());
}

#[test]
fn bytes_to_hex_spells_lower_case() {
    assert_eq!(bytes_to_hex(&[0x00, 0xab, 0x5f]), "00ab5f");
    assert_eq!(bytes_to_hex(&[]), "");
}
