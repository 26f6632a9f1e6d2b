use hashed_objects::hashing::{digest, push_bytes, push_framed, push_hashes, DIGEST_BASIS};
use hashed_objects::literal::{canonical_form, Literal};

#[test]
fn digest_of_nothing_is_the_basis() {
    assert_eq!(digest(&[]), DIGEST_BASIS);
    assert_eq!(digest(&[]), 0xcbf2_9ce4_8422_2325);
}

#[test]
fn digest_matches_published_values() {
    assert_eq!(digest(b"a"), 0xaf63_dc4c_8601_ec8c);
    assert_eq!(digest(b"foobar"), 0x8594_4171_f739_67e8);
}

#[test]
fn digest_depends_on_byte_order() {
    assert_ne!(digest(b"ab"), digest(b"ba"));
}

#[test]
fn push_bytes_appends() {
    let mut out = vec![1u8];
    push_bytes(&mut out, &[2, 3]);
    assert_eq!(out, vec![1u8, 2, 3]);
}

#[test]
fn push_framed_puts_the_length_first() {
    let mut out = Vec::new();
    push_framed(&mut out, &[0xaa, 0xbb]);
    assert_eq!(out, vec![2u8, 0, 0, 0, 0, 0, 0, 0, 0xaa, 0xbb]);
}

#[test]
fn push_hashes_writes_eight_bytes_each() {
    let mut out = Vec::new();
    push_hashes(&mut out, &vec![1u64, 0x0102_0304_0506_0708]);
    assert_eq!(out, vec![1u8, 0, 0, 0, 0, 0, 0, 0, 8, 7, 6, 5, 4, 3, 2, 1]);
}

#[test]
fn canonical_form_lays_out_tag_payload_and_dependencies() {
    let bytes = canonical_form("ab", &[9], &vec![1u64]);
    let expected: Vec<u8> = vec![
        2, 0, 0, 0, 0, 0, 0, 0, 0x61, 0x62, 1, 0, 0, 0, 0, 0, 0, 0, 9, 1, 0, 0, 0, 0, 0, 0, 0, 1,
        0, 0, 0, 0, 0, 0, 0,
    ];
    assert_eq!(bytes, expected);
}

#[test]
fn literal_new_computes_the_content_hash() {
    let literal = Literal::new("note".to_string(), vec![1, 2, 3], vec![5, 6]);
    assert_eq!(literal.hash, 0x9623_e033_2efd_ca4f);
    assert_eq!(literal.type_tag, "note");
    assert_eq!(literal.payload, vec![1u8, 2, 3]);
    assert_eq!(literal.dependencies, vec![5u64, 6]);
    assert!(literal.validate_hash());
}

#[test]
fn literal_of_nothing_has_a_fixed_hash() {
    let literal = Literal::new(String::new(), Vec::new(), Vec::new());
    assert_eq!(literal.hash, 0x81d2_3fd7_003c_2305);
}

#[test]
fn literal_hash_is_deterministic() {
    let one = Literal::new("note".to_string(), vec![1, 2, 3], vec![5, 6]);
    let other = Literal::new("note".to_string(), vec![1, 2, 3], vec![5, 6]);
    assert_eq!(one.hash, other.hash);
    assert_eq!(one.recompute_hash(), one.hash);
}

#[test]
fn literal_hash_covers_every_part() {
    let base = Literal::new("note".to_string(), vec![1, 2, 3], vec![5, 6]);
    assert_ne!(Literal::new("nota".to_string(), vec![1, 2, 3], vec![5, 6]).hash, base.hash);
    assert_ne!(Literal::new("note".to_string(), vec![1, 2, 4], vec![5, 6]).hash, base.hash);
    assert_ne!(Literal::new("note".to_string(), vec![1, 2, 3], vec![6, 5]).hash, base.hash);
    assert_ne!(Literal::new("note".to_string(), vec![1, 2, 3], vec![5]).hash, base.hash);
}

#[test]
fn tampered_literal_fails_validation() {
    let mut literal = Literal::new("note".to_string(), vec![1, 2, 3], vec![5, 6]);
    literal.payload.push(4);
    assert!(!literal.validate_hash());
    assert_ne!(literal.recompute_hash(), literal.hash);
}

#[test]
fn literal_clone_is_equal_and_independent() {
    let literal = Literal::new("note".to_string(), vec![1, 2, 3], vec![5, 6]);
    let mut copy = literal.clone();
    assert_eq!(copy.hash, literal.hash);
    assert_eq!(copy.payload, literal.payload);
    assert_eq!(copy.dependencies, literal.dependencies);
    assert_eq!(copy.type_tag, literal.type_tag);
    copy.payload.clear();
    assert_eq!(literal.payload, vec![1u8, 2, 3]);
}
