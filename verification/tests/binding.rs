use spartan_sha::binding::{
    BindingHasher, extend_frame_len, extend_le, hash_security_params, hash_usize,
};
use spartan_sha::profile::{
    IopSecurityParams, LegacySha128Design, OodParams, ReductionParams, sha256_instance_facts,
};
use spartan_sha::transcript_messages::{
    FIELD_ELEMENTS_TAG, SPARTAN_TRANSCRIPT_FRAME_DOMAIN, SpartanFieldElements, SpartanMessage,
    SpartanRoundPolynomial,
};

fn framed(tag: &[u8], payload: &[u8]) -> Vec<u8> {
    let mut bytes = SPARTAN_TRANSCRIPT_FRAME_DOMAIN.as_bytes().to_vec();
    bytes.extend_from_slice(&(tag.len() as u64).to_le_bytes());
    bytes.extend_from_slice(tag);
    bytes.extend_from_slice(&(payload.len() as u64).to_le_bytes());
    bytes.extend_from_slice(payload);
    bytes
}

fn security_encoding(security: &IopSecurityParams) -> Vec<u8> {
    let mut bytes = Vec::new();
    bytes.extend_from_slice(&(security.profile_name.len() as u64).to_le_bytes());
    bytes.extend_from_slice(security.profile_name.as_bytes());
    bytes.extend_from_slice(&security.lambda.to_le_bytes());
    bytes.extend_from_slice(&security.projection_min.to_le_bytes());
    bytes.extend_from_slice(&security.projection_max.to_le_bytes());
    bytes.push(u8::from(security.projection_full_width));
    bytes.extend_from_slice(&security.initial_grinding_bits.to_le_bytes());
    bytes.extend_from_slice(&security.piop_round_grinding_bits.to_le_bytes());
    bytes.extend_from_slice(&security.terminal_grinding_bits.to_le_bytes());
    match security.reduction {
        Some(reduction) => {
            bytes.push(1);
            bytes.extend_from_slice(&reduction.min.to_le_bytes());
            bytes.extend_from_slice(&reduction.max.to_le_bytes());
            bytes.extend_from_slice(&reduction.grinding_bits.to_le_bytes());
        }
        None => bytes.push(0),
    }
    bytes.extend_from_slice(&security.forest_round_grinding_bits.to_le_bytes());
    bytes.extend_from_slice(&security.ring_switch_grinding_bits.to_le_bytes());
    if let Some(ood) = security.ood {
        bytes.push(1);
        bytes.extend_from_slice(&ood.grinding_bits.to_le_bytes());
    }
    bytes.extend_from_slice(&(security.ligerito_target_bits as u64).to_le_bytes());
    bytes
}

#[test]
fn extend_le_appends_little_endian_bytes() {
    let mut bytes = vec![9u8];
    extend_le(&mut bytes, 0x0102_0304, 4);
    assert_eq!(bytes, vec![9, 4, 3, 2, 1]);
    extend_le(&mut bytes, u128::MAX, 16);
    assert_eq!(bytes.len(), 21);
    assert!(bytes[5..].iter().all(|&b| b == 0xff));
    let mut empty = Vec::new();
    extend_le(&mut empty, 7, 0);
    assert!(empty.is_empty());
}

#[test]
fn frame_length_is_eight_little_endian_bytes() {
    let mut frame = Vec::new();
    extend_frame_len(&mut frame, 0x1234);
    assert_eq!(frame, 0x1234u64.to_le_bytes().to_vec());
}

#[test]
fn hasher_digests_the_absorbed_bytes() {
    let mut hash = BindingHasher::new();
    hash.update(b"abc");
    hash.update(b"");
    hash.update(b"def");
    assert_eq!(hash.finalize(), *blake3::hash(b"abcdef").as_bytes());
    assert_ne!(hash.finalize()[..6], b"abcdef"[..]);
    assert_eq!(BindingHasher::new().finalize(), *blake3::hash(b"").as_bytes());

    let mut counted = BindingHasher::new();
    hash_usize(&mut counted, 5);
    assert_eq!(counted.finalize(), *blake3::hash(&5u64.to_le_bytes()).as_bytes());
}

#[test]
fn security_params_are_bound_in_canonical_order() {
    let params = LegacySha128Design::instantiate(&sha256_instance_facts(7)).unwrap();
    let mut hash = BindingHasher::new();
    hash.update(b"prefix");
    hash_security_params(&mut hash, &params);
    let mut expected = b"prefix".to_vec();
    expected.extend_from_slice(&security_encoding(&params));
    assert_eq!(hash.finalize(), *blake3::hash(&expected).as_bytes());

    let mut staged = params;
    staged.reduction = Some(ReductionParams { min: 3, max: 1 << 100, grinding_bits: 9 });
    staged.ood = Some(OodParams { grinding_bits: 12 });
    let mut hash = BindingHasher::new();
    hash_security_params(&mut hash, &staged);
    assert_eq!(hash.finalize(), *blake3::hash(&security_encoding(&staged)).as_bytes());

    let mut other = params;
    other.terminal_grinding_bits += 1;
    let mut a = BindingHasher::new();
    hash_security_params(&mut a, &params);
    let mut b = BindingHasher::new();
    hash_security_params(&mut b, &other);
    assert_ne!(a.finalize(), b.finalize());
}

#[test]
fn message_frame_layout() {
    let message = SpartanMessage { tag: b"ab", payload: b"xyz" };
    assert_eq!(message.kind(), "spartan.message");
    assert_eq!(message.frame(), framed(b"ab", b"xyz"));
    let empty = SpartanMessage { tag: b"", payload: b"" };
    assert_eq!(empty.frame(), framed(b"", b""));
}

#[test]
fn field_element_frames_count_and_length_prefix_each_encoding() {
    let encodings = vec![vec![1u8, 2], vec![3u8]];
    let mut payload = 2u64.to_le_bytes().to_vec();
    payload.extend_from_slice(&2u64.to_le_bytes());
    payload.extend_from_slice(&[1, 2]);
    payload.extend_from_slice(&1u64.to_le_bytes());
    payload.extend_from_slice(&[3]);
    let expected = framed(FIELD_ELEMENTS_TAG.as_bytes(), &payload);

    let elements = SpartanFieldElements(&encodings);
    assert_eq!(elements.kind(), "spartan.field_elements");
    assert_eq!(elements.frame(), expected);

    let polynomial = SpartanRoundPolynomial(&encodings);
    assert_eq!(polynomial.kind(), "sumcheck.round_polynomial");
    assert_eq!(polynomial.frame(), expected);

    let none: Vec<Vec<u8>> = Vec::new();
    assert_eq!(
        SpartanFieldElements(&none).frame(),
        framed(FIELD_ELEMENTS_TAG.as_bytes(), &0u64.to_le_bytes())
    );
}

#[test]
fn frames_separate_tag_and_payload() {
    let a = SpartanMessage { tag: b"ab", payload: b"c" }.frame();
    let b = SpartanMessage { tag: b"a", payload: b"bc" }.frame();
    assert_ne!(a, b);
}
