//! The byte layout of the wire format, the little-endian encoding helpers,
//! and the hash engine against the hash crate it relies on.

use vsdelta::bytes::{is_zero, u64tou8ale, u8aletou64};
use vsdelta::diff::diff_generate;
use vsdelta::format::{parse_delta, serialize_delta, Delta, Op};
use vsdelta::hash::hash_file;

#[test]
fn u64_little_endian_exact_bytes() {
    assert_eq!(u64tou8ale(0), [0, 0, 0, 0, 0, 0, 0, 0]);
    assert_eq!(u64tou8ale(1), [1, 0, 0, 0, 0, 0, 0, 0]);
    assert_eq!(
        u64tou8ale(0x1122334455667788),
        [0x88, 0x77, 0x66, 0x55, 0x44, 0x33, 0x22, 0x11]
    );
    assert_eq!(u64tou8ale(u64::MAX), [0xFF; 8]);
}

#[test]
fn u64_round_trips() {
    for v in [0u64, 1, 255, 256, 0xDEAD_BEEF, u64::MAX, u64::MAX - 1] {
        assert_eq!(u8aletou64(u64tou8ale(v)), v);
    }
    assert_eq!(u8aletou64([0x88, 0x77, 0x66, 0x55, 0x44, 0x33, 0x22, 0x11]), 0x1122334455667788);
}

#[test]
fn is_zero_cases() {
    assert!(is_zero(&vec![]));
    assert!(is_zero(&vec![0; 4096]));
    assert!(!is_zero(&vec![0, 0, 1, 0]));
    assert!(!is_zero(&vec![255]));
}

/// The generated stream's layout: magic, version record, source length and
/// hash, operations, target length and hash, end marker.
#[test]
fn wire_layout_of_identity_delta() {
    let a: Vec<u8> = b"AAAAAAAA".to_vec();
    let delta = diff_generate(&a, &a);
    // magic
    assert_eq!(&delta[0..7], b"vsdelta");
    // version record: tag 0x00, then major 0
    assert_eq!(delta[7], 0x00);
    assert_eq!(delta[8], 0);
    // source length record
    assert_eq!(delta[11], 0x77);
    assert_eq!(&delta[12..20], &u64tou8ale(8));
    // source hash record
    assert_eq!(delta[20], 0xAA);
    let expect_hash = hash_file(&a);
    assert_eq!(&delta[21..53], &expect_hash[..]);
    // one skip operation over the whole content
    assert_eq!(delta[53], 0x55);
    assert_eq!(&delta[54..62], &u64tou8ale(8));
    // target length record
    assert_eq!(delta[62], 0x88);
    assert_eq!(&delta[63..71], &u64tou8ale(8));
    // target hash record
    assert_eq!(delta[71], 0xBB);
    assert_eq!(&delta[72..104], &expect_hash[..]);
    // end marker, and nothing after it
    assert_eq!(delta[104], 0xEE);
    assert_eq!(delta.len(), 105);
}

#[test]
fn diff_operation_carries_count_and_payload() {
    let a: Vec<u8> = b"AAAAAAAA".to_vec();
    let b: Vec<u8> = b"BBBBBBBB".to_vec();
    let delta = diff_generate(&a, &b);
    assert_eq!(delta[53], 0xDD);
    assert_eq!(&delta[54..62], &u64tou8ale(8));
    assert_eq!(&delta[62..70], b"BBBBBBBB");
    assert_eq!(delta[70], 0x88);
}

/// Serializing a hand-built stream and reading it back gives the same record
/// values.
#[test]
fn parse_of_serialized_delta() {
    let a: Vec<u8> = b"0123456789".to_vec();
    let d = Delta {
        major: 0,
        minor: 1,
        patch_level: 0,
        source_len: 10,
        source_hash: hash_file(&a),
        ops: vec![Op::Skip(4), Op::Diff(b"zz".to_vec()), Op::Hole(4)],
        target_len: 10,
        target_hash: hash_file(&a),
    };
    let bytes = serialize_delta(&d);
    let back = parse_delta(&bytes).expect("serialized stream must parse");
    assert_eq!(back.major, 0);
    assert_eq!(back.minor, 1);
    assert_eq!(back.patch_level, 0);
    assert_eq!(back.source_len, 10);
    assert_eq!(back.source_hash, d.source_hash);
    assert_eq!(back.ops, d.ops);
    assert_eq!(back.target_len, 10);
    assert_eq!(back.target_hash, d.target_hash);
}

/// The hash engine must agree with the hash crate it relies on; a wrapper
/// that handed its input through unchanged would fail both checks.
#[test]
fn hash_file_matches_reference_hash() {
    let data: Vec<u8> = (0u8..=255).cycle().take(10000).collect();
    let ours = hash_file(&data);
    let reference = blake3::hash(&data);
    assert_eq!(&ours[..], reference.as_bytes());
    assert_ne!(&ours[..], &data[0..32]);
    // block-streamed hashing agrees with the one-shot hash on a short input too
    let small: Vec<u8> = b"abc".to_vec();
    assert_eq!(&hash_file(&small)[..], blake3::hash(b"abc").as_bytes());
}
