//! Every rejection the codec knows: format violations, an incompatible
//! version, and integrity mismatches, each with an input that provokes it.

use vsdelta::diff::diff_generate;
use vsdelta::format::{parse_delta, serialize_delta, Delta, DeltaError, ErrorClass, Op};
use vsdelta::hash::hash_file;
use vsdelta::patch::{patch_apply, patch_apply_inplace};

fn sample() -> (Vec<u8>, Vec<u8>, Vec<u8>) {
    let a: Vec<u8> = b"AAAAAAAAXXXXXXXXBBBBBBBB".to_vec();
    let b: Vec<u8> = b"AAAAAAAAYYYYYYYYBBBBBBBB".to_vec();
    let delta = diff_generate(&a, &b);
    (a, b, delta)
}

#[test]
fn bad_magic_rejected() {
    let (a, _, mut delta) = sample();
    delta[0] ^= 0xFF;
    let err = patch_apply(&a, &delta).unwrap_err();
    assert_eq!(err, DeltaError::BadMagic);
    assert_eq!(err.class(), ErrorClass::Format);
}

#[test]
fn truncated_stream_rejected() {
    let (a, _, delta) = sample();
    // cut the stream before the end marker
    let cut = delta[..delta.len() - 1].to_vec();
    let err = patch_apply(&a, &cut).unwrap_err();
    assert_eq!(err, DeltaError::Truncated);
    assert_eq!(err.class(), ErrorClass::Format);
    // an empty stream is truncated too
    let err = parse_delta(&Vec::new()).unwrap_err();
    assert_eq!(err, DeltaError::Truncated);
}

#[test]
fn unexpected_opcode_rejected() {
    let (a, _, mut delta) = sample();
    // overwrite the first operation's tag with a byte that names no record
    delta[53] = 0x99;
    let err = patch_apply(&a, &delta).unwrap_err();
    assert_eq!(err, DeltaError::UnexpectedOpcode(0x99));
    assert_eq!(err.class(), ErrorClass::Format);
}

#[test]
fn unsupported_major_version_rejected() {
    let (a, _, mut delta) = sample();
    // the major version byte follows the version tag
    delta[8] = 9;
    let err = patch_apply(&a, &delta).unwrap_err();
    assert_eq!(err, DeltaError::UnsupportedVersion(0, 9));
    assert_eq!(err.class(), ErrorClass::Version);
}

#[test]
fn minor_version_difference_accepted() {
    let (a, b, mut delta) = sample();
    // a newer minor or patch version must still be readable
    delta[9] = 200;
    delta[10] = 200;
    let out = patch_apply(&a, &delta).expect("minor version difference is compatible");
    assert_eq!(out, b);
}

#[test]
fn source_length_mismatch_rejected() {
    let (mut a, _, delta) = sample();
    a.push(b'!');
    let err = patch_apply(&a, &delta).unwrap_err();
    assert_eq!(err, DeltaError::SourceLengthMismatch(24, 25));
    assert_eq!(err.class(), ErrorClass::Integrity);
}

/// Hash enforcement: mutating a single byte of the source before applying
/// makes the run abort with an integrity failure, before any byte is written.
#[test]
fn mutated_source_rejected_before_any_write() {
    let (mut a, _, delta) = sample();
    a[5] ^= 0x01;
    let err = patch_apply(&a, &delta).unwrap_err();
    match &err {
        DeltaError::SourceHashMismatch(expected, actual) => {
            assert_eq!(actual, &hash_file(&a));
            assert_ne!(expected, actual);
        },
        other => panic!("expected a source hash mismatch, got {:?}", other),
    }
    assert_eq!(err.class(), ErrorClass::Integrity);
    // in place, the file is untouched on this failure
    let mut file = a.clone();
    let err = patch_apply_inplace(&mut file, &delta).unwrap_err();
    assert!(matches!(err, DeltaError::SourceHashMismatch(_, _)));
    assert_eq!(file, a);
}

#[test]
fn skip_beyond_source_rejected() {
    let a: Vec<u8> = b"0123456789".to_vec();
    let d = Delta {
        major: 0,
        minor: 1,
        patch_level: 0,
        source_len: 10,
        source_hash: hash_file(&a),
        ops: vec![Op::Skip(11)],
        target_len: 11,
        target_hash: hash_file(&a),
    };
    let err = patch_apply(&a, &serialize_delta(&d)).unwrap_err();
    assert_eq!(err, DeltaError::SkipOutOfRange(11, 10));
    assert_eq!(err.class(), ErrorClass::Format);
}

#[test]
fn target_length_mismatch_rejected() {
    let a: Vec<u8> = b"0123456789".to_vec();
    let d = Delta {
        major: 0,
        minor: 1,
        patch_level: 0,
        source_len: 10,
        source_hash: hash_file(&a),
        ops: vec![Op::Skip(10)],
        target_len: 12,
        target_hash: hash_file(&a),
    };
    let err = patch_apply(&a, &serialize_delta(&d)).unwrap_err();
    assert_eq!(err, DeltaError::TargetLengthMismatch(12, 10));
    assert_eq!(err.class(), ErrorClass::Integrity);
}

#[test]
fn target_hash_mismatch_rejected() {
    let a: Vec<u8> = b"0123456789".to_vec();
    let wrong: Vec<u8> = b"something else".to_vec();
    let d = Delta {
        major: 0,
        minor: 1,
        patch_level: 0,
        source_len: 10,
        source_hash: hash_file(&a),
        ops: vec![Op::Skip(10)],
        target_len: 10,
        target_hash: hash_file(&wrong),
    };
    let err = patch_apply(&a, &serialize_delta(&d)).unwrap_err();
    match &err {
        DeltaError::TargetHashMismatch(expected, actual) => {
            assert_eq!(expected, &hash_file(&wrong));
            assert_eq!(actual, &hash_file(&a));
        },
        other => panic!("expected a target hash mismatch, got {:?}", other),
    }
    assert_eq!(err.class(), ErrorClass::Integrity);
}

/// Corrupting a diff payload changes the reconstruction, which the target
/// hash check catches.
#[test]
fn corrupted_payload_caught_by_target_hash() {
    let (a, _, mut delta) = sample();
    // the diff payload of the middle chunk sits after its tag and count
    let payload_at = 53 + 9 + 9;
    assert_eq!(delta[payload_at], b'Y');
    delta[payload_at] = b'Z';
    let err = patch_apply(&a, &delta).unwrap_err();
    assert!(matches!(err, DeltaError::TargetHashMismatch(_, _)));
}

/// A target hash mismatch in place surfaces after the operations ran: the
/// mutation is kept, not rolled back.
#[test]
fn inplace_target_hash_failure_keeps_mutation() {
    let a: Vec<u8> = b"0123456789".to_vec();
    let replaced: Vec<u8> = b"ABCDEFGHIJ".to_vec();
    let wrong: Vec<u8> = b"some other bytes".to_vec();
    let d = Delta {
        major: 0,
        minor: 1,
        patch_level: 0,
        source_len: 10,
        source_hash: hash_file(&a),
        ops: vec![Op::Diff(replaced.clone())],
        target_len: 10,
        target_hash: hash_file(&wrong),
    };
    let mut file = a.clone();
    let err = patch_apply_inplace(&mut file, &serialize_delta(&d)).unwrap_err();
    assert!(matches!(err, DeltaError::TargetHashMismatch(_, _)));
    assert_eq!(file, replaced);
}

/// The reserved hole operation is understood by the decoder: it produces
/// zeros and advances past the source.
#[test]
fn hole_operation_decodes_to_zeros() {
    let a: Vec<u8> = b"0123456789".to_vec();
    let zeros: Vec<u8> = vec![0; 10];
    let d = Delta {
        major: 0,
        minor: 1,
        patch_level: 0,
        source_len: 10,
        source_hash: hash_file(&a),
        ops: vec![Op::Hole(10)],
        target_len: 10,
        target_hash: hash_file(&zeros),
    };
    let out = patch_apply(&a, &serialize_delta(&d)).expect("hole must decode");
    assert_eq!(out, zeros);
}

/// A decodable but non-minimal stream (two consecutive skips) still applies
/// correctly.
#[test]
fn non_minimal_stream_still_applies() {
    let a: Vec<u8> = b"0123456789".to_vec();
    let d = Delta {
        major: 0,
        minor: 1,
        patch_level: 0,
        source_len: 10,
        source_hash: hash_file(&a),
        ops: vec![Op::Skip(4), Op::Skip(6)],
        target_len: 10,
        target_hash: hash_file(&a),
    };
    let out = patch_apply(&a, &serialize_delta(&d)).expect("stream must apply");
    assert_eq!(out, a);
}
