//! Round trips of the codec: encoding a delta between two contents and
//! patching the old content with it, in both modes.

use vsdelta::diff::diff_generate;
use vsdelta::format::{parse_delta, Op};
use vsdelta::patch::{patch_apply, patch_apply_inplace};

fn roundtrip(a: &[u8], b: &[u8]) {
    let av: Vec<u8> = a.to_vec();
    let bv: Vec<u8> = b.to_vec();
    let delta = diff_generate(&av, &bv);
    let out = patch_apply(&av, &delta).expect("external patch must succeed");
    assert_eq!(out, bv);
    let mut file = av.clone();
    patch_apply_inplace(&mut file, &delta).expect("in-place patch must succeed");
    assert_eq!(file, bv);
}

#[test]
fn round_trip_empty_both() {
    roundtrip(b"", b"");
}

#[test]
fn round_trip_empty_old() {
    roundtrip(b"", b"fresh content appears");
}

#[test]
fn round_trip_empty_new() {
    roundtrip(b"everything goes away", b"");
}

#[test]
fn round_trip_identical() {
    roundtrip(b"same bytes on both sides!", b"same bytes on both sides!");
}

#[test]
fn round_trip_disjoint() {
    roundtrip(b"aaaaaaaaaaaaaaaa", b"bbbbbbbbbbbbbbbb");
}

#[test]
fn round_trip_mixed() {
    roundtrip(
        b"AAAAAAAAXXXXXXXXBBBBBBBBYYYYYYYYCCCCCCCC",
        b"AAAAAAAAxxxxxxxxBBBBBBBB                ",
    );
}

#[test]
fn round_trip_new_longer() {
    roundtrip(b"shared prefix", b"shared prefix plus a long new tail of bytes");
}

#[test]
fn round_trip_new_shorter() {
    roundtrip(b"shared prefix plus a long old tail of bytes", b"shared prefix");
}

#[test]
fn round_trip_unaligned_lengths() {
    // lengths that are no multiple of the chunk size
    roundtrip(b"0123456789abc", b"0123456789ABCDEFGHIJK");
}

#[test]
fn round_trip_single_byte_change() {
    let a: Vec<u8> = (0u8..=255).collect();
    let mut b = a.clone();
    b[100] ^= 0xFF;
    roundtrip(&a, &b);
}

/// The concrete scenario: three chunks, the middle one replaced.
#[test]
fn concrete_scenario_three_chunks() {
    let a: Vec<u8> = b"AAAAAAAAXXXXXXXXBBBBBBBB".to_vec();
    let b: Vec<u8> = b"AAAAAAAAYYYYYYYYBBBBBBBB".to_vec();
    let delta = diff_generate(&a, &b);
    let d = parse_delta(&delta).expect("generated delta must parse");
    assert_eq!(
        d.ops,
        vec![
            Op::Skip(8),
            Op::Diff(b"YYYYYYYY".to_vec()),
            Op::Skip(8),
        ]
    );
    let out = patch_apply(&a, &delta).expect("patch must succeed");
    assert_eq!(out, b);
}

/// Identity: a content encoded against itself yields one skip over its whole
/// length, or nothing at all when it is empty.
#[test]
fn identity_single_skip() {
    let a: Vec<u8> = b"0123456789abcdefXYZ".to_vec();
    let delta = diff_generate(&a, &a);
    let d = parse_delta(&delta).expect("generated delta must parse");
    assert_eq!(d.ops, vec![Op::Skip(19)]);
}

#[test]
fn identity_empty_no_ops() {
    let a: Vec<u8> = Vec::new();
    let delta = diff_generate(&a, &a);
    let d = parse_delta(&delta).expect("generated delta must parse");
    assert_eq!(d.ops, Vec::<Op>::new());
}

/// Total replacement: contents that share no chunk give exactly one diff
/// carrying the whole new content.
#[test]
fn total_replacement_single_diff() {
    let a: Vec<u8> = vec![0x11; 20];
    let b: Vec<u8> = vec![0x22; 20];
    let delta = diff_generate(&a, &b);
    let d = parse_delta(&delta).expect("generated delta must parse");
    assert_eq!(d.ops, vec![Op::Diff(b.clone())]);
}

/// Length growth: the new content's excess tail always sits in a final diff.
#[test]
fn new_longer_tail_ends_in_diff() {
    let a: Vec<u8> = b"ABCDEFGHABCDEFGH".to_vec();
    let b: Vec<u8> = b"ABCDEFGHABCDEFGHtrailing excess".to_vec();
    let delta = diff_generate(&a, &b);
    let d = parse_delta(&delta).expect("generated delta must parse");
    let last = d.ops.last().expect("at least one operation");
    match last {
        Op::Diff(p) => {
            assert!(p.len() >= b.len() - a.len());
            assert_eq!(&p[..], &b[b.len() - p.len()..]);
        },
        other => panic!("last operation must be a diff, got {:?}", other),
    }
}

/// Length shrink, in place: the destination is truncated to the new length
/// exactly.
#[test]
fn inplace_shrink_truncates_exactly() {
    let a: Vec<u8> = b"a shared beginning, then much more old data here".to_vec();
    let b: Vec<u8> = b"a shared beginning".to_vec();
    let delta = diff_generate(&a, &b);
    let mut file = a.clone();
    patch_apply_inplace(&mut file, &delta).expect("in-place patch must succeed");
    assert_eq!(file.len(), b.len());
    assert_eq!(file, b);
}

/// No two consecutive operations of the same kind come out of the encoder.
#[test]
fn emitted_operations_are_coalesced() {
    let a: Vec<u8> = b"AAAAAAAABBBBBBBBCCCCCCCCDDDDDDDDEEEEEEEE".to_vec();
    let b: Vec<u8> = b"AAAAAAAAxxxxxxxxyyyyyyyyDDDDDDDDzzzzzzzz".to_vec();
    let delta = diff_generate(&a, &b);
    let d = parse_delta(&delta).expect("generated delta must parse");
    assert_eq!(
        d.ops,
        vec![
            Op::Skip(8),
            Op::Diff(b"xxxxxxxxyyyyyyyy".to_vec()),
            Op::Skip(8),
            Op::Diff(b"zzzzzzzz".to_vec()),
        ]
    );
}
