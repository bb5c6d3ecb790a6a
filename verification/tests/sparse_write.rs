//! The sparse writer: zero blocks of a skip span become holes, everything
//! else is written literally, and the materialized result is byte-identical
//! to a plain copy.

use vsdelta::diff::diff_generate;
use vsdelta::sparse::{patch_apply_sparse, sparse_plan, SparseAction, SPARSEBLOCK};

fn materialized(acts: &[SparseAction]) -> Vec<u8> {
    let mut out = Vec::new();
    for act in acts {
        match act {
            SparseAction::Data(p) => out.extend_from_slice(p),
            SparseAction::Hole(n) => out.extend(std::iter::repeat(0u8).take(*n as usize)),
        }
    }
    out
}

/// Sparse equivalence: a span of nothing but zero blocks becomes holes
/// alone, and reads back byte-identical to a plain copy.
#[test]
fn zero_span_becomes_holes_only() {
    let data: Vec<u8> = vec![0; 2 * SPARSEBLOCK + 100];
    let acts = sparse_plan(&data, 0, data.len());
    assert_eq!(
        acts,
        vec![
            SparseAction::Hole(SPARSEBLOCK as u64),
            SparseAction::Hole(SPARSEBLOCK as u64),
            SparseAction::Hole(100),
        ]
    );
    assert_eq!(materialized(&acts), data);
}

#[test]
fn mixed_span_keeps_nonzero_blocks() {
    let mut data: Vec<u8> = vec![0; 3 * SPARSEBLOCK];
    data[SPARSEBLOCK + 17] = 42;
    let acts = sparse_plan(&data, 0, data.len());
    assert_eq!(acts.len(), 3);
    assert!(matches!(acts[0], SparseAction::Hole(_)));
    match &acts[1] {
        SparseAction::Data(p) => {
            assert_eq!(p.len(), SPARSEBLOCK);
            assert_eq!(p[17], 42);
        },
        other => panic!("middle block must be written, got {:?}", other),
    }
    assert!(matches!(acts[2], SparseAction::Hole(_)));
    assert_eq!(materialized(&acts), data);
}

#[test]
fn partial_final_block_handled() {
    let mut data: Vec<u8> = vec![0; 10];
    data[9] = 1;
    let acts = sparse_plan(&data, 0, 10);
    assert_eq!(acts, vec![SparseAction::Data(data.clone())]);
    let zeros: Vec<u8> = vec![0; 10];
    let acts = sparse_plan(&zeros, 0, 10);
    assert_eq!(acts, vec![SparseAction::Hole(10)]);
}

/// A whole sparse patch run: skip spans over zeros become holes, and the
/// materialized actions equal the plain reconstruction.
#[test]
fn sparse_patch_run_equals_plain_copy() {
    let mut a: Vec<u8> = vec![0; 3 * SPARSEBLOCK];
    for i in 0..64 {
        a[SPARSEBLOCK + i] = b'x';
    }
    let b = a.clone();
    let delta = diff_generate(&a, &b);
    let acts = patch_apply_sparse(&a, &delta).expect("sparse patch must succeed");
    assert_eq!(materialized(&acts), b);
    // the zero blocks around the written middle block are holes
    assert!(acts.iter().any(|act| matches!(act, SparseAction::Hole(_))));
}

/// Diff payload bytes are always written literally, even when they are zero:
/// they originate from the delta stream, not from the source.
#[test]
fn zero_diff_payload_written_literally() {
    let a: Vec<u8> = vec![0xFF; 16];
    let b: Vec<u8> = vec![0x00; 16];
    let delta = diff_generate(&a, &b);
    let acts = patch_apply_sparse(&a, &delta).expect("sparse patch must succeed");
    assert_eq!(acts, vec![SparseAction::Data(vec![0x00; 16])]);
    assert_eq!(materialized(&acts), b);
}
