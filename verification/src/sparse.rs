//! The sparse writer: when a skip span is copied into an external
//! destination, each fixed-size block that is entirely zero is not written;
//! the destination's position is advanced past it instead, leaving a hole
//! that reads back as zeros. Diff payload bytes are always written literally,
//! even when they are zero.

use vstd::prelude::*;
use crate::bytes::{all_zero, copy_data, is_zero, zero_bytes};
use crate::format::{parse_delta, spec_parse, vops, DeltaError, ErrorModel, Op, OpModel};
use crate::patch::{patch_apply, spec_apply_ops, spec_patch};

verus! {

/// Size of one block the sparse writer inspects. Independent of, and smaller
/// grained than, the encoder's comparison chunk.
pub const SPARSEBLOCK: usize = 4096;

/// One write action against a destination stream.
#[derive(Debug, Clone, PartialEq, Eq)]
pub enum SparseAction {
    /// Write these bytes at the current position.
    Data(Vec<u8>),
    /// Advance the position by this many bytes without writing, leaving a
    /// hole that reads back as zeros.
    Hole(u64),
}

/// Mathematical model of one write action.
#[verifier::ext_equal]
pub enum SparseActionModel {
    Data(Seq<u8>),
    Hole(u64),
}

impl View for SparseAction {
    type V = SparseActionModel;

    open spec fn view(&self) -> SparseActionModel {
        match self {
            SparseAction::Data(p) => SparseActionModel::Data(p@),
            SparseAction::Hole(n) => SparseActionModel::Hole(*n),
        }
    }
}

/// The models of a sequence of write actions.
pub open spec fn vacts(acts: Seq<SparseAction>) -> Seq<SparseActionModel> {
    acts.map_values(|a: SparseAction| a@)
}

/// The bytes a destination holds after the actions run: written bytes stand
/// as they are, holes read back as zeros.
pub open spec fn materialize(acts: Seq<SparseActionModel>) -> Seq<u8>
    decreases acts.len(),
{
    if acts.len() == 0 {
        Seq::empty()
    } else {
        (match acts[0] {
            SparseActionModel::Data(p) => p,
            SparseActionModel::Hole(n) => zero_bytes(n as nat),
        }) + materialize(acts.drop_first())
    }
}

/// The actions that copy one skip span: the span split into fixed-size
/// blocks plus a final partial block, each all-zero block left as a hole and
/// every other block written as it is.
pub open spec fn spec_sparse_blocks(span: Seq<u8>) -> Seq<SparseActionModel>
    decreases span.len(),
{
    if span.len() == 0 {
        Seq::empty()
    } else {
        let blen = if span.len() < SPARSEBLOCK as nat {
            span.len() as int
        } else {
            SPARSEBLOCK as int
        };
        let block = span.take(blen);
        (if all_zero(block) {
            seq![SparseActionModel::Hole(blen as u64)]
        } else {
            seq![SparseActionModel::Data(block)]
        }) + spec_sparse_blocks(span.skip(blen))
    }
}

/// Sparse equivalence: however a span is split into holes and written
/// blocks, the destination reads back byte-identical to a plain copy.
pub proof fn lemma_sparse_blocks_materialize(span: Seq<u8>)
    ensures
        materialize(spec_sparse_blocks(span)) == span,
    decreases span.len(),
{
    if span.len() > 0 {
        let blen = if span.len() < SPARSEBLOCK as nat {
            span.len() as int
        } else {
            SPARSEBLOCK as int
        };
        let block = span.take(blen);
        lemma_sparse_blocks_materialize(span.skip(blen));
        let head = if all_zero(block) {
            seq![SparseActionModel::Hole(blen as u64)]
        } else {
            seq![SparseActionModel::Data(block)]
        };
        let s = head + spec_sparse_blocks(span.skip(blen));
        assert(s.drop_first() =~= spec_sparse_blocks(span.skip(blen)));
        if all_zero(block) {
            assert(zero_bytes(blen as nat) =~= block);
        }
        assert(block + span.skip(blen) =~= span);
    }
}

/// Every written block of a sparse plan holds at least one nonzero byte; in
/// particular a span of nothing but zero blocks becomes holes alone.
pub proof fn lemma_sparse_blocks_sparse(span: Seq<u8>)
    ensures
        forall|i: int|
            0 <= i < spec_sparse_blocks(span).len() ==> (#[trigger] spec_sparse_blocks(span)[i]
                matches SparseActionModel::Data(p) ==> !all_zero(p)),
        all_zero(span) ==> forall|i: int|
            0 <= i < spec_sparse_blocks(span).len() ==> #[trigger] spec_sparse_blocks(
                span,
            )[i] is Hole,
    decreases span.len(),
{
    if span.len() > 0 {
        let blen = if span.len() < SPARSEBLOCK as nat {
            span.len() as int
        } else {
            SPARSEBLOCK as int
        };
        let block = span.take(blen);
        lemma_sparse_blocks_sparse(span.skip(blen));
        let head = if all_zero(block) {
            seq![SparseActionModel::Hole(blen as u64)]
        } else {
            seq![SparseActionModel::Data(block)]
        };
        let rest = spec_sparse_blocks(span.skip(blen));
        let s = head + rest;
        if all_zero(span) {
            assert(all_zero(block));
            assert(all_zero(span.skip(blen)));
        }
        assert forall|i: int| 0 <= i < s.len() implies (#[trigger] s[i]
            matches SparseActionModel::Data(p) ==> !all_zero(p)) by {
            if i > 0 {
                assert(s[i] == rest[i - 1]);
            }
        }
        if all_zero(span) {
            assert forall|i: int| 0 <= i < s.len() implies #[trigger] s[i] is Hole by {
                if i > 0 {
                    assert(s[i] == rest[i - 1]);
                }
            }
        }
    }
}

/// The write actions of a whole patch run: each skip span is split
/// sparsely, each diff payload is written literally, and each hole operation
/// stays a hole.
pub open spec fn spec_sparse_actions(src: Seq<u8>, ops: Seq<OpModel>, pos: int) -> Seq<
    SparseActionModel,
>
    decreases ops.len(),
{
    if ops.len() == 0 {
        Seq::empty()
    } else {
        match ops[0] {
            OpModel::Skip(n) => spec_sparse_blocks(src.subrange(pos, pos + n))
                + spec_sparse_actions(src, ops.drop_first(), pos + n),
            OpModel::Diff(p) => seq![SparseActionModel::Data(p)] + spec_sparse_actions(
                src,
                ops.drop_first(),
                pos + p.len(),
            ),
            OpModel::Hole(n) => seq![SparseActionModel::Hole(n)] + spec_sparse_actions(
                src,
                ops.drop_first(),
                pos + n,
            ),
        }
    }
}

/// Running the write actions of a successful replay produces exactly the
/// replay's output.
pub proof fn lemma_sparse_actions_materialize(src: Seq<u8>, ops: Seq<OpModel>, pos: int)
    requires
        spec_apply_ops(src, ops, pos) is Ok,
    ensures
        materialize(spec_sparse_actions(src, ops, pos)) == spec_apply_ops(src, ops, pos)->Ok_0,
    decreases ops.len(),
{
    if ops.len() > 0 {
        let rest = ops.drop_first();
        match ops[0] {
            OpModel::Skip(n) => {
                lemma_sparse_actions_materialize(src, rest, pos + n);
                lemma_sparse_blocks_materialize(src.subrange(pos, pos + n));
                lemma_materialize_concat(
                    spec_sparse_blocks(src.subrange(pos, pos + n)),
                    spec_sparse_actions(src, rest, pos + n),
                );
            },
            OpModel::Diff(p) => {
                lemma_sparse_actions_materialize(src, rest, pos + p.len());
                lemma_materialize_concat(
                    seq![SparseActionModel::Data(p)],
                    spec_sparse_actions(src, rest, pos + p.len()),
                );
                assert(materialize(seq![SparseActionModel::Data(p)]) =~= p) by {
                    assert(seq![SparseActionModel::Data(p)].drop_first()
                        =~= Seq::<SparseActionModel>::empty());
                    assert(materialize(Seq::<SparseActionModel>::empty())
                        =~= Seq::<u8>::empty());
                }
            },
            OpModel::Hole(n) => {
                lemma_sparse_actions_materialize(src, rest, pos + n);
                lemma_materialize_concat(
                    seq![SparseActionModel::Hole(n)],
                    spec_sparse_actions(src, rest, pos + n),
                );
                assert(materialize(seq![SparseActionModel::Hole(n)]) =~= zero_bytes(n as nat)) by {
                    assert(seq![SparseActionModel::Hole(n)].drop_first()
                        =~= Seq::<SparseActionModel>::empty());
                    assert(materialize(Seq::<SparseActionModel>::empty())
                        =~= Seq::<u8>::empty());
                }
            },
        }
    }
}

/// Materializing a concatenation of actions concatenates what each part
/// materializes to.
pub proof fn lemma_materialize_concat(x: Seq<SparseActionModel>, y: Seq<SparseActionModel>)
    ensures
        materialize(x + y) == materialize(x) + materialize(y),
    decreases x.len(),
{
    if x.len() == 0 {
        assert(x + y =~= y);
        assert(materialize(x) + materialize(y) =~= materialize(y));
    } else {
        assert((x + y).drop_first() =~= x.drop_first() + y);
        lemma_materialize_concat(x.drop_first(), y);
        assert((x + y)[0] == x[0]);
        assert(materialize(x + y) =~= materialize(x) + materialize(y));
    }
}

/// Splits `src[start..start + count]` into write actions, one per block:
/// a hole for each all-zero block, the block's bytes otherwise.
pub fn sparse_plan(src: &Vec<u8>, start: usize, count: usize) -> (acts: Vec<SparseAction>)
    requires
        start + count <= src@.len(),
    ensures
        vacts(acts@) == spec_sparse_blocks(src@.subrange(start as int, start + count)),
{
    let ghost span = src@.subrange(start as int, start + count);
    let n = src.len();
    let mut acts: Vec<SparseAction> = Vec::new();
    let mut p: usize = 0;
    proof {
        assert(span.skip(0) =~= span);
        assert(Seq::<SparseActionModel>::empty() + spec_sparse_blocks(span) =~= spec_sparse_blocks(
            span,
        ));
    }
    while p < count
        invariant
            0 <= p <= count,
            start + count <= n,
            n == src@.len(),
            span == src@.subrange(start as int, start + count),
            spec_sparse_blocks(span) == vacts(acts@) + spec_sparse_blocks(span.skip(p as int)),
        decreases count - p,
    {
        let blen = if count - p < SPARSEBLOCK {
            count - p
        } else {
            SPARSEBLOCK
        };
        let mut block: Vec<u8> = Vec::new();
        copy_data(&mut block, src, start + p, blen);
        proof {
            assert(block@ =~= span.skip(p as int).take(blen as int)) by {
                assert forall|i: int| 0 <= i < blen implies block@[i] == span.skip(p as int).take(
                    blen as int,
                )[i] by {
                    assert(block@[i] == src@[start + p + i]);
                    assert(span[p + i] == src@[start + p + i]);
                }
            }
        }
        let ghost prev = vacts(acts@);
        if is_zero(&block) {
            acts.push(SparseAction::Hole(blen as u64));
        } else {
            acts.push(SparseAction::Data(block));
        }
        proof {
            let tail = span.skip(p as int);
            let head = if all_zero(tail.take(blen as int)) {
                seq![SparseActionModel::Hole(blen as u64)]
            } else {
                seq![SparseActionModel::Data(tail.take(blen as int))]
            };
            assert(spec_sparse_blocks(tail) == head + spec_sparse_blocks(tail.skip(blen as int)));
            assert(vacts(acts@) =~= prev + head);
            assert(tail.skip(blen as int) =~= span.skip(p + blen));
            assert(prev + (head + spec_sparse_blocks(span.skip(p + blen))) =~= (prev + head)
                + spec_sparse_blocks(span.skip(p + blen)));
        }
        p = p + blen;
    }
    proof {
        assert(span.skip(count as int) =~= Seq::<u8>::empty());
        assert(vacts(acts@) + Seq::<SparseActionModel>::empty() =~= vacts(acts@));
    }
    acts
}

/// The actions still to be planned for the operations at position `pos`,
/// appended to those already planned.
pub open spec fn sparse_actions_cont(
    src: Seq<u8>,
    ops: Seq<OpModel>,
    pos: int,
    acc: Seq<SparseActionModel>,
) -> Seq<SparseActionModel> {
    acc + spec_sparse_actions(src, ops, pos)
}

/// Reconstructs the target as a plan of write actions (external mode with
/// sparse holes): the checks and the output are those of `patch_apply`, and
/// each skip span is split sparsely while diff payloads stay literal writes.
pub fn patch_apply_sparse(src: &Vec<u8>, delta: &Vec<u8>) -> (r: Result<
    Vec<SparseAction>,
    DeltaError,
>)
    ensures
        match r {
            Ok(acts) => {
                &&& spec_patch(src@, delta@) is Ok
                &&& vacts(acts@) == spec_sparse_actions(
                    src@,
                    spec_parse(delta@)->Ok_0.ops,
                    0,
                )
                &&& materialize(vacts(acts@)) == spec_patch(src@, delta@)->Ok_0
            },
            Err(e) => spec_patch(src@, delta@) == Err::<Seq<u8>, ErrorModel>(e@),
        },
{
    let out = match patch_apply(src, delta) {
        Ok(o) => o,
        Err(e) => {
            return Err(e);
        },
    };
    let d = match parse_delta(delta) {
        Ok(d) => d,
        Err(_) => {
            proof {
                assert(false);
            }
            return Err(DeltaError::Truncated);
        },
    };
    let ghost dops = vops(d.ops@);
    let srclen = src.len();
    let mut acts: Vec<SparseAction> = Vec::new();
    let mut pos: usize = 0;
    let mut past: bool = false;
    let ghost mut spos: int = 0;
    let mut k: usize = 0;
    proof {
        assert(dops.skip(0) =~= dops);
        assert(Seq::<SparseActionModel>::empty() + spec_sparse_actions(src@, dops, 0)
            =~= spec_sparse_actions(src@, dops, 0));
    }
    while k < d.ops.len()
        invariant
            0 <= k <= d.ops@.len(),
            dops == vops(d.ops@),
            srclen == src@.len(),
            !past ==> spos == pos && 0 <= pos <= srclen,
            past ==> spos > srclen,
            spec_apply_ops(src@, dops.skip(k as int), spos) is Ok,
            sparse_actions_cont(src@, dops.skip(k as int), spos, vacts(acts@))
                == spec_sparse_actions(src@, dops, 0),
        decreases d.ops@.len() - k,
    {
        let ghost rest = dops.skip(k as int);
        proof {
            assert(rest[0] == dops[k as int]);
            assert(rest.drop_first() =~= dops.skip(k + 1));
        }
        let ghost prev = vacts(acts@);
        match &d.ops[k] {
            Op::Skip(n) => {
                let n = *n;
                proof {
                    assert(!past && pos + n <= srclen) by {
                        if past || spos + n > srclen {
                            assert(spec_apply_ops(src@, rest, spos) is Err);
                        }
                    }
                }
                let mut sub = sparse_plan(src, pos, n as usize);
                acts.append(&mut sub);
                proof {
                    spos = spos + n;
                    assert(vacts(acts@) =~= prev + spec_sparse_blocks(
                        src@.subrange(pos as int, pos + n),
                    ));
                }
                pos = pos + n as usize;
            },
            Op::Diff(p) => {
                let plen = p.len();
                let mut q: Vec<u8> = Vec::new();
                copy_data(&mut q, p, 0, plen);
                proof {
                    assert(q@ =~= p@);
                }
                acts.push(SparseAction::Data(q));
                proof {
                    spos = spos + plen;
                    assert(vacts(acts@) =~= prev + seq![SparseActionModel::Data(p@)]);
                }
                if !past {
                    if plen <= srclen - pos {
                        pos = pos + plen;
                    } else {
                        past = true;
                    }
                }
            },
            Op::Hole(n) => {
                let n = *n;
                acts.push(SparseAction::Hole(n));
                proof {
                    spos = spos + n;
                    assert(vacts(acts@) =~= prev + seq![SparseActionModel::Hole(n)]);
                }
                if !past {
                    if n <= (srclen - pos) as u64 {
                        pos = pos + n as usize;
                    } else {
                        past = true;
                    }
                }
            },
        }
        proof {
            let emitted = match rest[0] {
                OpModel::Skip(n) => spec_sparse_blocks(src@.subrange(spos - n, spos)),
                OpModel::Diff(p) => seq![SparseActionModel::Data(p)],
                OpModel::Hole(n) => seq![SparseActionModel::Hole(n)],
            };
            assert(spec_sparse_actions(src@, rest, spos - crate::laws::op_count(rest[0]))
                == emitted + spec_sparse_actions(src@, rest.drop_first(), spos));
            assert(prev + (emitted + spec_sparse_actions(src@, rest.drop_first(), spos)) =~= (prev
                + emitted) + spec_sparse_actions(src@, rest.drop_first(), spos));
        }
        k = k + 1;
    }
    proof {
        assert(dops.skip(d.ops@.len() as int) =~= Seq::<OpModel>::empty());
        assert(vacts(acts@) + Seq::<SparseActionModel>::empty() =~= vacts(acts@));
        lemma_sparse_actions_materialize(src@, dops, 0);
    }
    Ok(acts)
}

} // verus!
