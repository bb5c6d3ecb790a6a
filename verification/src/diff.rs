//! The encoder: walks the old and the new byte string in lockstep, classifies
//! each fixed-size chunk as matching or differing, and coalesces runs of equal
//! classification into single skip / diff operations.

use vstd::prelude::*;
use crate::bytes::{copy_data, range_eq};
use crate::format::{
    serialize_delta, spec_parse, spec_serialize, vops, Delta, DeltaModel, ErrorModel, Op, OpModel,
    VER_MAJOR, VER_MINOR, VER_PATCH,
};
use crate::hash::hash_file;
use crate::laws::{lemma_round_trip, spec_delta_for};
use crate::patch::{spec_patch, spec_patch_inplace};

verus! {

/// Size of one comparison chunk. A tunable constant, not a correctness
/// parameter: any positive value yields a delta that reconstructs the new
/// content.
pub const CHUNKSIZE: usize = 8;

/// The encoder's in-memory state: either nothing has been classified yet, or
/// a run of `n` matching bytes is open, or a run of `n` differing bytes is.
#[derive(Clone, Copy)]
pub enum State {
    Init,
    Matching(u64),
    Different(u64),
}

/// Mathematical model of the encoder state.
pub enum StateModel {
    Init,
    Matching(int),
    Different(int),
}

impl View for State {
    type V = StateModel;

    open spec fn view(&self) -> StateModel {
        match self {
            State::Init => StateModel::Init,
            State::Matching(n) => StateModel::Matching(*n as int),
            State::Different(n) => StateModel::Different(*n as int),
        }
    }
}

/// The length of the open run.
pub open spec fn state_run(st: StateModel) -> int {
    match st {
        StateModel::Init => 0,
        StateModel::Matching(n) => n,
        StateModel::Different(n) => n,
    }
}

/// A state is valid at position `pos` when its open run covers exactly the
/// bytes `[pos - run, pos)` already classified but not yet flushed.
pub open spec fn state_wf(st: StateModel, pos: int) -> bool {
    match st {
        StateModel::Init => pos == 0,
        StateModel::Matching(n) => 0 < n <= pos,
        StateModel::Different(n) => 0 < n <= pos,
    }
}

/// One transition of the machine: the chunk `[pos, pos + clen)` was found
/// equal (`eq`) or differing, given that the open run ends at `pos`.
/// Yields the operations flushed by the transition and the next state.
pub open spec fn spec_step(st: StateModel, eq: bool, b: Seq<u8>, pos: int, clen: int) -> (Seq<
    OpModel,
>, StateModel) {
    match st {
        StateModel::Init => (
            Seq::empty(),
            if eq {
                StateModel::Matching(clen)
            } else {
                StateModel::Different(clen)
            },
        ),
        StateModel::Matching(n) => if eq {
            (Seq::empty(), StateModel::Matching(n + clen))
        } else {
            (seq![OpModel::Skip(n as u64)], StateModel::Different(clen))
        },
        StateModel::Different(n) => if eq {
            (seq![OpModel::Diff(b.subrange(pos - n, pos))], StateModel::Matching(clen))
        } else {
            (Seq::empty(), StateModel::Different(n + clen))
        },
    }
}

/// The operations that close the machine when all input ends at `endpos`:
/// a matching run flushes a trailing skip, a differing run a trailing diff
/// whose payload is the run's bytes of the new content.
pub open spec fn spec_flush(st: StateModel, b: Seq<u8>, endpos: int) -> Seq<OpModel> {
    match st {
        StateModel::Init => Seq::empty(),
        StateModel::Matching(n) => seq![OpModel::Skip(n as u64)],
        StateModel::Different(n) => seq![OpModel::Diff(b.subrange(endpos - n, endpos))],
    }
}

/// The operations the machine emits from position `pos` in state `st` until
/// both inputs are exhausted. While `pos` lies within the compared range the
/// next chunk (of up to `CHUNKSIZE` bytes) is classified; at its end, any
/// excess of the new content extends into a differing run, and the open run
/// is flushed.
pub open spec fn spec_diff_from(a: Seq<u8>, b: Seq<u8>, pos: int, st: StateModel) -> Seq<OpModel>
    decreases vstd::math::min(a.len() as int, b.len() as int) - pos,
{
    let m = vstd::math::min(a.len() as int, b.len() as int);
    if pos < m {
        let clen = if m - pos < CHUNKSIZE as int {
            m - pos
        } else {
            CHUNKSIZE as int
        };
        let eq = a.subrange(pos, pos + clen) == b.subrange(pos, pos + clen);
        let r = spec_step(st, eq, b, pos, clen);
        r.0 + spec_diff_from(a, b, pos + clen, r.1)
    } else {
        let blen = b.len() as int;
        if blen > m {
            // the new content is longer: its tail always ends a differing run
            match st {
                StateModel::Init => spec_flush(StateModel::Different(blen - m), b, blen),
                StateModel::Matching(n) => seq![OpModel::Skip(n as u64)] + spec_flush(
                    StateModel::Different(blen - m),
                    b,
                    blen,
                ),
                StateModel::Different(n) => spec_flush(
                    StateModel::Different(n + (blen - m)),
                    b,
                    blen,
                ),
            }
        } else {
            spec_flush(st, b, blen)
        }
    }
}

/// The operation sequence the encoder emits for old content `a` and new
/// content `b`.
pub open spec fn spec_diff_ops(a: Seq<u8>, b: Seq<u8>) -> Seq<OpModel> {
    spec_diff_from(a, b, 0, StateModel::Init)
}

/// One executable transition of the machine; flushed operations are appended
/// to `ops`.
fn next_state(st: State, eq: bool, b: &Vec<u8>, pos: usize, clen: usize, ops: &mut Vec<Op>) -> (r:
    State)
    requires
        state_wf(st@, pos as int),
        0 < clen,
        pos + clen <= b@.len(),
    ensures
        ({
            let step = spec_step(st@, eq, b@, pos as int, clen as int);
            vops(final(ops)@) == vops(old(ops)@) + step.0 && r@ == step.1 && state_wf(
                r@,
                pos + clen,
            )
        }),
{
    let ghost step = spec_step(st@, eq, b@, pos as int, clen as int);
    let bn = b.len();
    proof {
        assert(pos + clen <= bn);
        assert(state_run(st@) + clen <= bn <= u64::MAX);
    }
    let r = match st {
        State::Init => {
            if eq {
                State::Matching(clen as u64)
            } else {
                State::Different(clen as u64)
            }
        },
        State::Matching(num) => {
            if eq {
                State::Matching(num + clen as u64)
            } else {
                ops.push(Op::Skip(num));
                State::Different(clen as u64)
            }
        },
        State::Different(num) => {
            if eq {
                let n = num as usize;
                let mut payload: Vec<u8> = Vec::new();
                copy_data(&mut payload, b, pos - n, n);
                ops.push(Op::Diff(payload));
                State::Matching(clen as u64)
            } else {
                State::Different(num + clen as u64)
            }
        },
    };
    proof {
        assert(vops(ops@) =~= vops(old(ops)@) + step.0);
    }
    r
}

/// Runs the machine over the whole of `a` and `b` and returns the emitted
/// operation sequence.
pub fn diff_ops(a: &Vec<u8>, b: &Vec<u8>) -> (ops: Vec<Op>)
    ensures
        vops(ops@) == spec_diff_ops(a@, b@),
{
    let alen = a.len();
    let blen = b.len();
    let m = if alen < blen {
        alen
    } else {
        blen
    };
    let mut ops: Vec<Op> = Vec::new();
    let mut st = State::Init;
    let mut pos: usize = 0;
    while pos < m
        invariant
            0 <= pos <= m,
            alen == a@.len(),
            blen == b@.len(),
            m == vstd::math::min(alen as int, blen as int),
            state_wf(st@, pos as int),
            spec_diff_ops(a@, b@) == vops(ops@) + spec_diff_from(a@, b@, pos as int, st@),
        decreases m - pos,
    {
        let clen = if m - pos < CHUNKSIZE {
            m - pos
        } else {
            CHUNKSIZE
        };
        let eq = range_eq(a, b, pos, clen);
        let ghost prev_ops = vops(ops@);
        let ghost prev_st = st@;
        st = next_state(st, eq, b, pos, clen, &mut ops);
        proof {
            let step = spec_step(prev_st, eq, b@, pos as int, clen as int);
            assert(spec_diff_from(a@, b@, pos as int, prev_st) == step.0 + spec_diff_from(
                a@,
                b@,
                pos + clen,
                step.1,
            ));
            assert(prev_ops + (step.0 + spec_diff_from(a@, b@, pos + clen, step.1)) =~= (prev_ops
                + step.0) + spec_diff_from(a@, b@, pos + clen, step.1));
        }
        pos = pos + clen;
    }
    let ghost loop_ops = vops(ops@);
    let ghost loop_st = st@;
    proof {
        assert(pos == m);
    }
    // any excess of the new content extends into a differing run
    if blen > m {
        let excess = (blen - m) as u64;
        st = match st {
            State::Init => State::Different(excess),
            State::Matching(num) => {
                ops.push(Op::Skip(num));
                State::Different(excess)
            },
            State::Different(num) => {
                proof {
                    assert(num + excess <= blen);
                }
                State::Different(num + excess)
            },
        };
    }
    proof {
        assert(state_run(st@) <= blen);
    }
    // flush the still-open run
    let ghost before_flush = vops(ops@);
    match st {
        State::Init => {},
        State::Matching(num) => {
            ops.push(Op::Skip(num));
        },
        State::Different(num) => {
            let n = num as usize;
            let mut payload: Vec<u8> = Vec::new();
            copy_data(&mut payload, b, blen - n, n);
            ops.push(Op::Diff(payload));
        },
    }
    proof {
        assert(vops(ops@) =~= before_flush + spec_flush(st@, b@, blen as int));
        if blen > m {
            match loop_st {
                StateModel::Init => {},
                StateModel::Matching(n) => {
                    assert(before_flush =~= loop_ops + seq![OpModel::Skip(n as u64)]);
                },
                StateModel::Different(n) => {},
            }
        }
        assert(vops(ops@) =~= loop_ops + spec_diff_from(a@, b@, m as int, loop_st));
        assert(vops(ops@) =~= spec_diff_ops(a@, b@));
    }
    ops
}

/// Encodes the delta stream that turns old content `a` into new content `b`:
/// it hashes both sides, runs the machine, and serializes the stream. The
/// result deserializes to exactly what was encoded, and patching `a` with it,
/// in either mode, reconstructs `b`.
pub fn diff_generate(a: &Vec<u8>, b: &Vec<u8>) -> (delta: Vec<u8>)
    ensures
        delta@ == spec_serialize(spec_delta_for(a@, b@)),
        spec_parse(delta@) == Ok::<DeltaModel, ErrorModel>(spec_delta_for(a@, b@)),
        spec_patch(a@, delta@) == Ok::<Seq<u8>, ErrorModel>(b@),
        spec_patch_inplace(a@, delta@) == Ok::<Seq<u8>, ErrorModel>(b@),
{
    let ops = diff_ops(a, b);
    let source_hash = hash_file(a);
    let target_hash = hash_file(b);
    let source_len = a.len() as u64;
    let target_len = b.len() as u64;
    let d = Delta {
        major: VER_MAJOR,
        minor: VER_MINOR,
        patch_level: VER_PATCH,
        source_len,
        source_hash,
        ops,
        target_len,
        target_hash,
    };
    let out = serialize_delta(&d);
    proof {
        assert(d@ =~= spec_delta_for(a@, b@));
        lemma_round_trip(a@, b@);
    }
    out
}

} // verus!
