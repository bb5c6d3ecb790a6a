//! The laws of the codec, proved over the models: the encoder's operations
//! reconstruct the new content; identical inputs give one skip; disjoint
//! inputs give one diff; a longer new content always ends in a diff; the
//! emitted operations are coalesced; and the two patch modes agree on every
//! delta the encoder produces.

use vstd::prelude::*;
use vstd::math::min;
use crate::diff::{
    spec_diff_from, spec_diff_ops, spec_flush, spec_step, state_run, state_wf, StateModel,
    CHUNKSIZE,
};
use crate::format::{
    lemma_parse_serialize, op_wf, ops_wf, spec_parse, spec_serialize, DeltaModel, ErrorModel,
    OpModel, VER_MAJOR, VER_MINOR, VER_PATCH,
};
use crate::hash::hash_of;
use crate::patch::{
    spec_apply_ops, spec_inplace_merge, spec_patch, spec_patch_inplace, spec_truncated,
};

verus! {

/// The machine's invariant while encoding: the state is valid at `pos`, the
/// classified range does not pass the compared range, and an open matching
/// run covers bytes on which the two contents agree.
pub open spec fn diff_inv(a: Seq<u8>, b: Seq<u8>, pos: int, st: StateModel) -> bool {
    &&& b.len() <= u64::MAX
    &&& state_wf(st, pos)
    &&& pos <= min(a.len() as int, b.len() as int)
    &&& (st matches StateModel::Matching(n) ==> a.subrange(pos - n, pos) == b.subrange(
        pos - n,
        pos,
    ))
}

/// Replaying no operations produces no bytes, wherever the source stands.
pub proof fn lemma_apply_empty(a: Seq<u8>)
    ensures
        forall|pos: int|
            #[trigger] spec_apply_ops(a, Seq::<OpModel>::empty(), pos) == Ok::<
                Seq<u8>,
                ErrorModel,
            >(Seq::<u8>::empty()),
{
}

/// From any reachable machine configuration, replaying the operations still
/// to be emitted, at the source position where the open run began, yields
/// exactly the rest of the new content.
pub proof fn lemma_diff_from_applies(a: Seq<u8>, b: Seq<u8>, pos: int, st: StateModel)
    requires
        diff_inv(a, b, pos, st),
    ensures
        spec_apply_ops(a, spec_diff_from(a, b, pos, st), pos - state_run(st)) == Ok::<
            Seq<u8>,
            ErrorModel,
        >(b.skip(pos - state_run(st))),
    decreases min(a.len() as int, b.len() as int) - pos,
{
    let m = min(a.len() as int, b.len() as int);
    let blen = b.len() as int;
    let cov = pos - state_run(st);
    lemma_apply_empty(a);
    if pos < m {
        let clen = if m - pos < CHUNKSIZE as int {
            m - pos
        } else {
            CHUNKSIZE as int
        };
        let eq = a.subrange(pos, pos + clen) == b.subrange(pos, pos + clen);
        let step = spec_step(st, eq, b, pos, clen);
        let rec = spec_diff_from(a, b, pos + clen, step.1);
        match st {
            StateModel::Init => {
                lemma_diff_from_applies(a, b, pos + clen, step.1);
                assert(step.0 + rec =~= rec);
                assert(spec_apply_ops(a, spec_diff_from(a, b, pos, st), cov) == Ok::<
                    Seq<u8>,
                    ErrorModel,
                >(b.skip(cov)));
            },
            StateModel::Matching(n) => {
                if eq {
                    assert(a.subrange(pos - n, pos + clen) =~= b.subrange(pos - n, pos + clen))
                        by {
                        assert forall|i: int| pos - n <= i < pos implies a[i] == b[i] by {
                            assert(a.subrange(pos - n, pos)[i - (pos - n)] == b.subrange(
                                pos - n,
                                pos,
                            )[i - (pos - n)]);
                        }
                        assert forall|i: int| pos <= i < pos + clen implies a[i] == b[i] by {
                            assert(a.subrange(pos, pos + clen)[i - pos] == b.subrange(
                                pos,
                                pos + clen,
                            )[i - pos]);
                        }
                    }
                    lemma_diff_from_applies(a, b, pos + clen, step.1);
                    assert(step.0 + rec =~= rec);
                    assert(spec_apply_ops(a, spec_diff_from(a, b, pos, st), cov) == Ok::<
                        Seq<u8>,
                        ErrorModel,
                    >(b.skip(cov)));
                } else {
                    lemma_diff_from_applies(a, b, pos + clen, step.1);
                    // the flushed skip copies the matched source bytes
                    let whole = step.0 + rec;
                    assert(whole[0] == OpModel::Skip(n as u64));
                    assert(whole.drop_first() =~= rec);
                    assert(spec_apply_ops(a, rec, pos) == Ok::<Seq<u8>, ErrorModel>(b.skip(pos)));
                    assert(a.subrange(cov, cov + n) == b.subrange(cov, pos));
                    assert(b.subrange(cov, pos) + b.skip(pos) =~= b.skip(cov));
                    assert(spec_apply_ops(a, spec_diff_from(a, b, pos, st), cov) == Ok::<
                        Seq<u8>,
                        ErrorModel,
                    >(b.skip(cov)));
                }
            },
            StateModel::Different(n) => {
                if eq {
                    lemma_diff_from_applies(a, b, pos + clen, step.1);
                    let payload = b.subrange(pos - n, pos);
                    let whole = step.0 + rec;
                    assert(whole[0] == OpModel::Diff(payload));
                    assert(whole.drop_first() =~= rec);
                    assert(spec_apply_ops(a, rec, pos) == Ok::<Seq<u8>, ErrorModel>(b.skip(pos)));
                    assert(payload + b.skip(pos) =~= b.skip(cov));
                    assert(spec_apply_ops(a, spec_diff_from(a, b, pos, st), cov) == Ok::<
                        Seq<u8>,
                        ErrorModel,
                    >(b.skip(cov)));
                } else {
                    lemma_diff_from_applies(a, b, pos + clen, step.1);
                    assert(step.0 + rec =~= rec);
                    assert(spec_apply_ops(a, spec_diff_from(a, b, pos, st), cov) == Ok::<
                        Seq<u8>,
                        ErrorModel,
                    >(b.skip(cov)));
                }
            },
        }
    } else {
        assert(pos == m);
        if blen > m {
            let tailop = spec_flush(StateModel::Different(blen - m), b, blen);
            let p = b.subrange(m, blen);
            assert(tailop[0] == OpModel::Diff(p));
            assert(tailop.len() == 1);
            assert(tailop.drop_first() =~= Seq::<OpModel>::empty());
            assert forall|q: int| true implies #[trigger] spec_apply_ops(a, tailop, q) == Ok::<
                Seq<u8>,
                ErrorModel,
            >(p + Seq::<u8>::empty()) by {
                assert(spec_apply_ops(a, tailop.drop_first(), q + p.len()) == Ok::<
                    Seq<u8>,
                    ErrorModel,
                >(Seq::<u8>::empty()));
            }
            match st {
                StateModel::Init => {
                    assert(spec_apply_ops(a, tailop, 0) == Ok::<Seq<u8>, ErrorModel>(
                        b.subrange(m, blen) + Seq::<u8>::empty(),
                    ));
                    assert(b.subrange(m, blen) + Seq::<u8>::empty() =~= b.skip(cov));
                    assert(spec_apply_ops(a, spec_diff_from(a, b, pos, st), cov) == Ok::<
                        Seq<u8>,
                        ErrorModel,
                    >(b.skip(cov)));
                },
                StateModel::Matching(n) => {
                    let whole = seq![OpModel::Skip(n as u64)] + tailop;
                    assert(whole[0] == OpModel::Skip(n as u64));
                    assert(whole.drop_first() =~= tailop);
                    assert(spec_apply_ops(a, tailop, pos) == Ok::<Seq<u8>, ErrorModel>(
                        b.subrange(m, blen) + Seq::<u8>::empty(),
                    ));
                    assert(a.subrange(cov, cov + n) == b.subrange(cov, pos));
                    assert(b.subrange(cov, pos) + (b.subrange(m, blen) + Seq::<u8>::empty())
                        =~= b.skip(cov));
                    assert(spec_apply_ops(a, spec_diff_from(a, b, pos, st), cov) == Ok::<
                        Seq<u8>,
                        ErrorModel,
                    >(b.skip(cov)));
                },
                StateModel::Different(n) => {
                    let payload = b.subrange(blen - (n + (blen - m)), blen);
                    assert(blen - (n + (blen - m)) == cov);
                    let whole = spec_flush(StateModel::Different(n + (blen - m)), b, blen);
                    assert(whole[0] == OpModel::Diff(payload));
                    assert(whole.drop_first() =~= Seq::<OpModel>::empty());
                    assert(payload + Seq::<u8>::empty() =~= b.skip(cov));
                    assert(spec_apply_ops(a, spec_diff_from(a, b, pos, st), cov) == Ok::<
                        Seq<u8>,
                        ErrorModel,
                    >(b.skip(cov)));
                },
            }
        } else {
            assert(blen == m);
            match st {
                StateModel::Init => {
                    assert(b.skip(0) =~= Seq::<u8>::empty());
                    assert(spec_apply_ops(a, spec_diff_from(a, b, pos, st), cov) == Ok::<
                        Seq<u8>,
                        ErrorModel,
                    >(b.skip(cov)));
                },
                StateModel::Matching(n) => {
                    let whole = spec_flush(st, b, blen);
                    assert(whole[0] == OpModel::Skip(n as u64));
                    assert(whole.drop_first() =~= Seq::<OpModel>::empty());
                    assert(spec_apply_ops(a, whole.drop_first(), cov + n) == Ok::<
                        Seq<u8>,
                        ErrorModel,
                    >(Seq::<u8>::empty()));
                    assert(a.subrange(cov, cov + n) == b.subrange(cov, pos));
                    assert(b.subrange(cov, blen) + Seq::<u8>::empty() =~= b.skip(cov));
                    assert(spec_apply_ops(a, spec_diff_from(a, b, pos, st), cov) == Ok::<
                        Seq<u8>,
                        ErrorModel,
                    >(b.skip(cov)));
                },
                StateModel::Different(n) => {
                    let whole = spec_flush(st, b, blen);
                    assert(whole[0] == OpModel::Diff(b.subrange(blen - n, blen)));
                    assert(whole.drop_first() =~= Seq::<OpModel>::empty());
                    assert(spec_apply_ops(a, whole.drop_first(), cov + n) == Ok::<
                        Seq<u8>,
                        ErrorModel,
                    >(Seq::<u8>::empty()));
                    assert(b.subrange(blen - n, blen) + Seq::<u8>::empty() =~= b.skip(cov));
                    assert(spec_apply_ops(a, spec_diff_from(a, b, pos, st), cov) == Ok::<
                        Seq<u8>,
                        ErrorModel,
                    >(b.skip(cov)));
                },
            }
        }
    }
}

/// Replaying the operations the encoder emits for `a` and `b` against `a`
/// reconstructs `b` exactly.
pub proof fn lemma_diff_applies(a: Seq<u8>, b: Seq<u8>)
    requires
        b.len() <= u64::MAX,
    ensures
        spec_apply_ops(a, spec_diff_ops(a, b), 0) == Ok::<Seq<u8>, ErrorModel>(b),
{
    lemma_diff_from_applies(a, b, 0, StateModel::Init);
    assert(b.skip(0) =~= b);
}

/// Every operation the machine still emits has a count that fits the wire
/// encoding: skip and hole counts are 64-bit by construction, and every diff
/// payload is a range of the new content.
pub proof fn lemma_diff_from_wf(a: Seq<u8>, b: Seq<u8>, pos: int, st: StateModel)
    requires
        b.len() <= u64::MAX,
        state_wf(st, pos),
        pos <= min(a.len() as int, b.len() as int),
    ensures
        ops_wf(spec_diff_from(a, b, pos, st)),
    decreases min(a.len() as int, b.len() as int) - pos,
{
    let m = min(a.len() as int, b.len() as int);
    let r = spec_diff_from(a, b, pos, st);
    if pos < m {
        let clen = if m - pos < CHUNKSIZE as int {
            m - pos
        } else {
            CHUNKSIZE as int
        };
        let eq = a.subrange(pos, pos + clen) == b.subrange(pos, pos + clen);
        let step = spec_step(st, eq, b, pos, clen);
        lemma_diff_from_wf(a, b, pos + clen, step.1);
        let rec = spec_diff_from(a, b, pos + clen, step.1);
        assert forall|i: int| 0 <= i < r.len() implies op_wf(#[trigger] r[i]) by {
            if i < step.0.len() {
                assert(r[i] == step.0[i]);
            } else {
                assert(r[i] == rec[i - step.0.len()]);
            }
        }
    } else {
        assert forall|i: int| 0 <= i < r.len() implies op_wf(#[trigger] r[i]) by {}
    }
}

/// The delta stream the encoder produces for old content `a` and new
/// content `b`: the consumer's own version, the declared length and hash of
/// each side, and the emitted operations.
pub open spec fn spec_delta_for(a: Seq<u8>, b: Seq<u8>) -> DeltaModel {
    DeltaModel {
        major: VER_MAJOR,
        minor: VER_MINOR,
        patch_level: VER_PATCH,
        source_len: a.len() as u64,
        source_hash: hash_of(a),
        ops: spec_diff_ops(a, b),
        target_len: b.len() as u64,
        target_hash: hash_of(b),
    }
}

/// Round trip: for any two byte strings whose lengths and digests fit the
/// format, patching `a` with the serialized delta the encoder produces for
/// `a` and `b` reconstructs `b`, bit for bit.
pub proof fn lemma_round_trip(a: Seq<u8>, b: Seq<u8>)
    requires
        a.len() <= u64::MAX,
        b.len() <= u64::MAX,
        hash_of(a).len() == 32,
        hash_of(b).len() == 32,
    ensures
        spec_parse(spec_serialize(spec_delta_for(a, b))) == Ok::<DeltaModel, ErrorModel>(
            spec_delta_for(a, b),
        ),
        spec_patch(a, spec_serialize(spec_delta_for(a, b))) == Ok::<Seq<u8>, ErrorModel>(b),
        spec_patch_inplace(a, spec_serialize(spec_delta_for(a, b))) == Ok::<Seq<u8>, ErrorModel>(
            b,
        ),
{
    let d = spec_delta_for(a, b);
    lemma_diff_from_wf(a, b, 0, StateModel::Init);
    assert(d.wf());
    lemma_parse_serialize(d);
    lemma_diff_applies(a, b);
    lemma_patch_modes_agree(a, spec_serialize(d));
}

/// In-place patching agrees with external patching on every delta the
/// external mode accepts: the merged-and-truncated content is the replay's
/// output itself.
pub proof fn lemma_patch_modes_agree(src: Seq<u8>, delta: Seq<u8>)
    ensures
        spec_patch(src, delta) matches Ok(out) ==> spec_patch_inplace(src, delta) == Ok::<
            Seq<u8>,
            ErrorModel,
        >(out),
{
    if spec_patch(src, delta) is Ok {
        let out = spec_patch(src, delta)->Ok_0;
        let d = spec_parse(delta)->Ok_0;
        let now = spec_truncated(spec_inplace_merge(src, out), d.target_len as int);
        assert(now =~= out) by {
            if out.len() < src.len() {
                assert(spec_inplace_merge(src, out).take(out.len() as int) =~= out);
            }
        }
    }
}

/// While every compared chunk keeps matching, the machine stays in one
/// matching run and finally flushes a single skip over the whole content.
proof fn lemma_identity_from(a: Seq<u8>, pos: int)
    requires
        a.len() <= u64::MAX,
        0 < pos <= a.len(),
    ensures
        spec_diff_from(a, a, pos, StateModel::Matching(pos)) == seq![
            OpModel::Skip(a.len() as u64),
        ],
    decreases a.len() - pos,
{
    let m = min(a.len() as int, a.len() as int);
    if pos < m {
        let clen = if m - pos < CHUNKSIZE as int {
            m - pos
        } else {
            CHUNKSIZE as int
        };
        lemma_identity_from(a, pos + clen);
        let rec = spec_diff_from(a, a, pos + clen, StateModel::Matching(pos + clen));
        assert(Seq::<OpModel>::empty() + rec =~= rec);
    }
}

/// Identity: encoding a content against itself yields exactly one skip over
/// its whole length, and no operation at all when it is empty.
pub proof fn lemma_identity(a: Seq<u8>)
    requires
        a.len() <= u64::MAX,
    ensures
        a.len() == 0 ==> spec_diff_ops(a, a) == Seq::<OpModel>::empty(),
        a.len() > 0 ==> spec_diff_ops(a, a) == seq![OpModel::Skip(a.len() as u64)],
{
    if a.len() > 0 {
        let m = a.len() as int;
        let clen = if m < CHUNKSIZE as int {
            m
        } else {
            CHUNKSIZE as int
        };
        lemma_identity_from(a, clen);
        let rec = spec_diff_from(a, a, clen, StateModel::Matching(clen));
        assert(Seq::<OpModel>::empty() + rec =~= rec);
    }
}

/// The chunk the machine compares at `pos` when the compared range ends at
/// `m`: the fixed size, or what is left of the range.
pub open spec fn chunk_len_at(m: int, pos: int) -> int {
    if m - pos < CHUNKSIZE as int {
        m - pos
    } else {
        CHUNKSIZE as int
    }
}

/// The two contents disagree on every chunk the machine compares.
pub open spec fn chunks_all_differ(a: Seq<u8>, b: Seq<u8>) -> bool {
    let m = min(a.len() as int, b.len() as int);
    forall|pos: int|
        0 <= pos < m && pos % (CHUNKSIZE as int) == 0 ==> a.subrange(
            pos,
            pos + chunk_len_at(m, pos),
        ) != b.subrange(pos, pos + chunk_len_at(m, pos))
}

/// While every compared chunk keeps differing, the machine stays in one
/// differing run and finally flushes a single diff carrying the whole new
/// content.
proof fn lemma_total_replacement_from(a: Seq<u8>, b: Seq<u8>, pos: int)
    requires
        chunks_all_differ(a, b),
        b.len() <= u64::MAX,
        0 < pos <= min(a.len() as int, b.len() as int),
        pos % (CHUNKSIZE as int) == 0 || pos == min(a.len() as int, b.len() as int),
    ensures
        spec_diff_from(a, b, pos, StateModel::Different(pos)) == seq![OpModel::Diff(b)],
    decreases min(a.len() as int, b.len() as int) - pos,
{
    let m = min(a.len() as int, b.len() as int);
    let blen = b.len() as int;
    if pos < m {
        let clen = chunk_len_at(m, pos);
        assert(a.subrange(pos, pos + clen) != b.subrange(pos, pos + clen));
        lemma_total_replacement_from(a, b, pos + clen);
        let rec = spec_diff_from(a, b, pos + clen, StateModel::Different(pos + clen));
        assert(Seq::<OpModel>::empty() + rec =~= rec);
    } else {
        assert(b.subrange(0, blen) =~= b);
    }
}

/// Total replacement: when the contents share no chunk and the new content
/// is not empty, the encoder emits exactly one diff carrying the whole new
/// content.
pub proof fn lemma_total_replacement(a: Seq<u8>, b: Seq<u8>)
    requires
        chunks_all_differ(a, b),
        b.len() > 0,
        b.len() <= u64::MAX,
    ensures
        spec_diff_ops(a, b) == seq![OpModel::Diff(b)],
{
    let m = min(a.len() as int, b.len() as int);
    let blen = b.len() as int;
    if m == 0 {
        assert(b.subrange(0, blen) =~= b);
    } else {
        let clen = chunk_len_at(m, 0);
        assert(a.subrange(0, clen) != b.subrange(0, clen));
        lemma_total_replacement_from(a, b, clen);
        let rec = spec_diff_from(a, b, clen, StateModel::Different(clen));
        assert(Seq::<OpModel>::empty() + rec =~= rec);
    }
}

/// The emitted operations end in a diff that carries at least the new
/// content's excess over the old, and that payload is a suffix of the new
/// content.
pub open spec fn ends_in_tail_diff(ops: Seq<OpModel>, a: Seq<u8>, b: Seq<u8>) -> bool {
    &&& ops.len() > 0
    &&& ops.last() matches OpModel::Diff(p) && p.len() >= b.len() - a.len() && p == b.subrange(
        b.len() - p.len(),
        b.len() as int,
    )
}

/// From any reachable configuration, when the new content is longer than the
/// old, the operations still to be emitted end in such a tail diff.
proof fn lemma_grow_tail_from(a: Seq<u8>, b: Seq<u8>, pos: int, st: StateModel)
    requires
        b.len() <= u64::MAX,
        a.len() < b.len(),
        state_wf(st, pos),
        pos <= min(a.len() as int, b.len() as int),
    ensures
        ends_in_tail_diff(spec_diff_from(a, b, pos, st), a, b),
    decreases min(a.len() as int, b.len() as int) - pos,
{
    let m = min(a.len() as int, b.len() as int);
    let blen = b.len() as int;
    let r = spec_diff_from(a, b, pos, st);
    if pos < m {
        let clen = chunk_len_at(m, pos);
        let eq = a.subrange(pos, pos + clen) == b.subrange(pos, pos + clen);
        let step = spec_step(st, eq, b, pos, clen);
        lemma_grow_tail_from(a, b, pos + clen, step.1);
        let rec = spec_diff_from(a, b, pos + clen, step.1);
        assert(r.last() == rec.last());
    } else {
        assert(m == a.len());
        match st {
            StateModel::Init => {
                assert(r.last() == OpModel::Diff(b.subrange(m, blen)));
            },
            StateModel::Matching(n) => {
                assert(r.last() == OpModel::Diff(b.subrange(m, blen)));
            },
            StateModel::Different(n) => {
                assert(r.last() == OpModel::Diff(b.subrange(m - n, blen)));
            },
        }
    }
}

/// Length growth: when the new content is longer than the old, the encoder's
/// last operation is a diff whose payload is a suffix of the new content
/// covering at least the excess.
pub proof fn lemma_grow_tail(a: Seq<u8>, b: Seq<u8>)
    requires
        a.len() < b.len(),
        b.len() <= u64::MAX,
    ensures
        ends_in_tail_diff(spec_diff_ops(a, b), a, b),
{
    lemma_grow_tail_from(a, b, 0, StateModel::Init);
}

/// Whatever an accepted in-place run leaves in the file ends at exactly the
/// declared target length: a shrinking destination is truncated to it.
pub proof fn lemma_inplace_length(orig: Seq<u8>, delta: Seq<u8>)
    ensures
        spec_patch_inplace(orig, delta) matches Ok(now) ==> now.len() == spec_parse(
            delta,
        )->Ok_0.target_len,
{
}

/// Two operations of the same kind, which a conforming encoder never emits
/// consecutively.
pub open spec fn same_kind(x: OpModel, y: OpModel) -> bool {
    match (x, y) {
        (OpModel::Skip(_), OpModel::Skip(_)) => true,
        (OpModel::Diff(_), OpModel::Diff(_)) => true,
        (OpModel::Hole(_), OpModel::Hole(_)) => true,
        _ => false,
    }
}

/// How many output bytes an operation covers.
pub open spec fn op_count(op: OpModel) -> int {
    match op {
        OpModel::Skip(n) => n as int,
        OpModel::Diff(p) => p.len() as int,
        OpModel::Hole(n) => n as int,
    }
}

/// Minimality of an operation sequence: every operation covers at least one
/// byte, and no two consecutive operations have the same kind.
pub open spec fn ops_coalesced(ops: Seq<OpModel>) -> bool {
    &&& forall|i: int| 0 <= i < ops.len() ==> op_count(#[trigger] ops[i]) > 0
    &&& forall|i: int| 0 <= i < ops.len() - 1 ==> !same_kind(#[trigger] ops[i], ops[i + 1])
}

/// Putting one more operation in front keeps a sequence coalesced when the
/// new head differs in kind from the old one.
proof fn lemma_coalesced_cons(op: OpModel, rest: Seq<OpModel>)
    requires
        op_count(op) > 0,
        ops_coalesced(rest),
        rest.len() > 0 ==> !same_kind(op, rest[0]),
    ensures
        ops_coalesced(seq![op] + rest),
{
    let s = seq![op] + rest;
    assert forall|i: int| 0 <= i < s.len() implies op_count(#[trigger] s[i]) > 0 by {
        if i > 0 {
            assert(s[i] == rest[i - 1]);
        }
    }
    assert forall|i: int| 0 <= i < s.len() - 1 implies !same_kind(#[trigger] s[i], s[i + 1]) by {
        if i > 0 {
            assert(s[i] == rest[i - 1]);
            assert(s[i + 1] == rest[i]);
        } else {
            assert(s[1] == rest[0]);
        }
    }
}

/// From any reachable configuration, the operations still to be emitted are
/// coalesced; from an open matching run they begin with a skip, from an open
/// differing run with a diff, and an open run always flushes something.
proof fn lemma_coalesced_from(a: Seq<u8>, b: Seq<u8>, pos: int, st: StateModel)
    requires
        b.len() <= u64::MAX,
        state_wf(st, pos),
        pos <= min(a.len() as int, b.len() as int),
    ensures
        ops_coalesced(spec_diff_from(a, b, pos, st)),
        st is Matching ==> spec_diff_from(a, b, pos, st).len() > 0 && spec_diff_from(
            a,
            b,
            pos,
            st,
        )[0] is Skip,
        st is Different ==> spec_diff_from(a, b, pos, st).len() > 0 && spec_diff_from(
            a,
            b,
            pos,
            st,
        )[0] is Diff,
    decreases min(a.len() as int, b.len() as int) - pos,
{
    let m = min(a.len() as int, b.len() as int);
    let blen = b.len() as int;
    let r = spec_diff_from(a, b, pos, st);
    if pos < m {
        let clen = chunk_len_at(m, pos);
        let eq = a.subrange(pos, pos + clen) == b.subrange(pos, pos + clen);
        let step = spec_step(st, eq, b, pos, clen);
        lemma_coalesced_from(a, b, pos + clen, step.1);
        let rec = spec_diff_from(a, b, pos + clen, step.1);
        match st {
            StateModel::Init => {
                assert(Seq::<OpModel>::empty() + rec =~= rec);
            },
            StateModel::Matching(n) => {
                if eq {
                    assert(Seq::<OpModel>::empty() + rec =~= rec);
                } else {
                    lemma_coalesced_cons(OpModel::Skip(n as u64), rec);
                    assert(r[0] == OpModel::Skip(n as u64));
                }
            },
            StateModel::Different(n) => {
                if eq {
                    lemma_coalesced_cons(OpModel::Diff(b.subrange(pos - n, pos)), rec);
                    assert(r[0] == OpModel::Diff(b.subrange(pos - n, pos)));
                } else {
                    assert(Seq::<OpModel>::empty() + rec =~= rec);
                }
            },
        }
    } else {
        if blen > m {
            let tail = spec_flush(StateModel::Different(blen - m), b, blen);
            assert(ops_coalesced(tail)) by {
                lemma_coalesced_cons(tail[0], Seq::<OpModel>::empty());
                assert(seq![tail[0]] + Seq::<OpModel>::empty() =~= tail);
            }
            match st {
                StateModel::Init => {},
                StateModel::Matching(n) => {
                    lemma_coalesced_cons(OpModel::Skip(n as u64), tail);
                    assert(r == seq![OpModel::Skip(n as u64)] + tail);
                    assert(r[0] == OpModel::Skip(n as u64));
                },
                StateModel::Different(n) => {
                    let whole = spec_flush(StateModel::Different(n + (blen - m)), b, blen);
                    lemma_coalesced_cons(whole[0], Seq::<OpModel>::empty());
                    assert(seq![whole[0]] + Seq::<OpModel>::empty() =~= whole);
                },
            }
        } else {
            match st {
                StateModel::Init => {},
                StateModel::Matching(n) => {
                    let whole = spec_flush(st, b, blen);
                    lemma_coalesced_cons(whole[0], Seq::<OpModel>::empty());
                    assert(seq![whole[0]] + Seq::<OpModel>::empty() =~= whole);
                },
                StateModel::Different(n) => {
                    let whole = spec_flush(st, b, blen);
                    lemma_coalesced_cons(whole[0], Seq::<OpModel>::empty());
                    assert(seq![whole[0]] + Seq::<OpModel>::empty() =~= whole);
                },
            }
        }
    }
}

/// Minimality: the encoder's operations all cover at least one byte and no
/// two consecutive ones have the same kind.
pub proof fn lemma_diff_coalesced(a: Seq<u8>, b: Seq<u8>)
    requires
        b.len() <= u64::MAX,
    ensures
        ops_coalesced(spec_diff_ops(a, b)),
{
    lemma_coalesced_from(a, b, 0, StateModel::Init);
}

} // verus!

