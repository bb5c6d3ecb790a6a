//! The decoder: replays a delta stream against a source, producing a fresh
//! output (external mode) or mutating the source (in-place mode), and
//! verifies the declared lengths and hashes around the replay.

use vstd::prelude::*;
use crate::bytes::{bytes_eq, copy_data, push_zeros, zero_bytes};
use crate::format::{
    lemma_parse_err_kind, parse_delta, spec_parse, vops, DeltaError, ErrorModel, Op, OpModel,
    VER_MAJOR,
};
use crate::hash::{hash_file, hash_of};

verus! {

/// The bytes the operations produce from `src`, the source position starting
/// at `pos`: a skip copies source bytes, a diff contributes its payload, a
/// hole contributes zeros; diff and hole advance the source position without
/// reading it. A skip that overruns the source is the one way to fail.
pub open spec fn spec_apply_ops(src: Seq<u8>, ops: Seq<OpModel>, pos: int) -> Result<
    Seq<u8>,
    ErrorModel,
>
    decreases ops.len(),
{
    if ops.len() == 0 {
        Ok(Seq::empty())
    } else {
        match ops[0] {
            OpModel::Skip(n) => if 0 <= pos && pos + n <= src.len() {
                match spec_apply_ops(src, ops.drop_first(), pos + n) {
                    Ok(t) => Ok(src.subrange(pos, pos + n) + t),
                    Err(e) => Err(e),
                }
            } else {
                Err(
                    ErrorModel::SkipOutOfRange(
                        n,
                        if 0 <= pos <= src.len() {
                            (src.len() - pos) as u64
                        } else {
                            0
                        },
                    ),
                )
            },
            OpModel::Diff(p) => match spec_apply_ops(src, ops.drop_first(), pos + p.len()) {
                Ok(t) => Ok(p + t),
                Err(e) => Err(e),
            },
            OpModel::Hole(n) => match spec_apply_ops(src, ops.drop_first(), pos + n) {
                Ok(t) => Ok(zero_bytes(n as nat) + t),
                Err(e) => Err(e),
            },
        }
    }
}

/// The bytes still to be produced from position `pos`, appended to those
/// already produced.
pub open spec fn apply_ops_cont(src: Seq<u8>, ops: Seq<OpModel>, pos: int, acc: Seq<u8>) -> Result<
    Seq<u8>,
    ErrorModel,
> {
    match spec_apply_ops(src, ops, pos) {
        Ok(t) => Ok(acc + t),
        Err(e) => Err(e),
    }
}

/// What a whole patch run returns for source `src` and delta bytes `delta`:
/// the reconstructed content, or the first failing check. The delta is
/// deserialized; the version and the declared source length and hash are
/// checked before any operation; the operations are replayed; the declared
/// target length and hash are checked against the result.
pub open spec fn spec_patch(src: Seq<u8>, delta: Seq<u8>) -> Result<Seq<u8>, ErrorModel> {
    match spec_parse(delta) {
        Err(e) => Err(e),
        Ok(d) => {
            if d.major != VER_MAJOR {
                Err(ErrorModel::UnsupportedVersion(VER_MAJOR, d.major))
            } else if d.source_len != src.len() {
                Err(ErrorModel::SourceLengthMismatch(d.source_len, src.len() as u64))
            } else if d.source_hash != hash_of(src) {
                Err(ErrorModel::SourceHashMismatch(d.source_hash, hash_of(src)))
            } else {
                match spec_apply_ops(src, d.ops, 0) {
                    Err(e) => Err(e),
                    Ok(out) => {
                        if d.target_len != out.len() {
                            Err(ErrorModel::TargetLengthMismatch(d.target_len, out.len() as u64))
                        } else if d.target_hash != hash_of(out) {
                            Err(ErrorModel::TargetHashMismatch(d.target_hash, hash_of(out)))
                        } else {
                            Ok(out)
                        }
                    },
                }
            }
        },
    }
}

/// A failure of the replay is always a skip that overran the source.
pub proof fn lemma_apply_ops_err_kind(src: Seq<u8>, ops: Seq<OpModel>, pos: int)
    ensures
        spec_apply_ops(src, ops, pos) matches Err(e) ==> e is SkipOutOfRange,
    decreases ops.len(),
{
    if ops.len() > 0 {
        match ops[0] {
            OpModel::Skip(n) => {
                lemma_apply_ops_err_kind(src, ops.drop_first(), pos + n);
            },
            OpModel::Diff(p) => {
                lemma_apply_ops_err_kind(src, ops.drop_first(), pos + p.len());
            },
            OpModel::Hole(n) => {
                lemma_apply_ops_err_kind(src, ops.drop_first(), pos + n);
            },
        }
    }
}

/// Replays the operations against `src` into a fresh output buffer.
fn apply_ops(src: &Vec<u8>, ops: &Vec<Op>) -> (r: Result<Vec<u8>, DeltaError>)
    ensures
        match r {
            Ok(out) => spec_apply_ops(src@, vops(ops@), 0) == Ok::<Seq<u8>, ErrorModel>(out@),
            Err(e) => spec_apply_ops(src@, vops(ops@), 0) == Err::<Seq<u8>, ErrorModel>(e@),
        },
{
    let srclen = src.len();
    let mut out: Vec<u8> = Vec::new();
    let mut pos: usize = 0;
    let mut past: bool = false;
    let ghost mut spos: int = 0;
    proof {
        assert(vops(ops@).skip(0) =~= vops(ops@));
        match spec_apply_ops(src@, vops(ops@), 0) {
            Ok(t) => {
                assert(Seq::<u8>::empty() + t =~= t);
            },
            Err(_) => {},
        }
    }
    let mut k: usize = 0;
    while k < ops.len()
        invariant
            0 <= k <= ops@.len(),
            srclen == src@.len(),
            !past ==> spos == pos && 0 <= pos <= srclen,
            past ==> spos > srclen,
            apply_ops_cont(src@, vops(ops@).skip(k as int), spos, out@) == spec_apply_ops(
                src@,
                vops(ops@),
                0,
            ),
        decreases ops@.len() - k,
    {
        let ghost rest = vops(ops@).skip(k as int);
        proof {
            assert(rest[0] == vops(ops@)[k as int]);
            assert(rest.drop_first() =~= vops(ops@).skip(k + 1));
        }
        match &ops[k] {
            Op::Skip(n) => {
                let n = *n;
                if past || n > (srclen - pos) as u64 {
                    let left: u64 = if past {
                        0
                    } else {
                        (srclen - pos) as u64
                    };
                    return Err(DeltaError::SkipOutOfRange(n, left));
                }
                let c = n as usize;
                let ghost prev = out@;
                copy_data(&mut out, src, pos, c);
                proof {
                    spos = spos + n;
                    match spec_apply_ops(src@, rest.drop_first(), spos) {
                        Ok(t) => {
                            assert(prev + (src@.subrange(pos as int, pos + n) + t) =~= out@ + t);
                        },
                        Err(_) => {},
                    }
                }
                pos = pos + c;
            },
            Op::Diff(p) => {
                let ghost prev = out@;
                let plen = p.len();
                copy_data(&mut out, p, 0, plen);
                proof {
                    assert(p@.subrange(0, plen as int) =~= p@);
                    spos = spos + plen;
                    match spec_apply_ops(src@, rest.drop_first(), spos) {
                        Ok(t) => {
                            assert(prev + (p@ + t) =~= out@ + t);
                        },
                        Err(_) => {},
                    }
                }
                if !past {
                    if plen <= srclen - pos {
                        pos = pos + plen;
                    } else {
                        past = true;
                    }
                }
            },
            Op::Hole(n) => {
                let n = *n;
                let ghost prev = out@;
                push_zeros(&mut out, n);
                proof {
                    spos = spos + n;
                    match spec_apply_ops(src@, rest.drop_first(), spos) {
                        Ok(t) => {
                            assert(prev + (zero_bytes(n as nat) + t) =~= out@ + t);
                        },
                        Err(_) => {},
                    }
                }
                if !past {
                    if n <= (srclen - pos) as u64 {
                        pos = pos + n as usize;
                    } else {
                        past = true;
                    }
                }
            },
        }
        k = k + 1;
    }
    proof {
        assert(vops(ops@).skip(ops@.len() as int) =~= Seq::<OpModel>::empty());
        assert(out@ + Seq::<u8>::empty() =~= out@);
    }
    Ok(out)
}

/// Reconstructs the target content from `src` and the delta bytes into a
/// fresh buffer (external mode). Succeeds exactly when the delta is well
/// formed, its version is supported, its declared source length and hash
/// match `src`, its operations stay within the source, and its declared
/// target length and hash match the reconstruction.
pub fn patch_apply(src: &Vec<u8>, delta: &Vec<u8>) -> (r: Result<Vec<u8>, DeltaError>)
    ensures
        match r {
            Ok(out) => spec_patch(src@, delta@) == Ok::<Seq<u8>, ErrorModel>(out@),
            Err(e) => spec_patch(src@, delta@) == Err::<Seq<u8>, ErrorModel>(e@),
        },
{
    let d = match parse_delta(delta) {
        Ok(d) => d,
        Err(e) => {
            return Err(e);
        },
    };
    if d.major != VER_MAJOR {
        return Err(DeltaError::UnsupportedVersion(VER_MAJOR, d.major));
    }
    let srclen64 = src.len() as u64;
    if d.source_len != srclen64 {
        return Err(DeltaError::SourceLengthMismatch(d.source_len, srclen64));
    }
    let shash = hash_file(src);
    if !bytes_eq(&d.source_hash, &shash) {
        return Err(DeltaError::SourceHashMismatch(d.source_hash, shash));
    }
    let out = match apply_ops(src, &d.ops) {
        Ok(o) => o,
        Err(e) => {
            return Err(e);
        },
    };
    let outlen64 = out.len() as u64;
    if d.target_len != outlen64 {
        return Err(DeltaError::TargetLengthMismatch(d.target_len, outlen64));
    }
    let thash = hash_file(&out);
    if !bytes_eq(&d.target_hash, &thash) {
        return Err(DeltaError::TargetHashMismatch(d.target_hash, thash));
    }
    Ok(out)
}

/// The content a file holds after the operations' output is written over it
/// in place: the output, and beyond it whatever tail of the original content
/// the operations did not reach.
pub open spec fn spec_inplace_merge(orig: Seq<u8>, out: Seq<u8>) -> Seq<u8> {
    if out.len() >= orig.len() {
        out
    } else {
        out + orig.skip(out.len() as int)
    }
}

/// `s` cut down to length `t` where it is longer; unchanged where it is not.
pub open spec fn spec_truncated(s: Seq<u8>, t: int) -> Seq<u8> {
    if 0 <= t < s.len() {
        s.take(t)
    } else {
        s
    }
}

/// What an in-place patch run leaves in the file and returns. It differs
/// from the external mode only after the replay: the operations' output is
/// written over the original content (an unreached tail stays), the result is
/// truncated to the declared target length where it is longer, and the
/// declared target length and hash are checked against that re-measured
/// content. On a delta the encoder produced the two modes agree.
pub open spec fn spec_patch_inplace(orig: Seq<u8>, delta: Seq<u8>) -> Result<Seq<u8>, ErrorModel> {
    match spec_parse(delta) {
        Err(e) => Err(e),
        Ok(d) => {
            if d.major != VER_MAJOR {
                Err(ErrorModel::UnsupportedVersion(VER_MAJOR, d.major))
            } else if d.source_len != orig.len() {
                Err(ErrorModel::SourceLengthMismatch(d.source_len, orig.len() as u64))
            } else if d.source_hash != hash_of(orig) {
                Err(ErrorModel::SourceHashMismatch(d.source_hash, hash_of(orig)))
            } else {
                match spec_apply_ops(orig, d.ops, 0) {
                    Err(e) => Err(e),
                    Ok(out) => {
                        let now = spec_truncated(
                            spec_inplace_merge(orig, out),
                            d.target_len as int,
                        );
                        if d.target_len != now.len() {
                            Err(ErrorModel::TargetLengthMismatch(d.target_len, now.len() as u64))
                        } else if d.target_hash != hash_of(now) {
                            Err(ErrorModel::TargetHashMismatch(d.target_hash, hash_of(now)))
                        } else {
                            Ok(now)
                        }
                    },
                }
            }
        },
    }
}

/// The mutated-but-rejected state an in-place run leaves behind when a check
/// after the replay fails: the merged content, truncated to the declared
/// target length.
pub open spec fn inplace_err_state(orig: Seq<u8>, delta: Seq<u8>, now: Seq<u8>) -> bool {
    match spec_parse(delta) {
        Ok(d) => match spec_apply_ops(orig, d.ops, 0) {
            Ok(out) => now == spec_truncated(
                spec_inplace_merge(orig, out),
                d.target_len as int,
            ),
            Err(_) => false,
        },
        Err(_) => false,
    }
}

/// Applies the delta to `file` in place (in-place mode). The version and the
/// declared source length and hash are checked before any mutation: on those
/// failures, and on a malformed delta, `file` is unchanged. After the replay
/// the content is truncated to the declared target length where it shrank;
/// a target length or hash mismatch is then reported with the mutation kept.
pub fn patch_apply_inplace(file: &mut Vec<u8>, delta: &Vec<u8>) -> (r: Result<(), DeltaError>)
    ensures
        match r {
            Ok(_) => spec_patch_inplace(old(file)@, delta@) == Ok::<Seq<u8>, ErrorModel>(
                final(file)@,
            ),
            Err(e) => {
                &&& spec_patch_inplace(old(file)@, delta@) == Err::<Seq<u8>, ErrorModel>(e@)
                &&& match e@ {
                    ErrorModel::TargetLengthMismatch(_, _) => inplace_err_state(
                        old(file)@,
                        delta@,
                        final(file)@,
                    ),
                    ErrorModel::TargetHashMismatch(_, _) => inplace_err_state(
                        old(file)@,
                        delta@,
                        final(file)@,
                    ),
                    _ => final(file)@ == old(file)@,
                }
            },
        },
{
    let d = match parse_delta(delta) {
        Ok(d) => d,
        Err(e) => {
            proof {
                lemma_parse_err_kind(delta@);
            }
            return Err(e);
        },
    };
    if d.major != VER_MAJOR {
        return Err(DeltaError::UnsupportedVersion(VER_MAJOR, d.major));
    }
    let flen64 = file.len() as u64;
    if d.source_len != flen64 {
        return Err(DeltaError::SourceLengthMismatch(d.source_len, flen64));
    }
    let fhash = hash_file(file);
    if !bytes_eq(&d.source_hash, &fhash) {
        return Err(DeltaError::SourceHashMismatch(d.source_hash, fhash));
    }
    let out = match apply_ops(file, &d.ops) {
        Ok(o) => o,
        Err(e) => {
            proof {
                lemma_apply_ops_err_kind(file@, vops(d.ops@), 0);
            }
            return Err(e);
        },
    };
    let ghost out_view = out@;
    // write the output over the file, keeping any unreached tail
    let outlen = out.len();
    let flen = file.len();
    if outlen >= flen {
        *file = out;
    } else {
        let mut merged = out;
        copy_data(&mut merged, file, outlen, flen - outlen);
        proof {
            assert(old(file)@.subrange(outlen as int, flen as int) =~= old(file)@.skip(
                outlen as int,
            ));
        }
        *file = merged;
    }
    proof {
        assert(file@ == spec_inplace_merge(old(file)@, out_view));
    }
    // shrink to the declared target length where the content got shorter
    let ghost now = spec_truncated(spec_inplace_merge(old(file)@, out_view), d.target_len as int);
    let mlen = file.len();
    if d.target_len < mlen as u64 {
        file.truncate(d.target_len as usize);
    }
    proof {
        assert(file@ =~= now);
    }
    let nowlen64 = file.len() as u64;
    if d.target_len != nowlen64 {
        return Err(DeltaError::TargetLengthMismatch(d.target_len, nowlen64));
    }
    let thash = hash_file(file);
    if !bytes_eq(&d.target_hash, &thash) {
        return Err(DeltaError::TargetHashMismatch(d.target_hash, thash));
    }
    Ok(())
}

} // verus!
