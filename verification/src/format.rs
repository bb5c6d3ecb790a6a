//! The binary wire format of a delta stream: header, opcode set, operand
//! encoding, and the writer/reader pair that serializes and deserializes it.
//!
//! Layout (all integers little-endian 64-bit):
//! - 7 bytes of magic ("vsdelta"),
//! - a version record (tag, then major/minor/patch bytes),
//! - the declared source length and source hash,
//! - zero or more operations (skip / diff / hole),
//! - the declared target length and target hash,
//! - an end marker.

use vstd::prelude::*;
use vstd::bytes::{
    spec_u64_to_le_bytes, spec_u64_from_le_bytes, u64_from_le_bytes,
    lemma_auto_spec_u64_to_from_le_bytes,
};
use vstd::slice::slice_subrange;
use crate::bytes::{copy_data, u64tou8ale};


verus! {

/// Tag of the version record; followed by major, minor, patch bytes.
pub const OP_VER: u8 = 0x00;

/// Tag of the declared source length; followed by a 64-bit count.
pub const OP_LEN_A: u8 = 0x77;

/// Tag of the declared source hash; followed by 32 digest bytes.
pub const OP_HASH_A: u8 = 0xAA;

/// Tag of a skip operation; followed by a 64-bit count.
pub const OP_SKIP: u8 = 0x55;

/// Tag of a diff operation; followed by a 64-bit count and that many payload bytes.
pub const OP_DIFF: u8 = 0xDD;

/// Tag of a hole operation (reserved); followed by a 64-bit count.
pub const OP_HOLE: u8 = 0x44;

/// Tag of the declared target length; followed by a 64-bit count.
pub const OP_LEN_B: u8 = 0x88;

/// Tag of the declared target hash; followed by 32 digest bytes.
pub const OP_HASH_B: u8 = 0xBB;

/// Terminal marker of a delta stream.
pub const OP_END: u8 = 0xEE;

/// Major version this consumer understands; a stream whose major differs is rejected.
pub const VER_MAJOR: u8 = 0;

/// Minor version written into produced streams.
pub const VER_MINOR: u8 = 1;

/// Patch version written into produced streams.
pub const VER_PATCH: u8 = 0;

/// The fixed 7-byte stream identifier, the ASCII bytes of "vsdelta".
pub open spec fn spec_magic() -> Seq<u8> {
    seq![0x76u8, 0x73u8, 0x64u8, 0x65u8, 0x6cu8, 0x74u8, 0x61u8]
}

/// One instruction of a delta stream.
#[derive(Debug, Clone, PartialEq, Eq)]
pub enum Op {
    /// The next `count` output bytes equal the next `count` source bytes.
    Skip(u64),
    /// The next output bytes are this literal payload; the source position
    /// advances past as many bytes without being read.
    Diff(Vec<u8>),
    /// Reserved: the next `count` output bytes are zero; the source position
    /// advances past `count` bytes without being read.
    Hole(u64),
}

/// Mathematical model of one instruction.
#[verifier::ext_equal]
pub enum OpModel {
    Skip(u64),
    Diff(Seq<u8>),
    Hole(u64),
}

impl View for Op {
    type V = OpModel;

    open spec fn view(&self) -> OpModel {
        match self {
            Op::Skip(n) => OpModel::Skip(*n),
            Op::Diff(p) => OpModel::Diff(p@),
            Op::Hole(n) => OpModel::Hole(*n),
        }
    }
}

/// The models of a sequence of instructions.
pub open spec fn vops(ops: Seq<Op>) -> Seq<OpModel> {
    ops.map_values(|o: Op| o@)
}

/// A diff payload must fit the 64-bit count that carries its length.
pub open spec fn op_wf(op: OpModel) -> bool {
    match op {
        OpModel::Diff(p) => p.len() <= u64::MAX,
        _ => true,
    }
}

/// Every instruction's count fits the wire encoding.
pub open spec fn ops_wf(ops: Seq<OpModel>) -> bool {
    forall|i: int| 0 <= i < ops.len() ==> op_wf(#[trigger] ops[i])
}

/// A fully decoded delta stream.
#[derive(Debug, Clone)]
pub struct Delta {
    pub major: u8,
    pub minor: u8,
    pub patch_level: u8,
    pub source_len: u64,
    pub source_hash: Vec<u8>,
    pub ops: Vec<Op>,
    pub target_len: u64,
    pub target_hash: Vec<u8>,
}

/// Mathematical model of a delta stream.
#[verifier::ext_equal]
pub struct DeltaModel {
    pub major: u8,
    pub minor: u8,
    pub patch_level: u8,
    pub source_len: u64,
    pub source_hash: Seq<u8>,
    pub ops: Seq<OpModel>,
    pub target_len: u64,
    pub target_hash: Seq<u8>,
}

impl View for Delta {
    type V = DeltaModel;

    open spec fn view(&self) -> DeltaModel {
        DeltaModel {
            major: self.major,
            minor: self.minor,
            patch_level: self.patch_level,
            source_len: self.source_len,
            source_hash: self.source_hash@,
            ops: vops(self.ops@),
            target_len: self.target_len,
            target_hash: self.target_hash@,
        }
    }
}

impl DeltaModel {
    /// Both digests are 256-bit and every operand fits its encoding.
    pub open spec fn wf(self) -> bool {
        &&& self.source_hash.len() == 32
        &&& self.target_hash.len() == 32
        &&& ops_wf(self.ops)
    }
}

/// Why a delta stream was rejected. Format violations name the offending
/// byte; mismatches carry the declared (expected) and observed (actual) values.
#[derive(Debug, Clone, PartialEq, Eq)]
pub enum DeltaError {
    /// The stream does not begin with the 7-byte magic.
    BadMagic,
    /// The stream ended before the record being read was complete.
    Truncated,
    /// A byte was read where a record tag was expected but names no record
    /// valid at that point.
    UnexpectedOpcode(u8),
    /// The stream's major version (second value) differs from the consumer's
    /// own (first value).
    UnsupportedVersion(u8, u8),
    /// The declared source length (first value) differs from the actual
    /// length of the opened source (second value).
    SourceLengthMismatch(u64, u64),
    /// The declared source hash (first value) differs from the recomputed
    /// hash of the source (second value).
    SourceHashMismatch(Vec<u8>, Vec<u8>),
    /// A skip operation asked for more bytes (first value) than remain at the
    /// source's current position (second value).
    SkipOutOfRange(u64, u64),
    /// The declared target length (first value) differs from the length of
    /// the reconstructed content (second value).
    TargetLengthMismatch(u64, u64),
    /// The declared target hash (first value) differs from the recomputed
    /// hash of the reconstructed content (second value).
    TargetHashMismatch(Vec<u8>, Vec<u8>),
}

/// Mathematical model of a rejection.
#[verifier::ext_equal]
pub enum ErrorModel {
    BadMagic,
    Truncated,
    UnexpectedOpcode(u8),
    UnsupportedVersion(u8, u8),
    SourceLengthMismatch(u64, u64),
    SourceHashMismatch(Seq<u8>, Seq<u8>),
    SkipOutOfRange(u64, u64),
    TargetLengthMismatch(u64, u64),
    TargetHashMismatch(Seq<u8>, Seq<u8>),
}

impl View for DeltaError {
    type V = ErrorModel;

    open spec fn view(&self) -> ErrorModel {
        match self {
            DeltaError::BadMagic => ErrorModel::BadMagic,
            DeltaError::Truncated => ErrorModel::Truncated,
            DeltaError::UnexpectedOpcode(b) => ErrorModel::UnexpectedOpcode(*b),
            DeltaError::UnsupportedVersion(e, a) => ErrorModel::UnsupportedVersion(*e, *a),
            DeltaError::SourceLengthMismatch(e, a) => ErrorModel::SourceLengthMismatch(*e, *a),
            DeltaError::SourceHashMismatch(e, a) => ErrorModel::SourceHashMismatch(e@, a@),
            DeltaError::SkipOutOfRange(n, l) => ErrorModel::SkipOutOfRange(*n, *l),
            DeltaError::TargetLengthMismatch(e, a) => ErrorModel::TargetLengthMismatch(*e, *a),
            DeltaError::TargetHashMismatch(e, a) => ErrorModel::TargetHashMismatch(e@, a@),
        }
    }
}

/// The failure taxonomy: violations of the byte format, an incompatible
/// version, and integrity mismatches of a declared length or hash.
#[derive(PartialEq, Eq, Structural, Clone, Copy, Debug)]
pub enum ErrorClass {
    Format,
    Version,
    Integrity,
}

impl ErrorModel {
    /// Which part of the failure taxonomy a rejection belongs to.
    pub open spec fn class(self) -> ErrorClass {
        match self {
            ErrorModel::BadMagic => ErrorClass::Format,
            ErrorModel::Truncated => ErrorClass::Format,
            ErrorModel::UnexpectedOpcode(_) => ErrorClass::Format,
            ErrorModel::SkipOutOfRange(_, _) => ErrorClass::Format,
            ErrorModel::UnsupportedVersion(_, _) => ErrorClass::Version,
            ErrorModel::SourceLengthMismatch(_, _) => ErrorClass::Integrity,
            ErrorModel::SourceHashMismatch(_, _) => ErrorClass::Integrity,
            ErrorModel::TargetLengthMismatch(_, _) => ErrorClass::Integrity,
            ErrorModel::TargetHashMismatch(_, _) => ErrorClass::Integrity,
        }
    }
}

impl DeltaError {
    /// Which part of the failure taxonomy this rejection belongs to.
    pub fn class(&self) -> (c: ErrorClass)
        ensures
            c == self@.class(),
    {
        match self {
            DeltaError::BadMagic => ErrorClass::Format,
            DeltaError::Truncated => ErrorClass::Format,
            DeltaError::UnexpectedOpcode(_) => ErrorClass::Format,
            DeltaError::SkipOutOfRange(_, _) => ErrorClass::Format,
            DeltaError::UnsupportedVersion(_, _) => ErrorClass::Version,
            DeltaError::SourceLengthMismatch(_, _) => ErrorClass::Integrity,
            DeltaError::SourceHashMismatch(_, _) => ErrorClass::Integrity,
            DeltaError::TargetLengthMismatch(_, _) => ErrorClass::Integrity,
            DeltaError::TargetHashMismatch(_, _) => ErrorClass::Integrity,
        }
    }
}

/// The wire encoding of one instruction: its tag, its 64-bit count, and for
/// a diff the payload bytes themselves.
pub open spec fn spec_serialize_op(op: OpModel) -> Seq<u8> {
    match op {
        OpModel::Skip(n) => seq![OP_SKIP] + spec_u64_to_le_bytes(n),
        OpModel::Diff(p) => seq![OP_DIFF] + spec_u64_to_le_bytes(p.len() as u64) + p,
        OpModel::Hole(n) => seq![OP_HOLE] + spec_u64_to_le_bytes(n),
    }
}

/// The wire encoding of a sequence of instructions, in order.
pub open spec fn spec_serialize_ops(ops: Seq<OpModel>) -> Seq<u8>
    decreases ops.len(),
{
    if ops.len() == 0 {
        Seq::empty()
    } else {
        spec_serialize_op(ops[0]) + spec_serialize_ops(ops.drop_first())
    }
}

/// The wire encoding of a whole delta stream, records in their fixed order.
pub open spec fn spec_serialize(d: DeltaModel) -> Seq<u8> {
    spec_magic() + seq![OP_VER, d.major, d.minor, d.patch_level] + seq![OP_LEN_A]
        + spec_u64_to_le_bytes(d.source_len) + seq![OP_HASH_A] + d.source_hash
        + spec_serialize_ops(d.ops) + seq![OP_LEN_B] + spec_u64_to_le_bytes(d.target_len)
        + seq![OP_HASH_B] + d.target_hash + seq![OP_END]
}

/// Appending one instruction to a sequence appends its encoding to the bytes.
pub proof fn lemma_serialize_ops_push(ops: Seq<OpModel>, op: OpModel)
    ensures
        spec_serialize_ops(ops.push(op)) == spec_serialize_ops(ops) + spec_serialize_op(op),
    decreases ops.len(),
{
    let s = ops.push(op);
    assert(s.len() == ops.len() + 1);
    assert(s[ops.len() as int] == op);
    if ops.len() == 0 {
        assert(s[0] == op);
        assert(s.drop_first() =~= Seq::empty());
        assert(spec_serialize_ops(s) == spec_serialize_op(s[0]) + spec_serialize_ops(
            s.drop_first()));
        assert(spec_serialize_ops(s) =~= spec_serialize_op(op));
        assert(spec_serialize_ops(ops) + spec_serialize_op(op) =~= spec_serialize_op(op));
    } else {
        assert(s[0] == ops[0]);
        assert(s.drop_first() =~= ops.drop_first().push(op));
        lemma_serialize_ops_push(ops.drop_first(), op);
        assert(spec_serialize_ops(s) == spec_serialize_op(ops[0]) + (spec_serialize_ops(
            ops.drop_first()) + spec_serialize_op(op)));
        assert(spec_serialize_ops(s) =~= spec_serialize_ops(ops) + spec_serialize_op(op));
    }
}

/// Appends the 8 little-endian bytes of `v` to `out`.
pub fn write_u64(out: &mut Vec<u8>, v: u64)
    ensures
        final(out)@ == old(out)@ + spec_u64_to_le_bytes(v),
{
    let b = u64tou8ale(v);
    out.push(b[0]);
    out.push(b[1]);
    out.push(b[2]);
    out.push(b[3]);
    out.push(b[4]);
    out.push(b[5]);
    out.push(b[6]);
    out.push(b[7]);
    proof {
        assert(out@ =~= old(out)@ + spec_u64_to_le_bytes(v));
    }
}

/// Serializes a delta stream into its wire bytes, records in their fixed order.
pub fn serialize_delta(d: &Delta) -> (out: Vec<u8>)
    ensures
        out@ == spec_serialize(d@),
{
    let mut out: Vec<u8> = Vec::new();
    // magic
    out.push(0x76);
    out.push(0x73);
    out.push(0x64);
    out.push(0x65);
    out.push(0x6c);
    out.push(0x74);
    out.push(0x61);
    // version record
    out.push(OP_VER);
    out.push(d.major);
    out.push(d.minor);
    out.push(d.patch_level);
    // declared source length and hash
    out.push(OP_LEN_A);
    write_u64(&mut out, d.source_len);
    out.push(OP_HASH_A);
    copy_data(&mut out, &d.source_hash, 0, d.source_hash.len());
    let ghost header = spec_magic() + seq![OP_VER, d.major, d.minor, d.patch_level]
        + seq![OP_LEN_A] + spec_u64_to_le_bytes(d.source_len) + seq![OP_HASH_A]
        + d.source_hash@;
    proof {
        assert(d.source_hash@.subrange(0, d.source_hash@.len() as int) =~= d.source_hash@);
        assert(out@ =~= header);
    }
    // operations
    let mut k: usize = 0;
    while k < d.ops.len()
        invariant
            0 <= k <= d.ops@.len(),
            out@ == header + spec_serialize_ops(vops(d.ops@.take(k as int))),
        decreases d.ops@.len() - k,
    {
        let ghost prev = vops(d.ops@.take(k as int));
        match &d.ops[k] {
            Op::Skip(n) => {
                out.push(OP_SKIP);
                write_u64(&mut out, *n);
            },
            Op::Diff(p) => {
                out.push(OP_DIFF);
                write_u64(&mut out, p.len() as u64);
                copy_data(&mut out, p, 0, p.len());
                proof {
                    assert(p@.subrange(0, p@.len() as int) =~= p@);
                }
            },
            Op::Hole(n) => {
                out.push(OP_HOLE);
                write_u64(&mut out, *n);
            },
        }
        proof {
            lemma_serialize_ops_push(prev, d.ops@[k as int]@);
            assert(vops(d.ops@.take(k + 1)) =~= prev.push(d.ops@[k as int]@));
            assert(out@ =~= header + spec_serialize_ops(vops(d.ops@.take(k + 1))));
        }
        k = k + 1;
    }
    proof {
        assert(d.ops@.take(d.ops@.len() as int) =~= d.ops@);
    }
    // declared target length and hash, then the end marker
    out.push(OP_LEN_B);
    write_u64(&mut out, d.target_len);
    out.push(OP_HASH_B);
    copy_data(&mut out, &d.target_hash, 0, d.target_hash.len());
    out.push(OP_END);
    proof {
        assert(d.target_hash@.subrange(0, d.target_hash@.len() as int) =~= d.target_hash@);
        assert(out@ =~= spec_serialize(d@));
    }
    out
}

/// Reads the operation records of a delta stream, starting at byte `i`.
/// Stops (without consuming it) at the tag of the declared target length,
/// and yields the parsed operations and the stop position.
pub open spec fn spec_parse_ops(data: Seq<u8>, i: int) -> Result<(Seq<OpModel>, int), ErrorModel>
    decreases data.len() - i,
{
    if i < 0 || i >= data.len() {
        Err(ErrorModel::Truncated)
    } else if data[i] == OP_LEN_B {
        Ok((Seq::empty(), i))
    } else if data[i] == OP_SKIP || data[i] == OP_HOLE {
        if i + 9 > data.len() {
            Err(ErrorModel::Truncated)
        } else {
            let n = spec_u64_from_le_bytes(data.subrange(i + 1, i + 9));
            let op = if data[i] == OP_SKIP {
                OpModel::Skip(n)
            } else {
                OpModel::Hole(n)
            };
            match spec_parse_ops(data, i + 9) {
                Ok(r) => Ok((seq![op] + r.0, r.1)),
                Err(e) => Err(e),
            }
        }
    } else if data[i] == OP_DIFF {
        if i + 9 > data.len() {
            Err(ErrorModel::Truncated)
        } else {
            let n = spec_u64_from_le_bytes(data.subrange(i + 1, i + 9));
            if i + 9 + n > data.len() {
                Err(ErrorModel::Truncated)
            } else {
                let p = data.subrange(i + 9, i + 9 + n);
                match spec_parse_ops(data, i + 9 + n) {
                    Ok(r) => Ok((seq![OpModel::Diff(p)] + r.0, r.1)),
                    Err(e) => Err(e),
                }
            }
        }
    } else {
        Err(ErrorModel::UnexpectedOpcode(data[i]))
    }
}

/// Reads a whole delta stream: magic, version record, declared source length
/// and hash, the operations, declared target length and hash, end marker.
/// Bytes after the end marker are ignored.
pub open spec fn spec_parse(data: Seq<u8>) -> Result<DeltaModel, ErrorModel> {
    if data.len() < 7 {
        Err(ErrorModel::Truncated)
    } else if data.subrange(0, 7) != spec_magic() {
        Err(ErrorModel::BadMagic)
    } else if data.len() < 8 {
        Err(ErrorModel::Truncated)
    } else if data[7] != OP_VER {
        Err(ErrorModel::UnexpectedOpcode(data[7]))
    } else if data.len() < 12 {
        Err(ErrorModel::Truncated)
    } else if data[11] != OP_LEN_A {
        Err(ErrorModel::UnexpectedOpcode(data[11]))
    } else if data.len() < 21 {
        Err(ErrorModel::Truncated)
    } else if data[20] != OP_HASH_A {
        Err(ErrorModel::UnexpectedOpcode(data[20]))
    } else if data.len() < 53 {
        Err(ErrorModel::Truncated)
    } else {
        match spec_parse_ops(data, 53) {
            Err(e) => Err(e),
            Ok(r) => {
                let j = r.1;
                if j + 10 > data.len() {
                    Err(ErrorModel::Truncated)
                } else if data[j + 9] != OP_HASH_B {
                    Err(ErrorModel::UnexpectedOpcode(data[j + 9]))
                } else if j + 43 > data.len() {
                    Err(ErrorModel::Truncated)
                } else if data[j + 42] != OP_END {
                    Err(ErrorModel::UnexpectedOpcode(data[j + 42]))
                } else {
                    Ok(DeltaModel {
                        major: data[8],
                        minor: data[9],
                        patch_level: data[10],
                        source_len: spec_u64_from_le_bytes(data.subrange(12, 20)),
                        source_hash: data.subrange(21, 53),
                        ops: r.0,
                        target_len: spec_u64_from_le_bytes(data.subrange(j + 1, j + 9)),
                        target_hash: data.subrange(j + 10, j + 42),
                    })
                }
            },
        }
    }
}

/// Reading encoded operations back from a stream yields the operations that
/// were written, stopping at the target-length tag that follows them.
pub proof fn lemma_parse_ops_serialize(data: Seq<u8>, i: int, ops: Seq<OpModel>)
    requires
        ops_wf(ops),
        0 <= i,
        i + spec_serialize_ops(ops).len() < data.len(),
        data.subrange(i, i + spec_serialize_ops(ops).len() as int) == spec_serialize_ops(ops),
        data[i + spec_serialize_ops(ops).len()] == OP_LEN_B,
    ensures
        spec_parse_ops(data, i) == Ok::<(Seq<OpModel>, int), ErrorModel>(
            (ops, i + spec_serialize_ops(ops).len()),
        ),
    decreases ops.len(),
{
    lemma_auto_spec_u64_to_from_le_bytes();
    let ser = spec_serialize_ops(ops);
    assert(forall|k: int| 0 <= k < ser.len() ==> data[i + k] == #[trigger] ser[k]) by {
        assert(forall|k: int|
            0 <= k < ser.len() ==> #[trigger] ser[k] == data.subrange(
                i,
                i + ser.len() as int,
            )[k]);
    }
    if ops.len() == 0 {
        assert(data[i] == OP_LEN_B);
        assert(ops =~= Seq::<OpModel>::empty());
    } else {
        let op = ops[0];
        let rest = ops.drop_first();
        let so = spec_serialize_op(op);
        let sr = spec_serialize_ops(rest);
        assert(ser == so + sr);
        assert(forall|k: int| 0 <= k < so.len() ==> (so + sr)[k] == #[trigger] so[k]);
        assert(forall|k: int| 0 <= k < sr.len() ==> (so + sr)[so.len() + k] == #[trigger] sr[k]);
        let base = match op {
            OpModel::Skip(n) => 9,
            OpModel::Hole(n) => 9,
            OpModel::Diff(p) => 9 + p.len() as int,
        };
        assert(so.len() == base);
        // the count operand encodes the operation's count
        let cnt: u64 = match op {
            OpModel::Skip(n) => n,
            OpModel::Hole(n) => n,
            OpModel::Diff(p) => p.len() as u64,
        };
        assert(data[i] == ser[0]);
        assert(ser[0] == so[0]);
        assert forall|k: int| 0 <= k < 8 implies data[i + 1 + k] == spec_u64_to_le_bytes(cnt)[k] by {
            assert(data[i + 1 + k] == ser[1 + k]);
            assert(ser[1 + k] == so[1 + k]);
            match op {
                OpModel::Diff(p) => {
                    assert(so[1 + k] == (seq![OP_DIFF] + spec_u64_to_le_bytes(cnt))[1 + k]);
                },
                _ => {},
            }
            assert(so[1 + k] == spec_u64_to_le_bytes(cnt)[k]);
        }
        assert(data.subrange(i + 1, i + 9) =~= spec_u64_to_le_bytes(cnt));
        assert(spec_u64_from_le_bytes(data.subrange(i + 1, i + 9)) == cnt);
        match op {
            OpModel::Diff(p) => {
                assert(op_wf(op));
                assert(p.len() <= u64::MAX);
                assert(cnt as int == p.len());
                assert forall|k: int| 0 <= k < p.len() implies data[i + 9 + k] == p[k] by {
                    assert(data[i + 9 + k] == ser[9 + k]);
                    assert(ser[9 + k] == so[9 + k]);
                    assert(so[9 + k] == p[k]);
                }
                assert(data.subrange(i + 9, i + 9 + cnt) =~= p);
            },
            _ => {},
        }
        // the remaining operations stand encoded right after this one
        assert forall|k: int| 0 <= k < sr.len() implies data[i + base + k] == sr[k] by {
            assert(data[i + base + k] == ser[base + k]);
            assert(ser[base + k] == sr[k]);
        }
        assert(data.subrange(i + base, i + base + sr.len() as int) =~= sr);
        assert(ops_wf(rest)) by {
            assert(forall|k: int| 0 <= k < rest.len() ==> #[trigger] rest[k] == ops[k + 1]);
        }
        lemma_parse_ops_serialize(data, i + base, rest);
        assert(seq![op] + rest =~= ops);
    }
}

/// Parsing the serialization of a well-formed delta stream gives it back.
pub proof fn lemma_parse_serialize(d: DeltaModel)
    requires
        d.wf(),
    ensures
        spec_parse(spec_serialize(d)) == Ok::<DeltaModel, ErrorModel>(d),
{
    lemma_auto_spec_u64_to_from_le_bytes();
    let data = spec_serialize(d);
    let m = spec_magic();
    let head = m + seq![OP_VER, d.major, d.minor, d.patch_level] + seq![OP_LEN_A]
        + spec_u64_to_le_bytes(d.source_len) + seq![OP_HASH_A] + d.source_hash;
    let so = spec_serialize_ops(d.ops);
    let tail = seq![OP_LEN_B] + spec_u64_to_le_bytes(d.target_len) + seq![OP_HASH_B]
        + d.target_hash + seq![OP_END];
    assert(head.len() == 53);
    assert(tail.len() == 43);
    assert(data =~= head + so + tail);
    assert(data.len() == 53 + so.len() + 43);
    assert(forall|k: int| 0 <= k < head.len() ==> data[k] == #[trigger] head[k]);
    assert(forall|k: int| 0 <= k < so.len() ==> data[53 + k] == #[trigger] so[k]);
    assert(forall|k: int| 0 <= k < tail.len() ==> data[53 + so.len() + k] == #[trigger] tail[k]);
    // the header records
    assert(data.subrange(0, 7) =~= m);
    assert(data[7] == OP_VER && data[8] == d.major && data[9] == d.minor && data[10]
        == d.patch_level);
    assert(data[11] == OP_LEN_A);
    assert(data.subrange(12, 20) =~= spec_u64_to_le_bytes(d.source_len));
    assert(data[20] == OP_HASH_A);
    assert(data.subrange(21, 53) =~= d.source_hash);
    // the operations
    let j = 53 + so.len() as int;
    assert(data.subrange(53, j) =~= so);
    assert(data[j] == tail[0]);
    lemma_parse_ops_serialize(data, 53, d.ops);
    // the trailer records
    assert(data.subrange(j + 1, j + 9) =~= spec_u64_to_le_bytes(d.target_len));
    assert(data[j + 9] == OP_HASH_B);
    assert(data.subrange(j + 10, j + 42) =~= d.target_hash);
    assert(data[j + 42] == OP_END);
    assert(spec_parse(data) matches Ok(p) && p =~= d);
}

/// A failure of the operation reader is always a truncation or an unexpected
/// tag.
pub proof fn lemma_parse_ops_err_kind(data: Seq<u8>, i: int)
    ensures
        spec_parse_ops(data, i) matches Err(e) ==> (e is Truncated || e is UnexpectedOpcode),
    decreases data.len() - i,
{
    if 0 <= i && i < data.len() {
        if data[i] == OP_SKIP || data[i] == OP_HOLE {
            if i + 9 <= data.len() {
                lemma_parse_ops_err_kind(data, i + 9);
            }
        } else if data[i] == OP_DIFF {
            if i + 9 <= data.len() {
                let n = spec_u64_from_le_bytes(data.subrange(i + 1, i + 9));
                if i + 9 + n <= data.len() {
                    lemma_parse_ops_err_kind(data, i + 9 + n);
                }
            }
        }
    }
}

/// A failure of the stream reader is always a violation of the byte format:
/// a truncation, a bad magic, or an unexpected tag.
pub proof fn lemma_parse_err_kind(data: Seq<u8>)
    ensures
        spec_parse(data) matches Err(e) ==> (e is Truncated || e is BadMagic
            || e is UnexpectedOpcode),
{
    lemma_parse_ops_err_kind(data, 53);
}

/// The operations still to be read at `i`, appended to those already read.
pub open spec fn parse_ops_cont(data: Seq<u8>, i: int, acc: Seq<OpModel>) -> Result<
    (Seq<OpModel>, int),
    ErrorModel,
> {
    match spec_parse_ops(data, i) {
        Ok(r) => Ok((acc + r.0, r.1)),
        Err(e) => Err(e),
    }
}

/// Reads the 8 little-endian bytes at `i` as a `u64`.
pub fn read_u64_at(data: &Vec<u8>, i: usize) -> (r: u64)
    requires
        i + 8 <= data@.len(),
    ensures
        r == spec_u64_from_le_bytes(data@.subrange(i as int, i + 8)),
{
    let n = data.len();
    proof {
        // n bounds i + 8 within usize
        assert(i + 8 <= n);
    }
    let s = slice_subrange(data.as_slice(), i, i + 8);
    u64_from_le_bytes(s)
}

/// Deserializes a delta stream from its wire bytes, reporting exactly how a
/// malformed stream fails: truncation, a bad magic, or an unexpected tag.
pub fn parse_delta(data: &Vec<u8>) -> (r: Result<Delta, DeltaError>)
    ensures
        match r {
            Ok(d) => spec_parse(data@) == Ok::<DeltaModel, ErrorModel>(d@),
            Err(e) => spec_parse(data@) == Err::<DeltaModel, ErrorModel>(e@),
        },
{
    let n = data.len();
    if n < 7 {
        return Err(DeltaError::Truncated);
    }
    if data[0] != 0x76 || data[1] != 0x73 || data[2] != 0x64 || data[3] != 0x65 || data[4] != 0x6c
        || data[5] != 0x74 || data[6] != 0x61 {
        proof {
            assert(data@.subrange(0, 7) != spec_magic()) by {
                if data@.subrange(0, 7) == spec_magic() {
                    assert(forall|k: int| 0 <= k < 7 ==> data@[k] == #[trigger] spec_magic()[k]);
                }
            }
        }
        return Err(DeltaError::BadMagic);
    }
    proof {
        assert(data@.subrange(0, 7) =~= spec_magic());
    }
    if n < 8 {
        return Err(DeltaError::Truncated);
    }
    if data[7] != OP_VER {
        return Err(DeltaError::UnexpectedOpcode(data[7]));
    }
    if n < 12 {
        return Err(DeltaError::Truncated);
    }
    if data[11] != OP_LEN_A {
        return Err(DeltaError::UnexpectedOpcode(data[11]));
    }
    if n < 21 {
        return Err(DeltaError::Truncated);
    }
    if data[20] != OP_HASH_A {
        return Err(DeltaError::UnexpectedOpcode(data[20]));
    }
    if n < 53 {
        return Err(DeltaError::Truncated);
    }
    let major = data[8];
    let minor = data[9];
    let patch_level = data[10];
    let source_len = read_u64_at(data, 12);
    let mut source_hash: Vec<u8> = Vec::new();
    copy_data(&mut source_hash, data, 21, 32);

    let mut i: usize = 53;
    let mut ops: Vec<Op> = Vec::new();
    loop
        invariant_except_break
            53 <= i <= n,
            n == data@.len(),
            data@.subrange(0, 7) == spec_magic(),
            data@[7] == OP_VER,
            data@[11] == OP_LEN_A,
            data@[20] == OP_HASH_A,
            parse_ops_cont(data@, i as int, vops(ops@)) == spec_parse_ops(data@, 53),
        ensures
            53 <= i < n,
            n == data@.len(),
            data@.subrange(0, 7) == spec_magic(),
            data@[7] == OP_VER,
            data@[11] == OP_LEN_A,
            data@[20] == OP_HASH_A,
            data@[i as int] == OP_LEN_B,
            spec_parse_ops(data@, 53) == Ok::<(Seq<OpModel>, int), ErrorModel>(
                (vops(ops@), i as int),
            ),
        decreases n - i,
    {
        if i >= n {
            proof {
                assert(spec_parse_ops(data@, i as int) == Err::<(Seq<OpModel>, int), ErrorModel>(
                    ErrorModel::Truncated,
                ));
            }
            return Err(DeltaError::Truncated);
        }
        let tag = data[i];
        if tag == OP_LEN_B {
            proof {
                assert(spec_parse_ops(data@, i as int) == Ok::<_, ErrorModel>(
                    (Seq::<OpModel>::empty(), i as int),
                ));
                assert(vops(ops@) + Seq::<OpModel>::empty() =~= vops(ops@));
            }
            break;
        } else if tag == OP_SKIP || tag == OP_HOLE {
            if n - i < 9 {
                return Err(DeltaError::Truncated);
            }
            let count = read_u64_at(data, i + 1);
            let ghost prev = vops(ops@);
            if tag == OP_SKIP {
                ops.push(Op::Skip(count));
            } else {
                ops.push(Op::Hole(count));
            }
            proof {
                let opm = ops@[ops@.len() - 1]@;
                assert(vops(ops@) =~= prev.push(opm));
                match spec_parse_ops(data@, i + 9) {
                    Ok(r) => {
                        assert(prev + (seq![opm] + r.0) =~= prev.push(opm) + r.0);
                    },
                    Err(_) => {},
                }
            }
            i = i + 9;
        } else if tag == OP_DIFF {
            if n - i < 9 {
                return Err(DeltaError::Truncated);
            }
            let count = read_u64_at(data, i + 1);
            if count > (n - (i + 9)) as u64 {
                return Err(DeltaError::Truncated);
            }
            let c = count as usize;
            let mut p: Vec<u8> = Vec::new();
            copy_data(&mut p, data, i + 9, c);
            let ghost prev = vops(ops@);
            ops.push(Op::Diff(p));
            proof {
                let opm = ops@[ops@.len() - 1]@;
                assert(opm == OpModel::Diff(data@.subrange(i + 9, i + 9 + count)));
                assert(vops(ops@) =~= prev.push(opm));
                match spec_parse_ops(data@, i + 9 + count) {
                    Ok(r) => {
                        assert(prev + (seq![opm] + r.0) =~= prev.push(opm) + r.0);
                    },
                    Err(_) => {},
                }
            }
            i = i + 9 + c;
        } else {
            return Err(DeltaError::UnexpectedOpcode(tag));
        }
    }

    if n - i < 10 {
        return Err(DeltaError::Truncated);
    }
    let target_len = read_u64_at(data, i + 1);
    if data[i + 9] != OP_HASH_B {
        return Err(DeltaError::UnexpectedOpcode(data[i + 9]));
    }
    if n - i < 43 {
        return Err(DeltaError::Truncated);
    }
    let mut target_hash: Vec<u8> = Vec::new();
    copy_data(&mut target_hash, data, i + 10, 32);
    if data[i + 42] != OP_END {
        return Err(DeltaError::UnexpectedOpcode(data[i + 42]));
    }
    let d = Delta {
        major,
        minor,
        patch_level,
        source_len,
        source_hash,
        ops,
        target_len,
        target_hash,
    };
    proof {
        let parsed = spec_parse(data@);
        assert(parsed matches Ok(_));
        assert(parsed->Ok_0 =~= d@);
    }
    Ok(d)
}

} // verus!
