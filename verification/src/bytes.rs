//! Byte-level helpers: little-endian 64-bit encoding, zero tests, and
//! range copies between byte vectors.

use vstd::prelude::*;
use vstd::bytes::{
    spec_u64_to_le_bytes, spec_u64_from_le_bytes, spec_u64_to_le_bytes_open,
    spec_u64_to_le_bytes_to_open, lemma_auto_spec_u64_to_from_le_bytes,
};

verus! {

/// Encodes `v` as 8 little-endian bytes.
pub fn u64tou8ale(v: u64) -> (r: [u8; 8])
    ensures
        r@ == spec_u64_to_le_bytes(v),
{
    let r: [u8; 8] = [
        v as u8,
        (v >> 8) as u8,
        (v >> 16) as u8,
        (v >> 24) as u8,
        (v >> 32) as u8,
        (v >> 40) as u8,
        (v >> 48) as u8,
        (v >> 56) as u8,
    ];
    proof {
        spec_u64_to_le_bytes_to_open(v);
        assert(v as u8 == (v & 0xff) as u8) by (bit_vector);
        assert((v >> 8) as u8 == ((v >> 8) & 0xff) as u8) by (bit_vector);
        assert((v >> 16) as u8 == ((v >> 16) & 0xff) as u8) by (bit_vector);
        assert((v >> 24) as u8 == ((v >> 24) & 0xff) as u8) by (bit_vector);
        assert((v >> 32) as u8 == ((v >> 32) & 0xff) as u8) by (bit_vector);
        assert((v >> 40) as u8 == ((v >> 40) & 0xff) as u8) by (bit_vector);
        assert((v >> 48) as u8 == ((v >> 48) & 0xff) as u8) by (bit_vector);
        assert((v >> 56) as u8 == ((v >> 56) & 0xff) as u8) by (bit_vector);
        assert(r@ =~= spec_u64_to_le_bytes_open(v));
    }
    r
}

/// Decodes 8 little-endian bytes into a `u64`.
pub fn u8aletou64(b: [u8; 8]) -> (r: u64)
    ensures
        r == spec_u64_from_le_bytes(b@),
{
    let r = (b[0] as u64)
        | ((b[1] as u64) << 8)
        | ((b[2] as u64) << 16)
        | ((b[3] as u64) << 24)
        | ((b[4] as u64) << 32)
        | ((b[5] as u64) << 40)
        | ((b[6] as u64) << 48)
        | ((b[7] as u64) << 56);
    proof {
        lemma_auto_spec_u64_to_from_le_bytes();
        spec_u64_to_le_bytes_to_open(r);
        let b0 = b@[0];
        let b1 = b@[1];
        let b2 = b@[2];
        let b3 = b@[3];
        let b4 = b@[4];
        let b5 = b@[5];
        let b6 = b@[6];
        let b7 = b@[7];
        assert((r & 0xff) as u8 == b0
            && ((r >> 8) & 0xff) as u8 == b1
            && ((r >> 16) & 0xff) as u8 == b2
            && ((r >> 24) & 0xff) as u8 == b3
            && ((r >> 32) & 0xff) as u8 == b4
            && ((r >> 40) & 0xff) as u8 == b5
            && ((r >> 48) & 0xff) as u8 == b6
            && ((r >> 56) & 0xff) as u8 == b7) by (bit_vector)
            requires
                r == (b0 as u64)
                    | ((b1 as u64) << 8)
                    | ((b2 as u64) << 16)
                    | ((b3 as u64) << 24)
                    | ((b4 as u64) << 32)
                    | ((b5 as u64) << 40)
                    | ((b6 as u64) << 48)
                    | ((b7 as u64) << 56),
        ;
        assert(spec_u64_to_le_bytes_open(r) =~= b@);
        // b@ equals the encoding of r, so decoding b@ gives back r.
        assert(spec_u64_from_le_bytes(spec_u64_to_le_bytes(r)) == r);
    }
    r
}

/// True exactly when every byte of `buf` is zero.
pub fn is_zero(buf: &Vec<u8>) -> (r: bool)
    ensures
        r == all_zero(buf@),
{
    let mut k: usize = 0;
    while k < buf.len()
        invariant
            0 <= k <= buf@.len(),
            forall|i: int| 0 <= i < k ==> buf@[i] == 0,
        decreases buf@.len() - k,
    {
        if buf[k] != 0 {
            return false;
        }
        k = k + 1;
    }
    true
}

/// Every byte of `s` is zero.
pub open spec fn all_zero(s: Seq<u8>) -> bool {
    forall|i: int| 0 <= i < s.len() ==> s[i] == 0
}

/// A run of `n` zero bytes.
pub open spec fn zero_bytes(n: nat) -> Seq<u8> {
    Seq::new(n, |i: int| 0u8)
}

/// Appends `src[start..start + count]` to `dst`.
pub fn copy_data(dst: &mut Vec<u8>, src: &Vec<u8>, start: usize, count: usize)
    requires
        start + count <= src@.len(),
    ensures
        final(dst)@ == old(dst)@ + src@.subrange(start as int, start + count),
{
    let n = src.len();
    let mut k: usize = 0;
    while k < count
        invariant
            0 <= k <= count,
            start + count <= n,
            n == src@.len(),
            dst@ == old(dst)@ + src@.subrange(start as int, start + k),
        decreases count - k,
    {
        dst.push(src[start + k]);
        proof {
            assert(dst@ =~= old(dst)@ + src@.subrange(start as int, start + k + 1));
        }
        k = k + 1;
    }
    proof {
        assert(dst@ =~= old(dst)@ + src@.subrange(start as int, start + count));
    }
}

/// Appends `n` zero bytes to `dst`.
pub fn push_zeros(dst: &mut Vec<u8>, n: u64)
    ensures
        final(dst)@ == old(dst)@ + zero_bytes(n as nat),
{
    let mut k: u64 = 0;
    while k < n
        invariant
            0 <= k <= n,
            dst@ == old(dst)@ + zero_bytes(k as nat),
        decreases n - k,
    {
        dst.push(0u8);
        proof {
            assert(dst@ =~= old(dst)@ + zero_bytes((k + 1) as nat));
        }
        k = k + 1;
    }
}

/// True exactly when the two byte vectors hold the same bytes.
pub fn bytes_eq(a: &Vec<u8>, b: &Vec<u8>) -> (r: bool)
    ensures
        r == (a@ == b@),
{
    if a.len() != b.len() {
        proof {
            assert(a@.len() != b@.len());
        }
        return false;
    }
    let mut k: usize = 0;
    while k < a.len()
        invariant
            0 <= k <= a@.len(),
            a@.len() == b@.len(),
            forall|i: int| 0 <= i < k ==> a@[i] == b@[i],
        decreases a@.len() - k,
    {
        if a[k] != b[k] {
            return false;
        }
        k = k + 1;
    }
    proof {
        assert(a@ =~= b@);
    }
    true
}

/// True exactly when `a[start..start + len]` equals `b[start..start + len]`.
pub fn range_eq(a: &Vec<u8>, b: &Vec<u8>, start: usize, len: usize) -> (r: bool)
    requires
        start + len <= a@.len(),
        start + len <= b@.len(),
    ensures
        r == (a@.subrange(start as int, start + len) == b@.subrange(start as int, start + len)),
{
    let na = a.len();
    let nb = b.len();
    let mut k: usize = 0;
    while k < len
        invariant
            0 <= k <= len,
            start + len <= na,
            start + len <= nb,
            na == a@.len(),
            nb == b@.len(),
            forall|i: int| start <= i < start + k ==> a@[i] == b@[i],
        decreases len - k,
    {
        if a[start + k] != b[start + k] {
            proof {
                let sa = a@.subrange(start as int, start + len);
                let sb = b@.subrange(start as int, start + len);
                assert(sa[k as int] != sb[k as int]);
            }
            return false;
        }
        k = k + 1;
    }
    proof {
        assert(a@.subrange(start as int, start + len) =~= b@.subrange(start as int, start + len));
    }
    true
}

} // verus!
