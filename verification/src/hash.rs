//! Whole-buffer content hashing: streams the input through an incremental
//! 256-bit cryptographic hash in fixed-size blocks plus a final partial block.

use vstd::prelude::*;
use vstd::slice::slice_subrange;

verus! {

/// Size of one hashing block.
pub const BIGCHUNKSIZE: usize = 4096;

#[verifier::external_type_specification]
#[verifier::external_body]
pub struct ExHasher(blake3::Hasher);

/// The bytes that an incremental hash state has accumulated so far.
pub uninterp spec fn hasher_data(h: blake3::Hasher) -> Seq<u8>;

/// The 256-bit content digest of a byte string, as the hash engine computes it.
pub uninterp spec fn hash_of(data: Seq<u8>) -> Seq<u8>;

/// Relies on blake3::Hasher::new: a fresh hash state has accumulated no input.
#[verifier::external_body]
fn hasher_new() -> (h: blake3::Hasher)
    ensures
        hasher_data(h) == Seq::<u8>::empty(),
{
    blake3::Hasher::new()
}

/// Relies on blake3::Hasher::update: it appends the given bytes to the
/// accumulated input and does nothing else to the state.
#[verifier::external_body]
fn hasher_update(h: &mut blake3::Hasher, data: &[u8])
    ensures
        hasher_data(*final(h)) == hasher_data(*old(h)) + data@,
{
    h.update(data);
}

/// Relies on blake3::Hasher::finalize and blake3::Hash::as_bytes: for a state
/// built by Hasher::new and update (the only way this crate builds one), the
/// digest is 32 bytes and depends on the accumulated input bytes alone,
/// exactly as the one-shot hash of the same bytes.
#[verifier::external_body]
fn hasher_finalize(h: &blake3::Hasher) -> (r: Vec<u8>)
    ensures
        r@ == hash_of(hasher_data(*h)),
        r@.len() == 32,
{
    h.finalize().as_bytes().to_vec()
}

/// Computes the 256-bit content digest of `data`, feeding the hash engine
/// one fixed-size block at a time and then the final partial block.
pub fn hash_file(data: &Vec<u8>) -> (r: Vec<u8>)
    ensures
        r@ == hash_of(data@),
        r@.len() == 32,
{
    let mut h = hasher_new();
    let n = data.len();
    let mut pos: usize = 0;
    proof {
        assert(hasher_data(h) =~= data@.subrange(0, 0));
    }
    while n - pos >= BIGCHUNKSIZE
        invariant
            0 <= pos <= n,
            n == data@.len(),
            hasher_data(h) == data@.subrange(0, pos as int),
        decreases n - pos,
    {
        let block = slice_subrange(data.as_slice(), pos, pos + BIGCHUNKSIZE);
        hasher_update(&mut h, block);
        proof {
            assert(hasher_data(h) =~= data@.subrange(0, pos + BIGCHUNKSIZE));
        }
        pos = pos + BIGCHUNKSIZE;
    }
    let tail = slice_subrange(data.as_slice(), pos, n);
    hasher_update(&mut h, tail);
    proof {
        assert(hasher_data(h) =~= data@);
    }
    hasher_finalize(&h)
}

} // verus!
