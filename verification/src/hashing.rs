//! Structural hashing for proof trees: a 64-bit FNV-1a hash over a byte
//! encoding of a node description, computed by the `fnv` crate and specified
//! exactly by [`fnv1a_seq`].

use vstd::prelude::*;

verus! {

/// The FNV-1a offset basis for 64-bit hashes.
pub const FNV_OFFSET_BASIS: u64 = 0xcbf29ce484222325;

/// The FNV prime for 64-bit hashes.
pub const FNV_PRIME: u64 = 0x100000001b3;

/// `x` reduced to a 64-bit value, as a wrapping multiply would leave it.
pub open spec fn wrap64(x: int) -> u64 {
    (x % 0x1_0000_0000_0000_0000) as u64
}

/// The 64-bit FNV-1a hash of a byte sequence: starting from the offset
/// basis, each byte is folded in by xor followed by a wrapping multiply
/// with the FNV prime.
pub open spec fn fnv1a_seq(s: Seq<u8>) -> u64
    decreases s.len(),
{
    if s.len() == 0 {
        FNV_OFFSET_BASIS
    } else {
        wrap64((fnv1a_seq(s.drop_last()) ^ (s.last() as u64)) as int * FNV_PRIME as int)
    }
}

/// Relies on `fnv::FnvHasher` (`Hasher::write`, then `Hasher::finish`):
/// it returns the 64-bit FNV-1a hash of the bytes written, folding each
/// byte in with xor and a wrapping multiply by the FNV prime, starting
/// from the FNV offset basis.
#[verifier::external_body]
pub fn fnv1a_bytes(bytes: &Vec<u8>) -> (r: u64)
    ensures
        r == fnv1a_seq(bytes@),
{
    let mut hasher = fnv::FnvHasher::default();
    std::hash::Hasher::write(&mut hasher, bytes.as_slice());
    std::hash::Hasher::finish(&hasher)
}

/// The eight bytes of `w`, least significant first.
pub open spec fn le_bytes(w: u64) -> Seq<u8> {
    seq![
        (w & 0xff) as u8,
        ((w >> 8) & 0xff) as u8,
        ((w >> 16) & 0xff) as u8,
        ((w >> 24) & 0xff) as u8,
        ((w >> 32) & 0xff) as u8,
        ((w >> 40) & 0xff) as u8,
        ((w >> 48) & 0xff) as u8,
        ((w >> 56) & 0xff) as u8,
    ]
}

/// The byte encoding of a sequence of 64-bit words, each in
/// least-significant-first order.
pub open spec fn words_bytes(ws: Seq<u64>) -> Seq<u8>
    decreases ws.len(),
{
    if ws.len() == 0 {
        Seq::empty()
    } else {
        words_bytes(ws.drop_last()) + le_bytes(ws.last())
    }
}

/// The low byte of `w`.
fn low_byte(w: u64) -> (r: u8)
    ensures
        r == (w & 0xff) as u8,
{
    assert((w & 0xff) < 256) by (bit_vector);
    (w & 0xff) as u8
}

/// Appends the eight bytes of `w` to `out`, least significant first.
pub fn push_le_bytes(out: &mut Vec<u8>, w: u64)
    ensures
        final(out)@ == old(out)@ + le_bytes(w),
{
    out.push(low_byte(w));
    out.push(low_byte(w >> 8));
    out.push(low_byte(w >> 16));
    out.push(low_byte(w >> 24));
    out.push(low_byte(w >> 32));
    out.push(low_byte(w >> 40));
    out.push(low_byte(w >> 48));
    out.push(low_byte(w >> 56));
    assert(out@ =~= old(out)@ + le_bytes(w));
}

} // verus!
