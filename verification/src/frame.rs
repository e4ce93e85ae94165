//! Frames and the Hamming metric on their perceptual hash codes.

use vstd::prelude::*;

verus! {

/// A single video frame: its perceptual hash code and its zero-based
/// position (in decode order) within its source sequence.
#[derive(Clone, Copy, Debug, PartialEq, Eq, Structural)]
pub struct Frame {
    pub hash: u128,
    pub idx: u64,
}

/// Number of set bits in `x`.
pub open spec fn popcount(x: u128) -> nat
    decreases x,
{
    if x == 0 {
        0
    } else {
        (x % 2) as nat + popcount(x / 2)
    }
}

/// The distance between two frames: the Hamming distance of their hash
/// codes, i.e. the number of bits on which the codes differ.
pub open spec fn hamming_dist(a: Frame, b: Frame) -> nat {
    popcount(a.hash ^ b.hash)
}

/// 2^k, used to bound how many bits a hash code can set.
pub open spec fn two_pow(k: nat) -> nat
    decreases k,
{
    if k == 0 {
        1
    } else {
        2 * two_pow((k - 1) as nat)
    }
}

proof fn lemma_popcount_le(x: u128, k: nat)
    requires
        x < two_pow(k),
    ensures
        popcount(x) <= k,
    decreases k,
{
    if x != 0 {
        assert(two_pow(0) == 1);
        assert(k > 0);
        assert(x < 2 * two_pow((k - 1) as nat));
        assert(x / 2 < two_pow((k - 1) as nat));
        lemma_popcount_le(x / 2, (k - 1) as nat);
    }
}

proof fn lemma_two_pow_adds(a: nat, b: nat)
    ensures
        two_pow(a + b) == two_pow(a) * two_pow(b),
    decreases a,
{
    if a == 0 {
        assert(two_pow(0) == 1);
    } else {
        lemma_two_pow_adds((a - 1) as nat, b);
        assert(two_pow(a + b) == 2 * two_pow((a - 1) as nat + b));
        assert(two_pow(a) == 2 * two_pow((a - 1) as nat));
        assert(2 * (two_pow((a - 1) as nat) * two_pow(b)) == (2 * two_pow((a - 1) as nat))
            * two_pow(b)) by (nonlinear_arith);
    }
}

/// A 128-bit code has at most 128 set bits.
pub proof fn lemma_popcount_u128(x: u128)
    ensures
        popcount(x) <= 128,
{
    assert(two_pow(0) == 1);
    assert(two_pow(1) == 2);
    assert(two_pow(2) == 4);
    assert(two_pow(3) == 8);
    assert(two_pow(4) == 16);
    lemma_two_pow_adds(4, 4);
    assert(two_pow(8) == 256);
    lemma_two_pow_adds(8, 8);
    assert(two_pow(16) == 0x10000);
    lemma_two_pow_adds(16, 16);
    assert(two_pow(32) == 0x100000000);
    lemma_two_pow_adds(32, 32);
    assert(two_pow(64) == 0x10000000000000000);
    lemma_two_pow_adds(64, 64);
    assert(two_pow(128) == 0x100000000000000000000000000000000nat);
    lemma_popcount_le(x, 128);
}

/// Hamming distance is never negative.
pub proof fn lemma_distance_nonneg(a: Frame, b: Frame)
    ensures
        hamming_dist(a, b) >= 0,
{
}

proof fn lemma_popcount_zero(x: u128)
    ensures
        popcount(x) == 0 <==> x == 0,
    decreases x,
{
    if x != 0 && x % 2 == 0 {
        lemma_popcount_zero(x / 2);
    }
}

/// Identity of indiscernibles on hash codes: the distance between two
/// frames is zero exactly when their hash codes are equal. In particular
/// `hamming_dist(a, a) == 0`.
pub proof fn lemma_distance_zero(a: Frame, b: Frame)
    ensures
        hamming_dist(a, b) == 0 <==> a.hash == b.hash,
        hamming_dist(a, a) == 0,
{
    let ha = a.hash;
    let hb = b.hash;
    assert(ha ^ hb == 0 <==> ha == hb) by (bit_vector);
    lemma_popcount_zero(a.hash ^ b.hash);
    assert(ha ^ ha == 0) by (bit_vector);
    lemma_popcount_zero(a.hash ^ a.hash);
}

/// The Hamming distance is symmetric.
pub proof fn lemma_distance_symmetric(a: Frame, b: Frame)
    ensures
        hamming_dist(a, b) == hamming_dist(b, a),
{
    let ha = a.hash;
    let hb = b.hash;
    assert(ha ^ hb == hb ^ ha) by (bit_vector);
}

proof fn lemma_popcount_xor_le(x: u128, y: u128)
    ensures
        popcount(x ^ y) <= popcount(x) + popcount(y),
    decreases x, y,
{
    if x == 0 {
        assert(x ^ y == y) by (bit_vector)
            requires
                x == 0,
        ;
    } else {
        assert((x ^ y) / 2 == (x / 2) ^ (y / 2)) by (bit_vector);
        assert((x ^ y) % 2 <= (x % 2) + (y % 2)) by (bit_vector);
        lemma_popcount_xor_le(x / 2, y / 2);
    }
}

/// The triangle inequality for the Hamming distance; this is what lets a
/// BK-tree prune subtrees without losing within-radius candidates.
pub proof fn lemma_distance_triangle(a: Frame, b: Frame, c: Frame)
    ensures
        hamming_dist(a, c) <= hamming_dist(a, b) + hamming_dist(b, c),
{
    let ha = a.hash;
    let hb = b.hash;
    let hc = c.hash;
    assert(ha ^ hc == (ha ^ hb) ^ (hb ^ hc)) by (bit_vector);
    lemma_popcount_xor_le(ha ^ hb, hb ^ hc);
}

/// Hamming distance between the hash codes of `a` and `b`, as a machine
/// integer.
pub fn distance(a: &Frame, b: &Frame) -> (r: u32)
    ensures
        r as nat == hamming_dist(*a, *b),
        r <= 128,
{
    let mut x: u128 = a.hash ^ b.hash;
    let ghost x0 = x;
    proof {
        lemma_popcount_u128(x);
    }
    let mut count: u32 = 0;
    while x != 0
        invariant
            count as nat + popcount(x) == popcount(x0),
            popcount(x0) <= 128,
        decreases x,
    {
        count = count + (x % 2) as u32;
        x = x / 2;
    }
    count
}

/// Every frame's index is its position in the sequence: the decode-order
/// invariant that frame construction establishes and matching relies on.
pub open spec fn indexed(frames: Seq<Frame>) -> bool {
    forall|i: int| 0 <= i < frames.len() ==> (#[trigger] frames[i]).idx == i
}

/// Size in bytes of one raw frame buffer handed to the hash function:
/// 16 rows of 18 pixels, 3 channels each.
pub const FRAME_BUFFER_BYTES: usize = 16 * 18 * 3;

/// The perceptual hash code of a raw pixel buffer. Deterministic in the
/// pixel bytes alone; which code a buffer maps to is left to the hash
/// implementation.
pub uninterp spec fn hash_of(pixels: Seq<u8>) -> u128;

/// Relies on img_hash's Hasher::hash_image (DoubleGradient algorithm,
/// 16-byte codes, DCT preprocessing) over an 18x16 RGB image built by
/// image's RgbImage::from_raw: the code it computes is a deterministic
/// function of the pixel bytes alone.
#[verifier::external_body]
fn hash_buffer(pixels: &Vec<u8>) -> (r: u128)
    requires
        pixels@.len() == FRAME_BUFFER_BYTES,
    ensures
        r == hash_of(pixels@),
{
    let img = image::RgbImage::from_raw(18, 16, pixels.clone()).unwrap();
    let hasher = img_hash::HasherConfig::with_bytes_type::<[u8; 16]>()
        .hash_alg(img_hash::HashAlg::DoubleGradient)
        .preproc_dct()
        .to_hasher();
    let hash = hasher.hash_image(&img);
    let mut bytes = [0u8; 16];
    bytes.copy_from_slice(hash.as_bytes());
    u128::from_be_bytes(bytes)
}

/// Hash every raw pixel buffer of one decoded stream, pairing each code
/// with its decode-order position.
#[verifier::loop_isolation(false)]
pub fn frames_from_buffers(buffers: &Vec<Vec<u8>>) -> (r: Vec<Frame>)
    requires
        forall|i: int|
            0 <= i < buffers@.len() ==> (#[trigger] buffers@[i])@.len() == FRAME_BUFFER_BYTES,
    ensures
        r@.len() == buffers@.len(),
        forall|i: int|
            0 <= i < r@.len() ==> (#[trigger] r@[i]) == (Frame {
                hash: hash_of(buffers@[i]@),
                idx: i as u64,
            }),
        indexed(r@),
{
    let mut r: Vec<Frame> = Vec::new();
    let mut i: usize = 0;
    while i < buffers.len()
        invariant
            i <= buffers@.len(),
            r@.len() == i,
            forall|j: int|
                0 <= j < r@.len() ==> (#[trigger] r@[j]) == (Frame {
                    hash: hash_of(buffers@[j]@),
                    idx: j as u64,
                }),
        decreases buffers@.len() - i,
    {
        let hash = hash_buffer(&buffers[i]);
        r.push(Frame { hash, idx: i as u64 });
        i += 1;
    }
    r
}

/// Turn a sequence of already-computed hash codes into frames, pairing
/// each code with its position.
#[verifier::loop_isolation(false)]
pub fn frames_from_hashes(hashes: &Vec<u128>) -> (r: Vec<Frame>)
    ensures
        r@.len() == hashes@.len(),
        forall|i: int|
            0 <= i < r@.len() ==> (#[trigger] r@[i]) == (Frame {
                hash: hashes@[i],
                idx: i as u64,
            }),
        indexed(r@),
{
    let mut r: Vec<Frame> = Vec::new();
    let mut i: usize = 0;
    while i < hashes.len()
        invariant
            i <= hashes@.len(),
            r@.len() == i,
            forall|j: int|
                0 <= j < r@.len() ==> (#[trigger] r@[j]) == (Frame {
                    hash: hashes@[j],
                    idx: j as u64,
                }),
        decreases hashes@.len() - i,
    {
        r.push(Frame { hash: hashes[i], idx: i as u64 });
        i += 1;
    }
    r
}

/// The metric the index is built on: the Hamming weight of
/// `a.hash XOR b.hash`, kept with the signature the rest of the system
/// expects of a metric (a signed distance that is in fact non-negative).
pub fn hamming(a: &Frame, b: &Frame) -> (r: isize)
    ensures
        0 <= r,
        r as nat == hamming_dist(*a, *b),
{
    distance(a, b) as isize
}

} // verus!
