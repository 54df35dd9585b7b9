//! Admission by proof of work: the seal of a registration, its check
//! against the difficulty, and the retarget of the difficulty.
use crate::arith::{lemma_div_bounds, lemma_div_ge_quot, lemma_div_le_quot, lemma_div_mono, lemma_mul_nonneg};
use sp_core::{Hasher, KeccakHasher, U256};
use vstd::arithmetic::mul::lemma_mul_inequality;
use vstd::prelude::*;

verus! {

/// How many blocks back a proof of work may be dated: a work of block `b`
/// is accepted at block `c` when `b <= c < b + WORK_BLOCK_WINDOW`.
pub const WORK_BLOCK_WINDOW: u64 = 3;

/// The largest value of a 256-bit unsigned integer.
pub open spec fn u256_max() -> int {
    0x1_0000_0000_0000_0000_0000_0000_0000_0000_0000_0000_0000_0000_0000_0000_0000_0000 - 1
}

/// The integer that a byte string stands for, read big-endian.
pub open spec fn be_value(s: Seq<u8>) -> int
    decreases s.len(),
{
    if s.len() == 0 {
        0
    } else {
        be_value(s.drop_last()) * 256 + s.last() as int
    }
}

/// A work meets a difficulty when its value times the difficulty still
/// fits in 256 bits.
pub open spec fn meets_difficulty(work: Seq<u8>, difficulty: int) -> bool {
    be_value(work) * difficulty <= u256_max()
}

/// Relies on `U256::from_big_endian` (pads on the left, for at most 32
/// bytes) and `U256::overflowing_mul`, which flags a product that needs more
/// than 256 bits.
#[verifier::external_body]
fn work_fits_difficulty(work: &Vec<u8>, difficulty: u64) -> (r: bool)
    requires
        work@.len() <= 32,
    ensures
        r == meets_difficulty(work@, difficulty as int),
{
    let (_, overflowed) = U256::from_big_endian(work.as_slice()).overflowing_mul(U256::from(difficulty));
    !overflowed
}

/// Whether a work of at most 32 bytes meets the difficulty.
pub fn hash_meets_difficulty(work: &Vec<u8>, difficulty: u64) -> (r: bool)
    requires
        work@.len() <= 32,
    ensures
        r == meets_difficulty(work@, difficulty as int),
{
    work_fits_difficulty(work, difficulty)
}

/// A work meets a non-zero difficulty exactly when its value is at most
/// `u256_max() / difficulty`: above that bound it is always refused.
pub proof fn lemma_difficulty_threshold(work: Seq<u8>, difficulty: int)
    requires
        difficulty > 0,
    ensures
        meets_difficulty(work, difficulty) <==> be_value(work) <= u256_max() / difficulty,
{
    let v = be_value(work);
    let q = u256_max() / difficulty;
    lemma_div_bounds(u256_max(), difficulty);
    if v <= q {
        lemma_mul_inequality(v, q, difficulty);
        assert(q * difficulty == difficulty * q) by (nonlinear_arith);
    } else {
        lemma_mul_inequality(q + 1, v, difficulty);
        assert((q + 1) * difficulty == difficulty * q + difficulty) by (nonlinear_arith);
    }
}

/// The name of the Keccak-256 digest of a byte string.
pub uninterp spec fn keccak_of(data: Seq<u8>) -> Seq<u8>;

/// Relies on `KeccakHasher::hash` of sp-core: the Keccak-256 digest, 32 bytes,
/// of its input alone.
#[verifier::external_body]
fn keccak(data: &Vec<u8>) -> (r: Vec<u8>)
    ensures
        r@ == keccak_of(data@),
        r@.len() == 32,
{
    <KeccakHasher as Hasher>::hash(data.as_slice()).as_bytes().to_vec()
}

/// The eight bytes of `x`, least significant first.
pub open spec fn le_bytes(x: u64) -> Seq<u8> {
    Seq::new(8, |i: int| ((x >> ((8 * i) as u64)) & 0xff) as u8)
}

/// The bytes that a seal digests: block number, nonce and hotkey, each as
/// eight little-endian bytes.
pub open spec fn seal_preimage(block_number: u64, nonce: u64, hotkey: u64) -> Seq<u8> {
    le_bytes(block_number) + le_bytes(nonce) + le_bytes(hotkey)
}

/// The seal that a work must equal.
pub open spec fn seal_of(block_number: u64, nonce: u64, hotkey: u64) -> Seq<u8> {
    keccak_of(seal_preimage(block_number, nonce, hotkey))
}

/// Appends the eight little-endian bytes of `x`.
fn push_le_bytes(out: &mut Vec<u8>, x: u64)
    ensures
        final(out)@ == old(out)@ + le_bytes(x),
{
    let ghost start = out@;
    let mut k: u64 = 0;
    while k < 8
        invariant
            k <= 8,
            out@.len() == start.len() + k,
            out@.subrange(0, start.len() as int) == start,
            forall|i: int| 0 <= i < k ==> out@[start.len() + i] == le_bytes(x)[i],
        decreases 8 - k,
    {
        out.push(((x >> (8 * k)) & 0xff) as u8);
        k = k + 1;
    }
    assert(out@ =~= start + le_bytes(x));
}

/// The bytes that the seal of a registration digests.
pub fn seal_input(block_number: u64, nonce: u64, hotkey: u64) -> (r: Vec<u8>)
    ensures
        r@ == seal_preimage(block_number, nonce, hotkey),
{
    let mut out: Vec<u8> = Vec::new();
    push_le_bytes(&mut out, block_number);
    push_le_bytes(&mut out, nonce);
    push_le_bytes(&mut out, hotkey);
    assert(out@ =~= seal_preimage(block_number, nonce, hotkey));
    out
}

/// The seal of a registration: the Keccak-256 digest of its block number,
/// nonce and hotkey.
pub fn create_seal_hash(block_number: u64, nonce: u64, hotkey: u64) -> (r: Vec<u8>)
    ensures
        r@ == seal_of(block_number, nonce, hotkey),
        r@.len() == 32,
{
    let input = seal_input(block_number, nonce, hotkey);
    keccak(&input)
}

/// Whether a work dated `block_number` may be used at `current_block`.
pub open spec fn work_block_ok(current_block: int, block_number: int) -> bool {
    block_number <= current_block && current_block - block_number < WORK_BLOCK_WINDOW
}

/// The retargeted difficulty: the difficulty scaled by registrations over
/// their target, held within `[min, max]`. A zero target counts as an
/// unbounded rate.
pub open spec fn retarget_spec(difficulty: int, registrations: int, target: int, min: int, max: int) -> int {
    let raw = if target == 0 {
        max
    } else {
        difficulty * registrations / target
    };
    if raw < min {
        min
    } else if raw > max {
        max
    } else {
        raw
    }
}

/// The new difficulty after an adjustment interval with `registrations`
/// registrations against a target of `target`.
pub fn retarget_difficulty(difficulty: u64, registrations: u64, target: u64, min: u64, max: u64) -> (r: u64)
    requires
        min <= max,
    ensures
        r == retarget_spec(difficulty as int, registrations as int, target as int, min as int, max as int),
        min <= r <= max,
{
    let raw: u128 = if target == 0 {
        max as u128
    } else {
        assert((difficulty as int) * (registrations as int) <= 0xFFFF_FFFF_FFFF_FFFF * 0xFFFF_FFFF_FFFF_FFFFint)
            by (nonlinear_arith)
            requires
                difficulty <= 0xFFFF_FFFF_FFFF_FFFFu64,
                registrations <= 0xFFFF_FFFF_FFFF_FFFFu64,
        ;
        (difficulty as u128) * (registrations as u128) / (target as u128)
    };
    if raw < min as u128 {
        min
    } else if raw > max as u128 {
        max
    } else {
        raw as u64
    }
}

/// More registrations never give a lower difficulty.
pub proof fn lemma_retarget_monotone(difficulty: u64, r1: u64, r2: u64, target: u64, min: u64, max: u64)
    requires
        r1 <= r2,
        min <= max,
    ensures
        retarget_spec(difficulty as int, r1 as int, target as int, min as int, max as int) <= retarget_spec(
            difficulty as int,
            r2 as int,
            target as int,
            min as int,
            max as int,
        ),
{
    let d = difficulty as int;
    if target != 0 {
        lemma_mul_inequality(r1 as int, r2 as int, d);
        assert(d * r1 == r1 * d && d * r2 == r2 * d) by (nonlinear_arith);
        lemma_div_mono(d * r1, d * r2, target as int);
    }
}

/// From a difficulty within bounds, registrations above the target raise the
/// difficulty or leave it at the maximum, and registrations below the target
/// lower it or leave it at the minimum.
pub proof fn lemma_retarget_direction(difficulty: u64, registrations: u64, target: u64, min: u64, max: u64)
    requires
        min <= difficulty <= max,
        target > 0,
    ensures
        registrations >= target ==> retarget_spec(
            difficulty as int,
            registrations as int,
            target as int,
            min as int,
            max as int,
        ) >= difficulty,
        registrations <= target ==> retarget_spec(
            difficulty as int,
            registrations as int,
            target as int,
            min as int,
            max as int,
        ) <= difficulty,
{
    let d = difficulty as int;
    let g = registrations as int;
    let t = target as int;
    let x = d * g;
    lemma_mul_nonneg(d, g);
    if g >= t {
        lemma_mul_inequality(t, g, d);
        assert(t * d == d * t && g * d == x) by (nonlinear_arith)
            requires
                x == d * g,
        ;
        lemma_div_ge_quot(x, t, d);
    }
    if g <= t {
        lemma_mul_inequality(g, t, d);
        assert(g * d == x && d * t == t * d) by (nonlinear_arith)
            requires
                x == d * g,
        ;
        lemma_div_le_quot(x, t, d);
    }
}

} // verus!
