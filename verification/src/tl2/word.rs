//! The lock-and-version word of a stripe, and addresses of stripes.

use vstd::prelude::*;

verus! {

/// Bytes per stripe.
pub const STRIPE_SIZE: usize = 8;

/// Bytes of transactional memory.
pub const MEM_SIZE: usize = 512;

/// Shifting an address right by this many bits gives its stripe's number.
pub const STRIPE_SHIFT: u32 = 3;

/// The bit of a stripe's word that says the stripe is locked.
pub const LOCK_BIT: u64 = 0x8000_0000_0000_0000;

/// What unlocking adds to a stripe's word: every bit but the lock bit.
pub const UNLOCK_ADDEND: u64 = 0x7fff_ffff_ffff_ffff;

/// Whether `word` has its lock bit set.
pub open spec fn locked(word: u64) -> bool {
    word & LOCK_BIT != 0
}

/// The version in `word`: the word without its lock bit.
pub open spec fn version(word: u64) -> u64 {
    word & UNLOCK_ADDEND
}

/// An address a transaction may use: the start of a stripe that lies inside
/// the memory.
pub open spec fn valid_addr(addr: usize) -> bool {
    addr % STRIPE_SIZE == 0 && addr + STRIPE_SIZE <= MEM_SIZE
}

/// Number of the stripe that `addr` lies in.
pub open spec fn stripe_of(addr: usize) -> int {
    addr as int / STRIPE_SIZE as int
}

/// Run-time test of the first half of [`valid_addr`]: whether `addr` is the
/// start of a stripe.
pub fn is_aligned(addr: usize) -> (ok: bool)
    ensures
        ok == (addr % STRIPE_SIZE == 0),
{
    assert(addr & 7 == addr % 8) by (bit_vector);
    addr & (STRIPE_SIZE - 1) == 0
}

/// Run-time test of [`valid_addr`].
pub fn is_valid_addr(addr: usize) -> (ok: bool)
    ensures
        ok == valid_addr(addr),
{
    is_aligned(addr) && addr <= MEM_SIZE - STRIPE_SIZE
}

/// Number of the stripe that `addr` lies in, given the shift for the stripe
/// size.
pub fn stripe_index(addr: usize, shift: u32) -> (idx: usize)
    requires
        shift == STRIPE_SHIFT,
    ensures
        idx == stripe_of(addr),
        addr < MEM_SIZE ==> idx < MEM_SIZE / STRIPE_SIZE,
{
    assert(addr >> 3 == addr / 8) by (bit_vector);
    addr >> shift
}

/// The version in `word`.
pub fn version_of(word: u64) -> (v: u64)
    ensures
        v == version(word),
        v <= UNLOCK_ADDEND,
        !locked(v),
        !locked(word) ==> v == word,
{
    assert(word & 0x7fff_ffff_ffff_ffff <= 0x7fff_ffff_ffff_ffff) by (bit_vector);
    assert((word & 0x7fff_ffff_ffff_ffff) & 0x8000_0000_0000_0000 == 0) by (bit_vector);
    assert(word & 0x8000_0000_0000_0000 == 0 ==> word & 0x7fff_ffff_ffff_ffff == word)
        by (bit_vector);
    assert(!(1u64 << 63) == 0x7fff_ffff_ffff_ffff) by (bit_vector);
    word & !(1 << 63)
}

/// Whether a stripe whose word is `word` may be read by a transaction that
/// started at clock value `read_ver`.
///
/// One comparison does both tests: the lock bit is the top bit, so a locked
/// word is larger than every version.
pub fn not_modified(word: u64, read_ver: u64) -> (ok: bool)
    ensures
        ok == (word <= read_ver),
        !locked(read_ver) ==> (ok <==> !locked(word) && version(word) <= read_ver),
{
    assert(read_ver & 0x8000_0000_0000_0000 == 0 ==> (word <= read_ver <==> word
        & 0x8000_0000_0000_0000 == 0 && word & 0x7fff_ffff_ffff_ffff <= read_ver))
        by (bit_vector);
    word <= read_ver
}

/// The word that locks a stripe whose word is `word`, or nothing if the
/// stripe is locked already. The version stays as it is.
pub fn lock_word(word: u64) -> (new: Option<u64>)
    ensures
        new is Some <==> !locked(word),
        new is Some ==> new->0 == word | LOCK_BIT,
        new is Some ==> locked(new->0) && version(new->0) == version(word),
{
    assert((1u64 << 63) == 0x8000_0000_0000_0000) by (bit_vector);
    assert((word | 0x8000_0000_0000_0000) & 0x8000_0000_0000_0000 != 0) by (bit_vector);
    assert((word | 0x8000_0000_0000_0000) & 0x7fff_ffff_ffff_ffff == word
        & 0x7fff_ffff_ffff_ffff) by (bit_vector);
    let n = word & (1 << 63);
    if n == 0 {
        Some(word | (1 << 63))
    } else {
        None
    }
}

/// What a stripe's word becomes when it is unlocked: [`UNLOCK_ADDEND`] is
/// added to it, wrapping around.
pub open spec fn unlocked(word: u64) -> u64 {
    if word as int + UNLOCK_ADDEND as int > u64::MAX {
        (word as int + UNLOCK_ADDEND as int - u64::MAX - 1) as u64
    } else {
        (word as int + UNLOCK_ADDEND as int) as u64
    }
}

/// Unlocking a locked stripe that has a version above zero clears the lock
/// bit and lowers the version by one. At version zero the sum does not wrap
/// and every bit ends up set.
pub proof fn lemma_unlocked(word: u64)
    requires
        locked(word),
    ensures
        version(word) > 0 ==> !locked(unlocked(word)) && unlocked(word) == version(word) - 1,
        version(word) == 0 ==> unlocked(word) == u64::MAX,
{
    assert(word & 0x8000_0000_0000_0000 != 0 ==> word >= 0x8000_0000_0000_0000) by (bit_vector);
    assert(word & 0x8000_0000_0000_0000 != 0 ==> (word & 0x7fff_ffff_ffff_ffff)
        + 0x8000_0000_0000_0000 == word) by (bit_vector);
    let v = version(word);
    assert(v == word - 0x8000_0000_0000_0000);
    if v > 0 {
        let w = (v - 1) as u64;
        assert(w < 0x8000_0000_0000_0000 ==> w & 0x8000_0000_0000_0000 == 0) by (bit_vector);
    }
}

} // verus!
