use vstd::arithmetic::div_mod::lemma_add_mod_noop;
use vstd::arithmetic::power2::{
    lemma2_to64, lemma2_to64_rest, lemma_pow2_strictly_increases, lemma_pow2_unfold, pow2,
};
use vstd::prelude::*;

verus! {

/// The number of one bits in the binary representation.
pub open spec fn popcount(x: u64) -> nat
    decreases x,
{
    if x == 0 {
        0
    } else {
        (x % 2) as nat + popcount(x / 2)
    }
}

/// The bits of `x` moved left by `n` places modulo 64, those pushed out at the top coming
/// back in at the bottom.
pub open spec fn rotl64(x: u64, n: u32) -> u64 {
    let r = (n % 64) as u64;
    if r == 0 {
        x
    } else {
        (x << r) | (x >> ((64 - r) as u64))
    }
}

/// The smallest power of two that is not below `x`.
pub open spec fn next_pow2(x: nat) -> nat
    decreases x,
{
    if x <= 1 {
        1
    } else {
        2 * next_pow2((x + 1) / 2)
    }
}

/// `u64::count_ones` of std: the number of one bits in the binary representation.
pub assume_specification[ u64::count_ones ](x: u64) -> (ones: u32)
    ensures
        ones == popcount(x),
;

/// `u64::rotate_left` of std: a left shift by `n` places that wraps the bits shifted out
/// round to the low end. Stated for shifts within the width.
pub assume_specification[ u64::rotate_left ](x: u64, n: u32) -> (rotated: u64)
    requires
        n < 64,
    ensures
        rotated == rotl64(x, n),
;

/// `usize::next_power_of_two` of std: the smallest power of two that is not below `x`.
/// It overflows where that power does not fit; 2^31 fits on every target.
pub assume_specification[ usize::next_power_of_two ](x: usize) -> (power: usize)
    requires
        x <= 0x8000_0000,
    ensures
        power == next_pow2(x as nat),
;

/// The multiplier of the generator that places the mask bits.
pub const LCG_MULTIPLIER: u64 = 6364136223846793005;

/// The increment of the generator that places the mask bits.
pub const LCG_INCREMENT: u64 = 1442695040888963407;

/// The masks of the published algorithm for chunks of 8 KiB: 15 and 11 bits.
pub const PAPER_MASK_SHORT: u64 = 0x0003590703530000;

pub const PAPER_MASK_LONG: u64 = 0x0000d90003530000;

/// The next value of the linear congruential generator.
pub open spec fn lcg_next(v: u64) -> u64 {
    ((v * 6364136223846793005 + 1442695040888963407) % 0x1_0000_0000_0000_0000) as u64
}

/// The mask with its lowest bit set and then rotated by the low six bits of `v`.
pub open spec fn place_bit(mask: u64, v: u64) -> u64 {
    rotl64(mask | 1, (v % 64) as u32)
}

/// The mask and the generator's value after `rounds` rounds from `seed`.
pub open spec fn mask_state(seed: u64, rounds: nat) -> (u64, u64)
    decreases rounds,
{
    if rounds == 0 {
        (0, seed)
    } else {
        let (mask, v) = mask_state(seed, (rounds - 1) as nat);
        (place_bit(mask, lcg_next(v)), lcg_next(v))
    }
}

/// Whether round `n` is the first after which the mask holds `target` one bits or more.
pub open spec fn first_round(seed: u64, target: nat, n: nat) -> bool {
    &&& popcount(mask_state(seed, n).0) >= target
    &&& forall|j: nat| j < n ==> popcount(#[trigger] mask_state(seed, j).0) < target
}

/// Whether the generator started from `seed` ever gives a mask of `target` one bits.
pub open spec fn reaches(seed: u64, target: nat) -> bool {
    exists|n: nat| popcount(#[trigger] mask_state(seed, n).0) >= target
}

/// The first mask of `target` one bits or more that the generator gives from `seed`.
#[verifier::opaque]
pub open spec fn generated_mask(seed: u64, target: nat) -> u64 {
    mask_state(seed, choose|n: nat| first_round(seed, target, n)).0
}

/// The number of mask bits for an average chunk size: the binary logarithm, rounded up.
pub open spec fn size_bits(avg_size: usize) -> nat {
    popcount((next_pow2(avg_size as nat) - 1) as u64)
}

/// The first round is unique, so the mask after it is the generated mask.
pub proof fn lemma_first_round_unique(seed: u64, target: nat, n: nat)
    requires
        first_round(seed, target, n),
    ensures
        mask_state(seed, n).0 == generated_mask(seed, target),
{
    reveal(generated_mask);
    let k = choose|k: nat| first_round(seed, target, k);
    assert(first_round(seed, target, k));
    if k < n {
        assert(popcount(mask_state(seed, k).0) < target);
    }
    if n < k {
        assert(popcount(mask_state(seed, n).0) < target);
    }
}

/// One round of the generator: the next value, and the mask with one more bit placed.
fn next_round(mask: u64, v: u64) -> (next: (u64, u64))
    ensures
        next == (place_bit(mask, lcg_next(v)), lcg_next(v)),
{
    let v2 = v.wrapping_mul(LCG_MULTIPLIER).wrapping_add(LCG_INCREMENT);
    let low = v2 & 0x3f;
    proof {
        lemma_add_mod_noop(
            v * LCG_MULTIPLIER,
            LCG_INCREMENT as int,
            0x1_0000_0000_0000_0000,
        );
        assert(low == v2 % 64) by (bit_vector)
            requires
                low == v2 & 0x3f,
        ;
    }
    ((mask | 1).rotate_left(low as u32), v2)
}

/// The two masks for an average chunk size of `avg_size`: the first with `nc_level` bits
/// more than the size has, the second with `nc_level` bits fewer.
pub fn get_masks(avg_size: usize, nc_level: usize, seed: u64) -> (masks: (u64, u64))
    requires
        avg_size <= 0x8000_0000,
        nc_level <= size_bits(avg_size),
        size_bits(avg_size) != 13 ==> reaches(seed, size_bits(avg_size) + nc_level as nat),
    ensures
        size_bits(avg_size) == 13 ==> masks == (PAPER_MASK_SHORT, PAPER_MASK_LONG),
        size_bits(avg_size) != 13 ==> masks == (
            generated_mask(seed, size_bits(avg_size) + nc_level as nat),
            generated_mask(seed, (size_bits(avg_size) - nc_level) as nat),
        ),
{
    let power = avg_size.next_power_of_two();
    proof {
        lemma_next_pow2_bounds(avg_size as nat);
    }
    let bits: u32 = ((power - 1) as u64).count_ones();
    if bits == 13 {
        return (PAPER_MASK_SHORT, PAPER_MASK_LONG);
    }
    proof {
        lemma_popcount_bound(((power - 1) as u64));
    }
    let level: u32 = nc_level as u32;
    let ghost low_target: nat = (bits - level) as nat;
    let ghost high_target: nat = (bits + level) as nat;
    let ghost last: nat = choose|n: nat| popcount(#[trigger] mask_state(seed, n).0) >= high_target;
    let ghost mut n: nat = 0;
    let mut mask: u64 = 0;
    let mut v: u64 = seed;
    while mask.count_ones() < bits - level
        invariant
            level <= bits <= 64,
            low_target == bits - level,
            high_target == bits + level,
            (mask, v) == mask_state(seed, n),
            popcount(mask_state(seed, last).0) >= high_target,
            forall|j: nat| j < n ==> popcount(#[trigger] mask_state(seed, j).0) < low_target,
            n <= last,
        decreases last - n,
    {
        let next = next_round(mask, v);
        mask = next.0;
        v = next.1;
        proof {
            n = n + 1;
        }
    }
    let mask_long = mask;
    proof {
        lemma_first_round_unique(seed, low_target, n);
    }
    while mask.count_ones() < bits + level
        invariant
            level <= bits <= 64,
            high_target == bits + level,
            (mask, v) == mask_state(seed, n),
            popcount(mask_state(seed, last).0) >= high_target,
            forall|j: nat| j < n ==> popcount(#[trigger] mask_state(seed, j).0) < high_target,
            n <= last,
        decreases last - n,
    {
        let next = next_round(mask, v);
        mask = next.0;
        v = next.1;
        proof {
            n = n + 1;
        }
    }
    let mask_short = mask;
    proof {
        lemma_first_round_unique(seed, high_target, n);
    }
    (mask_short, mask_long)
}

/// A 64-bit value has at most 64 one bits.
pub proof fn lemma_popcount_bound(x: u64)
    ensures
        popcount(x) <= 64,
{
    lemma2_to64_rest();
    lemma_popcount_below(x, 64);
}

/// The next power of two is at least 1 and not below its argument.
pub proof fn lemma_next_pow2_bounds(x: nat)
    ensures
        next_pow2(x) >= 1,
        next_pow2(x) >= x,
    decreases x,
{
    if x > 1 {
        lemma_next_pow2_bounds((x + 1) / 2);
    }
}

/// A value below 2^k has at most k one bits.
proof fn lemma_popcount_below(x: u64, k: nat)
    requires
        x < pow2(k),
    ensures
        popcount(x) <= k,
    decreases k,
{
    if x != 0 {
        if k == 0 {
            lemma2_to64();
        } else {
            lemma_pow2_unfold(k);
            lemma_popcount_below(x / 2, (k - 1) as nat);
        }
    }
}

/// Setting the lowest bit adds a one bit where there was none.
proof fn lemma_popcount_set_low(x: u64)
    ensures
        popcount(x | 1) == popcount(x) + (if x % 2 == 0 {
            1nat
        } else {
            0nat
        }),
{
    let y = x | 1;
    assert(x % 2 == 0 ==> y == x + 1) by (bit_vector)
        requires
            y == x | 1,
    ;
    assert(x % 2 == 1 ==> y == x) by (bit_vector)
        requires
            y == x | 1,
    ;
}

/// A one bit above all others counts for one.
proof fn lemma_popcount_top(low: u64, k: nat)
    requires
        k < 64,
        low < pow2(k),
    ensures
        pow2(k) + low <= u64::MAX,
        popcount((pow2(k) + low) as u64) == 1 + popcount(low),
    decreases k,
{
    lemma2_to64();
    lemma2_to64_rest();
    if k > 0 {
        lemma_pow2_unfold(k);
        lemma_pow2_strictly_increases((k - 1) as nat, 63);
        let half = pow2((k - 1) as nat);
        lemma_popcount_top(low / 2, (k - 1) as nat);
        assert((2 * half + low) / 2 == half + low / 2);
        assert((2 * half + low) % 2 == low % 2);
    } else {
        assert(popcount(0) == 0);
    }
}

/// Rotating by one place keeps the number of one bits.
proof fn lemma_popcount_rotate_one(y: u64)
    ensures
        popcount((y << 1) | (y >> 63)) == popcount(y),
{
    let rotated = (y << 1) | (y >> 63);
    let low = y % 0x8000_0000_0000_0000;
    let top = y / 0x8000_0000_0000_0000;
    assert(rotated == 2 * (y % 0x8000_0000_0000_0000) + y / 0x8000_0000_0000_0000) by (bit_vector)
        requires
            rotated == (y << 1) | (y >> 63),
    ;
    assert(rotated / 2 == low);
    assert(rotated % 2 == top);
    lemma2_to64_rest();
    if top == 1 {
        lemma_popcount_top(low, 63);
    }
}

/// Rotating keeps the number of one bits.
pub proof fn lemma_popcount_rotate(y: u64, r: u64)
    requires
        r < 64,
    ensures
        popcount(rotl64(y, r as u32)) == popcount(y),
    decreases r,
{
    if r == 1 {
        lemma_popcount_rotate_one(y);
    } else if r > 1 {
        let before = rotl64(y, (r - 1) as u32);
        let after = rotl64(y, r as u32);
        lemma_popcount_rotate(y, (r - 1) as u64);
        assert(after == (before << 1) | (before >> 63)) by (bit_vector)
            requires
                2 <= r < 64,
                before == (y << ((r - 1) as u64)) | (y >> ((65 - r) as u64)),
                after == (y << r) | (y >> ((64 - r) as u64)),
        ;
        lemma_popcount_rotate_one(before);
    }
}

/// A round adds at most one bit to the mask, and takes none away.
pub proof fn lemma_round_popcount(seed: u64, n: nat)
    ensures
        popcount(mask_state(seed, n).0) <= popcount(mask_state(seed, n + 1).0) <= popcount(
            mask_state(seed, n).0,
        ) + 1,
{
    let (mask, v) = mask_state(seed, n);
    let next = lcg_next(v);
    lemma_popcount_set_low(mask);
    lemma_popcount_rotate(mask | 1, (next % 64) as u64);
}

/// Where the generator reaches `target` bits by round `n`, some round is the first to.
proof fn lemma_first_round_exists(seed: u64, target: nat, n: nat)
    requires
        popcount(mask_state(seed, n).0) >= target,
    ensures
        exists|k: nat| first_round(seed, target, k),
    decreases n,
{
    if !first_round(seed, target, n) {
        let j = choose|j: nat| j < n && popcount(#[trigger] mask_state(seed, j).0) >= target;
        lemma_first_round_exists(seed, target, j);
    }
}

/// The generated mask holds exactly as many one bits as were asked for.
pub proof fn lemma_generated_mask_popcount(seed: u64, target: nat)
    requires
        reaches(seed, target),
    ensures
        popcount(generated_mask(seed, target)) == target,
{
    let n = choose|n: nat| popcount(#[trigger] mask_state(seed, n).0) >= target;
    lemma_first_round_exists(seed, target, n);
    let k = choose|k: nat| first_round(seed, target, k);
    lemma_first_round_unique(seed, target, k);
    if k > 0 {
        lemma_round_popcount(seed, (k - 1) as nat);
        assert(popcount(mask_state(seed, (k - 1) as nat).0) < target);
    } else {
        assert(popcount(0) == 0);
    }
}

/// A power of two is its own next power of two, and one less than it has as many one bits
/// as its exponent.
pub proof fn lemma_size_bits_of_power(k: nat)
    requires
        k <= 63,
    ensures
        next_pow2(pow2(k)) == pow2(k),
        popcount((pow2(k) - 1) as u64) == k,
        pow2(k) <= 0x8000_0000_0000_0000,
    decreases k,
{
    lemma2_to64();
    lemma2_to64_rest();
    if k > 0 {
        lemma_size_bits_of_power((k - 1) as nat);
        lemma_pow2_unfold(k);
        let half = pow2((k - 1) as nat);
        assert((2 * half + 1) / 2 == half);
        assert((2 * half - 1) / 2 == half - 1);
        assert((2 * half - 1) % 2 == 1);
    }
}

} // verus!
