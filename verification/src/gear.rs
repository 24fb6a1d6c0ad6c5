use crate::engine::{
    answers, decides, first_edge, last_window, lemma_answers_decided, lemma_rolled_concat, no_edge,
    rolled, Engine, RollingState,
};
use crate::gear_table::{gear_entry, gear_lookup};
use vstd::arithmetic::div_mod::{
    lemma_add_mod_noop_right, lemma_basic_div, lemma_fundamental_div_mod,
    lemma_mod_multiples_vanish, lemma_small_mod,
};
use vstd::arithmetic::power2::{
    lemma2_to64, lemma2_to64_rest, lemma_pow2_adds, lemma_pow2_unfold, pow2,
};
use vstd::bits::lemma_u64_shr_is_div;
use vstd::prelude::*;

verus! {

/// Default chunk size (log2).
pub const CHUNK_BITS: u32 = 13;

/// Default chunk size.
pub const CHUNK_SIZE: u32 = 8192;

/// The number of most recent bytes that the digest depends on.
pub const WINDOW_SIZE: usize = 64;

pub type Digest = u64;

/// Shift-and-add hash: each byte shifts the accumulator left by one bit and adds the
/// byte's entry of a fixed table, so that the last 64 bytes alone decide the digest.
pub struct Gear {
    digest: u64,
    chunk_bits: u32,
}

/// What a `Gear` engine is: its accumulator and its configured chunk size.
pub ghost struct GearModel {
    pub digest: u64,
    pub chunk_bits: u32,
}

/// The accumulator after one more byte: shifted left by one, plus the byte's table entry,
/// modulo 2^64.
pub open spec fn gear_step(digest: u64, byte: u8) -> u64 {
    ((2 * digest + gear_entry(byte)) % 0x1_0000_0000_0000_0000) as u64
}

/// The state of a newly made engine.
pub open spec fn gear_fresh(chunk_bits: u32) -> GearModel {
    GearModel { digest: 0, chunk_bits }
}

/// The default boundary condition: the top `chunk_bits` bits of the accumulator are zero.
pub open spec fn gear_is_edge(m: GearModel) -> bool {
    m.digest as int / pow2((64 - m.chunk_bits) as nat) as int == 0
}

/// The boundary condition of a mask: the accumulator has none of its bits set.
pub open spec fn gear_mask_edge(mask: u64) -> spec_fn(GearModel) -> bool {
    |m: GearModel| m.digest & mask == 0
}

/// The default boundary condition, as a predicate on states.
pub open spec fn gear_edge() -> spec_fn(GearModel) -> bool {
    |m: GearModel| gear_is_edge(m)
}

impl Default for Gear {
    fn default() -> (gear: Gear)
        ensures
            gear.wf(),
            gear.model() == gear_fresh(CHUNK_BITS),
    {
        Gear { digest: 0, chunk_bits: CHUNK_BITS }
    }
}

impl Gear {
    /// A new engine with the default chunk size.
    pub fn new() -> (gear: Gear)
        ensures
            gear.wf(),
            gear.model() == gear_fresh(CHUNK_BITS),
    {
        Gear { digest: 0, chunk_bits: CHUNK_BITS }
    }

    /// A new engine whose boundary condition asks for `chunk_bits` zero bits.
    pub fn new_with_chunk_bits(chunk_bits: u32) -> (gear: Gear)
        requires
            chunk_bits < 32,
        ensures
            gear.wf(),
            gear.model() == gear_fresh(chunk_bits),
    {
        Gear { digest: 0, chunk_bits }
    }

    /// Rolls `buf` until the default boundary condition holds.
    ///
    /// On a boundary, returns the number of bytes consumed and the digest there, and the
    /// engine starts afresh. Without one, the whole of `buf` has been rolled.
    pub fn find_chunk_edge(&mut self, buf: &[u8]) -> (edge: Option<(usize, u64)>)
        requires
            old(self).wf(),
        ensures
            final(self).wf(),
            match edge {
                Some((end, digest)) => {
                    &&& first_edge::<Gear>(old(self).model(), buf@, gear_edge(), end as int)
                    &&& digest == rolled::<Gear>(old(self).model(), buf@.take(end as int)).digest
                    &&& final(self).model() == gear_fresh(old(self).model().chunk_bits)
                },
                None => {
                    &&& no_edge::<Gear>(old(self).model(), buf@, gear_edge())
                    &&& final(self).model() == rolled::<Gear>(old(self).model(), buf@)
                },
            },
    {
        let chunk_bits = self.chunk_bits;
        let shift: u32 = 64 - chunk_bits;
        let cond = |e: &Gear| -> (hit: bool)
            ensures
                e.model().chunk_bits == chunk_bits ==> hit == gear_is_edge(e.model()),
            {
                let d = e.digest();
                proof {
                    if chunk_bits == 0 {
                        lemma2_to64_rest();
                        lemma_basic_div(d as int, pow2(64) as int);
                    } else {
                        lemma_u64_shr_is_div(d, shift as u64);
                    }
                }
                chunk_bits == 0 || (d >> shift) == 0
            };
        let edge = self.find_chunk_edge_cond(buf, cond);
        proof {
            let m0 = old(self).model();
            assert forall|j: int| 0 < j <= buf.len() implies #[trigger] rolled::<Gear>(
                m0,
                buf@.take(j),
            ).chunk_bits == chunk_bits by {
                lemma_gear_linear(m0, buf@.take(j));
            }
            assert(buf@.take(buf.len() as int) =~= buf@);
        }
        edge
    }

    /// Rolls `buf` until the digest has no bit in common with `mask`.
    ///
    /// On a boundary, returns the number of bytes consumed and the digest there, and the
    /// engine starts afresh. Without one, the whole of `buf` has been rolled.
    pub fn find_chunk_mask(&mut self, buf: &[u8], mask: u64) -> (edge: Option<(usize, u64)>)
        requires
            old(self).wf(),
        ensures
            final(self).wf(),
            match edge {
                Some((end, digest)) => {
                    &&& first_edge::<Gear>(
                        old(self).model(),
                        buf@,
                        gear_mask_edge(mask),
                        end as int,
                    )
                    &&& digest == rolled::<Gear>(old(self).model(), buf@.take(end as int)).digest
                    &&& final(self).model() == gear_fresh(old(self).model().chunk_bits)
                },
                None => {
                    &&& no_edge::<Gear>(old(self).model(), buf@, gear_mask_edge(mask))
                    &&& final(self).model() == rolled::<Gear>(old(self).model(), buf@)
                },
            },
    {
        let cond = |e: &Gear| -> (hit: bool)
            ensures
                hit == (e.model().digest & mask == 0),
            { e.digest() & mask == 0 };
        let edge = self.find_chunk_edge_cond(buf, cond);
        proof {
            let m0 = old(self).model();
            assert(decides::<Gear, _>(cond, gear_mask_edge(mask)));
            assert forall|j: int, verdict: bool| #[trigger]
                answers::<Gear, _>(
                    cond,
                    rolled::<Gear>(m0, buf@.take(j)),
                    verdict,
                ) implies gear_mask_edge(mask)(rolled::<Gear>(m0, buf@.take(j))) == verdict by {
                lemma_answers_decided::<Gear, _>(
                    cond,
                    gear_mask_edge(mask),
                    rolled::<Gear>(m0, buf@.take(j)),
                    verdict,
                );
            }
            if let Some((end, _)) = edge {
                lemma_gear_linear(m0, buf@.take(end as int));
            }
            assert(buf@.take(buf.len() as int) =~= buf@);
        }
        edge
    }
}

impl RollingState for Gear {
    type Model = GearModel;

    open spec fn wf(&self) -> bool {
        self.model().chunk_bits < 32
    }

    closed spec fn model(&self) -> GearModel {
        GearModel { digest: self.digest, chunk_bits: self.chunk_bits }
    }

    open spec fn shows(&self, m: GearModel) -> bool {
        self.model() == m
    }

    open spec fn step(m: GearModel, byte: u8) -> GearModel {
        GearModel { digest: gear_step(m.digest, byte), chunk_bits: m.chunk_bits }
    }

    open spec fn cleared(m: GearModel) -> GearModel {
        gear_fresh(m.chunk_bits)
    }

    proof fn lemma_shows_own_model(&self) {
    }
}

impl Engine for Gear {
    type Digest = u64;

    open spec fn digest_of(m: GearModel) -> u64 {
        m.digest
    }

    fn roll_byte(&mut self, byte: u8) {
        let d = self.digest;
        let shifted = d << 1;
        let entry = gear_lookup(byte);
        proof {
            assert(shifted == (2 * d) % 0x1_0000_0000_0000_0000) by (bit_vector)
                requires
                    shifted == d << 1,
            ;
        }
        self.digest = shifted.wrapping_add(entry);
    }

    fn roll(&mut self, buf: &[u8]) {
        let start: usize = if buf.len() > WINDOW_SIZE {
            buf.len() - WINDOW_SIZE
        } else {
            0
        };
        let mut i: usize = start;
        while i < buf.len()
            invariant
                start <= i <= buf.len(),
                self.wf(),
                self.model() == rolled::<Gear>(
                    old(self).model(),
                    buf@.subrange(start as int, i as int),
                ),
            decreases buf.len() - i,
        {
            self.roll_byte(buf[i]);
            proof {
                assert(buf@.subrange(start as int, i + 1).drop_last() =~= buf@.subrange(
                    start as int,
                    i as int,
                ));
            }
            i = i + 1;
        }
        proof {
            assert(buf@.subrange(start as int, i as int) =~= last_window(buf@, 64));
            lemma_gear_window(old(self).model(), buf@);
        }
    }

    fn digest(&self) -> (d: u64)
        ensures
            d == self.model().digest,
    {
        self.digest
    }

    fn reset(&mut self) {
        self.digest = 0;
    }
}

/// Only the last 64 bytes rolled decide the state.
pub proof fn lemma_gear_window(m: GearModel, data: Seq<u8>)
    ensures
        rolled::<Gear>(m, data) == rolled::<Gear>(m, last_window(data, 64)),
{
    if data.len() > 64 {
        let cut = data.len() - 64;
        let head = data.subrange(0, cut);
        let tail = data.subrange(cut, data.len() as int);
        assert(data =~= head + tail);
        lemma_rolled_concat::<Gear>(m, head, tail);
        lemma_gear_linear(m, head);
        lemma_gear_flush(rolled::<Gear>(m, head), m, tail);
    }
}

/// After 64 bytes or more, the digest is the one that a new engine reports after the last
/// 64 of them alone.
pub proof fn lemma_gear_windowed_independence(m: GearModel, data: Seq<u8>)
    requires
        data.len() >= 64,
    ensures
        Gear::digest_of(rolled::<Gear>(m, data)) == Gear::digest_of(
            rolled::<Gear>(
                gear_fresh(m.chunk_bits),
                data.subrange(data.len() - 64, data.len() as int),
            ),
        ),
{
    let tail = data.subrange(data.len() - 64, data.len() as int);
    lemma_gear_window(m, data);
    if data.len() == 64 {
        assert(tail =~= data);
    }
    lemma_gear_flush(m, gear_fresh(m.chunk_bits), tail);
}

/// An engine that was reset goes on as a new engine of the same chunk size does.
pub proof fn lemma_gear_reset_is_new(m: GearModel, data: Seq<u8>)
    ensures
        rolled::<Gear>(Gear::cleared(m), data) == rolled::<Gear>(gear_fresh(m.chunk_bits), data),
        Gear::digest_of(Gear::cleared(m)) == 0,
{
}

/// Rolling 64 bytes or more leaves nothing of the accumulator that they started from.
pub proof fn lemma_gear_flush(m1: GearModel, m2: GearModel, data: Seq<u8>)
    requires
        data.len() >= 64,
        m1.chunk_bits == m2.chunk_bits,
    ensures
        rolled::<Gear>(m1, data) == rolled::<Gear>(m2, data),
{
    let zero = rolled::<Gear>(gear_fresh(m1.chunk_bits), data);
    lemma_gear_linear(m1, data);
    lemma_gear_linear(m2, data);
    lemma_shifted_out(m1.digest as int, data.len(), zero.digest as int);
    lemma_shifted_out(m2.digest as int, data.len(), zero.digest as int);
}

/// The accumulator is the starting value shifted by the number of bytes, plus what the bytes
/// give from zero, modulo 2^64.
pub proof fn lemma_gear_linear(m: GearModel, data: Seq<u8>)
    ensures
        rolled::<Gear>(m, data).chunk_bits == m.chunk_bits,
        rolled::<Gear>(m, data).digest as int == (m.digest * pow2(data.len()) + rolled::<Gear>(
            gear_fresh(m.chunk_bits),
            data,
        ).digest) % 0x1_0000_0000_0000_0000,
    decreases data.len(),
{
    let modulus: int = 0x1_0000_0000_0000_0000;
    if data.len() == 0 {
        lemma2_to64();
    } else {
        let init = data.drop_last();
        let g = gear_entry(data.last()) as int;
        let x = rolled::<Gear>(m, init).digest as int;
        let y = rolled::<Gear>(gear_fresh(m.chunk_bits), init).digest as int;
        let shifted = m.digest * pow2(init.len());
        lemma_gear_linear(m, init);
        lemma_pow2_unfold(data.len());
        assert(m.digest * pow2(data.len()) == 2 * shifted) by (nonlinear_arith)
            requires
                pow2(data.len()) == 2 * pow2(init.len()),
                shifted == m.digest * pow2(init.len()),
        ;
        lemma_mod_absorb(shifted + y, 2, g, modulus);
        lemma_add_mod_noop_right(2 * shifted, 2 * y + g, modulus);
    }
}

/// Inside a sum taken modulo `m`, a multiple of a term may be reduced modulo `m` first.
proof fn lemma_mod_absorb(a: int, k: int, c: int, m: int)
    requires
        m > 0,
    ensures
        (k * (a % m) + c) % m == (k * a + c) % m,
{
    lemma_fundamental_div_mod(a, m);
    lemma_mod_multiples_vanish(k * (a / m), k * (a % m) + c, m);
    assert(k * a + c == m * (k * (a / m)) + (k * (a % m) + c)) by (nonlinear_arith)
        requires
            a == m * (a / m) + a % m,
    ;
}

/// A value shifted left by 64 places or more is a multiple of 2^64.
proof fn lemma_shifted_out(d: int, places: nat, rest: int)
    requires
        places >= 64,
        0 <= rest < 0x1_0000_0000_0000_0000,
    ensures
        (d * pow2(places) + rest) % 0x1_0000_0000_0000_0000 == rest,
{
    let modulus: int = 0x1_0000_0000_0000_0000;
    let more = (places - 64) as nat;
    lemma2_to64();
    lemma2_to64_rest();
    lemma_pow2_adds(64, more);
    assert(d * pow2(places) == modulus * (d * pow2(more))) by (nonlinear_arith)
        requires
            pow2(places) == modulus * pow2(more),
    ;
    lemma_mod_multiples_vanish(d * pow2(more), rest, modulus);
    lemma_small_mod(rest as nat, modulus as nat);
}

} // verus!
