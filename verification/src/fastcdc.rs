use crate::engine::{
    first_edge, lemma_rolled_concat, lemma_rolled_resume, no_edge, rolled, Engine, RollingState,
};
use crate::gear::{
    gear_fresh, gear_mask_edge, gear_step, lemma_gear_flush, lemma_gear_linear,
    lemma_gear_windowed_independence, Gear, GearModel,
};
use crate::masks::{
    generated_mask, get_masks, lemma_generated_mask_popcount, lemma_size_bits_of_power, popcount,
    PAPER_MASK_LONG, PAPER_MASK_SHORT,
};
use crate::seed_zero::lemma_seed_zero_reaches;
use vstd::arithmetic::power2::{lemma2_to64, lemma2_to64_rest, lemma_pow2_strictly_increases, pow2};
use vstd::bits::lemma_u64_shl_is_mul;
use vstd::prelude::*;
use vstd::slice::slice_subrange;

verus! {

/// How many powers of two the smallest and the largest chunk lie from the average.
pub const SPREAD_BITS: u32 = 3;

/// How many bits the two masks lie from the number of bits of the average size.
pub const NC_LEVEL: usize = 2;

/// Chunking by a Gear hash with two masks: a stricter one up to the average chunk size and a
/// looser one beyond it, between a smallest and a largest chunk size.
pub struct FastCDC {
    current_chunk_size: u64,
    gear: Gear,
    mask_short: u64,
    mask_long: u64,
    ignore_size: u64,
    min_size: u64,
    avg_size: u64,
    max_size: u64,
}

/// What a `FastCDC` chunker is: its configured chunk size, the number of bytes of the
/// current chunk taken so far, and the accumulator of its hash.
pub ghost struct FastCdcModel {
    pub chunk_bits: u32,
    pub size: nat,
    pub digest: u64,
}

/// No chunk ends at this size or below.
pub open spec fn cdc_min_size(chunk_bits: u32) -> nat {
    pow2((chunk_bits - SPREAD_BITS + 1) as nat)
}

/// The size up to which the stricter mask is used.
pub open spec fn cdc_avg_size(chunk_bits: u32) -> nat {
    pow2(chunk_bits as nat)
}

/// Every chunk ends at this size at the latest.
pub open spec fn cdc_max_size(chunk_bits: u32) -> nat {
    pow2((chunk_bits + SPREAD_BITS) as nat)
}

/// The bytes at the start of a chunk that are not hashed: all that lie more than the
/// hash's window of 64 bytes before the smallest chunk size.
pub open spec fn cdc_ignore_size(chunk_bits: u32) -> nat {
    (cdc_min_size(chunk_bits) - 64) as nat
}

/// The stricter and the looser mask for a chunk size.
pub open spec fn cdc_masks(chunk_bits: u32) -> (u64, u64) {
    if chunk_bits == 13 {
        (PAPER_MASK_SHORT, PAPER_MASK_LONG)
    } else {
        (
            generated_mask(0, (chunk_bits + NC_LEVEL) as nat),
            generated_mask(0, (chunk_bits - NC_LEVEL) as nat),
        )
    }
}

/// The state of a newly made chunker.
pub open spec fn cdc_fresh(chunk_bits: u32) -> FastCdcModel {
    FastCdcModel { chunk_bits, size: 0, digest: 0 }
}

/// Whether a chunk ends in this state: beyond the smallest size, where the accumulator has
/// no bit of the mask for its size, and in any case at the largest size.
pub open spec fn cdc_is_cut(m: FastCdcModel) -> bool {
    &&& m.size > cdc_min_size(m.chunk_bits)
    &&& {
        ||| m.size >= cdc_max_size(m.chunk_bits)
        ||| m.size <= cdc_avg_size(m.chunk_bits) && m.digest & cdc_masks(m.chunk_bits).0 == 0
        ||| m.size > cdc_avg_size(m.chunk_bits) && m.digest & cdc_masks(m.chunk_bits).1 == 0
    }
}

/// The end of a chunk, as a predicate on states.
pub open spec fn cdc_cut() -> spec_fn(FastCdcModel) -> bool {
    |m: FastCdcModel| cdc_is_cut(m)
}

impl RollingState for FastCDC {
    type Model = FastCdcModel;

    open spec fn wf(&self) -> bool {
        &&& self.configured()
        &&& self.model().size < cdc_max_size(self.model().chunk_bits)
    }

    closed spec fn model(&self) -> FastCdcModel {
        FastCdcModel {
            chunk_bits: self.gear.model().chunk_bits,
            size: self.current_chunk_size as nat,
            digest: self.gear.model().digest,
        }
    }

    open spec fn shows(&self, m: FastCdcModel) -> bool {
        self.model() == m
    }

    open spec fn step(m: FastCdcModel, byte: u8) -> FastCdcModel {
        FastCdcModel {
            chunk_bits: m.chunk_bits,
            size: m.size + 1,
            digest: if m.size < cdc_ignore_size(m.chunk_bits) {
                m.digest
            } else {
                gear_step(m.digest, byte)
            },
        }
    }

    open spec fn cleared(m: FastCdcModel) -> FastCdcModel {
        cdc_fresh(m.chunk_bits)
    }

    proof fn lemma_shows_own_model(&self) {
    }
}

impl Default for FastCDC {
    fn default() -> (cdc: FastCDC)
        ensures
            cdc.wf(),
            cdc.model() == cdc_fresh(crate::gear::CHUNK_BITS),
    {
        FastCDC::new()
    }
}

impl FastCDC {
    /// Whether the sizes and masks are those of the configured chunk size.
    pub closed spec fn configured(&self) -> bool {
        let chunk_bits = self.gear.model().chunk_bits;
        &&& 8 <= chunk_bits < 32
        &&& self.min_size == cdc_min_size(chunk_bits)
        &&& self.avg_size == cdc_avg_size(chunk_bits)
        &&& self.max_size == cdc_max_size(chunk_bits)
        &&& self.ignore_size == cdc_ignore_size(chunk_bits)
        &&& (self.mask_short, self.mask_long) == cdc_masks(chunk_bits)
    }

    /// A new chunker with the default chunk size.
    pub fn new() -> (cdc: FastCDC)
        ensures
            cdc.wf(),
            cdc.model() == cdc_fresh(crate::gear::CHUNK_BITS),
    {
        FastCDC::new_with_chunk_bits(crate::gear::CHUNK_BITS)
    }

    /// Starts a new chunk.
    pub fn reset(&mut self)
        requires
            old(self).configured(),
        ensures
            final(self).wf(),
            final(self).model() == cdc_fresh(old(self).model().chunk_bits),
    {
        proof {
            lemma_cdc_sizes(self.model().chunk_bits);
        }
        self.gear.reset();
        self.current_chunk_size = 0;
    }

    /// A new chunker for chunks of 2^`chunk_bits` bytes on average.
    pub fn new_with_chunk_bits(chunk_bits: u32) -> (cdc: FastCDC)
        requires
            8 <= chunk_bits < 32,
        ensures
            cdc.wf(),
            cdc.model() == cdc_fresh(chunk_bits),
    {
        proof {
            lemma_cdc_sizes(chunk_bits);
            lemma2_to64();
            lemma2_to64_rest();
            lemma_u64_shl_is_mul(1, chunk_bits as u64);
            lemma_u64_shl_is_mul(1, (chunk_bits - SPREAD_BITS + 1) as u64);
            lemma_u64_shl_is_mul(1, (chunk_bits + SPREAD_BITS) as u64);
            lemma_size_bits_of_power(chunk_bits as nat);
            lemma_seed_zero_reaches((chunk_bits + NC_LEVEL) as nat);
        }
        let avg_size: u64 = 1u64 << chunk_bits;
        let (mask_short, mask_long) = get_masks(avg_size as usize, NC_LEVEL, 0);
        let gear = Gear::new_with_chunk_bits(chunk_bits);
        let min_size: u64 = 1u64 << (chunk_bits - SPREAD_BITS + 1);
        let ignore_size: u64 = min_size - 64;
        let max_size: u64 = 1u64 << (chunk_bits + SPREAD_BITS);
        FastCDC {
            current_chunk_size: 0,
            gear,
            mask_short,
            mask_long,
            ignore_size,
            min_size,
            avg_size,
            max_size,
        }
    }
}

impl FastCDC {
    /// Whether the chunker has taken the first `pos` bytes of `buf` since it was in state
    /// `m0`, and no chunk ended on the way.
    pub closed spec fn tracks(&self, m0: FastCdcModel, buf: Seq<u8>, pos: int) -> bool {
        &&& self.wf()
        &&& 0 <= pos <= buf.len()
        &&& self.model() == rolled::<FastCDC>(m0, buf.take(pos))
        &&& self.model().chunk_bits == m0.chunk_bits
        &&& self.model().size == m0.size + pos
        &&& clean_until(m0, buf, pos)
    }

    /// Takes bytes of `buf` into the current chunk until the chunk ends.
    ///
    /// At the end of a chunk, returns the number of bytes of `buf` that belong to it and
    /// the digest there, and a new chunk starts. Where `buf` ends first, all of it has been
    /// taken, and the chunk goes on with the next call.
    pub fn find_chunk(&mut self, buf: &[u8]) -> (edge: Option<(usize, u64)>)
        requires
            old(self).wf(),
        ensures
            final(self).wf(),
            match edge {
                Some((end, digest)) => {
                    &&& first_edge::<FastCDC>(old(self).model(), buf@, cdc_cut(), end as int)
                    &&& digest == rolled::<FastCDC>(old(self).model(), buf@.take(end as int)).digest
                    &&& final(self).model() == cdc_fresh(old(self).model().chunk_bits)
                    &&& cdc_min_size(old(self).model().chunk_bits) < old(self).model().size + end
                        <= cdc_max_size(old(self).model().chunk_bits)
                },
                None => {
                    &&& no_edge::<FastCDC>(old(self).model(), buf@, cdc_cut())
                    &&& final(self).model() == rolled::<FastCDC>(old(self).model(), buf@)
                },
            },
    {
        let ghost m0 = self.model();
        proof {
            assert(buf@.take(0) =~= Seq::<u8>::empty());
        }
        let pos = self.skip(buf, 0, Ghost(m0));
        let pos = self.warm_up(buf, pos, Ghost(m0));
        let (early, pos) = self.scan(buf, pos, false, Ghost(m0));
        if early.is_some() {
            return early;
        }
        let (late, pos) = self.scan(buf, pos, true, Ghost(m0));
        proof {
            assert(buf@.take(buf.len() as int) =~= buf@);
        }
        late
    }

    /// Passes over the bytes that lie too far back to reach the digest at the smallest
    /// chunk size.
    fn skip(&mut self, buf: &[u8], pos: usize, Ghost(m0): Ghost<FastCdcModel>) -> (next: usize)
        requires
            old(self).tracks(m0, buf@, pos as int),
        ensures
            final(self).tracks(m0, buf@, next as int),
            final(self).model().size >= cdc_ignore_size(m0.chunk_bits) || next == buf.len(),
    {
        if self.current_chunk_size < self.ignore_size {
            let gap = self.ignore_size - self.current_chunk_size;
            let left = (buf.len() - pos) as u64;
            let skip_bytes = if gap < left { gap } else { left };
            proof {
                lemma_cdc_sizes(m0.chunk_bits);
                lemma_quiet_stretch(m0, buf@, pos as int, skip_bytes as int);
            }
            self.current_chunk_size += skip_bytes;
            pos + skip_bytes as usize
        } else {
            proof {
                lemma_cdc_rolled(m0, buf@.take(pos as int));
            }
            pos
        }
    }

    /// Hashes the bytes before the smallest chunk size, where no chunk ends.
    fn warm_up(&mut self, buf: &[u8], pos: usize, Ghost(m0): Ghost<FastCdcModel>) -> (next: usize)
        requires
            old(self).tracks(m0, buf@, pos as int),
            old(self).model().size >= cdc_ignore_size(m0.chunk_bits) || pos == buf.len(),
        ensures
            final(self).tracks(m0, buf@, next as int),
            final(self).model().size >= cdc_min_size(m0.chunk_bits) || next == buf.len(),
    {
        if self.current_chunk_size < self.min_size {
            let gap = self.min_size - self.current_chunk_size;
            let left = (buf.len() - pos) as u64;
            let roll_bytes = if gap < left { gap } else { left };
            proof {
                lemma_cdc_sizes(m0.chunk_bits);
                lemma_quiet_stretch(m0, buf@, pos as int, roll_bytes as int);
                lemma_gear_linear(
                    self.gear.model(),
                    buf@.subrange(pos as int, pos + roll_bytes),
                );
            }
            self.gear.roll(slice_subrange(buf, pos, pos + roll_bytes as usize));
            self.current_chunk_size += roll_bytes;
            pos + roll_bytes as usize
        } else {
            proof {
                lemma_cdc_rolled(m0, buf@.take(pos as int));
            }
            pos
        }
    }

    /// Hashes on until the mask finds no bit in the digest: the stricter mask up to the
    /// average size, or, if `late`, the looser mask up to the largest size, which ends the
    /// chunk whatever the digest.
    fn scan(&mut self, buf: &[u8], pos: usize, late: bool, Ghost(m0): Ghost<FastCdcModel>) -> (found: (
        Option<(usize, u64)>,
        usize,
    ))
        requires
            old(self).tracks(m0, buf@, pos as int),
            pos == buf.len() || old(self).model().size >= (if late {
                cdc_avg_size(m0.chunk_bits)
            } else {
                cdc_min_size(m0.chunk_bits)
            }),
        ensures
            final(self).wf(),
            match found.0 {
                Some((end, digest)) => {
                    &&& first_edge::<FastCDC>(m0, buf@, cdc_cut(), end as int)
                    &&& digest == rolled::<FastCDC>(m0, buf@.take(end as int)).digest
                    &&& final(self).model() == cdc_fresh(m0.chunk_bits)
                    &&& cdc_min_size(m0.chunk_bits) < m0.size + end <= cdc_max_size(m0.chunk_bits)
                },
                None => {
                    &&& final(self).tracks(m0, buf@, found.1 as int)
                    &&& found.1 == buf.len() || (!late && final(self).model().size >= cdc_avg_size(
                        m0.chunk_bits,
                    ))
                },
            },
    {
        let limit = if late { self.max_size } else { self.avg_size };
        let mask = if late { self.mask_long } else { self.mask_short };
        proof {
            lemma_cdc_rolled(m0, buf@.take(pos as int));
            lemma_cdc_sizes(m0.chunk_bits);
        }
        if self.current_chunk_size >= limit {
            return (None, pos);
        }
        let gap = limit - self.current_chunk_size;
        let left = (buf.len() - pos) as u64;
        let roll_bytes = if gap < left { gap } else { left };
        let ghost before = self.model();
        let ghost sub = buf@.subrange(pos as int, pos + roll_bytes);
        let result = self.gear.find_chunk_mask(
            slice_subrange(buf, pos, pos + roll_bytes as usize),
            mask,
        );
        proof {
            lemma_gear_linear(gear_of(before), sub);
            assert forall|k: int| 0 < k <= roll_bytes implies scan_step(
                before,
                #[trigger] sub.take(k),
                k,
            ) by {
                lemma_scan_step(before, sub, k);
            }
        }
        match result {
            Some((end, digest)) => {
                proof {
                    assert(scan_step(before, sub.take(end as int), end as int));
                    assert forall|k: int| 0 < k < end implies !cdc_cut()(
                        #[trigger] rolled::<FastCDC>(before, sub.take(k)),
                    ) by {
                        assert(scan_step(before, sub.take(k), k));
                        assert(!gear_mask_edge(mask)(rolled::<Gear>(gear_of(before), sub.take(k))));
                    }
                    lemma_found(m0, buf@, pos as int, roll_bytes as int, end as int);
                }
                self.reset();
                (Some((pos + end, digest)), pos + end)
            },
            None => {
                proof {
                    assert(sub.take(roll_bytes as int) =~= sub);
                    if roll_bytes == 0 {
                        assert(sub =~= Seq::<u8>::empty());
                    }
                }
                if late && gap <= left {
                    // The largest size ends the chunk, whatever the digest.
                    proof {
                        assert(scan_step(before, sub.take(roll_bytes as int), roll_bytes as int));
                        assert forall|k: int| 0 < k < roll_bytes implies !cdc_cut()(
                            #[trigger] rolled::<FastCDC>(before, sub.take(k)),
                        ) by {
                            assert(scan_step(before, sub.take(k), k));
                            assert(!gear_mask_edge(mask)(
                                rolled::<Gear>(gear_of(before), sub.take(k)),
                            ));
                        }
                        lemma_found(m0, buf@, pos as int, roll_bytes as int, roll_bytes as int);
                    }
                    let digest = self.gear.digest();
                    self.reset();
                    (Some((pos + roll_bytes as usize, digest)), pos + roll_bytes as usize)
                } else {
                    proof {
                        assert forall|k: int| 0 < k <= roll_bytes implies !cdc_is_cut(
                            #[trigger] rolled::<FastCDC>(before, sub.take(k)),
                        ) by {
                            assert(scan_step(before, sub.take(k), k));
                            assert(!gear_mask_edge(mask)(
                                rolled::<Gear>(gear_of(before), sub.take(k)),
                            ));
                        }
                        lemma_extend(m0, buf@, pos as int, roll_bytes as int);
                        if roll_bytes > 0 {
                            assert(scan_step(before, sub.take(roll_bytes as int), roll_bytes as int));
                        }
                    }
                    self.current_chunk_size += roll_bytes;
                    (None, pos + roll_bytes as usize)
                }
            },
        }
    }
}

/// Whether no chunk ends within the first `pos` bytes of `buf`, taken from state `m0`.
pub open spec fn clean_until(m0: FastCdcModel, buf: Seq<u8>, pos: int) -> bool {
    forall|j: int| 0 < j <= pos ==> !cdc_is_cut(#[trigger] rolled::<FastCDC>(m0, buf.take(j)))
}

/// What holds of the state `k` hashed bytes after a state `before` at or beyond the
/// smallest chunk size, `taken` being those bytes: the accumulator is the hash's, and
/// whether a chunk ends there is for the mask of that size to say, but for the largest
/// size.
pub open spec fn scan_step(before: FastCdcModel, taken: Seq<u8>, k: int) -> bool {
    let s = rolled::<FastCDC>(before, taken);
    let g = rolled::<Gear>(gear_of(before), taken);
    let masks = cdc_masks(before.chunk_bits);
    &&& s.chunk_bits == before.chunk_bits
    &&& s.size == before.size + k
    &&& s.digest == g.digest
    &&& s.size <= cdc_avg_size(s.chunk_bits) ==> (cdc_is_cut(s) <==> gear_mask_edge(masks.0)(g))
    &&& cdc_avg_size(s.chunk_bits) < s.size < cdc_max_size(s.chunk_bits) ==> (cdc_is_cut(s)
        <==> gear_mask_edge(masks.1)(g))
    &&& s.size >= cdc_max_size(s.chunk_bits) ==> cdc_is_cut(s)
}

proof fn lemma_scan_step(before: FastCdcModel, sub: Seq<u8>, k: int)
    requires
        8 <= before.chunk_bits < 32,
        before.size >= cdc_min_size(before.chunk_bits),
        0 < k <= sub.len(),
    ensures
        scan_step(before, sub.take(k), k),
{
    lemma_cdc_sizes(before.chunk_bits);
    lemma_cdc_rolled(before, sub.take(k));
}

/// No chunk end in the next `n` bytes after `pos` clean ones makes `pos + n` clean ones.
proof fn lemma_extend(m0: FastCdcModel, buf: Seq<u8>, pos: int, n: int)
    requires
        0 <= pos,
        0 <= n,
        pos + n <= buf.len(),
        clean_until(m0, buf, pos),
        forall|k: int|
            0 < k <= n ==> !cdc_is_cut(
                #[trigger] rolled::<FastCDC>(
                    rolled::<FastCDC>(m0, buf.take(pos)),
                    buf.subrange(pos, pos + n).take(k),
                ),
            ),
    ensures
        clean_until(m0, buf, pos + n),
        rolled::<FastCDC>(m0, buf.take(pos + n)) == rolled::<FastCDC>(
            rolled::<FastCDC>(m0, buf.take(pos)),
            buf.subrange(pos, pos + n),
        ),
{
    let sub = buf.subrange(pos, pos + n);
    assert forall|j: int| 0 < j <= pos + n implies !cdc_is_cut(
        #[trigger] rolled::<FastCDC>(m0, buf.take(j)),
    ) by {
        if j > pos {
            lemma_rolled_resume::<FastCDC>(m0, buf, pos, n, j - pos);
        }
    }
    lemma_rolled_resume::<FastCDC>(m0, buf, pos, n, n);
    assert(sub.take(n) =~= sub);
}

/// A first chunk end `end` bytes after `pos` clean ones is the first chunk end of `buf`.
proof fn lemma_found(m0: FastCdcModel, buf: Seq<u8>, pos: int, n: int, end: int)
    requires
        0 <= pos,
        0 < end <= n,
        pos + n <= buf.len(),
        clean_until(m0, buf, pos),
        first_edge::<FastCDC>(
            rolled::<FastCDC>(m0, buf.take(pos)),
            buf.subrange(pos, pos + n),
            cdc_cut(),
            end,
        ),
    ensures
        first_edge::<FastCDC>(m0, buf, cdc_cut(), pos + end),
        rolled::<FastCDC>(m0, buf.take(pos + end)) == rolled::<FastCDC>(
            rolled::<FastCDC>(m0, buf.take(pos)),
            buf.subrange(pos, pos + n).take(end),
        ),
{
    assert forall|j: int| 0 < j < pos + end implies !cdc_cut()(
        #[trigger] rolled::<FastCDC>(m0, buf.take(j)),
    ) by {
        if j > pos {
            lemma_rolled_resume::<FastCDC>(m0, buf, pos, n, j - pos);
        }
    }
    lemma_rolled_resume::<FastCDC>(m0, buf, pos, n, end);
}

/// Up to the smallest chunk size no chunk ends: `n` more bytes that stay within it leave
/// `pos + n` clean ones, and the state is the one reached by rolling them.
proof fn lemma_quiet_stretch(m0: FastCdcModel, buf: Seq<u8>, pos: int, n: int)
    requires
        0 <= pos,
        0 <= n,
        pos + n <= buf.len(),
        8 <= m0.chunk_bits < 32,
        clean_until(m0, buf, pos),
        m0.size + pos + n <= cdc_min_size(m0.chunk_bits),
    ensures
        clean_until(m0, buf, pos + n),
        rolled::<FastCDC>(m0, buf.take(pos + n)).chunk_bits == m0.chunk_bits,
        rolled::<FastCDC>(m0, buf.take(pos + n)).size == m0.size + pos + n,
        m0.size + pos + n <= cdc_ignore_size(m0.chunk_bits) ==> rolled::<FastCDC>(
            m0,
            buf.take(pos + n),
        ).digest == rolled::<FastCDC>(m0, buf.take(pos)).digest,
        m0.size + pos >= cdc_ignore_size(m0.chunk_bits) ==> rolled::<FastCDC>(
            m0,
            buf.take(pos + n),
        ).digest == rolled::<Gear>(
            gear_of(rolled::<FastCDC>(m0, buf.take(pos))),
            buf.subrange(pos, pos + n),
        ).digest,
{
    let before = rolled::<FastCDC>(m0, buf.take(pos));
    let sub = buf.subrange(pos, pos + n);
    lemma_cdc_rolled(m0, buf.take(pos));
    assert forall|j: int| 0 < j <= pos + n implies !cdc_is_cut(
        #[trigger] rolled::<FastCDC>(m0, buf.take(j)),
    ) by {
        lemma_cdc_rolled(m0, buf.take(j));
    }
    lemma_rolled_resume::<FastCDC>(m0, buf, pos, n, n);
    assert(sub.take(n) =~= sub);
    lemma_cdc_rolled(before, sub);
}

/// The hash state of a chunker's state.
pub open spec fn gear_of(m: FastCdcModel) -> GearModel {
    GearModel { digest: m.digest, chunk_bits: m.chunk_bits }
}

/// What rolling does to a chunker: the size grows by the number of bytes; the accumulator
/// stays while the bytes are not hashed, and moves as the hash's does once they are.
pub proof fn lemma_cdc_rolled(m: FastCdcModel, data: Seq<u8>)
    ensures
        rolled::<FastCDC>(m, data).chunk_bits == m.chunk_bits,
        rolled::<FastCDC>(m, data).size == m.size + data.len(),
        m.size + data.len() <= cdc_ignore_size(m.chunk_bits) ==> rolled::<FastCDC>(m, data).digest
            == m.digest,
        m.size >= cdc_ignore_size(m.chunk_bits) ==> rolled::<FastCDC>(m, data).digest
            == rolled::<Gear>(gear_of(m), data).digest,
    decreases data.len(),
{
    if data.len() > 0 {
        lemma_cdc_rolled(m, data.drop_last());
    }
}

/// Passing over the first bytes of a chunk loses nothing: from the smallest chunk size on,
/// the accumulator is the digest that a new Gear engine reports after the whole chunk, and
/// so after its last 64 bytes.
pub proof fn lemma_cdc_digest_is_gear_digest(chunk_bits: u32, chunk: Seq<u8>)
    requires
        8 <= chunk_bits < 32,
        chunk.len() >= cdc_min_size(chunk_bits),
    ensures
        rolled::<FastCDC>(cdc_fresh(chunk_bits), chunk).digest == rolled::<Gear>(
            gear_fresh(chunk_bits),
            chunk,
        ).digest,
        rolled::<FastCDC>(cdc_fresh(chunk_bits), chunk).digest == rolled::<Gear>(
            gear_fresh(chunk_bits),
            chunk.subrange(chunk.len() - 64, chunk.len() as int),
        ).digest,
{
    lemma_cdc_sizes(chunk_bits);
    let skipped = cdc_ignore_size(chunk_bits) as int;
    let head = chunk.take(skipped);
    let tail = chunk.subrange(skipped, chunk.len() as int);
    let fresh = cdc_fresh(chunk_bits);
    assert(chunk =~= head + tail);
    lemma_rolled_concat::<FastCDC>(fresh, head, tail);
    lemma_cdc_rolled(fresh, head);
    lemma_cdc_rolled(rolled::<FastCDC>(fresh, head), tail);
    lemma_rolled_concat::<Gear>(gear_fresh(chunk_bits), head, tail);
    lemma_gear_linear(gear_fresh(chunk_bits), head);
    lemma_gear_flush(rolled::<Gear>(gear_fresh(chunk_bits), head), gear_fresh(chunk_bits), tail);
    lemma_gear_windowed_independence(gear_fresh(chunk_bits), chunk);
}

/// A chunk ends beyond the smallest chunk size and at the largest at the latest: where
/// `end` bytes after state `m` end the chunk, the chunk's size lies within these bounds.
pub proof fn lemma_cdc_size_bounds(m: FastCdcModel, data: Seq<u8>, end: int)
    requires
        8 <= m.chunk_bits < 32,
        m.size < cdc_max_size(m.chunk_bits),
        first_edge::<FastCDC>(m, data, cdc_cut(), end),
    ensures
        cdc_min_size(m.chunk_bits) < m.size + end <= cdc_max_size(m.chunk_bits),
{
    lemma_cdc_rolled(m, data.take(end));
    if m.size + end > cdc_max_size(m.chunk_bits) {
        let at_max = cdc_max_size(m.chunk_bits) - m.size;
        lemma_cdc_rolled(m, data.take(at_max));
        lemma_cdc_sizes(m.chunk_bits);
        assert(cdc_cut()(rolled::<FastCDC>(m, data.take(at_max))));
    }
}

/// The stricter mask holds two bits more than the chunk size has, the looser two fewer.
pub proof fn lemma_cdc_mask_bits(chunk_bits: u32)
    requires
        8 <= chunk_bits < 32,
    ensures
        popcount(cdc_masks(chunk_bits).0) == chunk_bits + 2,
        popcount(cdc_masks(chunk_bits).1) == chunk_bits - 2,
{
    if chunk_bits == 13 {
        lemma_paper_mask_bits();
    } else {
        lemma_seed_zero_reaches((chunk_bits + 2) as nat);
        lemma_seed_zero_reaches((chunk_bits - 2) as nat);
        lemma_generated_mask_popcount(0, (chunk_bits + 2) as nat);
        lemma_generated_mask_popcount(0, (chunk_bits - 2) as nat);
    }
}

/// The published masks hold 15 and 11 bits.
proof fn lemma_paper_mask_bits()
    ensures
        popcount(PAPER_MASK_SHORT) == 15,
        popcount(PAPER_MASK_LONG) == 11,
{
    reveal_with_fuel(popcount, 9);
    assert(popcount(0x3u64) == 2);
    assert(popcount(0x359u64) == 6);
    assert(popcount(0x35907u64) == 9);
    assert(popcount(0x3590703u64) == 11);
    assert(popcount(0x359070353u64) == 15);
    assert(popcount(0x35907035300u64) == 15);
    assert(popcount(0x3590703530000u64) == 15);
    assert(popcount(0xd9u64) == 5);
    assert(popcount(0xd900u64) == 5);
    assert(popcount(0xd90003u64) == 7);
    assert(popcount(0xd9000353u64) == 11);
    assert(popcount(0xd900035300u64) == 11);
    assert(popcount(0xd90003530000u64) == 11);
}

/// A chunker that was reset goes on as a new chunker of the same chunk size does.
pub proof fn lemma_cdc_reset_is_new(m: FastCdcModel, data: Seq<u8>)
    ensures
        rolled::<FastCDC>(FastCDC::cleared(m), data) == rolled::<FastCDC>(
            cdc_fresh(m.chunk_bits),
            data,
        ),
{
}

/// The sizes of a configuration lie in order and fit in 64 bits.
pub proof fn lemma_cdc_sizes(chunk_bits: u32)
    requires
        8 <= chunk_bits < 32,
    ensures
        64 <= cdc_min_size(chunk_bits) < cdc_avg_size(chunk_bits) < cdc_max_size(chunk_bits),
        cdc_max_size(chunk_bits) <= 0x4_0000_0000,
        cdc_ignore_size(chunk_bits) == cdc_min_size(chunk_bits) - 64,
{
    lemma2_to64();
    lemma2_to64_rest();
    if chunk_bits > 8 {
        lemma_pow2_strictly_increases(6, (chunk_bits - 2) as nat);
    }
    lemma_pow2_strictly_increases((chunk_bits - 2) as nat, chunk_bits as nat);
    lemma_pow2_strictly_increases(chunk_bits as nat, (chunk_bits + 3) as nat);
    if chunk_bits < 31 {
        lemma_pow2_strictly_increases((chunk_bits + 3) as nat, 34);
    }
}

} // verus!
