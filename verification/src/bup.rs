use crate::engine::{answers, first_edge, last_window, no_edge, rolled, Engine, RollingState};
use vstd::prelude::*;
use vstd::std_specs::bits::u32_trailing_ones;

verus! {

/// Default chunk size (log2).
pub const CHUNK_BITS: u32 = 13;

/// Default chunk size.
pub const CHUNK_SIZE: u32 = 8192;

pub type Digest = u32;

const WINDOW_SIZE: usize = 64;

const CHAR_OFFSET: u32 = 31;

/// Rolling checksum over a window of the last 64 bytes: a plain sum and a sum of sums.
pub struct Bup {
    state: State,
    window: [u8; 64],
    wofs: usize,
    chunk_bits: u32,
}

struct State {
    s1: u32,
    s2: u32,
}

/// What a `Bup` engine is: the last 64 bytes, oldest first, and the configured chunk size.
pub ghost struct BupModel {
    pub window: Seq<u8>,
    pub chunk_bits: u32,
}

/// The sum of the bytes.
pub open spec fn byte_sum(w: Seq<u8>) -> int
    decreases w.len(),
{
    if w.len() == 0 {
        0
    } else {
        byte_sum(w.drop_last()) + w.last()
    }
}

/// The sum of the sums of all prefixes: each byte counted once for itself and once for
/// every byte after it.
pub open spec fn weighted_sum(w: Seq<u8>) -> int
    decreases w.len(),
{
    if w.len() == 0 {
        0
    } else {
        weighted_sum(w.drop_last()) + byte_sum(w)
    }
}

/// The first accumulator over a window: every byte, offset by 31.
pub open spec fn bup_s1(w: Seq<u8>) -> int {
    64 * 31 + byte_sum(w)
}

/// The second accumulator over a window.
pub open spec fn bup_s2(w: Seq<u8>) -> int {
    64 * 63 * 31 + weighted_sum(w)
}

/// The digest that two accumulators give: the first above the low 16 bits of the second.
pub open spec fn bup_combine(s1: u32, s2: u32) -> u32 {
    (s1 << 16) | (s2 & 0xffff)
}

/// The digest of a window.
pub open spec fn bup_digest(w: Seq<u8>) -> u32 {
    bup_combine(bup_s1(w) as u32, bup_s2(w) as u32)
}

/// The window with its oldest byte dropped and `byte` added as the newest.
pub open spec fn slide(w: Seq<u8>, byte: u8) -> Seq<u8> {
    w.drop_first().push(byte)
}

/// A window of 64 zero bytes.
pub open spec fn zero_window() -> Seq<u8> {
    Seq::new(64, |i: int| 0u8)
}

/// The state of a newly made engine.
pub open spec fn bup_fresh(chunk_bits: u32) -> BupModel {
    BupModel { window: zero_window(), chunk_bits }
}

/// The mask of the low `chunk_bits` bits.
pub open spec fn bup_mask(chunk_bits: u32) -> u32 {
    ((1u32 << chunk_bits) - 1) as u32
}

/// The default boundary condition: the low `chunk_bits` bits of the digest are all set.
pub open spec fn bup_is_edge(m: BupModel) -> bool {
    bup_digest(m.window) & bup_mask(m.chunk_bits) == bup_mask(m.chunk_bits)
}

/// The default boundary condition, as a predicate on states.
pub open spec fn bup_edge() -> spec_fn(BupModel) -> bool {
    |m: BupModel| bup_is_edge(m)
}

/// The bytes of a circular buffer from the cursor round to the cursor, oldest first.
pub open spec fn ordered_window(window: Seq<u8>, wofs: int) -> Seq<u8> {
    window.subrange(wofs, 64) + window.subrange(0, wofs)
}

impl State {
    spec fn sums(&self) -> (int, int) {
        (self.s1 as int, self.s2 as int)
    }

    spec fn shown_digest(&self) -> u32 {
        bup_combine(self.s1, self.s2)
    }

    /// The accumulators of a window of zero bytes.
    fn new() -> (state: State)
        ensures
            state.sums() == (bup_s1(zero_window()), bup_s2(zero_window())),
    {
        proof {
            lemma_zero_sums(64);
            assert(Seq::new(64, |i: int| 0u8) =~= zero_window());
        }
        State { s1: 64 * CHAR_OFFSET, s2: 64 * 63 * CHAR_OFFSET }
    }

    /// Moves the accumulators on as the byte `drop` leaves the window and `add` enters it.
    fn add(&mut self, drop: u8, add: u8)
        requires
            old(self).sums().0 + add <= u32::MAX,
            old(self).sums().0 + add - drop >= 0,
            old(self).sums().1 + old(self).sums().0 + add - drop <= u32::MAX,
            old(self).sums().1 + old(self).sums().0 + add - drop >= 64 * (drop + 31),
        ensures
            final(self).sums().0 == old(self).sums().0 + add - drop,
            final(self).sums().1 == old(self).sums().1 + final(self).sums().0 - 64 * (drop + 31),
    {
        self.s1 += add as u32;
        self.s1 -= drop as u32;
        self.s2 += self.s1;
        self.s2 -= 64 * (drop as u32 + CHAR_OFFSET);
    }

    fn digest(&self) -> (d: u32)
        ensures
            d == self.shown_digest(),
    {
        (self.s1 << 16) | (self.s2 & 0xffff)
    }
}

impl Default for Bup {
    fn default() -> (bup: Bup)
        ensures
            bup.wf(),
            bup.model() == bup_fresh(CHUNK_BITS),
    {
        Bup::new_with_chunk_bits(CHUNK_BITS)
    }
}

impl RollingState for Bup {
    type Model = BupModel;

    closed spec fn wf(&self) -> bool {
        &&& self.wofs < 64
        &&& self.chunk_bits < 32
        &&& self.state.sums() == (bup_s1(self.model().window), bup_s2(self.model().window))
    }

    closed spec fn model(&self) -> BupModel {
        BupModel {
            window: ordered_window(self.window@, self.wofs as int),
            chunk_bits: self.chunk_bits,
        }
    }

    open spec fn shows(&self, m: BupModel) -> bool {
        &&& self.shown_digest() == bup_digest(m.window)
        &&& self.model().chunk_bits == m.chunk_bits
    }

    open spec fn step(m: BupModel, byte: u8) -> BupModel {
        BupModel { window: slide(m.window, byte), chunk_bits: m.chunk_bits }
    }

    open spec fn cleared(m: BupModel) -> BupModel {
        bup_fresh(m.chunk_bits)
    }

    proof fn lemma_shows_own_model(&self) {
    }
}

impl Engine for Bup {
    type Digest = u32;

    open spec fn digest_of(m: BupModel) -> u32 {
        bup_digest(m.window)
    }

    fn roll_byte(&mut self, newch: u8) {
        let prevch = self.window[self.wofs];
        proof {
            let w = old(self).model().window;
            lemma_sums_slide(w, newch);
            lemma_sum_bounds(w);
            lemma_sum_bounds(slide(w, newch));
            lemma_write_slides(self.window@, self.wofs as int, newch);
        }
        self.window[self.wofs] = newch;
        self.state.add(prevch, newch);
        self.wofs = (self.wofs + 1) % WINDOW_SIZE;
    }

    fn roll(&mut self, buf: &[u8]) {
        let start: usize = if buf.len() > WINDOW_SIZE {
            buf.len() - WINDOW_SIZE
        } else {
            0
        };
        let mut i: usize = start;
        while i < buf.len()
            invariant
                start <= i <= buf.len(),
                self.wf(),
                self.model() == rolled::<Bup>(
                    old(self).model(),
                    buf@.subrange(start as int, i as int),
                ),
            decreases buf.len() - i,
        {
            self.roll_byte(buf[i]);
            proof {
                assert(buf@.subrange(start as int, i + 1).drop_last() =~= buf@.subrange(
                    start as int,
                    i as int,
                ));
            }
            i = i + 1;
        }
        proof {
            assert(buf@.subrange(start as int, i as int) =~= last_window(buf@, 64));
            lemma_bup_window(old(self).model(), buf@);
        }
    }

    fn digest(&self) -> (d: u32)
        ensures
            d == self.shown_digest(),
    {
        self.state.digest()
    }

    fn reset(&mut self) {
        self.clear();
    }

    /// The accumulators run ahead of the window: `cond` is asked about an engine that
    /// reports the digest of the bytes rolled so far, and the window takes the bytes in
    /// once, at the end, and only where no boundary was found.
    fn find_chunk_edge_cond<F>(&mut self, buf: &[u8], cond: F) -> (edge: Option<(usize, u32)>)
        where F: Fn(&Self) -> bool
    {
        let ghost m0 = old(self).model();
        let mut i: usize = 0;
        while i < buf.len()
            invariant
                i <= buf.len(),
                old(self).wf(),
                m0 == old(self).model(),
                self.window == old(self).window,
                self.wofs == old(self).wofs,
                self.chunk_bits == old(self).chunk_bits,
                self.state.sums() == (
                    bup_s1(rolled::<Bup>(m0, buf@.take(i as int)).window),
                    bup_s2(rolled::<Bup>(m0, buf@.take(i as int)).window),
                ),
                forall|e: &Self| #[trigger] cond.requires((e,)),
                forall|j: int|
                    0 < j <= i ==> answers::<Self, F>(
                        cond,
                        #[trigger] rolled::<Bup>(m0, buf@.take(j)),
                        false,
                    ),
            decreases buf.len() - i,
        {
            // The byte that leaves: from the window for the first 64, then from `buf` itself.
            let outgoing = if i < WINDOW_SIZE {
                self.window[(self.wofs + i) % WINDOW_SIZE]
            } else {
                buf[i - WINDOW_SIZE]
            };
            let incoming = buf[i];
            proof {
                let before = buf@.take(i as int);
                let w = rolled::<Bup>(m0, before).window;
                lemma_bup_rolled_window(m0, before);
                assert(buf@.take(i + 1).drop_last() =~= before);
                assert(w.len() == 64);
                assert(w[0] == outgoing);
                lemma_sums_slide(w, incoming);
                lemma_sum_bounds(w);
                lemma_sum_bounds(slide(w, incoming));
                assert(weighted_sum(w) <= 255 * 64 * 64);
            }
            self.state.add(outgoing, incoming);
            proof {
                lemma_bup_rolled_window(m0, buf@.take(i + 1));
                assert(self.shows(rolled::<Bup>(m0, buf@.take(i + 1))));
            }
            if cond(&*self) {
                let digest = self.digest();
                self.clear();
                return Some((i + 1, digest));
            }
            i = i + 1;
        }
        proof {
            assert(buf@.take(i as int) =~= buf@);
            lemma_bup_rolled_window(m0, buf@);
        }
        self.add_to_window(buf);
        None
    }
}

impl Bup {
    /// The digest that the engine reports.
    pub closed spec fn shown_digest(&self) -> u32 {
        self.state.shown_digest()
    }

    /// A new engine with the default chunk size.
    pub fn new() -> (bup: Bup)
        ensures
            bup.wf(),
            bup.model() == bup_fresh(CHUNK_BITS),
    {
        Bup::new_with_chunk_bits(CHUNK_BITS)
    }

    /// A new engine whose boundary condition asks for `chunk_bits` one bits.
    pub fn new_with_chunk_bits(chunk_bits: u32) -> (bup: Bup)
        requires
            chunk_bits < 32,
        ensures
            bup.wf(),
            bup.model() == bup_fresh(chunk_bits),
    {
        let bup = Bup { state: State::new(), window: [0u8; 64], wofs: 0, chunk_bits };
        proof {
            assert(ordered_window(bup.window@, 0) =~= zero_window());
        }
        bup
    }

    /// Rolls `buf` until the default boundary condition holds.
    ///
    /// On a boundary, returns the number of bytes consumed and the digest there, and the
    /// engine starts afresh. Without one, the whole of `buf` has been rolled.
    pub fn find_chunk_edge(&mut self, buf: &[u8]) -> (edge: Option<(usize, u32)>)
        requires
            old(self).wf(),
        ensures
            final(self).wf(),
            match edge {
                Some((end, digest)) => {
                    &&& first_edge::<Bup>(old(self).model(), buf@, bup_edge(), end as int)
                    &&& digest == bup_digest(
                        rolled::<Bup>(old(self).model(), buf@.take(end as int)).window,
                    )
                    &&& final(self).model() == bup_fresh(old(self).model().chunk_bits)
                },
                None => {
                    &&& no_edge::<Bup>(old(self).model(), buf@, bup_edge())
                    &&& final(self).model() == rolled::<Bup>(old(self).model(), buf@)
                },
            },
    {
        let chunk_bits = self.chunk_bits;
        proof {
            assert((1u32 << chunk_bits) >= 1) by (bit_vector)
                requires
                    chunk_bits < 32,
            ;
        }
        let chunk_mask: u32 = (1u32 << chunk_bits) - 1;
        let cond = |e: &Bup| -> (hit: bool)
            ensures
                hit == (e.shown_digest() & chunk_mask == chunk_mask),
            { e.digest() & chunk_mask == chunk_mask };
        let edge = self.find_chunk_edge_cond(buf, cond);
        proof {
            let m0 = old(self).model();
            assert forall|j: int| 0 < j <= buf.len() implies #[trigger] rolled::<Bup>(
                m0,
                buf@.take(j),
            ).chunk_bits == chunk_bits by {
                lemma_bup_rolled_window(m0, buf@.take(j));
            }
            assert(buf@.take(buf.len() as int) =~= buf@);
        }
        edge
    }

    /// The number of one bits that the digest of a boundary ends in, not counting the bit
    /// just above the `chunk_bits` that the boundary condition asked for.
    pub fn count_bits(&self, digest: u32) -> (bits: u32)
        requires
            self.wf(),
        ensures
            bits == u32_trailing_ones((digest >> self.model().chunk_bits) >> 1u32)
                + self.model().chunk_bits,
    {
        let rsum = digest >> self.chunk_bits;
        let rsum = rsum >> 1;
        proof {
            vstd::std_specs::bits::axiom_u32_trailing_ones(rsum);
        }
        rsum.trailing_ones() + self.chunk_bits
    }

    /// The window, oldest byte first.
    pub fn window_ordered(&self) -> (window: [u8; 64])
        requires
            self.wf(),
        ensures
            window@ == self.model().window,
    {
        let mut result = [0u8; 64];
        let mut k: usize = 0;
        while k < WINDOW_SIZE
            invariant
                k <= 64,
                self.wofs < 64,
                forall|j: int| 0 <= j < k ==> result@[j] == self.model().window[j],
            decreases 64 - k,
        {
            result[k] = self.window[(self.wofs + k) % WINDOW_SIZE];
            k = k + 1;
        }
        proof {
            assert(result@ =~= self.model().window);
        }
        result
    }

    fn clear(&mut self)
        requires
            old(self).chunk_bits < 32,
        ensures
            final(self).wf(),
            final(self).model() == bup_fresh(old(self).chunk_bits),
    {
        let chunk_bits = self.chunk_bits;
        *self = Bup::new_with_chunk_bits(chunk_bits);
    }

    /// Takes `new_data` into the window, leaving the accumulators as they are.
    fn add_to_window(&mut self, new_data: &[u8])
        requires
            old(self).wofs < 64,
        ensures
            final(self).wofs < 64,
            final(self).state == old(self).state,
            final(self).chunk_bits == old(self).chunk_bits,
            final(self).model().window == (old(self).model().window + new_data@).subrange(
                new_data.len() as int,
                new_data.len() as int + 64,
            ),
    {
        if new_data.len() < WINDOW_SIZE {
            let mut k: usize = 0;
            while k < new_data.len()
                invariant
                    k <= new_data.len(),
                    self.wofs < 64,
                    old(self).wofs < 64,
                    self.state == old(self).state,
                    self.chunk_bits == old(self).chunk_bits,
                    self.model().window == (old(self).model().window + new_data@.take(
                        k as int,
                    )).subrange(k as int, k + 64),
                decreases new_data.len() - k,
            {
                proof {
                    lemma_write_slides(self.window@, self.wofs as int, new_data[k as int]);
                    assert(slide(self.model().window, new_data[k as int]) =~= (old(
                        self,
                    ).model().window + new_data@.take(k + 1)).subrange(k + 1, k + 1 + 64));
                }
                self.window[self.wofs] = new_data[k];
                self.wofs = (self.wofs + 1) % WINDOW_SIZE;
                k = k + 1;
            }
            proof {
                assert(new_data@.take(k as int) =~= new_data@);
            }
        } else {
            self.wofs = 0;
            let start: usize = new_data.len() - WINDOW_SIZE;
            let mut k: usize = 0;
            while k < WINDOW_SIZE
                invariant
                    k <= 64,
                    start + 64 == new_data.len(),
                    self.wofs == 0,
                    self.state == old(self).state,
                    self.chunk_bits == old(self).chunk_bits,
                    forall|j: int| 0 <= j < k ==> self.window@[j] == new_data@[start + j],
                decreases 64 - k,
            {
                self.window[k] = new_data[start + k];
                k = k + 1;
            }
            proof {
                assert(self.model().window =~= (old(self).model().window + new_data@).subrange(
                    new_data.len() as int,
                    new_data.len() as int + 64,
                ));
            }
        }
    }
}

/// Writing at the cursor and moving the cursor on slides the window.
proof fn lemma_write_slides(window: Seq<u8>, wofs: int, byte: u8)
    requires
        window.len() == 64,
        0 <= wofs < 64,
    ensures
        ordered_window(window.update(wofs, byte), (wofs + 1) % 64) == slide(
            ordered_window(window, wofs),
            byte,
        ),
        ordered_window(window, wofs)[0] == window[wofs],
{
    assert(ordered_window(window.update(wofs, byte), (wofs + 1) % 64) =~= slide(
        ordered_window(window, wofs),
        byte,
    ));
}

/// The sums of a run of zero bytes are zero.
proof fn lemma_zero_sums(n: nat)
    ensures
        byte_sum(Seq::new(n, |i: int| 0u8)) == 0,
        weighted_sum(Seq::new(n, |i: int| 0u8)) == 0,
    decreases n,
{
    if n > 0 {
        lemma_zero_sums((n - 1) as nat);
        assert(Seq::new(n, |i: int| 0u8).drop_last() =~= Seq::new((n - 1) as nat, |i: int| 0u8));
    }
}

/// Both sums are bounded by the length of the sequence.
pub proof fn lemma_sum_bounds(w: Seq<u8>)
    ensures
        0 <= byte_sum(w) <= 255 * w.len(),
        0 <= weighted_sum(w) <= 255 * w.len() * w.len(),
    decreases w.len(),
{
    if w.len() > 0 {
        lemma_sum_bounds(w.drop_last());
        let n = w.len() as int;
        assert(255 * (n - 1) * (n - 1) + 255 * n <= 255 * n * n) by (nonlinear_arith)
            requires
                n >= 1,
        ;
    }
}

/// What the sums lose with the first byte.
proof fn lemma_sums_drop_first(w: Seq<u8>)
    requires
        w.len() > 0,
    ensures
        byte_sum(w.drop_first()) == byte_sum(w) - w[0],
        weighted_sum(w.drop_first()) == weighted_sum(w) - w.len() * w[0],
    decreases w.len(),
{
    if w.len() == 1 {
        assert(w.drop_first() =~= Seq::<u8>::empty());
        assert(w.drop_last() =~= Seq::<u8>::empty());
    } else {
        lemma_sums_drop_first(w.drop_last());
        assert(w.drop_first().drop_last() =~= w.drop_last().drop_first());
        let n = w.len() as int;
        let f = w[0] as int;
        assert((n - 1) * f + f == n * f) by (nonlinear_arith);
    }
}

/// How the sums move as a window of 64 bytes slides by one byte.
pub proof fn lemma_sums_slide(w: Seq<u8>, byte: u8)
    requires
        w.len() == 64,
    ensures
        bup_s1(slide(w, byte)) == bup_s1(w) + byte - w[0],
        bup_s2(slide(w, byte)) == bup_s2(w) + bup_s1(slide(w, byte)) - 64 * (w[0] + 31),
{
    lemma_sums_drop_first(w);
    assert(slide(w, byte).drop_last() =~= w.drop_first());
}

/// The window after rolling `data` holds the last 64 bytes of the old window followed by
/// `data`.
pub proof fn lemma_bup_rolled_window(m: BupModel, data: Seq<u8>)
    requires
        m.window.len() == 64,
    ensures
        rolled::<Bup>(m, data).chunk_bits == m.chunk_bits,
        rolled::<Bup>(m, data).window == (m.window + data).subrange(
            data.len() as int,
            data.len() as int + 64,
        ),
    decreases data.len(),
{
    if data.len() == 0 {
        assert(m.window =~= (m.window + data).subrange(0, 64));
    } else {
        lemma_bup_rolled_window(m, data.drop_last());
        assert(slide(
            (m.window + data.drop_last()).subrange(data.len() - 1, data.len() - 1 + 64),
            data.last(),
        ) =~= (m.window + data).subrange(data.len() as int, data.len() as int + 64));
    }
}

/// After 64 bytes or more, the state, and so the digest, is the one that a new engine has
/// after the last 64 of them alone.
pub proof fn lemma_bup_windowed_independence(m: BupModel, data: Seq<u8>)
    requires
        m.window.len() == 64,
        data.len() >= 64,
    ensures
        rolled::<Bup>(m, data) == rolled::<Bup>(
            bup_fresh(m.chunk_bits),
            data.subrange(data.len() - 64, data.len() as int),
        ),
        rolled::<Bup>(m, data).window == data.subrange(data.len() - 64, data.len() as int),
{
    let tail = data.subrange(data.len() - 64, data.len() as int);
    lemma_bup_rolled_window(m, data);
    lemma_bup_rolled_window(bup_fresh(m.chunk_bits), tail);
    assert((m.window + data).subrange(data.len() as int, data.len() as int + 64) =~= tail);
    assert((zero_window() + tail).subrange(tail.len() as int, tail.len() as int + 64) =~= tail);
}

/// An engine that was reset goes on as a new engine of the same chunk size does.
pub proof fn lemma_bup_reset_is_new(m: BupModel, data: Seq<u8>)
    ensures
        rolled::<Bup>(Bup::cleared(m), data) == rolled::<Bup>(bup_fresh(m.chunk_bits), data),
{
}

/// Only the last 64 bytes rolled decide the state.
pub proof fn lemma_bup_window(m: BupModel, data: Seq<u8>)
    requires
        m.window.len() == 64,
    ensures
        rolled::<Bup>(m, data) == rolled::<Bup>(m, last_window(data, 64)),
{
    let tail = last_window(data, 64);
    lemma_bup_rolled_window(m, data);
    lemma_bup_rolled_window(m, tail);
    assert((m.window + data).subrange(data.len() as int, data.len() as int + 64) =~= (m.window
        + tail).subrange(tail.len() as int, tail.len() as int + 64));
}

} // verus!
