//! Magic bitboards for sliding pieces.
//!
//! For each square and each slider (rook, bishop) the tables hold a relevant
//! occupancy mask, a multiplier, a shift and an offset into a flat table of
//! attack sets, so that the attack set for an occupancy is one load:
//! `attacks[offset + ((occ & mask) * magic) >> shift]`.
//!
//! The multipliers come from a seeded pseudo-random stream. Every candidate is
//! checked against every subset of the mask before it is accepted, so a table
//! built here is correct whatever the stream produced; the stream only decides
//! whether a multiplier is found within the attempt budget.
use vstd::arithmetic::power2::{lemma2_to64, lemma_pow2_adds, lemma_pow2_pos, lemma_pow2_unfold, pow2};
use vstd::bits::{lemma_u64_pow2_no_overflow, lemma_u64_shl_is_mul};
use vstd::prelude::*;

use rand::rngs::SmallRng;
use rand::RngCore;
use rand::SeedableRng;

use crate::bitboard::{bit, group_bitboard, holds, lowest, lemma_bits_ext, lemma_squares_finite, popcount, squares, Bitboard};

verus! {

broadcast use group_bitboard;

#[verifier::external_type_specification]
#[verifier::external_body]
pub struct ExSmallRng(SmallRng);

/// Relies on rand's `SeedableRng::seed_from_u64` for `SmallRng`: a generator
/// whose stream is fixed by the seed.
#[verifier::external_body]
fn seeded_rng(seed: u64) -> SmallRng {
    SmallRng::seed_from_u64(seed)
}

/// Relies on rand's `RngCore::next_u64` for `SmallRng`: the next word of the
/// stream. Nothing is assumed of its value.
#[verifier::external_body]
fn next_word(rng: &mut SmallRng) -> u64 {
    rng.next_u64()
}

/// The number of one bits of the word.
fn count_ones(x: u64) -> (r: u32)
    ensures
        r as nat == popcount(x),
{
    let mut rest = Bitboard(x);
    let mut c: u32 = 0;
    proof {
        lemma_squares_finite(x);
    }
    while rest.0 != 0
        invariant
            c as nat + popcount(rest.0) == popcount(x),
            popcount(x) <= 64,
        decreases rest.0,
    {
        proof {
            lemma_squares_finite(rest.0);
        }
        rest.pop_lsb();
        c += 1;
    }
    proof {
        assert(squares(rest.0) =~= Set::<int>::empty());
    }
    c
}

/// A candidate multiplier spreads the mask over the top byte: at least six
/// bits of `mask * magic` (modulo 2^64) fall in bits 56-63.
pub open spec fn dense_enough(mask: u64, magic: u64) -> bool {
    popcount(mul_wrap(mask, magic) & 0xFF00_0000_0000_0000u64) >= 6
}

/// No two occupancies with different attack sets share a slot under `magic`.
pub open spec fn no_conflict(occs: Seq<u64>, atts: Seq<u64>, mask: u64, magic: u64, shift: u64) -> bool {
    forall|a: int, b: int|
        0 <= a < occs.len() && 0 <= b < occs.len() && #[trigger] slot(mask, magic, shift, occs[a])
            == #[trigger] slot(mask, magic, shift, occs[b]) ==> atts[a] == atts[b]
}

/// The seed of square `sq`'s search stream: a fixed function of the square,
/// so every run searches the same candidates.
pub fn seed_for(sq: usize) -> (r: u64)
    requires
        sq < 64,
    ensures
        r == 0xD10FAu64 ^ ((sq as u64) * 0xD10BE571Au64) as u64,
{
    0xD10FA ^ ((sq as u64) * 0xD10BE571A)
}

/// Entries of the flat rook table: the sum over the squares of
/// `2^popcount(rook mask)`.
pub const ROOK_MAP_SIZE: usize = 102400;

/// Entries of the flat bishop table: the sum over the squares of
/// `2^popcount(bishop mask)`.
pub const BISHOP_MAP_SIZE: usize = 5248;

/// `x` with its `k` lowest squares removed.
pub open spec fn drop_lowest(x: u64, k: nat) -> u64
    decreases k,
{
    if k == 0 {
        x
    } else {
        let y = drop_lowest(x, (k - 1) as nat);
        y & ((y - 1) as u64)
    }
}

/// The `k`-th lowest square of `mask`, counting from 0.
pub open spec fn nth_square(mask: u64, k: nat) -> int {
    lowest(drop_lowest(mask, k))
}

/// Bit `k` of the index `i`.
pub open spec fn index_bit(i: int, k: nat) -> bool {
    (i / pow2(k) as int) % 2 == 1
}

/// Adding `2^bits` to an index below `2^bits` sets bit `bits` and keeps the
/// lower bits.
proof fn lemma_index_bits(j: int, bits: nat, k: nat)
    requires
        0 <= j < pow2(bits),
        k <= bits,
    ensures
        k < bits ==> index_bit(j + pow2(bits), k) == index_bit(j, k),
        k == bits ==> index_bit(j + pow2(bits), k) && !index_bit(j, k),
{
    let p = pow2(k) as int;
    let m = pow2((bits - k) as nat) as int;
    lemma_pow2_pos(k);
    lemma_pow2_adds(k, (bits - k) as nat);
    assert(pow2(bits) == p * m);
    let q = j / p;
    let r = j % p;
    assert(j == q * p + r && 0 <= r < p) by {
        vstd::arithmetic::div_mod::lemma_fundamental_div_mod(j, p);
    }
    assert(j + pow2(bits) == (q + m) * p + r) by (nonlinear_arith)
        requires
            j == q * p + r,
            pow2(bits) == p * m,
    ;
    vstd::arithmetic::div_mod::lemma_fundamental_div_mod_converse(j + pow2(bits), p, q + m, r);
    if k < bits {
        lemma_pow2_unfold((bits - k) as nat);
        assert(m == 2 * pow2((bits - k - 1) as nat));
    } else {
        assert(m == 1) by {
            vstd::arithmetic::power2::lemma2_to64();
        }
        assert(q == 0) by {
            vstd::arithmetic::div_mod::lemma_fundamental_div_mod_converse(j, p, 0, j);
        }
    }
}

/// Attempts allowed to the search for one square's multiplier.
const MAX_ATTEMPTS: u64 = 10_000_000;

/// The squares a slider on (`r`, `f`) reaches by stepping (`dr`, `df`) at most
/// `fuel` times: each square up to and including the first occupied one, or
/// up to the edge.
pub open spec fn walk(r: int, f: int, dr: int, df: int, occ: u64, fuel: nat) -> u64
    decreases fuel,
{
    if fuel == 0 || r < 0 || r >= 8 || f < 0 || f >= 8 {
        0
    } else {
        let b = 1u64 << ((r * 8 + f) as u64);
        if holds(occ, r * 8 + f) {
            b
        } else {
            b | walk(r + dr, f + df, dr, df, occ, (fuel - 1) as nat)
        }
    }
}

/// The reference attack set of a rook (or, with `bishop`, a bishop) on `s`
/// under occupancy `occ`: the four rays walked outward from `s`.
pub open spec fn slider_attacks(s: int, bishop: bool, occ: u64) -> u64 {
    let r = s / 8;
    let f = s % 8;
    if bishop {
        walk(r + 1, f + 1, 1, 1, occ, 7) | walk(r + 1, f - 1, 1, -1, occ, 7) | walk(
            r - 1,
            f + 1,
            -1,
            1,
            occ,
            7,
        ) | walk(r - 1, f - 1, -1, -1, occ, 7)
    } else {
        walk(r, f + 1, 0, 1, occ, 7) | walk(r + 1, f, 1, 0, occ, 7) | walk(r, f - 1, 0, -1, occ, 7)
            | walk(r - 1, f, -1, 0, occ, 7)
    }
}

/// Square `t` sits on an outer rank or file that does not hold `s`.
pub open spec fn on_far_edge(s: int, t: int) -> bool {
    ((t / 8 == 0 || t / 8 == 7) && t / 8 != s / 8) || ((t % 8 == 0 || t % 8 == 7) && t % 8 != s
        % 8)
}

/// Square `t` is in the relevant mask of a slider on `s`: on one of its empty-board
/// rays, and not on a far edge.
pub open spec fn relevant(s: int, bishop: bool, t: int) -> bool {
    holds(slider_attacks(s, bishop, 0), t) && !on_far_edge(s, t)
}

/// Every square of `a` is in `b`.
pub open spec fn subset_of(a: u64, b: u64) -> bool {
    forall|t: int| #[trigger] holds(a, t) ==> holds(b, t)
}

/// `x * y` modulo 2^64.
pub open spec fn mul_wrap(x: u64, y: u64) -> u64 {
    ((x as nat * y as nat) % 0x1_0000_0000_0000_0000nat) as u64
}

/// Slot of occupancy `occ` in a square's block.
pub open spec fn slot(mask: u64, magic: u64, shift: u64, occ: u64) -> int {
    (mul_wrap(occ & mask, magic) >> shift) as int
}

/// Entries that the first `n` squares' blocks take: the sum of
/// `2^popcount(mask)` over them.
pub open spec fn block_total(masks: Seq<Bitboard>, n: int) -> nat
    decreases n,
{
    if n <= 0 {
        0
    } else {
        block_total(masks, n - 1) + pow2(popcount(masks[n - 1].0))
    }
}

/// The lookup tables for one slider.
pub struct SliderTable {
    pub masks: Vec<Bitboard>,
    pub magics: Vec<u64>,
    pub shifts: Vec<u64>,
    pub offsets: Vec<usize>,
    pub attacks: Vec<Bitboard>,
}

impl SliderTable {
    /// 64 zero masks, multipliers, shifts and offsets, and `size` zero entries.
    pub open spec fn zeroed(&self, size: nat) -> bool {
        &&& self.masks@.len() == 64
        &&& self.magics@.len() == 64
        &&& self.shifts@.len() == 64
        &&& self.offsets@.len() == 64
        &&& self.attacks@.len() == size
        &&& forall|s: int| 0 <= s < 64 ==> #[trigger] self.masks@[s].0 == 0
        &&& forall|s: int| 0 <= s < 64 ==> #[trigger] self.magics@[s] == 0
        &&& forall|s: int| 0 <= s < 64 ==> #[trigger] self.shifts@[s] == 0
        &&& forall|s: int| 0 <= s < 64 ==> #[trigger] self.offsets@[s] == 0
        &&& forall|i: int| 0 <= i < size ==> #[trigger] self.attacks@[i].0 == 0
    }

    /// A zeroed table with `size` attack entries.
    fn zeroed_table(size: usize) -> (r: SliderTable)
        ensures
            r.zeroed(size as nat),
    {
        let mut masks: Vec<Bitboard> = Vec::new();
        let mut magics: Vec<u64> = Vec::new();
        let mut shifts: Vec<u64> = Vec::new();
        let mut offsets: Vec<usize> = Vec::new();
        let mut i: usize = 0;
        while i < 64
            invariant
                i <= 64,
                masks@.len() == i,
                magics@.len() == i,
                shifts@.len() == i,
                offsets@.len() == i,
                forall|s: int| 0 <= s < i ==> #[trigger] masks@[s] == Bitboard(0),
                forall|s: int| 0 <= s < i ==> #[trigger] magics@[s] == 0,
                forall|s: int| 0 <= s < i ==> #[trigger] shifts@[s] == 0,
                forall|s: int| 0 <= s < i ==> #[trigger] offsets@[s] == 0,
            decreases 64 - i,
        {
            masks.push(Bitboard(0));
            magics.push(0);
            shifts.push(0);
            offsets.push(0);
            i += 1;
        }
        let mut attacks: Vec<Bitboard> = Vec::new();
        let mut k: usize = 0;
        while k < size
            invariant
                k <= size,
                attacks@.len() == k,
                forall|j: int| 0 <= j < k ==> #[trigger] attacks@[j] == Bitboard(0),
            decreases size - k,
        {
            attacks.push(Bitboard(0));
            k += 1;
        }
        SliderTable { masks, magics, shifts, offsets, attacks }
    }

    /// What the lookup yields for square `s` and occupancy `occ`.
    pub open spec fn lookup_spec(&self, s: int, occ: u64) -> u64 {
        self.attacks@[self.offsets@[s] + slot(
            self.masks@[s].0,
            self.magics@[s],
            self.shifts@[s],
            occ,
        )].0
    }

    /// Shape: one mask, multiplier, shift and offset per square, the masks the
    /// relevant ones, and each square's block of `2^(64 - shift)` entries inside
    /// the flat table.
    pub open spec fn wf(&self, bishop: bool) -> bool {
        &&& self.masks@.len() == 64
        &&& self.magics@.len() == 64
        &&& self.shifts@.len() == 64
        &&& self.offsets@.len() == 64
        &&& forall|s: int, t: int|
            0 <= s < 64 ==> #[trigger] holds(self.masks@[s].0, t) == relevant(s, bishop, t)
        &&& forall|s: int|
            0 <= s < 64 ==> {
                &&& 1 <= #[trigger] self.shifts@[s] <= 63
                &&& self.shifts@[s] == 64 - popcount(self.masks@[s].0)
                &&& self.offsets@[s] + pow2((64 - self.shifts@[s]) as nat) <= self.attacks@.len()
                &&& self.offsets@[s] == block_total(self.masks@, s)
            }
        &&& self.attacks@.len() == block_total(self.masks@, 64)
    }

    /// Every square's lookup gives the reference attack set, for every
    /// occupancy made of squares of its mask.
    pub open spec fn correct(&self, bishop: bool) -> bool {
        forall|s: int, occ: u64|
            0 <= s < 64 && #[trigger] (occ & self.masks@[s].0) == occ ==> self.lookup_spec(s, occ)
                == slider_attacks(s, bishop, occ)
    }

    /// The attack set for square `sq` under occupancy `occ`: mask, multiply,
    /// shift, add the offset, load.
    pub fn lookup(&self, bishop: bool, sq: usize, occ: u64) -> (r: u64)
        requires
            self.wf(bishop),
            sq < 64,
        ensures
            r == self.lookup_spec(sq as int, occ),
    {
        let mask = self.masks[sq].0;
        let magic = self.magics[sq];
        let shift = self.shifts[sq];
        let idx = (occ & mask).wrapping_mul(magic) >> shift;
        let offset = self.offsets[sq];
        let len = self.attacks.len();
        proof {
            assert(1 <= self.shifts@[sq as int] <= 63);
            lemma_shr_bound(mul_wrap(occ & mask, magic), shift);
            assert(idx == slot(mask, magic, shift, occ));
        }
        self.attacks[offset + idx as usize].0
    }
}

proof fn lemma_shr_bound_bv(x: u64, shift: u64)
    by (bit_vector)
    requires
        1 <= shift <= 63,
    ensures
        x >> shift < (1u64 << ((64 - shift) as u64)),
{
}

/// Shifting a word right by `shift` leaves fewer than `2^(64 - shift)` values.
proof fn lemma_shr_bound(x: u64, shift: u64)
    requires
        1 <= shift <= 63,
    ensures
        (x >> shift) < pow2((64 - shift) as nat),
{
    let k = (64 - shift) as u64;
    lemma_shr_bound_bv(x, shift);
    lemma_u64_pow2_no_overflow(k as nat);
    lemma_u64_shl_is_mul(1, k);
}

/// A relevant mask holds at least one square and misses at least one.
#[verifier::spinoff_prover]
proof fn lemma_mask_size(m: u64, s: int, bishop: bool)
    requires
        0 <= s < 64,
        forall|t: int| #[trigger] holds(m, t) == relevant(s, bishop, t),
    ensures
        1 <= popcount(m) <= 63,
{
    lemma_squares_finite(m);
    let r = s / 8;
    let f = s % 8;
    let dr: int = if r <= 3 { 1 } else { -1 };
    let df: int = if f <= 3 { 1 } else { -1 };
    let t: int = if bishop { (r + dr) * 8 + f + df } else { r * 8 + f + df };
    if bishop {
        assert(holds(walk(r + dr, f + df, dr, df, 0, 7), t));
    } else {
        assert(holds(walk(r, f + df, 0, df, 0, 7), t));
    }
    assert(holds(slider_attacks(s, bishop, 0), t));
    assert(squares(m).contains(t));
    let t0: int = if r == 0 { 63 } else { 0 };
    assert(!holds(m, t0));
    let all = vstd::set_lib::set_int_range(0, 64).remove(t0);
    vstd::set_lib::lemma_int_range(0, 64);
    assert(squares(m).subset_of(all));
    vstd::set_lib::lemma_len_subset(squares(m), all);
}

/// Magic tables for both sliders.
pub struct MagicTables {
    pub rook: SliderTable,
    pub bishop: SliderTable,
    /// A multiplier was found for every square of both sliders.
    pub complete: bool,
}

impl MagicTables {
    pub open spec fn wf(&self) -> bool {
        &&& self.rook.wf(false)
        &&& self.bishop.wf(true)
        &&& self.complete ==> self.rook.correct(false) && self.bishop.correct(true)
    }

    /// Zeroed tables of the fixed sizes: 64 masks, multipliers, shifts and
    /// offsets per slider, 102,400 rook and 5,248 bishop attack entries.
    /// `generate_magics` fills them.
    pub fn new() -> (r: Self)
        ensures
            !r.complete,
            r.rook.zeroed(ROOK_MAP_SIZE as nat),
            r.bishop.zeroed(BISHOP_MAP_SIZE as nat),
    {
        MagicTables {
            rook: SliderTable::zeroed_table(ROOK_MAP_SIZE),
            bishop: SliderTable::zeroed_table(BISHOP_MAP_SIZE),
            complete: false,
        }
    }

    /// Zeroed tables filled by the magic search.
    pub fn build() -> (r: Self)
        ensures
            r.wf(),
    {
        let mut t = Self::new();
        t.generate_magics();
        t
    }

    /// Computes the relevant masks, searches a multiplier for every square of
    /// both sliders and fills the flat attack tables. `complete` tells whether
    /// every search succeeded.
    pub fn generate_magics(&mut self)
        requires
            old(self).rook.masks@.len() == 64,
            old(self).bishop.masks@.len() == 64,
        ensures
            final(self).wf(),
    {
        self.init_relevant_occupancy_masks();
        let (rook, rook_ok) = Self::search_loop(false, &self.rook.masks);
        let (bishop, bishop_ok) = Self::search_loop(true, &self.bishop.masks);
        self.rook = rook;
        self.bishop = bishop;
        self.complete = rook_ok && bishop_ok;
    }

    /// Sets every square's rook and bishop mask to its relevant squares.
    pub fn init_relevant_occupancy_masks(&mut self)
        requires
            old(self).rook.masks@.len() == 64,
            old(self).bishop.masks@.len() == 64,
        ensures
            final(self).rook.masks@.len() == 64,
            final(self).bishop.masks@.len() == 64,
            forall|s: int, t: int|
                0 <= s < 64 ==> #[trigger] holds(final(self).rook.masks@[s].0, t) == relevant(
                    s,
                    false,
                    t,
                ),
            forall|s: int, t: int|
                0 <= s < 64 ==> #[trigger] holds(final(self).bishop.masks@[s].0, t) == relevant(
                    s,
                    true,
                    t,
                ),
    {
        let mut sq: usize = 0;
        while sq < 64
            invariant
                sq <= 64,
                self.rook.masks@.len() == 64,
                self.bishop.masks@.len() == 64,
                forall|s: int, t: int|
                    0 <= s < sq ==> #[trigger] holds(self.rook.masks@[s].0, t) == relevant(
                        s,
                        false,
                        t,
                    ),
                forall|s: int, t: int|
                    0 <= s < sq ==> #[trigger] holds(self.bishop.masks@[s].0, t) == relevant(
                        s,
                        true,
                        t,
                    ),
            decreases 64 - sq,
        {
            let rm = Self::relevant_occupancy_mask(sq, false);
            let bm = Self::relevant_occupancy_mask(sq, true);
            self.rook.masks.set(sq, Bitboard(rm));
            self.bishop.masks.set(sq, Bitboard(bm));
            sq += 1;
        }
    }

    /// The relevant occupancy mask of a slider on `sq`: its empty-board
    /// attacks without the far edges.
    fn relevant_occupancy_mask(sq: usize, bishop: bool) -> (r: u64)
        requires
            sq < 64,
        ensures
            forall|t: int| #[trigger] holds(r, t) == relevant(sq as int, bishop, t),
    {
        let rank_edges = (Bitboard::rank_1().0 | Bitboard::rank_8().0) & !Bitboard::square_to_rank(
            sq,
        ).0;
        let file_edges = (Bitboard::file_A().0 | Bitboard::file_H().0) & !Bitboard::square_to_file(
            sq,
        ).0;
        let edges = rank_edges | file_edges;
        let rays = Self::sliding_attack(sq, bishop, 0);
        let r = rays & !edges;
        assert forall|t: int| #[trigger] holds(r, t) == relevant(sq as int, bishop, t) by {
            if 0 <= t < 64 {
                let tu = t as u64;
                assert(bit(0xFFu64 | 0xFF00_0000_0000_0000u64, tu) == (tu / 8 == 0 || tu / 8 == 7))
                    by (bit_vector)
                    requires
                        tu < 64,
                ;
                assert(bit(0x0101_0101_0101_0101u64 | 0x8080_8080_8080_8080u64, tu) == (tu % 8 == 0
                    || tu % 8 == 7)) by (bit_vector)
                    requires
                        tu < 64,
                ;
            }
        }
        r
    }

    /// One ray of a slider, walked from (`r`, `f`) in steps of (`dr`, `df`).
    fn ray(r: i8, f: i8, dr: i8, df: i8, occ: u64, fuel: u8) -> (res: u64)
        requires
            -1 <= r <= 8,
            -1 <= f <= 8,
            -1 <= dr <= 1,
            -1 <= df <= 1,
        ensures
            res == walk(r as int, f as int, dr as int, df as int, occ, fuel as nat),
        decreases fuel,
    {
        if fuel == 0 || r < 0 || r >= 8 || f < 0 || f >= 8 {
            return 0;
        }
        let sq = (r * 8 + f) as u64;
        let b = 1u64 << sq;
        if (occ >> sq) & 1 == 1 {
            b
        } else {
            b | Self::ray(r + dr, f + df, dr, df, occ, fuel - 1)
        }
    }

    /// The attack set of a rook (or, with `bishop`, a bishop) on `sq` under
    /// occupancy `occ`, by walking its four rays.
    fn sliding_attack(sq: usize, bishop: bool, occ: u64) -> (r: u64)
        requires
            sq < 64,
        ensures
            r == slider_attacks(sq as int, bishop, occ),
    {
        let r = (sq / 8) as i8;
        let f = (sq % 8) as i8;
        if bishop {
            Self::ray(r + 1, f + 1, 1, 1, occ, 7) | Self::ray(r + 1, f - 1, 1, -1, occ, 7) | Self::ray(
                r - 1,
                f + 1,
                -1,
                1,
                occ,
                7,
            ) | Self::ray(r - 1, f - 1, -1, -1, occ, 7)
        } else {
            Self::ray(r, f + 1, 0, 1, occ, 7) | Self::ray(r + 1, f, 1, 0, occ, 7) | Self::ray(
                r,
                f - 1,
                0,
                -1,
                occ,
                7,
            ) | Self::ray(r - 1, f, -1, 0, occ, 7)
        }
    }

    /// Every subset of `mask`, each once: `2^popcount(mask)` occupancies,
    /// where bit `i` of an entry's index selects the `i`-th lowest square of the mask.
    #[verifier::spinoff_prover]
    fn enumerate_occupancies(mask: u64) -> (r: Vec<u64>)
        ensures
            r@.len() == pow2(popcount(mask)),
            forall|i: int| 0 <= i < r@.len() ==> subset_of(#[trigger] r@[i], mask),
            forall|occ: u64| #[trigger]
                subset_of(occ, mask) ==> exists|i: int| 0 <= i < r@.len() && r@[i] == occ,
            forall|a: int, b: int| 0 <= a < b < r@.len() ==> #[trigger] r@[a] != #[trigger] r@[b],
            r@[0] == 0,
            forall|i: int, t: int|
                0 <= i < r@.len() ==> #[trigger] holds(r@[i], t) == exists|k: nat|
                    k < popcount(mask) && t == nth_square(mask, k) && #[trigger] index_bit(i, k),
    {
        let mut occs: Vec<u64> = Vec::new();
        occs.push(0);
        let mut rest = Bitboard(mask);
        let mut done: u64 = 0;
        let ghost mut bits: nat = 0;
        proof {
            lemma_squares_finite(mask);
            assert(squares(0u64) =~= Set::<int>::empty());
            assert(pow2(0) == 1) by {
                lemma2_to64();
            }
            assert forall|occ: u64| #[trigger] subset_of(occ, done) implies exists|i: int|
                0 <= i < occs@.len() && occs@[i] == occ by {
                assert forall|t: int| 0 <= t < 64 implies holds(occ, t) == holds(0u64, t) by {
                    assert(!holds(done, t));
                }
                lemma_bits_ext(occ, 0);
                assert(occs@[0] == occ);
            }
        }
        while rest.0 != 0
            invariant
                forall|t: int| #[trigger] holds(mask, t) == (holds(done, t) || holds(rest.0, t)),
                forall|t: int| !(#[trigger] holds(done, t) && holds(rest.0, t)),
                occs@.len() == pow2(bits),
                bits + popcount(rest.0) == popcount(mask),
                forall|i: int| 0 <= i < occs@.len() ==> subset_of(#[trigger] occs@[i], done),
                forall|occ: u64| #[trigger]
                    subset_of(occ, done) ==> exists|i: int| 0 <= i < occs@.len() && occs@[i] == occ,
                forall|a: int, b: int| 0 <= a < b < occs@.len() ==> #[trigger] occs@[a] != #[trigger] occs@[b],
                occs@[0] == 0,
                occs@.len() >= 1,
                rest.0 == drop_lowest(mask, bits),
                forall|i: int, t: int|
                    0 <= i < occs@.len() ==> #[trigger] holds(occs@[i], t) == exists|k: nat|
                        k < bits && t == nth_square(mask, k) && #[trigger] index_bit(i, k),
            decreases rest.0,
        {
            proof {
                lemma_squares_finite(rest.0);
                crate::bitboard::lemma_lowest(rest.0);
            }
            let ghost rest_before = rest.0;
            let s = rest.pop_lsb();
            proof {
                assert(rest.0 == drop_lowest(mask, bits + 1));
                assert(s == nth_square(mask, bits));
            }
            let bit_s: u64 = 1u64 << (s as u64);
            let n = occs.len();
            let ghost before = occs@;
            let mut i: usize = 0;
            while i < n
                invariant
                    n == before.len(),
                    i <= n,
                    occs@.len() == n + i,
                    forall|j: int| 0 <= j < n ==> #[trigger] occs@[j] == before[j],
                    forall|j: int| 0 <= j < i ==> #[trigger] occs@[n + j] == before[j] | bit_s,
                decreases n - i,
            {
                let o = occs[i];
                occs.push(o | bit_s);
                i += 1;
            }
            let ghost old_done = done;
            done = done | bit_s;
            proof {
                let b0 = bits;
                assert forall|i: int, t: int| 0 <= i < occs@.len() implies #[trigger] holds(occs@[i], t)
                    == exists|k: nat| k < b0 + 1 && t == nth_square(mask, k) && #[trigger] index_bit(i, k) by {
                    if i < n {
                        lemma_index_bits(i, b0, b0);
                        if holds(occs@[i], t) {
                            let k = choose|k: nat| k < b0 && t == nth_square(mask, k) && #[trigger] index_bit(i, k);
                            assert(k < b0 + 1 && t == nth_square(mask, k) && index_bit(i, k));
                        }
                        if exists|k: nat| k < b0 + 1 && t == nth_square(mask, k) && #[trigger] index_bit(i, k) {
                            let k = choose|k: nat| k < b0 + 1 && t == nth_square(mask, k) && #[trigger] index_bit(i, k);
                            assert(k != b0);
                            assert(k < b0 && t == nth_square(mask, k) && index_bit(i, k));
                            assert(holds(before[i], t));
                        }
                    } else {
                        let j = i - n;
                        assert(occs@[n + j] == before[j] | bit_s);
                        assert(holds(occs@[i], t) == (holds(before[j], t) || t == s as int));
                        lemma_index_bits(j, b0, b0);
                        if holds(before[j], t) {
                            let k = choose|k: nat| k < b0 && t == nth_square(mask, k) && #[trigger] index_bit(j, k);
                            lemma_index_bits(j, b0, k);
                            assert(k < b0 + 1 && t == nth_square(mask, k) && index_bit(i, k));
                        }
                        if t == s as int {
                            assert(b0 < b0 + 1 && t == nth_square(mask, b0) && index_bit(i, b0));
                        }
                        if exists|k: nat| k < b0 + 1 && t == nth_square(mask, k) && #[trigger] index_bit(i, k) {
                            let k = choose|k: nat| k < b0 + 1 && t == nth_square(mask, k) && #[trigger] index_bit(i, k);
                            lemma_index_bits(j, b0, k);
                            if k < b0 {
                                assert(k < b0 && t == nth_square(mask, k) && index_bit(j, k));
                                assert(holds(before[j], t));
                            }
                        }
                    }
                }
                assert(!holds(old_done, s as int));
                assert(occs@[0] == before[0]);
                assert forall|a: int, b: int| 0 <= a < b < occs@.len() implies #[trigger] occs@[a] != #[trigger] occs@[b] by {
                    if b >= n {
                        assert(occs@[n + (b - n)] == before[b - n] | bit_s);
                        assert(subset_of(before[b - n], old_done));
                        assert(holds(occs@[b], s as int));
                        if a < n {
                            assert(subset_of(before[a], old_done));
                            assert(!holds(occs@[a], s as int));
                        } else {
                            assert(occs@[n + (a - n)] == before[a - n] | bit_s);
                            assert(subset_of(before[a - n], old_done));
                            if occs@[a] == occs@[b] {
                                assert forall|t: int| 0 <= t < 64 implies #[trigger] holds(before[a - n], t) == holds(before[b - n], t) by {
                                    assert(holds(occs@[a], t) == holds(occs@[b], t));
                                    if t == s as int {
                                        assert(!holds(before[a - n], t) && !holds(before[b - n], t));
                                    }
                                }
                                lemma_bits_ext(before[a - n], before[b - n]);
                            }
                        }
                    }
                }
                bits = bits + 1;
                lemma_pow2_unfold(bits);
                assert forall|k: int| 0 <= k < occs@.len() implies subset_of(#[trigger] occs@[k], done) by {
                    if k >= n {
                        assert(occs@[n + (k - n)] == before[k - n] | bit_s);
                        assert(subset_of(before[k - n], old_done));
                    } else {
                        assert(subset_of(before[k], old_done));
                    }
                }
                assert forall|occ: u64| #[trigger] subset_of(occ, done) implies exists|k: int|
                    0 <= k < occs@.len() && occs@[k] == occ by {
                    if holds(occ, s as int) {
                        let o2 = occ ^ bit_s;
                        assert forall|t: int| #[trigger] holds(o2, t) implies holds(old_done, t) by {
                            assert(holds(occ, t));
                        }
                        assert(subset_of(o2, old_done));
                        let k = choose|k: int| 0 <= k < before.len() && before[k] == o2;
                        assert forall|t: int| 0 <= t < 64 implies holds(o2 | bit_s, t) == holds(occ, t) by {}
                        lemma_bits_ext(o2 | bit_s, occ);
                        assert(occs@[n + k] == occ);
                    } else {
                        assert forall|t: int| #[trigger] holds(occ, t) implies holds(old_done, t) by {
                            assert(holds(done, t));
                        }
                        assert(subset_of(occ, old_done));
                        let k = choose|k: int| 0 <= k < before.len() && before[k] == occ;
                        assert(occs@[k] == occ);
                    }
                }
            }
        }
        proof {
            assert(squares(rest.0) =~= Set::<int>::empty());
            assert forall|occ: u64| #[trigger] subset_of(occ, mask) implies subset_of(occ, done) by {
                assert forall|t: int| #[trigger] holds(occ, t) implies holds(done, t) by {
                    assert(holds(mask, t));
                }
            }
            assert forall|i: int| 0 <= i < occs@.len() implies subset_of(#[trigger] occs@[i], mask) by {
                assert(subset_of(occs@[i], done));
                assert forall|t: int| #[trigger] holds(occs@[i], t) implies holds(mask, t) by {
                    assert(holds(done, t));
                }
            }
        }
        occs
    }

    /// The reference attack set for each given occupancy of a slider on `square`.
    fn attacks_for_square(square: usize, bishop: bool, occupancies: &Vec<u64>) -> (r: Vec<u64>)
        requires
            square < 64,
        ensures
            r@.len() == occupancies@.len(),
            forall|i: int|
                0 <= i < r@.len() ==> #[trigger] r@[i] == slider_attacks(
                    square as int,
                    bishop,
                    occupancies@[i],
                ),
    {
        let mut r: Vec<u64> = Vec::new();
        let mut i: usize = 0;
        while i < occupancies.len()
            invariant
                square < 64,
                i <= occupancies@.len(),
                r@.len() == i,
                forall|j: int|
                    0 <= j < i ==> #[trigger] r@[j] == slider_attacks(
                        square as int,
                        bishop,
                        occupancies@[j],
                    ),
            decreases occupancies@.len() - i,
        {
            r.push(Self::sliding_attack(square, bishop, occupancies[i]));
            i += 1;
        }
        r
    }

    /// Sparse candidate: three draws of the stream combined with AND.
    fn sparse_random(rng: &mut SmallRng) -> u64 {
        let a = next_word(rng);
        let b = next_word(rng);
        let c = next_word(rng);
        a & b & c
    }

    /// Tries `magic` on one square. A candidate whose product with the mask
    /// has fewer than six bits in its top byte is refused at once; otherwise
    /// `temp` (of `2^(64 - shift)` slots) is filled with the attack set of each
    /// occupancy at its slot, and the candidate is refused on two occupancies
    /// with different attack sets sharing a slot.
    #[verifier::spinoff_prover]
    fn try_magic(
        occs: &Vec<u64>,
        atts: &Vec<u64>,
        mask: u64,
        magic: u64,
        shift: u64,
        temp: &mut Vec<Option<u64>>,
    ) -> (ok: bool)
        requires
            1 <= shift <= 63,
            atts@.len() == occs@.len(),
            old(temp)@.len() == pow2((64 - shift) as nat),
        ensures
            final(temp)@.len() == old(temp)@.len(),
            ok == (dense_enough(mask, magic) && no_conflict(occs@, atts@, mask, magic, shift)),
            ok ==> forall|i: int|
                0 <= i < occs@.len() ==> final(temp)@[#[trigger] slot(mask, magic, shift, occs@[i])]
                    == Some(atts@[i]),
    {
        if count_ones(mask.wrapping_mul(magic) & 0xFF00_0000_0000_0000) < 6 {
            return false;
        }
        let mut k: usize = 0;
        while k < temp.len()
            invariant
                temp@.len() == old(temp)@.len(),
                k <= temp@.len(),
                forall|j: int| 0 <= j < k ==> #[trigger] temp@[j] is None,
            decreases temp@.len() - k,
        {
            temp[k] = None;
            k += 1;
        }
        let mut i: usize = 0;
        while i < occs.len()
            invariant
                1 <= shift <= 63,
                atts@.len() == occs@.len(),
                temp@.len() == old(temp)@.len(),
                temp@.len() == pow2((64 - shift) as nat),
                i <= occs@.len(),
                forall|j: int|
                    0 <= j < i ==> temp@[#[trigger] slot(mask, magic, shift, occs@[j])] == Some(
                        atts@[j],
                    ),
                forall|k: int|
                    0 <= k < temp@.len() && #[trigger] temp@[k] is Some ==> exists|j: int|
                        0 <= j < i && slot(mask, magic, shift, occs@[j]) == k && temp@[k] == Some(
                            atts@[j],
                        ),
            decreases occs@.len() - i,
        {
            let index = (occs[i] & mask).wrapping_mul(magic) >> shift;
            proof {
                lemma_shr_bound(mul_wrap(occs@[i as int] & mask, magic), shift);
            }
            assert(index == slot(mask, magic, shift, occs@[i as int]));
            let tlen = temp.len();
            assert(index < tlen);
            let idx = index as usize;
            match temp[idx] {
                None => {
                    let ghost prev = temp@;
                    temp[idx] = Some(atts[i]);
                    proof {
                        assert forall|j: int| 0 <= j < i + 1 implies temp@[#[trigger] slot(
                            mask,
                            magic,
                            shift,
                            occs@[j],
                        )] == Some(atts@[j]) by {
                            lemma_shr_bound(mul_wrap(occs@[j] & mask, magic), shift);
                            if j < i {
                                assert(prev[slot(mask, magic, shift, occs@[j])] == Some(atts@[j]));
                            }
                        }
                        assert forall|k: int|
                            0 <= k < temp@.len() && #[trigger] temp@[k] is Some implies exists|j: int|
                                0 <= j < i + 1 && slot(mask, magic, shift, occs@[j]) == k
                                    && temp@[k] == Some(atts@[j]) by {
                            if k == idx {
                                assert(slot(mask, magic, shift, occs@[i as int]) == k);
                            } else {
                                assert(prev[k] is Some);
                                let j = choose|j: int|
                                    0 <= j < i && slot(mask, magic, shift, occs@[j]) == k
                                        && prev[k] == Some(atts@[j]);
                                assert(slot(mask, magic, shift, occs@[j]) == k);
                            }
                        }
                    }
                },
                Some(existing) => {
                    if existing != atts[i] {
                        proof {
                            let j = choose|j: int|
                                0 <= j < i && slot(mask, magic, shift, occs@[j]) == idx
                                    && temp@[idx as int] == Some(atts@[j]);
                            assert(slot(mask, magic, shift, occs@[j]) == slot(
                                mask,
                                magic,
                                shift,
                                occs@[i as int],
                            ));
                            assert(atts@[j] != atts@[i as int]);
                        }
                        return false;
                    }
                },
            }
            i += 1;
        }
        proof {
            assert forall|a: int, b: int|
                0 <= a < occs@.len() && 0 <= b < occs@.len() && #[trigger] slot(mask, magic, shift, occs@[a])
                    == #[trigger] slot(mask, magic, shift, occs@[b]) implies atts@[a] == atts@[b] by {
                assert(temp@[slot(mask, magic, shift, occs@[a])] == Some(atts@[a]));
                assert(temp@[slot(mask, magic, shift, occs@[b])] == Some(atts@[b]));
            }
        }
        true
    }

    /// Searches a multiplier for every square of one slider and lays the
    /// squares' blocks out one after another in a flat table. The flag tells
    /// whether every square found one; the table is correct when it does.
    #[verifier::spinoff_prover]
    fn search_loop(bishop: bool, masks: &Vec<Bitboard>) -> (res: (SliderTable, bool))
        requires
            masks@.len() == 64,
            forall|s: int, t: int|
                0 <= s < 64 ==> #[trigger] holds(masks@[s].0, t) == relevant(s, bishop, t),
        ensures
            res.0.wf(bishop),
            res.0.masks@ == masks@,
            res.1 ==> res.0.correct(bishop),
    {
        let mut magics: Vec<u64> = Vec::new();
        let mut shifts: Vec<u64> = Vec::new();
        let mut offsets: Vec<usize> = Vec::new();
        let mut flat: Vec<Bitboard> = Vec::new();
        let mut all_found = true;
        let mut sq: usize = 0;
        while sq < 64
            invariant
                sq <= 64,
                masks@.len() == 64,
                magics@.len() == sq,
                shifts@.len() == sq,
                offsets@.len() == sq,
                forall|s: int, t: int|
                    0 <= s < 64 ==> #[trigger] holds(masks@[s].0, t) == relevant(s, bishop, t),
                forall|s: int|
                    0 <= s < sq ==> {
                        &&& 1 <= #[trigger] shifts@[s] <= 63
                        &&& shifts@[s] == 64 - popcount(masks@[s].0)
                        &&& offsets@[s] + pow2((64 - shifts@[s]) as nat) <= flat@.len()
                        &&& offsets@[s] == block_total(masks@, s)
                    },
                flat@.len() == block_total(masks@, sq as int),
                all_found ==> forall|s: int, occ: u64|
                    0 <= s < sq && #[trigger] (occ & masks@[s].0) == occ ==> flat@[offsets@[s]
                        + slot(masks@[s].0, magics@[s], shifts@[s], occ)].0 == slider_attacks(
                        s,
                        bishop,
                        occ,
                    ),
            decreases 64 - sq,
        {
            let mask = masks[sq].0;
            let bits = count_ones(mask);
            let occs = Self::enumerate_occupancies(mask);
            let atts = Self::attacks_for_square(sq, bishop, &occs);
            let size = occs.len();
            let offset = flat.len();
            proof {
                assert forall|t: int| #[trigger] holds(mask, t) == relevant(sq as int, bishop, t) by {
                    assert(holds(masks@[sq as int].0, t) == relevant(sq as int, bishop, t));
                }
                lemma_mask_size(mask, sq as int, bishop);
            }
            let shift: u64 = 64 - bits as u64;
            let mut temp: Vec<Option<u64>> = Vec::new();
            let mut k: usize = 0;
            while k < size
                invariant
                    k <= size,
                    temp@.len() == k,
                decreases size - k,
            {
                temp.push(None);
                k += 1;
            }
            let mut rng = seeded_rng(seed_for(sq));
            let mut found = false;
            let mut magic: u64 = 0;
            let mut attempt: u64 = 0;
            while attempt < MAX_ATTEMPTS && !found
                invariant
                    1 <= shift <= 63,
                    shift == 64 - popcount(mask),
                    temp@.len() == size,
                    size == pow2(popcount(mask)),
                    atts@.len() == occs@.len(),
                    occs@.len() == size,
                    found ==> forall|i: int|
                        0 <= i < occs@.len() ==> temp@[#[trigger] slot(mask, magic, shift, occs@[i])]
                            == Some(atts@[i]),
                decreases MAX_ATTEMPTS - attempt,
            {
                let candidate = Self::sparse_random(&mut rng);
                attempt += 1;
                if Self::try_magic(&occs, &atts, mask, candidate, shift, &mut temp) {
                    magic = candidate;
                    found = true;
                }
            }
            if !found {
                all_found = false;
            }
            let ghost flat_before = flat@;
            let mut k: usize = 0;
            while k < size
                invariant
                    k <= size,
                    temp@.len() == size,
                    flat@.len() == offset + k,
                    offset == flat_before.len(),
                    forall|j: int| 0 <= j < offset ==> #[trigger] flat@[j] == flat_before[j],
                    forall|j: int|
                        0 <= j < k ==> (#[trigger] temp@[j] matches Some(a) ==> flat@[offset + j].0
                            == a),
                decreases size - k,
            {
                let entry = match temp[k] {
                    Some(a) => a,
                    None => 0,
                };
                flat.push(Bitboard(entry));
                k += 1;
            }
            magics.push(magic);
            shifts.push(shift);
            offsets.push(offset);
            proof {
                if all_found {
                    assert forall|s: int, occ: u64|
                        0 <= s <= sq && #[trigger] (occ & masks@[s].0) == occ implies flat@[offsets@[s]
                            + slot(masks@[s].0, magics@[s], shifts@[s], occ)].0 == slider_attacks(
                            s,
                            bishop,
                            occ,
                        ) by {
                        if s == sq {
                            assert(subset_of(occ, mask)) by {
                                assert forall|t: int| #[trigger] holds(occ, t) implies holds(mask, t) by {
                                    assert(holds(occ & mask, t));
                                }
                            }
                            let i = choose|i: int| 0 <= i < occs@.len() && occs@[i] == occ;
                            assert(temp@[slot(mask, magic, shift, occs@[i])] == Some(atts@[i]));
                            lemma_shr_bound(mul_wrap(occ & mask, magic), shift);
                        } else {
                            lemma_shr_bound(mul_wrap(occ & masks@[s].0, magics@[s]), shifts@[s]);
                        }
                    }
                }
            }
            sq += 1;
        }
        let mut mask_copy: Vec<Bitboard> = Vec::new();
        let mut k: usize = 0;
        while k < 64
            invariant
                k <= 64,
                masks@.len() == 64,
                mask_copy@ == masks@.subrange(0, k as int),
            decreases 64 - k,
        {
            mask_copy.push(masks[k]);
            k += 1;
        }
        assert(mask_copy@ =~= masks@);
        assert forall|s: int| 0 <= s < 64 implies #[trigger] offsets@[s] == block_total(mask_copy@, s) by {
            assert(1 <= shifts@[s] <= 63);
        }
        let table = SliderTable { masks: mask_copy, magics, shifts, offsets, attacks: flat };
        (table, all_found)
    }
}

/// The magic lookup agrees with the reference ray walk, for rooks and for
/// bishops, on every square and every occupancy made of squares of that
/// square's mask, in tables whose search found every multiplier.
pub proof fn lemma_lookup_is_ray_walk(t: &MagicTables, s: int, occ: u64)
    requires
        t.wf(),
        t.complete,
        0 <= s < 64,
    ensures
        (occ & t.rook.masks@[s].0) == occ ==> t.rook.lookup_spec(s, occ) == slider_attacks(
            s,
            false,
            occ,
        ),
        (occ & t.bishop.masks@[s].0) == occ ==> t.bishop.lookup_spec(s, occ) == slider_attacks(
            s,
            true,
            occ,
        ),
{
}

/// Each flat table holds exactly one block of `2^popcount(mask)` entries per
/// square, laid end to end.
pub proof fn lemma_table_sizes(t: &MagicTables)
    requires
        t.wf(),
    ensures
        t.rook.attacks@.len() == block_total(t.rook.masks@, 64),
        t.bishop.attacks@.len() == block_total(t.bishop.masks@, 64),
{
}

/// A step component keeps a coordinate moving away from `c0`: ahead of it
/// for +1, behind it for -1, on it for 0.
pub open spec fn away(c: int, c0: int, d: int) -> bool {
    &&& d == 1 ==> c >= c0 + 1
    &&& d == -1 ==> c <= c0 - 1
    &&& d == 0 ==> c == c0
}

/// A walk reads the occupancy only on squares of the mask: every square it
/// passes before its last on-board square is relevant.
#[verifier::spinoff_prover]
proof fn lemma_walk_reads_mask(
    r: int,
    f: int,
    dr: int,
    df: int,
    occ: u64,
    m: u64,
    fuel: nat,
    r0: int,
    f0: int,
)
    requires
        -1 <= dr <= 1,
        -1 <= df <= 1,
        0 <= r0 < 8,
        0 <= f0 < 8,
        away(r, r0, dr),
        away(f, f0, df),
        forall|t: int|
            #[trigger] holds(walk(r, f, dr, df, 0, fuel), t) && !on_far_edge(r0 * 8 + f0, t) ==> holds(
                m,
                t,
            ),
    ensures
        walk(r, f, dr, df, occ & m, fuel) == walk(r, f, dr, df, occ, fuel),
    decreases fuel,
{
    if fuel == 0 || r < 0 || r >= 8 || f < 0 || f >= 8 {
    } else {
        let sq = r * 8 + f;
        let b = 1u64 << (sq as u64);
        let next_on = 0 <= r + dr < 8 && 0 <= f + df < 8;
        assert(sq / 8 == r && sq % 8 == f);
        assert(holds(walk(r, f, dr, df, 0, fuel), sq));
        if next_on {
            assert(!on_far_edge(r0 * 8 + f0, sq));
            assert(holds(m, sq));
            assert forall|t: int|
                #[trigger] holds(walk(r + dr, f + df, dr, df, 0, (fuel - 1) as nat), t) && !on_far_edge(
                    r0 * 8 + f0,
                    t,
                ) implies holds(m, t) by {
                assert(holds(walk(r, f, dr, df, 0, fuel), t));
            }
            lemma_walk_reads_mask(r + dr, f + df, dr, df, occ, m, (fuel - 1) as nat, r0, f0);
        } else {
            assert(walk(r + dr, f + df, dr, df, occ & m, (fuel - 1) as nat) == 0);
            assert(walk(r + dr, f + df, dr, df, occ, (fuel - 1) as nat) == 0);
            assert forall|t: int| 0 <= t < 64 implies holds(b | 0u64, t) == holds(b, t) by {}
            lemma_bits_ext(b | 0u64, b);
        }
    }
}

/// The reference attack set depends only on the occupancy of the relevant mask.
pub proof fn lemma_attacks_read_mask(s: int, bishop: bool, occ: u64, m: u64)
    requires
        0 <= s < 64,
        forall|t: int| #[trigger] holds(m, t) == relevant(s, bishop, t),
    ensures
        slider_attacks(s, bishop, occ & m) == slider_attacks(s, bishop, occ),
{
    let r = s / 8;
    let f = s % 8;
    assert(s == r * 8 + f);
    if bishop {
        lemma_walk_reads_mask(r + 1, f + 1, 1, 1, occ, m, 7, r, f);
        lemma_walk_reads_mask(r + 1, f - 1, 1, -1, occ, m, 7, r, f);
        lemma_walk_reads_mask(r - 1, f + 1, -1, 1, occ, m, 7, r, f);
        lemma_walk_reads_mask(r - 1, f - 1, -1, -1, occ, m, 7, r, f);
    } else {
        lemma_walk_reads_mask(r, f + 1, 0, 1, occ, m, 7, r, f);
        lemma_walk_reads_mask(r + 1, f, 1, 0, occ, m, 7, r, f);
        lemma_walk_reads_mask(r, f - 1, 0, -1, occ, m, 7, r, f);
        lemma_walk_reads_mask(r - 1, f, -1, 0, occ, m, 7, r, f);
    }
}

proof fn lemma_and_idempotent(x: u64, m: u64)
    ensures
        (x & m) & m == x & m,
{
    assert forall|t: int| 0 <= t < 64 implies holds((x & m) & m, t) == holds(x & m, t) by {}
    lemma_bits_ext((x & m) & m, x & m);
}

/// In tables whose search found every multiplier, the lookup gives the
/// reference attack set for every occupancy of the board.
pub proof fn lemma_lookup_any_occupancy(t: &MagicTables, s: int, occ: u64)
    requires
        t.wf(),
        t.complete,
        0 <= s < 64,
    ensures
        t.rook.lookup_spec(s, occ) == slider_attacks(s, false, occ),
        t.bishop.lookup_spec(s, occ) == slider_attacks(s, true, occ),
{
    let rm = t.rook.masks@[s].0;
    let bm = t.bishop.masks@[s].0;
    lemma_and_idempotent(occ, rm);
    lemma_and_idempotent(occ, bm);
    assert(slot(rm, t.rook.magics@[s], t.rook.shifts@[s], occ) == slot(
        rm,
        t.rook.magics@[s],
        t.rook.shifts@[s],
        occ & rm,
    ));
    assert(slot(bm, t.bishop.magics@[s], t.bishop.shifts@[s], occ) == slot(
        bm,
        t.bishop.magics@[s],
        t.bishop.shifts@[s],
        occ & bm,
    ));
    assert(t.rook.lookup_spec(s, occ & rm) == slider_attacks(s, false, occ & rm));
    assert(t.bishop.lookup_spec(s, occ & bm) == slider_attacks(s, true, occ & bm));
    assert forall|x: int| #[trigger] holds(rm, x) == relevant(s, false, x) by {}
    assert forall|x: int| #[trigger] holds(bm, x) == relevant(s, true, x) by {}
    lemma_attacks_read_mask(s, false, occ, rm);
    lemma_attacks_read_mask(s, true, occ, bm);
}

/// The square `k` steps of (`dr`, `df`) from (`r`, `f`) is on the board.
pub open spec fn on_ray(r: int, f: int, dr: int, df: int, k: int) -> bool {
    0 <= r + k * dr < 8 && 0 <= f + k * df < 8
}

/// The square `k` steps of (`dr`, `df`) from (`r`, `f`).
pub open spec fn ray_sq(r: int, f: int, dr: int, df: int, k: int) -> int {
    (r + k * dr) * 8 + (f + k * df)
}

/// The walk reaches the square `k` steps out: it is on the board, within the
/// fuel, and every square before it is on the board and empty.
pub open spec fn walk_reaches(r: int, f: int, dr: int, df: int, occ: u64, fuel: nat, k: int) -> bool {
    &&& 0 <= k < fuel
    &&& on_ray(r, f, dr, df, k)
    &&& clear_before(r, f, dr, df, occ, k)
}

/// The first `k` squares of the ray are on the board and empty.
pub open spec fn clear_before(r: int, f: int, dr: int, df: int, occ: u64, k: int) -> bool {
    forall|j: int| 0 <= j < k ==> #[trigger] on_ray(r, f, dr, df, j) && !holds(occ, ray_sq(r, f, dr, df, j))
}

proof fn lemma_ray_shift(r: int, f: int, dr: int, df: int, k: int)
    ensures
        on_ray(r + dr, f + df, dr, df, k) == on_ray(r, f, dr, df, k + 1),
        ray_sq(r + dr, f + df, dr, df, k) == ray_sq(r, f, dr, df, k + 1),
{
    assert((r + dr) + k * dr == r + (k + 1) * dr) by (nonlinear_arith);
    assert((f + df) + k * df == f + (k + 1) * df) by (nonlinear_arith);
}

/// The squares of a walk are exactly those it reaches.
#[verifier::spinoff_prover]
proof fn lemma_walk_members(r: int, f: int, dr: int, df: int, occ: u64, fuel: nat, t: int)
    ensures
        holds(walk(r, f, dr, df, occ, fuel), t) == exists|k: int|
            #[trigger] walk_reaches(r, f, dr, df, occ, fuel, k) && t == ray_sq(r, f, dr, df, k),
    decreases fuel,
{
    assert(on_ray(r, f, dr, df, 0) == (0 <= r < 8 && 0 <= f < 8)) by {
        assert(0 * dr == 0 && 0 * df == 0);
    }
    assert(ray_sq(r, f, dr, df, 0) == r * 8 + f) by {
        assert(0 * dr == 0 && 0 * df == 0);
    }
    if fuel == 0 || r < 0 || r >= 8 || f < 0 || f >= 8 {
        if exists|k: int| #[trigger] walk_reaches(r, f, dr, df, occ, fuel, k) && t == ray_sq(r, f, dr, df, k) {
            let k = choose|k: int| #[trigger] walk_reaches(r, f, dr, df, occ, fuel, k) && t == ray_sq(r, f, dr, df, k);
            if k > 0 {
                assert(on_ray(r, f, dr, df, 0) && !holds(occ, ray_sq(r, f, dr, df, 0)));
            }
        }
    } else {
        let sq = r * 8 + f;
        if holds(occ, sq) {
            if exists|k: int| #[trigger] walk_reaches(r, f, dr, df, occ, fuel, k) && t == ray_sq(r, f, dr, df, k) {
                let k = choose|k: int| #[trigger] walk_reaches(r, f, dr, df, occ, fuel, k) && t == ray_sq(r, f, dr, df, k);
                if k > 0 {
                    assert(!holds(occ, ray_sq(r, f, dr, df, 0)));
                }
            }
            if t == sq {
                assert(walk_reaches(r, f, dr, df, occ, fuel, 0));
            }
        } else {
            lemma_walk_members(r + dr, f + df, dr, df, occ, (fuel - 1) as nat, t);
            if t == sq {
                assert(walk_reaches(r, f, dr, df, occ, fuel, 0));
            }
            if holds(walk(r + dr, f + df, dr, df, occ, (fuel - 1) as nat), t) {
                let k = choose|k: int|
                    #[trigger] walk_reaches(r + dr, f + df, dr, df, occ, (fuel - 1) as nat, k) && t == ray_sq(
                        r + dr,
                        f + df,
                        dr,
                        df,
                        k,
                    );
                lemma_ray_shift(r, f, dr, df, k);
                assert forall|j: int| 0 <= j < k + 1 implies #[trigger] on_ray(r, f, dr, df, j) && !holds(
                    occ,
                    ray_sq(r, f, dr, df, j),
                ) by {
                    if j > 0 {
                        lemma_ray_shift(r, f, dr, df, j - 1);
                        assert(on_ray(r + dr, f + df, dr, df, j - 1) && !holds(occ, ray_sq(r + dr, f + df, dr, df, j - 1)));
                    } else {
                        assert(on_ray(r, f, dr, df, 0) && !holds(occ, ray_sq(r, f, dr, df, 0)));
                    }
                }
                assert(on_ray(r, f, dr, df, k + 1));
                assert(0 <= k + 1 < fuel);
                assert(clear_before(r, f, dr, df, occ, k + 1));
                assert(walk_reaches(r, f, dr, df, occ, fuel, k + 1));
            }
            if exists|k: int| #[trigger] walk_reaches(r, f, dr, df, occ, fuel, k) && t == ray_sq(r, f, dr, df, k) {
                let k = choose|k: int| #[trigger] walk_reaches(r, f, dr, df, occ, fuel, k) && t == ray_sq(r, f, dr, df, k);
                if k > 0 {
                    lemma_ray_shift(r, f, dr, df, k - 1);
                    assert forall|j: int| 0 <= j < k - 1 implies #[trigger] on_ray(r + dr, f + df, dr, df, j) && !holds(
                        occ,
                        ray_sq(r + dr, f + df, dr, df, j),
                    ) by {
                        lemma_ray_shift(r, f, dr, df, j);
                        assert(on_ray(r, f, dr, df, j + 1) && !holds(occ, ray_sq(r, f, dr, df, j + 1)));
                    }
                    assert(on_ray(r + dr, f + df, dr, df, k - 1));
                    assert(0 <= k - 1 < fuel - 1);
                    assert(clear_before(r + dr, f + df, dr, df, occ, k - 1));
                    assert(walk_reaches(r + dr, f + df, dr, df, occ, (fuel - 1) as nat, k - 1));
                }
            }
        }
    }
}

/// Walking back from the `k`-th square of a ray retraces it.
proof fn lemma_ray_reflect(ra: int, fa: int, dr: int, df: int, k: int, j: int)
    ensures
        ray_sq((ra + dr) + k * dr - dr, (fa + df) + k * df - df, -dr, -df, j) == ray_sq(
            ra + dr,
            fa + df,
            dr,
            df,
            k - 1 - j,
        ),
        on_ray((ra + dr) + k * dr - dr, (fa + df) + k * df - df, -dr, -df, j) == on_ray(
            ra + dr,
            fa + df,
            dr,
            df,
            k - 1 - j,
        ),
        ray_sq((ra + dr) + k * dr - dr, (fa + df) + k * df - df, -dr, -df, k) == ra * 8 + fa,
        on_ray((ra + dr) + k * dr - dr, (fa + df) + k * df - df, -dr, -df, k) == (0 <= ra < 8 && 0 <= fa < 8),
{
    assert((ra + dr) + k * dr - dr + j * (-dr) == (ra + dr) + (k - 1 - j) * dr) by (nonlinear_arith);
    assert((fa + df) + k * df - df + j * (-df) == (fa + df) + (k - 1 - j) * df) by (nonlinear_arith);
    assert((ra + dr) + k * dr - dr + k * (-dr) == ra) by (nonlinear_arith);
    assert((fa + df) + k * df - df + k * (-df) == fa) by (nonlinear_arith);
}

/// If a walk from the square next to `a` in direction (`dr`, `df`) reaches
/// `c`, the walk from the square next to `c` in the opposite direction
/// reaches `a`.
#[verifier::spinoff_prover]
proof fn lemma_walk_symmetric(ra: int, fa: int, dr: int, df: int, occ: u64, c: int)
    requires
        0 <= ra < 8,
        0 <= fa < 8,
        holds(walk(ra + dr, fa + df, dr, df, occ, 7), c),
    ensures
        holds(walk(c / 8 - dr, c % 8 - df, -dr, -df, occ, 7), ra * 8 + fa),
{
    lemma_walk_members(ra + dr, fa + df, dr, df, occ, 7, c);
    let k = choose|k: int| #[trigger] walk_reaches(ra + dr, fa + df, dr, df, occ, 7, k) && c == ray_sq(ra + dr, fa + df, dr, df, k);
    let rc = (ra + dr) + k * dr;
    let fc = (fa + df) + k * df;
    assert(c / 8 == rc && c % 8 == fc);
    lemma_ray_reflect(ra, fa, dr, df, k, k);
    assert forall|j: int| 0 <= j < k implies #[trigger] on_ray(rc - dr, fc - df, -dr, -df, j) && !holds(
        occ,
        ray_sq(rc - dr, fc - df, -dr, -df, j),
    ) by {
        lemma_ray_reflect(ra, fa, dr, df, k, j);
        assert(on_ray(ra + dr, fa + df, dr, df, k - 1 - j));
    }
    assert(on_ray(rc - dr, fc - df, -dr, -df, k));
    assert(clear_before(rc - dr, fc - df, -dr, -df, occ, k));
    assert(walk_reaches(rc - dr, fc - df, -dr, -df, occ, 7, k));
    lemma_walk_members(rc - dr, fc - df, -dr, -df, occ, 7, ra * 8 + fa);
}

/// A slider on `a` reaches `c` exactly when one of the same kind on `c`
/// reaches `a`: rays are blocked by the same squares both ways.
pub proof fn lemma_slider_symmetric(a: int, c: int, bishop: bool, occ: u64)
    requires
        0 <= a < 64,
        0 <= c < 64,
    ensures
        holds(slider_attacks(a, bishop, occ), c) == holds(slider_attacks(c, bishop, occ), a),
{
    let ra = a / 8;
    let fa = a % 8;
    let rc = c / 8;
    let fc = c % 8;
    assert(a == ra * 8 + fa && c == rc * 8 + fc);
    if bishop {
        if holds(walk(ra + 1, fa + 1, 1, 1, occ, 7), c) { lemma_walk_symmetric(ra, fa, 1, 1, occ, c); }
        if holds(walk(ra + 1, fa - 1, 1, -1, occ, 7), c) { lemma_walk_symmetric(ra, fa, 1, -1, occ, c); }
        if holds(walk(ra - 1, fa + 1, -1, 1, occ, 7), c) { lemma_walk_symmetric(ra, fa, -1, 1, occ, c); }
        if holds(walk(ra - 1, fa - 1, -1, -1, occ, 7), c) { lemma_walk_symmetric(ra, fa, -1, -1, occ, c); }
        if holds(walk(rc + 1, fc + 1, 1, 1, occ, 7), a) { lemma_walk_symmetric(rc, fc, 1, 1, occ, a); }
        if holds(walk(rc + 1, fc - 1, 1, -1, occ, 7), a) { lemma_walk_symmetric(rc, fc, 1, -1, occ, a); }
        if holds(walk(rc - 1, fc + 1, -1, 1, occ, 7), a) { lemma_walk_symmetric(rc, fc, -1, 1, occ, a); }
        if holds(walk(rc - 1, fc - 1, -1, -1, occ, 7), a) { lemma_walk_symmetric(rc, fc, -1, -1, occ, a); }
    } else {
        if holds(walk(ra, fa + 1, 0, 1, occ, 7), c) { lemma_walk_symmetric(ra, fa, 0, 1, occ, c); }
        if holds(walk(ra + 1, fa, 1, 0, occ, 7), c) { lemma_walk_symmetric(ra, fa, 1, 0, occ, c); }
        if holds(walk(ra, fa - 1, 0, -1, occ, 7), c) { lemma_walk_symmetric(ra, fa, 0, -1, occ, c); }
        if holds(walk(ra - 1, fa, -1, 0, occ, 7), c) { lemma_walk_symmetric(ra, fa, -1, 0, occ, c); }
        if holds(walk(rc, fc + 1, 0, 1, occ, 7), a) { lemma_walk_symmetric(rc, fc, 0, 1, occ, a); }
        if holds(walk(rc + 1, fc, 1, 0, occ, 7), a) { lemma_walk_symmetric(rc, fc, 1, 0, occ, a); }
        if holds(walk(rc, fc - 1, 0, -1, occ, 7), a) { lemma_walk_symmetric(rc, fc, 0, -1, occ, a); }
        if holds(walk(rc - 1, fc, -1, 0, occ, 7), a) { lemma_walk_symmetric(rc, fc, -1, 0, occ, a); }
    }
}

} // verus!
