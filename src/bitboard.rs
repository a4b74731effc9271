//! Bitboards: 64-bit sets of board squares.
//!
//! Bit `i` of a bitboard stands for square `i` (a1 = 0, h1 = 7, a8 = 56, h8 = 63).
//! The spec function `holds` reads one bit; the broadcast lemmas below let the
//! default solver reason about `&`, `|`, `^`, `!` and single-bit masks through it.
use vstd::prelude::*;
use vstd::std_specs::bits::axiom_u64_trailing_zeros;

verus! {

/// Bit `i` of `b`, for a machine index.
pub open spec fn bit(b: u64, i: u64) -> bool {
    (b >> i) & 1u64 == 1u64
}

/// Square `i` belongs to the set `b`.
pub open spec fn holds(b: u64, i: int) -> bool {
    0 <= i < 64 && bit(b, i as u64)
}

/// The set of squares held by `b`.
pub open spec fn squares(b: u64) -> Set<int> {
    Set::new(|i: int| holds(b, i))
}

/// Number of squares in `b`.
pub open spec fn popcount(b: u64) -> nat {
    squares(b).len()
}

proof fn lemma_bit_ops_u64(a: u64, b: u64, i: u64)
    by (bit_vector)
    requires
        i < 64,
    ensures
        bit(a & b, i) == (bit(a, i) && bit(b, i)),
        bit(a | b, i) == (bit(a, i) || bit(b, i)),
        bit(a ^ b, i) == (bit(a, i) != bit(b, i)),
        bit(!a, i) == !bit(a, i),
        !bit(0u64, i),
{
}

proof fn lemma_bit_single_u64(s: u64, i: u64)
    by (bit_vector)
    requires
        s < 64,
        i < 64,
    ensures
        bit(1u64 << s, i) == (i == s),
{
}

pub broadcast proof fn lemma_holds_and(a: u64, b: u64, i: int)
    ensures
        #[trigger] holds(a & b, i) == (holds(a, i) && holds(b, i)),
{
    if 0 <= i < 64 {
        lemma_bit_ops_u64(a, b, i as u64);
    }
}

pub broadcast proof fn lemma_holds_or(a: u64, b: u64, i: int)
    ensures
        #[trigger] holds(a | b, i) == (holds(a, i) || holds(b, i)),
{
    if 0 <= i < 64 {
        lemma_bit_ops_u64(a, b, i as u64);
    }
}

pub broadcast proof fn lemma_holds_xor(a: u64, b: u64, i: int)
    ensures
        #[trigger] holds(a ^ b, i) == (holds(a, i) != holds(b, i)),
{
    if 0 <= i < 64 {
        lemma_bit_ops_u64(a, b, i as u64);
    }
}

pub broadcast proof fn lemma_holds_not(a: u64, i: int)
    ensures
        #[trigger] holds(!a, i) == (0 <= i < 64 && !holds(a, i)),
{
    if 0 <= i < 64 {
        lemma_bit_ops_u64(a, a, i as u64);
    }
}

pub broadcast proof fn lemma_holds_zero(i: int)
    ensures
        !#[trigger] holds(0u64, i),
{
    if 0 <= i < 64 {
        lemma_bit_ops_u64(0, 0, i as u64);
    }
}

pub broadcast proof fn lemma_holds_single(s: u64, i: int)
    requires
        s < 64,
    ensures
        #[trigger] holds(1u64 << s, i) == (i == s as int),
{
    if 0 <= i < 64 {
        lemma_bit_single_u64(s, i as u64);
    }
}

pub broadcast group group_bitboard {
    lemma_holds_and,
    lemma_holds_or,
    lemma_holds_xor,
    lemma_holds_not,
    lemma_holds_zero,
    lemma_holds_single,
}

/// The low `n` bits of a word.
spec fn low(n: u64) -> u64 {
    if n >= 64 {
        !0u64
    } else {
        ((1u64 << n) - 1u64) as u64
    }
}

proof fn lemma_low_step(x: u64, n: u64)
    by (bit_vector)
    requires
        n < 64,
    ensures
        x & low((n + 1) as u64) == (x & low(n)) | (x & (1u64 << n)),
        bit(x, n) ==> x & (1u64 << n) == 1u64 << n,
        !bit(x, n) ==> x & (1u64 << n) == 0u64,
        x & low(0u64) == 0u64,
        x & low(64u64) == x,
{
}

proof fn lemma_agree_below(x: u64, y: u64, n: u64)
    requires
        n <= 64,
        forall|i: int| 0 <= i < n ==> holds(x, i) == holds(y, i),
    ensures
        x & low(n) == y & low(n),
    decreases n,
{
    lemma_low_step(x, 0);
    lemma_low_step(y, 0);
    if n > 0 {
        let m = (n - 1) as u64;
        lemma_agree_below(x, y, m);
        lemma_low_step(x, m);
        lemma_low_step(y, m);
        assert(holds(x, m as int) == holds(y, m as int));
    }
}

/// Two words with the same squares are equal.
pub proof fn lemma_bits_ext(x: u64, y: u64)
    requires
        forall|i: int| 0 <= i < 64 ==> holds(x, i) == holds(y, i),
    ensures
        x == y,
{
    lemma_agree_below(x, y, 64);
    lemma_low_step(x, 0);
    lemma_low_step(y, 0);
}

/// A word with no square is zero.
pub proof fn lemma_empty_is_zero(x: u64)
    requires
        forall|i: int| 0 <= i < 64 ==> !holds(x, i),
    ensures
        x == 0,
{
    broadcast use group_bitboard;

    lemma_bits_ext(x, 0);
}

proof fn lemma_clear_lowest_u64(x: u64, t: u64)
    by (bit_vector)
    requires
        t < 64,
        x << ((64u64 - t) as u64) == 0,
        (x >> t) & 1u64 == 1u64,
    ensures
        x & ((x - 1u64) as u64) == x ^ (1u64 << t),
        x & ((x - 1u64) as u64) < x,
        x != 0,
{
}

/// Index of the lowest square of a non-empty word.
pub open spec fn lowest(x: u64) -> int {
    vstd::std_specs::bits::u64_trailing_zeros(x) as int
}

/// The lowest square of `x` is in `x`, no lower one is, and `x & (x - 1)`
/// removes exactly it.
pub proof fn lemma_lowest(x: u64)
    requires
        x != 0,
    ensures
        0 <= lowest(x) < 64,
        holds(x, lowest(x)),
        forall|j: int| 0 <= j < lowest(x) ==> !holds(x, j),
        x & ((x - 1u64) as u64) == x ^ (1u64 << lowest(x) as u64),
        x & ((x - 1u64) as u64) < x,
        forall|i: int| #[trigger]
            holds(x & ((x - 1u64) as u64), i) == (holds(x, i) && i != lowest(x)),
{
    broadcast use group_bitboard;

    axiom_u64_trailing_zeros(x);
    let t = lowest(x) as u64;
    lemma_clear_lowest_u64(x, t);
    assert forall|j: int| 0 <= j < lowest(x) implies !holds(x, j) by {
        assert((x >> (j as u64)) & 1u64 == 0u64);
    }
}

/// A 64-bit set of board squares.
#[derive(Clone, Copy, PartialEq, Eq, Debug, Structural)]
pub struct Bitboard(pub u64);

impl Bitboard {
    /// The set holding only square `sq`.
    pub fn from_square(sq: usize) -> (r: Self)
        requires
            sq < 64,
        ensures
            squares(r.0) == set![sq as int],
            r.0 == 1u64 << (sq as u64),
            forall|i: int| #[trigger] holds(r.0, i) == (i == sq as int),
    {
        broadcast use group_bitboard;

        let r = Bitboard(1u64 << (sq as u64));
        assert(squares(r.0) =~= set![sq as int]);
        r
    }

    /// The first rank, a1 to h1.
    pub fn rank_1() -> (r: Self)
        ensures
            r.0 == 0x0000_0000_0000_00FFu64,
    {
        Bitboard(0x0000_0000_0000_00FFu64)
    }

    /// The eighth rank, a8 to h8.
    pub fn rank_8() -> (r: Self)
        ensures
            r.0 == 0xFF00_0000_0000_0000u64,
    {
        Bitboard(0xFF00_0000_0000_0000u64)
    }

    /// The a-file.
    #[allow(non_snake_case)]
    pub fn file_A() -> (r: Self)
        ensures
            r.0 == 0x0101_0101_0101_0101u64,
    {
        Bitboard(0x0101_0101_0101_0101u64)
    }

    /// The h-file.
    #[allow(non_snake_case)]
    pub fn file_H() -> (r: Self)
        ensures
            r.0 == 0x8080_8080_8080_8080u64,
    {
        Bitboard(0x8080_8080_8080_8080u64)
    }

    /// The rank that holds `sq`.
    pub fn square_to_rank(sq: usize) -> (r: Self)
        requires
            sq < 64,
        ensures
            forall|i: int| #[trigger] holds(r.0, i) == (0 <= i < 64 && i / 8 == sq / 8),
    {
        let rank_index = (sq / 8) as u64;
        let r = Bitboard(0x0000_0000_0000_00FFu64 << (rank_index * 8));
        assert forall|i: int| #[trigger] holds(r.0, i) == (0 <= i < 64 && i / 8 == sq / 8) by {
            if 0 <= i < 64 {
                let iu = i as u64;
                assert(bit(0xFFu64 << (rank_index * 8), iu) == (iu / 8 == rank_index))
                    by (bit_vector)
                    requires
                        rank_index < 8,
                        iu < 64,
                ;
            }
        }
        r
    }

    /// The file that holds `sq`.
    pub fn square_to_file(sq: usize) -> (r: Self)
        requires
            sq < 64,
        ensures
            forall|i: int| #[trigger] holds(r.0, i) == (0 <= i < 64 && i % 8 == sq % 8),
    {
        let file_index = (sq % 8) as u64;
        let r = Bitboard(0x0101_0101_0101_0101u64 << file_index);
        assert forall|i: int| #[trigger] holds(r.0, i) == (0 <= i < 64 && i % 8 == sq % 8) by {
            if 0 <= i < 64 {
                let iu = i as u64;
                assert(bit(0x0101_0101_0101_0101u64 << file_index, iu) == (iu % 8 == file_index))
                    by (bit_vector)
                    requires
                        file_index < 8,
                        iu < 64,
                ;
            }
        }
        r
    }

    /// Index of the lowest square; 64 for the empty set.
    pub fn lsb(&mut self) -> (r: usize)
        ensures
            *final(self) == *old(self),
            old(self).0 == 0 ==> r == 64,
            old(self).0 != 0 ==> r == lowest(old(self).0) && r < 64 && holds(old(self).0, r as int),
            forall|j: int| 0 <= j < r ==> !holds(old(self).0, j),
    {
        proof {
            axiom_u64_trailing_zeros(self.0);
            if self.0 != 0 {
                lemma_lowest(self.0);
            } else {
                broadcast use group_bitboard;

            }
        }
        self.0.trailing_zeros() as usize
    }

    /// Removes the lowest square of a non-empty set and returns its index.
    pub fn pop_lsb(&mut self) -> (r: usize)
        requires
            old(self).0 != 0,
        ensures
            r < 64,
            r == lowest(old(self).0),
            holds(old(self).0, r as int),
            forall|j: int| 0 <= j < r ==> !holds(old(self).0, j),
            final(self).0 == old(self).0 ^ (1u64 << r as u64),
            final(self).0 < old(self).0,
            forall|i: int| #[trigger]
                holds(final(self).0, i) == (holds(old(self).0, i) && i != r as int),
            squares(final(self).0) == squares(old(self).0).remove(r as int),
    {
        proof {
            lemma_lowest(self.0);
        }
        let lsb = self.0.trailing_zeros() as usize;
        self.0 = self.0 & (self.0 - 1);
        assert(squares(self.0) =~= squares(old(self).0).remove(lsb as int));
        lsb
    }
}

/// A set of squares is finite, with at most 64 members.
pub proof fn lemma_squares_finite(b: u64)
    ensures
        squares(b).finite(),
        squares(b).len() <= 64,
{
    let all = Set::new(|i: int| 0 <= i < 64);
    assert(all =~= vstd::set_lib::set_int_range(0, 64));
    vstd::set_lib::lemma_int_range(0, 64);
    assert(squares(b).subset_of(all));
    vstd::set_lib::lemma_len_subset(squares(b), all);
}

proof fn lemma_single_and_u64(x: u64, s: u64)
    by (bit_vector)
    requires
        s < 64,
    ensures
        ((1u64 << s) & x != 0) == bit(x, s),
{
}

/// Meeting a one-square set tests that square.
pub proof fn lemma_single_and(x: u64, s: u64)
    requires
        s < 64,
    ensures
        ((1u64 << s) & x != 0) == holds(x, s as int),
{
    lemma_single_and_u64(x, s);
}

} // verus!
