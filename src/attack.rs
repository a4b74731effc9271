//! Leaper attack tables (knight, king, pawn captures and pushes) and the
//! bundle of all lookup tables a position reads.
use vstd::prelude::*;

use crate::bitboard::{group_bitboard, holds, Bitboard};
use crate::magics::MagicTables;
use crate::types::Color;

verus! {

broadcast use group_bitboard;

/// Square `t` lies `dr` ranks and `df` files away from square `s`.
pub open spec fn offset_of(s: int, t: int, dr: int, df: int) -> bool {
    0 <= t < 64 && t / 8 - s / 8 == dr && t % 8 - s % 8 == df
}

/// A knight on `s` attacks `t`.
pub open spec fn knight_step(s: int, t: int) -> bool {
    offset_of(s, t, 2, 1) || offset_of(s, t, 2, -1) || offset_of(s, t, 1, 2) || offset_of(
        s,
        t,
        1,
        -2,
    ) || offset_of(s, t, -1, 2) || offset_of(s, t, -1, -2) || offset_of(s, t, -2, 1)
        || offset_of(s, t, -2, -1)
}

/// A king on `s` attacks `t`.
pub open spec fn king_step(s: int, t: int) -> bool {
    offset_of(s, t, 0, 1) || offset_of(s, t, 1, 1) || offset_of(s, t, 1, 0) || offset_of(
        s,
        t,
        1,
        -1,
    ) || offset_of(s, t, 0, -1) || offset_of(s, t, -1, -1) || offset_of(s, t, -1, 0)
        || offset_of(s, t, -1, 1)
}

/// Rank direction in which pawns of `c` move: +1 for White, -1 for Black.
pub open spec fn forward(c: Color) -> int {
    match c {
        Color::White => 1,
        Color::Black => -1,
    }
}

/// A pawn of `c` on `s` captures on `t`.
pub open spec fn pawn_capture_step(c: Color, s: int, t: int) -> bool {
    offset_of(s, t, forward(c), 1) || offset_of(s, t, forward(c), -1)
}

/// A pawn of `c` on `s` pushes one square to `t`.
pub open spec fn pawn_push_step(c: Color, s: int, t: int) -> bool {
    offset_of(s, t, forward(c), 0)
}

/// Rank on which pawns of `c` start: rank 2 for White, rank 7 for Black.
pub open spec fn pawn_start_rank(c: Color) -> int {
    match c {
        Color::White => 1,
        Color::Black => 6,
    }
}

/// A pawn of `c` on `s` pushes two squares to `t`.
pub open spec fn pawn_double_step(c: Color, s: int, t: int) -> bool {
    s / 8 == pawn_start_rank(c) && offset_of(s, t, 2 * forward(c), 0)
}

/// The square facing `s` across the middle of the board (a1 <-> a8).
pub open spec fn mirror(s: int) -> int {
    (7 - s / 8) * 8 + s % 8
}

/// Table `v` holds, for each of the 64 squares, the set of squares `t` with `step(s, t)`.
pub open spec fn table_matches(v: Seq<Bitboard>, step: spec_fn(int, int) -> bool) -> bool {
    v.len() == 64 && forall|s: int, t: int|
        0 <= s < 64 ==> #[trigger] holds(v[s].0, t) == (0 <= t < 64 && step(s, t))
}

/// Per-square attack tables, built once and read-only afterwards.
pub struct AttackTables {
    pub knight: Vec<Bitboard>,
    pub king: Vec<Bitboard>,
    pub pawn_capture: Vec<Vec<Bitboard>>,
    pub pawn_push: Vec<Vec<Bitboard>>,
    pub pawn_double_push: Vec<Vec<Bitboard>>,
    pub magic_tables: MagicTables,
}

/// Adds to `b` the square `dr` ranks and `df` files away from `s`, when it is on the board.
fn with_offset(b: u64, s: usize, dr: i8, df: i8) -> (r: u64)
    requires
        s < 64,
        -2 <= dr <= 2,
        -2 <= df <= 2,
    ensures
        forall|t: int| #[trigger] holds(r, t) == (holds(b, t) || offset_of(s as int, t, dr as int, df as int)),
{
    let to_rank: i8 = (s / 8) as i8 + dr;
    let to_file: i8 = (s % 8) as i8 + df;
    if 0 <= to_rank && to_rank < 8 && 0 <= to_file && to_file < 8 {
        let target = (to_rank * 8 + to_file) as u64;
        let r = b | (1u64 << target);
        assert forall|t: int| #[trigger] holds(r, t) == (holds(b, t) || offset_of(s as int, t, dr as int, df as int)) by {
            if 0 <= t < 64 && offset_of(s as int, t, dr as int, df as int) {
                assert(t == t / 8 * 8 + t % 8);
            }
        }
        r
    } else {
        b
    }
}

impl AttackTables {
    /// Well-formed tables: each leaper table is the geometric one, and the
    /// slider tables are well formed.
    pub open spec fn wf(&self) -> bool {
        &&& table_matches(self.knight@, |s: int, t: int| knight_step(s, t))
        &&& table_matches(self.king@, |s: int, t: int| king_step(s, t))
        &&& self.pawn_capture@.len() == 2
        &&& self.pawn_push@.len() == 2
        &&& self.pawn_double_push@.len() == 2
        &&& table_matches(self.pawn_capture@[0]@, |s: int, t: int| pawn_capture_step(Color::White, s, t))
        &&& table_matches(self.pawn_capture@[1]@, |s: int, t: int| pawn_capture_step(Color::Black, s, t))
        &&& table_matches(self.pawn_push@[0]@, |s: int, t: int| pawn_push_step(Color::White, s, t))
        &&& table_matches(self.pawn_push@[1]@, |s: int, t: int| pawn_push_step(Color::Black, s, t))
        &&& table_matches(self.pawn_double_push@[0]@, |s: int, t: int| pawn_double_step(Color::White, s, t))
        &&& table_matches(self.pawn_double_push@[1]@, |s: int, t: int| pawn_double_step(Color::Black, s, t))
        &&& self.magic_tables.wf()
    }

    /// Builds every table: the leaper tables by enumeration, the slider
    /// tables by the magic search.
    pub fn new() -> (r: Self)
        ensures
            r.wf(),
    {
        let mut knight: Vec<Bitboard> = Vec::new();
        let mut king: Vec<Bitboard> = Vec::new();
        let mut white_capture: Vec<Bitboard> = Vec::new();
        let mut black_capture: Vec<Bitboard> = Vec::new();
        let mut white_push: Vec<Bitboard> = Vec::new();
        let mut black_push: Vec<Bitboard> = Vec::new();
        let mut white_double: Vec<Bitboard> = Vec::new();
        let mut black_double: Vec<Bitboard> = Vec::new();
        let mut sq: usize = 0;
        while sq < 64
            invariant
                sq <= 64,
                knight@.len() == sq,
                king@.len() == sq,
                white_capture@.len() == sq,
                black_capture@.len() == sq,
                white_push@.len() == sq,
                black_push@.len() == sq,
                white_double@.len() == sq,
                black_double@.len() == sq,
                forall|s: int, t: int|
                    0 <= s < sq ==> #[trigger] holds(knight@[s].0, t) == (0 <= t < 64 && knight_step(s, t)),
                forall|s: int, t: int|
                    0 <= s < sq ==> #[trigger] holds(king@[s].0, t) == (0 <= t < 64 && king_step(s, t)),
                forall|s: int, t: int|
                    0 <= s < sq ==> #[trigger] holds(white_capture@[s].0, t) == (0 <= t < 64
                        && pawn_capture_step(Color::White, s, t)),
                forall|s: int, t: int|
                    0 <= s < sq ==> #[trigger] holds(black_capture@[s].0, t) == (0 <= t < 64
                        && pawn_capture_step(Color::Black, s, t)),
                forall|s: int, t: int|
                    0 <= s < sq ==> #[trigger] holds(white_push@[s].0, t) == (0 <= t < 64
                        && pawn_push_step(Color::White, s, t)),
                forall|s: int, t: int|
                    0 <= s < sq ==> #[trigger] holds(black_push@[s].0, t) == (0 <= t < 64
                        && pawn_push_step(Color::Black, s, t)),
                forall|s: int, t: int|
                    0 <= s < sq ==> #[trigger] holds(white_double@[s].0, t) == (0 <= t < 64
                        && pawn_double_step(Color::White, s, t)),
                forall|s: int, t: int|
                    0 <= s < sq ==> #[trigger] holds(black_double@[s].0, t) == (0 <= t < 64
                        && pawn_double_step(Color::Black, s, t)),
            decreases 64 - sq,
        {
            let mut n: u64 = 0;
            n = with_offset(n, sq, 2, 1);
            n = with_offset(n, sq, 2, -1);
            n = with_offset(n, sq, 1, 2);
            n = with_offset(n, sq, 1, -2);
            n = with_offset(n, sq, -1, 2);
            n = with_offset(n, sq, -1, -2);
            n = with_offset(n, sq, -2, 1);
            n = with_offset(n, sq, -2, -1);
            knight.push(Bitboard(n));

            let mut k: u64 = 0;
            k = with_offset(k, sq, 0, 1);
            k = with_offset(k, sq, 1, 1);
            k = with_offset(k, sq, 1, 0);
            k = with_offset(k, sq, 1, -1);
            k = with_offset(k, sq, 0, -1);
            k = with_offset(k, sq, -1, -1);
            k = with_offset(k, sq, -1, 0);
            k = with_offset(k, sq, -1, 1);
            king.push(Bitboard(k));

            let wc = with_offset(with_offset(0, sq, 1, 1), sq, 1, -1);
            white_capture.push(Bitboard(wc));
            let bc = with_offset(with_offset(0, sq, -1, 1), sq, -1, -1);
            black_capture.push(Bitboard(bc));

            white_push.push(Bitboard(with_offset(0, sq, 1, 0)));
            black_push.push(Bitboard(with_offset(0, sq, -1, 0)));

            let wd = if sq / 8 == 1 { with_offset(0, sq, 2, 0) } else { 0 };
            white_double.push(Bitboard(wd));
            let bd = if sq / 8 == 6 { with_offset(0, sq, -2, 0) } else { 0 };
            black_double.push(Bitboard(bd));

            proof {
                let s = sq as int;
                assert forall|t: int| #[trigger] holds(knight@[s].0, t) == (0 <= t < 64 && knight_step(s, t)) by {}
                assert forall|t: int| #[trigger] holds(king@[s].0, t) == (0 <= t < 64 && king_step(s, t)) by {}
                assert forall|t: int| #[trigger] holds(white_double@[s].0, t) == (0 <= t < 64
                    && pawn_double_step(Color::White, s, t)) by {}
                assert forall|t: int| #[trigger] holds(black_double@[s].0, t) == (0 <= t < 64
                    && pawn_double_step(Color::Black, s, t)) by {}
            }
            sq += 1;
        }
        let mut pawn_capture: Vec<Vec<Bitboard>> = Vec::new();
        pawn_capture.push(white_capture);
        pawn_capture.push(black_capture);
        let mut pawn_push: Vec<Vec<Bitboard>> = Vec::new();
        pawn_push.push(white_push);
        pawn_push.push(black_push);
        let mut pawn_double_push: Vec<Vec<Bitboard>> = Vec::new();
        pawn_double_push.push(white_double);
        pawn_double_push.push(black_double);
        let magic_tables = MagicTables::build();
        AttackTables { knight, king, pawn_capture, pawn_push, pawn_double_push, magic_tables }
    }
}

/// Builds the tables that positions read.
pub fn init_attack_tables() -> (r: AttackTables)
    ensures
        r.wf(),
{
    AttackTables::new()
}

/// Black's pawn tables are White's seen in a mirror across the middle of the
/// board: a black pawn on the mirror of `s` reaches the mirror of exactly the
/// squares a white pawn on `s` reaches, for pushes, double pushes and captures.
pub proof fn lemma_pawn_tables_mirror(tables: &AttackTables, s: int, t: int)
    requires
        tables.wf(),
        0 <= s < 64,
        0 <= t < 64,
    ensures
        holds(tables.pawn_push@[1]@[mirror(s)].0, mirror(t)) == holds(tables.pawn_push@[0]@[s].0, t),
        holds(tables.pawn_capture@[1]@[mirror(s)].0, mirror(t)) == holds(
            tables.pawn_capture@[0]@[s].0,
            t,
        ),
        holds(tables.pawn_double_push@[1]@[mirror(s)].0, mirror(t)) == holds(
            tables.pawn_double_push@[0]@[s].0,
            t,
        ),
{
    assert(mirror(s) / 8 == 7 - s / 8 && mirror(s) % 8 == s % 8);
    assert(mirror(t) / 8 == 7 - t / 8 && mirror(t) % 8 == t % 8);
    assert(0 <= mirror(s) < 64 && 0 <= mirror(t) < 64);
}

} // verus!
