//! The accepted position notation, read from its bytes: up to six fields
//! separated by whitespace (board, side, castling, en passant, halfmove,
//! fullmove), of which the first two are required.
use vstd::prelude::*;

use crate::types::{Color, Piece};

verus! {

/// Why a position text was refused.
#[derive(Clone, Copy, PartialEq, Eq, Debug, Structural)]
pub enum FenError {
    MissingBoard,
    MissingSide,
    RankLength,
    Side,
    Castling,
    EnPassant,
}

impl FenError {
    /// The message reported for the error.
    pub open spec fn text(self) -> &'static str {
        match self {
            FenError::MissingBoard => "FEN missing board part",
            FenError::MissingSide => "FEN missing side to move",
            FenError::RankLength => "Invalid FEN rank length",
            FenError::Side => "Invalid side to move",
            FenError::Castling => "Invalid castling",
            FenError::EnPassant => "Invalid en passant square",
        }
    }

    /// The message reported for the error.
    pub fn message(self) -> (r: &'static str)
        ensures
            r == self.text(),
    {
        match self {
            FenError::MissingBoard => "FEN missing board part",
            FenError::MissingSide => "FEN missing side to move",
            FenError::RankLength => "Invalid FEN rank length",
            FenError::Side => "Invalid side to move",
            FenError::Castling => "Invalid castling",
            FenError::EnPassant => "Invalid en passant square",
        }
    }
}

/// Length in bytes of the whitespace character that starts at byte `i` of
/// the UTF-8 text `s`, or 0 where none does. Whitespace is what Unicode
/// calls White_Space: tab to carriage return, space, U+0085, U+00A0, U+1680,
/// U+2000-U+200A, U+2028, U+2029, U+202F, U+205F and U+3000.
pub open spec fn space_len(s: Seq<u8>, i: int) -> int {
    if i < 0 || i >= s.len() {
        0
    } else if s[i] == 32 || (9 <= s[i] && s[i] <= 13) {
        1
    } else if i + 1 < s.len() && s[i] == 0xC2 && (s[i + 1] == 0x85 || s[i + 1] == 0xA0) {
        2
    } else if i + 2 < s.len() && s[i] == 0xE1 && s[i + 1] == 0x9A && s[i + 2] == 0x80 {
        3
    } else if i + 2 < s.len() && s[i] == 0xE2 && s[i + 1] == 0x80 && ((0x80 <= s[i + 2] && s[i + 2]
        <= 0x8A) || s[i + 2] == 0xA8 || s[i + 2] == 0xA9 || s[i + 2] == 0xAF) {
        3
    } else if i + 2 < s.len() && s[i] == 0xE2 && s[i + 1] == 0x81 && s[i + 2] == 0x9F {
        3
    } else if i + 2 < s.len() && s[i] == 0xE3 && s[i + 1] == 0x80 && s[i + 2] == 0x80 {
        3
    } else {
        0
    }
}

/// The first index at or after `i` where no whitespace starts.
pub open spec fn skip_spaces(s: Seq<u8>, i: int) -> int
    decreases s.len() - i,
{
    if i < 0 || i >= s.len() || space_len(s, i) == 0 {
        i
    } else {
        skip_spaces(s, i + space_len(s, i))
    }
}

/// The first index at or after `i` where whitespace starts, or the end.
pub open spec fn token_end(s: Seq<u8>, i: int) -> int
    decreases s.len() - i,
{
    if i < 0 || i >= s.len() || space_len(s, i) > 0 {
        i
    } else {
        token_end(s, i + 1)
    }
}

/// Start and end of field `k` (counting from 0); the field exists when its
/// start is before the end of the text.
pub open spec fn field_bounds(s: Seq<u8>, k: nat) -> (int, int)
    decreases k,
{
    let from = if k == 0 {
        0
    } else {
        field_bounds(s, (k - 1) as nat).1
    };
    let a = skip_spaces(s, from);
    (a, token_end(s, a))
}

pub open spec fn has_field(s: Seq<u8>, k: nat) -> bool {
    field_bounds(s, k).0 < s.len()
}

/// Field `k`, or `default` when the text has fewer fields.
pub open spec fn field_or(s: Seq<u8>, k: nat, default: Seq<u8>) -> Seq<u8> {
    if has_field(s, k) {
        s.subrange(field_bounds(s, k).0, field_bounds(s, k).1)
    } else {
        default
    }
}

/// The piece a board letter names.
pub open spec fn piece_letter(b: u8) -> Option<Piece> {
    if b == 80 {
        Some(Piece::WhitePawn)
    } else if b == 78 {
        Some(Piece::WhiteKnight)
    } else if b == 66 {
        Some(Piece::WhiteBishop)
    } else if b == 82 {
        Some(Piece::WhiteRook)
    } else if b == 81 {
        Some(Piece::WhiteQueen)
    } else if b == 75 {
        Some(Piece::WhiteKing)
    } else if b == 112 {
        Some(Piece::BlackPawn)
    } else if b == 110 {
        Some(Piece::BlackKnight)
    } else if b == 98 {
        Some(Piece::BlackBishop)
    } else if b == 114 {
        Some(Piece::BlackRook)
    } else if b == 113 {
        Some(Piece::BlackQueen)
    } else if b == 107 {
        Some(Piece::BlackKing)
    } else {
        None
    }
}

/// Reads the board field from byte `i`, in rank `rank` (0 = the eighth rank,
/// read first) at file `file`, with `cells` filled so far: ranks are separated
/// by `/`, a digit 1-8 skips that many files, a letter places a piece, every
/// rank must cover exactly eight files, and there must be eight ranks.
pub open spec fn scan_board(
    f: Seq<u8>,
    i: int,
    rank: int,
    file: int,
    cells: Seq<Option<Piece>>,
) -> Option<Seq<Option<Piece>>>
    decreases f.len() - i,
{
    if i < 0 || i >= f.len() {
        if file == 8 && rank == 7 {
            Some(cells)
        } else {
            None
        }
    } else if f[i] == 47 {
        if file == 8 && rank < 7 {
            scan_board(f, i + 1, rank + 1, 0, cells)
        } else {
            None
        }
    } else if 49 <= f[i] && f[i] <= 56 {
        if file + (f[i] - 48) <= 8 {
            scan_board(f, i + 1, rank, file + (f[i] - 48), cells)
        } else {
            None
        }
    } else {
        match piece_letter(f[i]) {
            Some(p) => if file < 8 {
                scan_board(f, i + 1, rank, file + 1, cells.update((7 - rank) * 8 + file, Some(p)))
            } else {
                None
            },
            None => None,
        }
    }
}

/// The 64 empty squares.
pub open spec fn empty_cells() -> Seq<Option<Piece>> {
    Seq::new(64, |i: int| None)
}

/// The right a castling letter names: K, Q, k, q give WK, WQ, BK, BQ; any
/// other byte names none.
pub open spec fn castling_bit(b: u8) -> u8 {
    if b == 75 {
        1
    } else if b == 81 {
        2
    } else if b == 107 {
        4
    } else if b == 113 {
        8
    } else {
        0
    }
}

/// Castling rights from byte `i` of the castling field on, with `acc` read so
/// far: the field is a lone `-`, or letters of `KQkq` each at most once.
pub open spec fn scan_castling(f: Seq<u8>, i: int, acc: u8) -> Option<u8>
    decreases f.len() - i,
{
    if i < 0 || i >= f.len() {
        Some(acc)
    } else if f[i] == 45 {
        if f.len() == 1 {
            scan_castling(f, i + 1, acc)
        } else {
            None
        }
    } else if castling_bit(f[i]) != 0 && acc & castling_bit(f[i]) == 0 {
        scan_castling(f, i + 1, acc | castling_bit(f[i]))
    } else {
        None
    }
}

/// The value of the decimal digits from byte `i` on, with `acc` read so far;
/// `None` when a byte is not a digit.
pub open spec fn digits_value(f: Seq<u8>, i: int, acc: nat) -> Option<nat>
    decreases f.len() - i,
{
    if i < 0 || i >= f.len() {
        Some(acc)
    } else if 48 <= f[i] && f[i] <= 57 {
        digits_value(f, i + 1, acc * 10 + (f[i] - 48) as nat)
    } else {
        None
    }
}

/// The halfmove clock a field gives: its decimal value (after an optional
/// `+`), or 0 when it is not a number that fits.
pub open spec fn halfmove_of(f: Seq<u8>) -> usize {
    let start: int = if f.len() > 0 && f[0] == 43 {
        1
    } else {
        0
    };
    if f.len() <= start {
        0
    } else {
        match digits_value(f, start, 0) {
            Some(v) => if v <= usize::MAX {
                v as usize
            } else {
                0
            },
            None => 0,
        }
    }
}

/// The en-passant square a field gives: `None` for `-`, the square for a file
/// letter a-h followed by a rank digit 1-8; anything else is refused.
pub open spec fn en_passant_of(f: Seq<u8>) -> Result<Option<int>, FenError> {
    if f =~= seq![45u8] {
        Ok(None)
    } else if f.len() == 2 && 97 <= f[0] && f[0] <= 104 && 49 <= f[1] && f[1] <= 56 {
        Ok(Some((f[1] - 49) * 8 + (f[0] - 97)))
    } else {
        Err(FenError::EnPassant)
    }
}

/// A position read from text.
pub struct FenParts {
    pub cells: Vec<Option<Piece>>,
    pub side: Color,
    pub castling: u8,
    pub en_passant: Option<u8>,
    pub halfmove: usize,
}

/// What the text `s` describes, or the first error in it, checked in the
/// order: board present, side present, board ranks, side, castling, en passant.
pub open spec fn fen_spec(s: Seq<u8>) -> Result<
    (Seq<Option<Piece>>, Color, u8, Option<int>, usize),
    FenError,
> {
    if !has_field(s, 0) {
        Err(FenError::MissingBoard)
    } else if !has_field(s, 1) {
        Err(FenError::MissingSide)
    } else {
        let board = field_or(s, 0, seq![]);
        let side = field_or(s, 1, seq![]);
        let castling = field_or(s, 2, seq![45u8]);
        let ep = field_or(s, 3, seq![45u8]);
        let half = field_or(s, 4, seq![48u8]);
        match scan_board(board, 0, 0, 0, empty_cells()) {
            None => Err(FenError::RankLength),
            Some(cells) => if !(side =~= seq![119u8] || side =~= seq![98u8]) {
                Err(FenError::Side)
            } else {
                match scan_castling(castling, 0, 0) {
                    None => Err(FenError::Castling),
                    Some(rights) => match en_passant_of(ep) {
                        Err(e) => Err(e),
                        Ok(sq) => Ok(
                            (
                                cells,
                                if side =~= seq![119u8] {
                                    Color::White
                                } else {
                                    Color::Black
                                },
                                rights,
                                sq,
                                halfmove_of(half),
                            ),
                        ),
                    },
                }
            },
        }
    }
}

/// Skips whitespace from `i`, then returns the bounds of the field there.
fn next_field(s: &[u8], i: usize) -> (r: (usize, usize))
    requires
        i <= s@.len(),
    ensures
        r.0 == skip_spaces(s@, i as int),
        r.1 == token_end(s@, r.0 as int),
        i <= r.0 <= r.1 <= s@.len(),
        r.0 < r.1 <==> r.0 < s@.len(),
{
    let mut a = i;
    while a < s.len() && space_at(s, a) > 0
        invariant
            i <= a <= s@.len(),
            skip_spaces(s@, i as int) == skip_spaces(s@, a as int),
        decreases s@.len() - a,
    {
        a += space_at(s, a);
    }
    let mut b = a;
    while b < s.len() && space_at(s, b) == 0
        invariant
            a <= b <= s@.len(),
            token_end(s@, a as int) == token_end(s@, b as int),
            a < s@.len() ==> space_len(s@, a as int) == 0,
        decreases s@.len() - b,
    {
        b += 1;
    }
    (a, b)
}

/// Length of the whitespace character starting at byte `i`, or 0.
fn space_at(s: &[u8], i: usize) -> (r: usize)
    requires
        i < s@.len(),
    ensures
        r == space_len(s@, i as int),
        i + r <= s@.len(),
{
    let c = s[i];
    let n = s.len();
    if c == 32 || (9 <= c && c <= 13) {
        1
    } else if n - i > 1 && c == 0xC2 && (s[i + 1] == 0x85 || s[i + 1] == 0xA0) {
        2
    } else if n - i > 2 && c == 0xE1 && s[i + 1] == 0x9A && s[i + 2] == 0x80 {
        3
    } else if n - i > 2 && c == 0xE2 && s[i + 1] == 0x80 && ((0x80 <= s[i + 2] && s[i + 2] <= 0x8A)
        || s[i + 2] == 0xA8 || s[i + 2] == 0xA9 || s[i + 2] == 0xAF) {
        3
    } else if n - i > 2 && c == 0xE2 && s[i + 1] == 0x81 && s[i + 2] == 0x9F {
        3
    } else if n - i > 2 && c == 0xE3 && s[i + 1] == 0x80 && s[i + 2] == 0x80 {
        3
    } else {
        0
    }
}

fn piece_from_byte(b: u8) -> (r: Option<Piece>)
    ensures
        r == piece_letter(b),
{
    if b == 80 {
        Some(Piece::WhitePawn)
    } else if b == 78 {
        Some(Piece::WhiteKnight)
    } else if b == 66 {
        Some(Piece::WhiteBishop)
    } else if b == 82 {
        Some(Piece::WhiteRook)
    } else if b == 81 {
        Some(Piece::WhiteQueen)
    } else if b == 75 {
        Some(Piece::WhiteKing)
    } else if b == 112 {
        Some(Piece::BlackPawn)
    } else if b == 110 {
        Some(Piece::BlackKnight)
    } else if b == 98 {
        Some(Piece::BlackBishop)
    } else if b == 114 {
        Some(Piece::BlackRook)
    } else if b == 113 {
        Some(Piece::BlackQueen)
    } else if b == 107 {
        Some(Piece::BlackKing)
    } else {
        None
    }
}

/// Reads the board field `s[a..b]`.
#[verifier::spinoff_prover]
fn parse_board(s: &[u8], a: usize, b: usize) -> (r: Option<Vec<Option<Piece>>>)
    requires
        a <= b <= s@.len(),
    ensures
        match (r, scan_board(s@.subrange(a as int, b as int), 0, 0, 0, empty_cells())) {
            (Some(v), Some(c)) => v@ == c,
            (None, None) => true,
            _ => false,
        },
        r matches Some(v) ==> v@.len() == 64,
{
    let ghost f = s@.subrange(a as int, b as int);
    let mut cells: Vec<Option<Piece>> = Vec::new();
    let mut k: usize = 0;
    while k < 64
        invariant
            k <= 64,
            cells@.len() == k,
            forall|j: int| 0 <= j < k ==> cells@[j] is None,
        decreases 64 - k,
    {
        cells.push(None);
        k += 1;
    }
    assert(cells@ =~= empty_cells());
    let mut rank: usize = 0;
    let mut file: usize = 0;
    let mut i: usize = a;
    while i < b
        invariant
            a <= i <= b <= s@.len(),
            f == s@.subrange(a as int, b as int),
            rank <= 7,
            file <= 8,
            cells@.len() == 64,
            scan_board(f, 0, 0, 0, empty_cells()) == scan_board(
                f,
                i - a,
                rank as int,
                file as int,
                cells@,
            ),
        decreases b - i,
    {
        let c = s[i];
        assert(f[i - a] == c);
        if c == 47 {
            if file == 8 && rank < 7 {
                rank += 1;
                file = 0;
            } else {
                return None;
            }
        } else if 49 <= c && c <= 56 {
            let d = (c - 48) as usize;
            if file + d <= 8 {
                file += d;
            } else {
                return None;
            }
        } else {
            match piece_from_byte(c) {
                Some(p) => {
                    if file < 8 {
                        cells.set((7 - rank) * 8 + file, Some(p));
                        file += 1;
                    } else {
                        return None;
                    }
                },
                None => {
                    return None;
                },
            }
        }
        i += 1;
    }
    if file == 8 && rank == 7 {
        Some(cells)
    } else {
        None
    }
}

/// Reads the castling field `s[a..b]`.
fn parse_castling(s: &[u8], a: usize, b: usize) -> (r: Option<u8>)
    requires
        a <= b <= s@.len(),
    ensures
        r == scan_castling(s@.subrange(a as int, b as int), 0, 0),
{
    let ghost f = s@.subrange(a as int, b as int);
    let mut acc: u8 = 0;
    let mut i: usize = a;
    while i < b
        invariant
            a <= i <= b <= s@.len(),
            f == s@.subrange(a as int, b as int),
            f.len() == b - a,
            scan_castling(f, 0, 0) == scan_castling(f, i - a, acc),
        decreases b - i,
    {
        let c = s[i];
        assert(f[i - a] == c);
        if c == 45 {
            if b - a != 1 {
                return None;
            }
        } else {
            let bit = castling_bit_of(c);
            if bit == 0 || acc & bit != 0 {
                return None;
            }
            acc = acc | bit;
        }
        i += 1;
    }
    Some(acc)
}

fn castling_bit_of(b: u8) -> (r: u8)
    ensures
        r == castling_bit(b),
{
    if b == 75 {
        1
    } else if b == 81 {
        2
    } else if b == 107 {
        4
    } else if b == 113 {
        8
    } else {
        0
    }
}

/// Reads the halfmove field `s[a..b]`.
#[verifier::spinoff_prover]
fn parse_halfmove(s: &[u8], a: usize, b: usize) -> (r: usize)
    requires
        a <= b <= s@.len(),
    ensures
        r == halfmove_of(s@.subrange(a as int, b as int)),
{
    let ghost f = s@.subrange(a as int, b as int);
    let start = if a < b && s[a] == 43 {
        a + 1
    } else {
        a
    };
    if b <= start {
        return 0;
    }
    let mut acc: usize = 0;
    let mut i: usize = start;
    while i < b
        invariant
            a <= start <= i <= b <= s@.len(),
            f == s@.subrange(a as int, b as int),
            start - a == (if f.len() > 0 && f[0] == 43 {
                1int
            } else {
                0int
            }),
            f.len() > start - a,
            digits_value(f, start - a, 0) == digits_value(f, i - a, acc as nat),
        decreases b - i,
    {
        let c = s[i];
        assert(f[i - a] == c);
        if 48 <= c && c <= 57 {
            let d = (c - 48) as usize;
            if acc > (usize::MAX - d) / 10 {
                proof {
                    lemma_digits_grow(f, i - a + 1, (acc * 10 + d) as nat);
                    assert(acc * 10 + d > usize::MAX) by (nonlinear_arith)
                        requires
                            acc > (usize::MAX - d) / 10,
                            d <= 9,
                    ;
                }
                return 0;
            }
            acc = acc * 10 + d;
        } else {
            return 0;
        }
        i += 1;
    }
    acc
}

/// Reading more digits never makes the value smaller.
proof fn lemma_digits_grow(f: Seq<u8>, i: int, acc: nat)
    ensures
        digits_value(f, i, acc) matches Some(v) ==> v >= acc,
    decreases f.len() - i,
{
    if 0 <= i < f.len() && 48 <= f[i] && f[i] <= 57 {
        lemma_digits_grow(f, i + 1, acc * 10 + (f[i] - 48) as nat);
    }
}

/// Reads the en-passant field `s[a..b]`.
fn parse_en_passant(s: &[u8], a: usize, b: usize) -> (r: Result<Option<u8>, FenError>)
    requires
        a <= b <= s@.len(),
    ensures
        match (r, en_passant_of(s@.subrange(a as int, b as int))) {
            (Ok(Some(x)), Ok(Some(y))) => x == y,
            (Ok(None), Ok(None)) => true,
            (Err(e), Err(g)) => e == g,
            _ => false,
        },
{
    let ghost f = s@.subrange(a as int, b as int);
    if b - a == 1 && s[a] == 45 {
        assert(f =~= seq![45u8]);
        return Ok(None);
    }
    assert(!(f =~= seq![45u8])) by {
        if f =~= seq![45u8] {
            assert(f[0] == s@[a as int]);
        }
    }
    if b - a == 2 && 97 <= s[a] && s[a] <= 104 && 49 <= s[a + 1] && s[a + 1] <= 56 {
        assert(f[0] == s@[a as int] && f[1] == s@[a + 1]);
        return Ok(Some((s[a + 1] - 49) * 8 + (s[a] - 97)));
    }
    proof {
        if f.len() == 2 {
            assert(f[0] == s@[a as int] && f[1] == s@[a + 1]);
        }
    }
    Err(FenError::EnPassant)
}

/// Reads a position from the bytes of its text, or reports the first error
/// in the order: board present, side present, board ranks, side, castling,
/// en passant. The fullmove field is accepted and ignored.
#[verifier::spinoff_prover]
pub fn parse_fen(s: &[u8]) -> (r: Result<FenParts, FenError>)
    ensures
        match (r, fen_spec(s@)) {
            (Ok(p), Ok(q)) => p.cells@ == q.0 && p.side == q.1 && p.castling == q.2 && match (
                p.en_passant,
                q.3,
            ) {
                (Some(x), Some(y)) => x == y,
                (None, None) => true,
                _ => false,
            } && p.halfmove == q.4,
            (Err(e), Err(g)) => e == g,
            _ => false,
        },
        r matches Ok(p) ==> p.cells@.len() == 64,
{
    let (a0, b0) = next_field(s, 0);
    if a0 >= b0 {
        return Err(FenError::MissingBoard);
    }
    let (a1, b1) = next_field(s, b0);
    if a1 >= b1 {
        return Err(FenError::MissingSide);
    }
    let (a2, b2) = next_field(s, b1);
    let (a3, b3) = next_field(s, b2);
    let (a4, b4) = next_field(s, b3);
    proof {
        assert(field_bounds(s@, 0) == (a0 as int, b0 as int));
        assert(field_bounds(s@, 1) == (a1 as int, b1 as int));
        assert(field_bounds(s@, 2) == (a2 as int, b2 as int));
        assert(field_bounds(s@, 3) == (a3 as int, b3 as int));
        assert(field_bounds(s@, 4) == (a4 as int, b4 as int));
    }
    let cells = match parse_board(s, a0, b0) {
        Some(c) => c,
        None => {
            return Err(FenError::RankLength);
        },
    };
    let side = if b1 - a1 == 1 && s[a1] == 119 {
        Color::White
    } else if b1 - a1 == 1 && s[a1] == 98 {
        Color::Black
    } else {
        proof {
            let f = s@.subrange(a1 as int, b1 as int);
            if f =~= seq![119u8] || f =~= seq![98u8] {
                assert(f[0] == s@[a1 as int]);
            }
        }
        return Err(FenError::Side);
    };
    proof {
        let f = s@.subrange(a1 as int, b1 as int);
        assert(f[0] == s@[a1 as int]);
        if side == Color::White {
            assert(f =~= seq![119u8]);
        } else {
            assert(f =~= seq![98u8]);
        }
    }
    let castling = if a2 < b2 {
        parse_castling(s, a2, b2)
    } else {
        proof {
            assert(seq![45u8][0] == 45u8);
            assert(scan_castling(seq![45u8], 1, 0) == Some(0u8));
        }
        Some(0)
    };
    let castling = match castling {
        Some(c) => c,
        None => {
            return Err(FenError::Castling);
        },
    };
    let en_passant = if a3 < b3 {
        parse_en_passant(s, a3, b3)
    } else {
        Ok(None)
    };
    let en_passant = match en_passant {
        Ok(e) => e,
        Err(e) => {
            return Err(e);
        },
    };
    let halfmove = if a4 < b4 {
        parse_halfmove(s, a4, b4)
    } else {
        proof {
            assert(seq![48u8][0] == 48u8);
            assert(digits_value(seq![48u8], 1, 0) == Some(0nat));
        }
        0
    };
    Ok(FenParts { cells, side, castling, en_passant, halfmove })
}

} // verus!
