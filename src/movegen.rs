//! Pseudo-legal move generation: a generic generator over the leapers and
//! sliders, pawn captures and pushes, and castling.
//!
//! Every move generated can be played by `Board::make_move`; whether it leaves
//! the mover's king attacked is left to the caller.
use vstd::prelude::*;

use crate::attack::{pawn_capture_step, pawn_double_step, pawn_push_step, AttackTables};
use crate::bitboard::{bit, group_bitboard, holds, lemma_single_and, lowest, Bitboard};
use crate::board::{behind, owned_by, Board, BK, BQ, WK, WQ};
use crate::moves::{tag_of, Move, MoveType};
use crate::types::{Color, Piece, PieceType, Square};

verus! {

broadcast use group_bitboard;

/// The moves generated for a position, in generation order.
pub struct MoveList {
    moves: Vec<Move>,
}

impl MoveList {
    /// The moves, in order.
    pub closed spec fn view_moves(&self) -> Seq<Move> {
        self.moves@
    }

    /// An empty list with room for 256 moves.
    pub fn new() -> (r: Self)
        ensures
            r.view_moves() == Seq::<Move>::empty(),
    {
        MoveList { moves: Vec::with_capacity(256) }
    }

    /// Appends a move.
    pub fn push(&mut self, m: Move)
        ensures
            final(self).view_moves() == old(self).view_moves().push(m),
    {
        self.moves.push(m);
    }

    /// Number of moves.
    pub fn count(&self) -> (r: usize)
        ensures
            r == self.view_moves().len(),
    {
        self.moves.len()
    }

    /// The `i`-th move.
    pub fn get(&self, i: usize) -> (r: Move)
        requires
            i < self.view_moves().len(),
        ensures
            r == self.view_moves()[i as int],
    {
        self.moves[i]
    }

    /// The moves as a slice, for iteration.
    pub fn iter(&self) -> (r: &[Move])
        ensures
            r@ == self.view_moves(),
    {
        self.moves.as_slice()
    }
}

/// Every move `list` gained over `before` can be played by `us` on `board`,
/// and each capture among them takes what its piece attacks.
pub open spec fn all_fit(board: &Board, before: Seq<Move>, list: Seq<Move>, us: Color) -> bool {
    &&& before.len() <= list.len()
    &&& forall|i: int| 0 <= i < before.len() ==> #[trigger] list[i] == before[i]
    &&& forall|i: int|
        before.len() <= i < list.len() ==> board.fits_as(#[trigger] list[i], us) && board.capture_ok(
            list[i],
            us,
        )
}

/// The concatenation, over the squares `s` of `bits` from `lo` upwards in
/// ascending order, of `f(s)`.
pub open spec fn over_squares(bits: u64, lo: int, f: spec_fn(int) -> Seq<Move>) -> Seq<Move>
    decreases 64 - lo,
{
    if lo < 0 || lo >= 64 {
        Seq::empty()
    } else {
        (if holds(bits, lo) {
            f(lo)
        } else {
            Seq::empty()
        }) + over_squares(bits, lo + 1, f)
    }
}

proof fn lemma_over_skip(bits: u64, lo: int, s: int, f: spec_fn(int) -> Seq<Move>)
    requires
        0 <= lo <= s <= 64,
        forall|t: int| lo <= t < s ==> !holds(bits, t),
    ensures
        over_squares(bits, lo, f) == over_squares(bits, s, f),
    decreases s - lo,
{
    if lo < s {
        lemma_over_skip(bits, lo + 1, s, f);
        assert(over_squares(bits, lo, f) =~= over_squares(bits, lo + 1, f));
    }
}

proof fn lemma_over_agree(a: u64, b: u64, lo: int, f: spec_fn(int) -> Seq<Move>)
    requires
        0 <= lo,
        forall|t: int| lo <= t < 64 ==> holds(a, t) == holds(b, t),
    ensures
        over_squares(a, lo, f) == over_squares(b, lo, f),
    decreases 64 - lo,
{
    if lo < 64 {
        lemma_over_agree(a, b, lo + 1, f);
    }
}

/// Taking the lowest square off the front: the sequence is that square's
/// part followed by the rest's.
proof fn lemma_over_pop(bits: u64, rest: u64, s: int, f: spec_fn(int) -> Seq<Move>)
    requires
        0 <= s < 64,
        holds(bits, s),
        forall|t: int| 0 <= t < s ==> !holds(bits, t),
        forall|t: int| #[trigger] holds(rest, t) == (holds(bits, t) && t != s),
    ensures
        over_squares(bits, 0, f) == f(s) + over_squares(rest, 0, f),
{
    lemma_over_skip(bits, 0, s, f);
    lemma_over_skip(rest, 0, s + 1, f);
    lemma_over_agree(bits, rest, s + 1, f);
    assert(over_squares(bits, s, f) == f(s) + over_squares(bits, s + 1, f));
}

/// The empty set contributes nothing.
proof fn lemma_over_empty(f: spec_fn(int) -> Seq<Move>)
    ensures
        over_squares(0, 0, f) == Seq::<Move>::empty(),
{
    lemma_over_skip(0, 0, 64, f);
}

/// The single move from `from` to each square, with kind tag `tag`.
pub open spec fn moves_to(from: int, tag: int) -> spec_fn(int) -> Seq<Move> {
    |t: int| seq![Move::pack(from, t, tag)]
}

/// Squares a piece of `us` may move to: opposing pieces for captures, empty
/// squares otherwise.
pub open spec fn target_set(board: &Board, us: Color, capture: bool) -> u64 {
    if capture {
        board.color_set(us.other().idx())
    } else {
        !board.occupancy()
    }
}

/// The moves of a piece of kind `P` on `from`: one per target square it
/// attacks, in ascending order.
pub open spec fn piece_part<P: Attacker>(board: &Board, us: Color, capture: bool) -> spec_fn(int) -> Seq<Move> {
    |f: int|
        over_squares(
            P::attacks_spec(board.tables(), f, board.occupancy()) & target_set(board, us, capture),
            0,
            moves_to(
                f,
                if capture {
                    4int
                } else {
                    0int
                },
            ),
        )
}

/// The moves of all pieces of kind `P` of `us`, origins ascending.
pub open spec fn piece_seq<P: Attacker>(board: &Board, us: Color, capture: bool) -> Seq<Move> {
    over_squares(
        board.piece_set(P::kind_spec().idx()) & board.color_set(us.idx()),
        0,
        piece_part::<P>(board, us, capture),
    )
}

/// The colour a `WHITE` flag names.
pub open spec fn side_of(white: bool) -> Color {
    if white {
        Color::White
    } else {
        Color::Black
    }
}

/// A piece kind whose moves are its attack set: knight, king, bishop, rook, queen.
pub trait Attacker {
    /// The kind this generator moves.
    spec fn kind_spec() -> PieceType;

    /// The squares a piece of this kind on `from` attacks on `board`.
    spec fn attacks_spec(tables: AttackTables, from: int, occ: u64) -> u64;

    fn kind() -> (r: PieceType)
        ensures
            r == Self::kind_spec(),
    ;

    fn get_attacks(from: usize, board: &Board) -> (r: Bitboard)
        requires
            board.wf(),
            from < 64,
        ensures
            r.0 == Self::attacks_spec(board.tables(), from as int, board.occupancy()),
    ;
}

/// Knight moves.
pub struct Caval;

impl Attacker for Caval {
    open spec fn kind_spec() -> PieceType {
        PieceType::Knight
    }

    open spec fn attacks_spec(tables: AttackTables, from: int, occ: u64) -> u64 {
        tables.knight@[from].0
    }

    fn kind() -> (r: PieceType) {
        PieceType::Knight
    }

    fn get_attacks(from: usize, board: &Board) -> (r: Bitboard) {
        proof {
            board.lemma_wf();
        }
        board.tables_ref().knight[from]
    }
}

/// King moves, castling aside.
pub struct Re;

impl Attacker for Re {
    open spec fn kind_spec() -> PieceType {
        PieceType::King
    }

    open spec fn attacks_spec(tables: AttackTables, from: int, occ: u64) -> u64 {
        tables.king@[from].0
    }

    fn kind() -> (r: PieceType) {
        PieceType::King
    }

    fn get_attacks(from: usize, board: &Board) -> (r: Bitboard) {
        proof {
            board.lemma_wf();
        }
        board.tables_ref().king[from]
    }
}

/// Rook moves, by the magic lookup.
pub struct Tor;

impl Attacker for Tor {
    open spec fn kind_spec() -> PieceType {
        PieceType::Rook
    }

    open spec fn attacks_spec(tables: AttackTables, from: int, occ: u64) -> u64 {
        tables.magic_tables.rook.lookup_spec(from, occ)
    }

    fn kind() -> (r: PieceType) {
        PieceType::Rook
    }

    fn get_attacks(from: usize, board: &Board) -> (r: Bitboard) {
        proof {
            board.lemma_wf();
        }
        let occ = board.occupied_squares().0;
        Bitboard(board.tables_ref().magic_tables.rook.lookup(false, from, occ))
    }
}

/// Bishop moves, by the magic lookup.
pub struct Alfe;

impl Attacker for Alfe {
    open spec fn kind_spec() -> PieceType {
        PieceType::Bishop
    }

    open spec fn attacks_spec(tables: AttackTables, from: int, occ: u64) -> u64 {
        tables.magic_tables.bishop.lookup_spec(from, occ)
    }

    fn kind() -> (r: PieceType) {
        PieceType::Bishop
    }

    fn get_attacks(from: usize, board: &Board) -> (r: Bitboard) {
        proof {
            board.lemma_wf();
        }
        let occ = board.occupied_squares().0;
        Bitboard(board.tables_ref().magic_tables.bishop.lookup(true, from, occ))
    }
}

/// Queen moves: rook and bishop moves together.
pub struct Argina;

impl Attacker for Argina {
    open spec fn kind_spec() -> PieceType {
        PieceType::Queen
    }

    open spec fn attacks_spec(tables: AttackTables, from: int, occ: u64) -> u64 {
        tables.magic_tables.rook.lookup_spec(from, occ) | tables.magic_tables.bishop.lookup_spec(
            from,
            occ,
        )
    }

    fn kind() -> (r: PieceType) {
        PieceType::Queen
    }

    fn get_attacks(from: usize, board: &Board) -> (r: Bitboard) {
        Bitboard(Tor::get_attacks(from, board).0 | Alfe::get_attacks(from, board).0)
    }
}

/// The moves of the side to move, castling included.
pub fn generate_all_moves(board: &Board, moves: &mut MoveList)
    requires
        board.wf(),
    ensures
        final(moves).view_moves() == old(moves).view_moves() + side_seq(board, board.side()),
        all_fit(board, old(moves).view_moves(), final(moves).view_moves(), board.side()),
        all_moves_emitted(
            board,
            final(moves).view_moves(),
            old(moves).view_moves().len() as int,
            board.side(),
        ),
{
    match board.side_to_move() {
        Color::White => generate_white_moves(board, moves),
        Color::Black => generate_black_moves(board, moves),
    }
}

/// White's moves: pieces, pawns, castling.
pub fn generate_white_moves(board: &Board, moves: &mut MoveList)
    requires
        board.wf(),
    ensures
        final(moves).view_moves() == old(moves).view_moves() + side_seq(board, Color::White),
        all_fit(board, old(moves).view_moves(), final(moves).view_moves(), Color::White),
        all_moves_emitted(
            board,
            final(moves).view_moves(),
            old(moves).view_moves().len() as int,
            Color::White,
        ),
{
    generate_side::<true>(board, moves);
}

/// Black's moves: pieces, pawns, castling.
pub fn generate_black_moves(board: &Board, moves: &mut MoveList)
    requires
        board.wf(),
    ensures
        final(moves).view_moves() == old(moves).view_moves() + side_seq(board, Color::Black),
        all_fit(board, old(moves).view_moves(), final(moves).view_moves(), Color::Black),
        all_moves_emitted(
            board,
            final(moves).view_moves(),
            old(moves).view_moves().len() as int,
            Color::Black,
        ),
{
    generate_side::<false>(board, moves);
}

/// All moves of `us` in generation order: quiet moves then captures of
/// knights, kings, bishops, rooks and queens, pawn pushes, pawn captures,
/// castling.
pub open spec fn side_seq(board: &Board, us: Color) -> Seq<Move> {
    piece_seq::<Caval>(board, us, false) + piece_seq::<Caval>(board, us, true) + piece_seq::<Re>(
        board,
        us,
        false,
    ) + piece_seq::<Re>(board, us, true) + piece_seq::<Alfe>(board, us, false) + piece_seq::<Alfe>(
        board,
        us,
        true,
    ) + piece_seq::<Tor>(board, us, false) + piece_seq::<Tor>(board, us, true) + piece_seq::<
        Argina,
    >(board, us, false) + piece_seq::<Argina>(board, us, true) + pawn_push_seq(board, us)
        + pawn_capture_seq(board, us) + castle_seq(board, us)
}

/// The moves of the side `WHITE` names: each piece kind's quiet moves and
/// captures, pawn pushes, pawn captures, castling.
#[verifier::spinoff_prover]
#[verifier::rlimit(100)]
fn generate_side<const WHITE: bool>(board: &Board, moves: &mut MoveList)
    requires
        board.wf(),
    ensures
        final(moves).view_moves() == old(moves).view_moves() + side_seq(board, side_of(WHITE)),
        all_fit(board, old(moves).view_moves(), final(moves).view_moves(), side_of(WHITE)),
        all_moves_emitted(
            board,
            final(moves).view_moves(),
            old(moves).view_moves().len() as int,
            side_of(WHITE),
        ),
{
    let ghost us = side_of(WHITE);
    let ghost l0 = moves.view_moves();
    generate_moves::<Caval, WHITE, false>(board, moves);
    let ghost l1 = moves.view_moves();
    generate_moves::<Caval, WHITE, true>(board, moves);
    let ghost l2 = moves.view_moves();
    generate_moves::<Re, WHITE, false>(board, moves);
    let ghost l3 = moves.view_moves();
    generate_moves::<Re, WHITE, true>(board, moves);
    let ghost l4 = moves.view_moves();
    generate_moves::<Alfe, WHITE, false>(board, moves);
    let ghost l5 = moves.view_moves();
    generate_moves::<Alfe, WHITE, true>(board, moves);
    let ghost l6 = moves.view_moves();
    generate_moves::<Tor, WHITE, false>(board, moves);
    let ghost l7 = moves.view_moves();
    generate_moves::<Tor, WHITE, true>(board, moves);
    let ghost l8 = moves.view_moves();
    generate_moves::<Argina, WHITE, false>(board, moves);
    let ghost l9 = moves.view_moves();
    generate_moves::<Argina, WHITE, true>(board, moves);
    let ghost l10 = moves.view_moves();
    generate_pawn_quiets::<WHITE>(board, moves);
    let ghost l11 = moves.view_moves();
    generate_pawn_captures::<WHITE>(board, moves);
    let ghost l12 = moves.view_moves();
    generate_castling::<WHITE>(board, moves);
    proof {
        let lf = moves.view_moves();
        let us = side_of(WHITE);
        assert(lf =~= l0 + side_seq(board, us));
        let s0 = l0.len() as int;
        lemma_extends_trans(l11, l12, lf);
        lemma_extends_trans(l10, l11, lf);
        lemma_extends_trans(l9, l10, lf);
        lemma_extends_trans(l8, l9, lf);
        lemma_extends_trans(l7, l8, lf);
        lemma_extends_trans(l6, l7, lf);
        lemma_extends_trans(l5, l6, lf);
        lemma_extends_trans(l4, l5, lf);
        lemma_extends_trans(l3, l4, lf);
        lemma_extends_trans(l2, l3, lf);
        lemma_extends_trans(l1, l2, lf);
        lemma_piece_moves_widen::<Caval>(board, l1, lf, l0.len() as int, s0, us, false);
        lemma_piece_moves_widen::<Caval>(board, l2, lf, l1.len() as int, s0, us, true);
        lemma_piece_moves_widen::<Re>(board, l3, lf, l2.len() as int, s0, us, false);
        lemma_piece_moves_widen::<Re>(board, l4, lf, l3.len() as int, s0, us, true);
        lemma_piece_moves_widen::<Alfe>(board, l5, lf, l4.len() as int, s0, us, false);
        lemma_piece_moves_widen::<Alfe>(board, l6, lf, l5.len() as int, s0, us, true);
        lemma_piece_moves_widen::<Tor>(board, l7, lf, l6.len() as int, s0, us, false);
        lemma_piece_moves_widen::<Tor>(board, l8, lf, l7.len() as int, s0, us, true);
        lemma_piece_moves_widen::<Argina>(board, l9, lf, l8.len() as int, s0, us, false);
        lemma_piece_moves_widen::<Argina>(board, l10, lf, l9.len() as int, s0, us, true);
        lemma_pawn_pushes_widen(board, l11, lf, l10.len() as int, s0, us);
        lemma_pawn_captures_widen(board, l12, lf, l11.len() as int, s0, us);
        lemma_castles_widen(board, lf, lf, l12.len() as int, s0, us);
    }
}

/// Every move of kind `P` for `us` is in `list` from `start` on: with
/// `capture`, one capture per opposing piece such a piece attacks; else one
/// quiet move per empty square it attacks.
#[verifier::opaque]
pub open spec fn piece_moves_emitted<P: Attacker>(
    board: &Board,
    list: Seq<Move>,
    start: int,
    us: Color,
    capture: bool,
) -> bool {
    forall|f: int, t: int|
        0 <= f < 64 && board.mailbox_view()[f] == Some(Piece::of(us, P::kind_spec()))
            && #[trigger] holds(P::attacks_spec(board.tables(), f, board.occupancy()), t) && (
        if capture {
            owned_by(board.mailbox_view(), t, us.other())
        } else {
            board.mailbox_view()[t] is None
        }) ==> emitted(
            list,
            start,
            code(
                f,
                t,
                if capture {
                    4int
                } else {
                    0int
                },
            ),
        )
}

/// Every pseudo-legal move of `us` is in `list` from `start` on: the quiet
/// moves and captures of knights, kings, bishops, rooks and queens, the pawn
/// pushes and captures, and castling.
pub open spec fn all_moves_emitted(board: &Board, list: Seq<Move>, start: int, us: Color) -> bool {
    &&& piece_moves_emitted::<Caval>(board, list, start, us, false)
    &&& piece_moves_emitted::<Caval>(board, list, start, us, true)
    &&& piece_moves_emitted::<Re>(board, list, start, us, false)
    &&& piece_moves_emitted::<Re>(board, list, start, us, true)
    &&& piece_moves_emitted::<Alfe>(board, list, start, us, false)
    &&& piece_moves_emitted::<Alfe>(board, list, start, us, true)
    &&& piece_moves_emitted::<Tor>(board, list, start, us, false)
    &&& piece_moves_emitted::<Tor>(board, list, start, us, true)
    &&& piece_moves_emitted::<Argina>(board, list, start, us, false)
    &&& piece_moves_emitted::<Argina>(board, list, start, us, true)
    &&& pawn_pushes_emitted(board, list, start, us)
    &&& pawn_captures_emitted(board, list, start, us)
    &&& castles_emitted(board, list, start, us)
}

proof fn lemma_extends_trans(a: Seq<Move>, b: Seq<Move>, c: Seq<Move>)
    requires
        extends(b, a),
        extends(c, b),
    ensures
        extends(c, a),
{
    assert forall|i: int| 0 <= i < a.len() implies #[trigger] c[i] == a[i] by {
        assert(c[i] == b[i]);
    }
}

/// A move emitted from `s1` on is emitted from any earlier `s0` on, in any
/// extension of the list.
proof fn lemma_emitted_widen(list: Seq<Move>, more: Seq<Move>, s1: int, s0: int, e: int)
    requires
        0 <= s0 <= s1,
        emitted(list, s1, e),
        extends(more, list),
    ensures
        emitted(more, s0, e),
{
    let i = choose|i: int| s1 <= i < list.len() && list[i]@ == e;
    assert(more[i] == list[i]);
}

proof fn lemma_piece_moves_widen<P: Attacker>(
    board: &Board,
    list: Seq<Move>,
    more: Seq<Move>,
    s1: int,
    s0: int,
    us: Color,
    capture: bool,
)
    requires
        0 <= s0 <= s1,
        piece_moves_emitted::<P>(board, list, s1, us, capture),
        extends(more, list),
    ensures
        piece_moves_emitted::<P>(board, more, s0, us, capture),
{
    reveal(piece_moves_emitted);
    let tag: int = if capture {
        4int
    } else {
        0int
    };
    assert forall|f: int, t: int|
        0 <= f < 64 && board.mailbox_view()[f] == Some(Piece::of(us, P::kind_spec()))
            && #[trigger] holds(P::attacks_spec(board.tables(), f, board.occupancy()), t) && (
        if capture {
            owned_by(board.mailbox_view(), t, us.other())
        } else {
            board.mailbox_view()[t] is None
        }) implies emitted(more, s0, code(f, t, tag)) by {
        lemma_emitted_widen(list, more, s1, s0, code(f, t, tag));
    }
}

proof fn lemma_pawn_captures_widen(board: &Board, list: Seq<Move>, more: Seq<Move>, s1: int, s0: int, us: Color)
    requires
        0 <= s0 <= s1,
        pawn_captures_emitted(board, list, s1, us),
        extends(more, list),
    ensures
        pawn_captures_emitted(board, more, s0, us),
{
    reveal(pawn_captures_emitted);
    assert forall|f: int, t: int|
        0 <= f < 64 && board.mailbox_view()[f] == Some(Piece::of(us, PieceType::Pawn))
            && #[trigger] pawn_capture_step(us, f, t) implies capture_done(board, more, s0, us, f, t) by {
        assert(capture_done(board, list, s1, us, f, t));
        if ep_open(board, t, us) {
            lemma_emitted_widen(list, more, s1, s0, code(f, t, 5));
        }
        if !ep_open(board, t, us) && owned_by(board.mailbox_view(), t, us.other()) {
            if last_rank(us, t) {
                lemma_emitted_widen(list, more, s1, s0, code(f, t, 15));
                lemma_emitted_widen(list, more, s1, s0, code(f, t, 14));
                lemma_emitted_widen(list, more, s1, s0, code(f, t, 13));
                lemma_emitted_widen(list, more, s1, s0, code(f, t, 12));
            } else {
                lemma_emitted_widen(list, more, s1, s0, code(f, t, 4));
            }
        }
    }
}

proof fn lemma_pawn_pushes_widen(board: &Board, list: Seq<Move>, more: Seq<Move>, s1: int, s0: int, us: Color)
    requires
        0 <= s0 <= s1,
        pawn_pushes_emitted(board, list, s1, us),
        extends(more, list),
    ensures
        pawn_pushes_emitted(board, more, s0, us),
{
    reveal(pawn_pushes_emitted);
    assert forall|f: int, t: int|
        0 <= f < 64 && board.mailbox_view()[f] == Some(Piece::of(us, PieceType::Pawn))
            && #[trigger] pawn_push_step(us, f, t) && board.mailbox_view()[t] is None implies push_done(
        board,
        more,
        s0,
        us,
        f,
        t,
    ) by {
        assert(push_done(board, list, s1, us, f, t));
        if last_rank(us, t) {
            lemma_emitted_widen(list, more, s1, s0, code(f, t, 11));
            lemma_emitted_widen(list, more, s1, s0, code(f, t, 10));
            lemma_emitted_widen(list, more, s1, s0, code(f, t, 9));
            lemma_emitted_widen(list, more, s1, s0, code(f, t, 8));
        } else {
            lemma_emitted_widen(list, more, s1, s0, code(f, t, 0));
            assert forall|t2: int|
                #[trigger] pawn_double_step(us, f, t2) && board.mailbox_view()[t2] is None implies emitted(
                more,
                s0,
                code(f, t2, 1),
            ) by {
                lemma_emitted_widen(list, more, s1, s0, code(f, t2, 1));
            }
        }
    }
}

proof fn lemma_castles_widen(board: &Board, list: Seq<Move>, more: Seq<Move>, s1: int, s0: int, us: Color)
    requires
        0 <= s0 <= s1,
        castles_emitted(board, list, s1, us),
        extends(more, list),
    ensures
        castles_emitted(board, more, s0, us),
{
    reveal(castles_emitted);
    let base = home_rank(us);
    if can_castle_king_side(board, us) {
        lemma_emitted_widen(list, more, s1, s0, code(base + 4, base + 6, 2));
    }
    if can_castle_queen_side(board, us) {
        lemma_emitted_widen(list, more, s1, s0, code(base + 4, base + 2, 3));
    }
}

/// Packed form of a move from `f` to `t` with kind tag `tag`.
pub open spec fn code(f: int, t: int, tag: int) -> int {
    f + 64 * t + 4096 * tag
}

/// Some move of `list` from index `start` on has packed form `e`.
pub open spec fn emitted(list: Seq<Move>, start: int, e: int) -> bool {
    exists|i: int| start <= i < list.len() && list[i]@ == e
}

/// `more` keeps every move of `list` at its index.
pub open spec fn extends(more: Seq<Move>, list: Seq<Move>) -> bool {
    list.len() <= more.len() && forall|i: int| 0 <= i < list.len() ==> #[trigger] more[i] == list[i]
}

/// A move emitted stays emitted as the list grows.
proof fn lemma_emitted_grow(list: Seq<Move>, more: Seq<Move>, start: int, e: int)
    requires
        0 <= start,
        emitted(list, start, e),
        extends(more, list),
    ensures
        emitted(more, start, e),
{
    let i = choose|i: int| start <= i < list.len() && list[i]@ == e;
    assert(more[i] == list[i]);
}

/// The last move pushed is emitted.
proof fn lemma_emitted_last(list: Seq<Move>, start: int)
    requires
        0 <= start < list.len(),
    ensures
        emitted(list, start, list[list.len() - 1]@ as int),
{
    assert(list[list.len() - 1]@ == list[list.len() - 1]@);
}

/// Moves of kind `P` for the side `WHITE` names: with `CAPTURE`, one capture
/// for each opposing piece a piece of kind `P` attacks; else one quiet move
/// for each empty square it attacks. Nothing else is added.
#[verifier::spinoff_prover]
pub fn generate_moves<P: Attacker, const WHITE: bool, const CAPTURE: bool>(
    board: &Board,
    moves: &mut MoveList,
)
    requires
        board.wf(),
    ensures
        extends(final(moves).view_moves(), old(moves).view_moves()),
        forall|i: int|
            old(moves).view_moves().len() <= i < final(moves).view_moves().len() ==> {
                let m = #[trigger] final(moves).view_moves()[i];
                &&& board.fits_as(m, side_of(WHITE))
                &&& tag_of(m@) == if CAPTURE {
                    4int
                } else {
                    0int
                }
                &&& board.mailbox_view()[crate::moves::from_of(m@)] == Some(
                    Piece::of(side_of(WHITE), P::kind_spec()),
                )
                &&& holds(
                    P::attacks_spec(board.tables(), crate::moves::from_of(m@), board.occupancy()),
                    crate::moves::to_of(m@),
                )
            },
        piece_moves_emitted::<P>(
            board,
            final(moves).view_moves(),
            old(moves).view_moves().len() as int,
            side_of(WHITE),
            CAPTURE,
        ),
        final(moves).view_moves() == old(moves).view_moves() + piece_seq::<P>(
            board,
            side_of(WHITE),
            CAPTURE,
        ),
{
    proof {
        reveal(piece_moves_emitted);
    }
    proof {
        board.lemma_wf();
    }
    let us_color = if WHITE {
        Color::White
    } else {
        Color::Black
    };
    let us = board.color(us_color).0;
    let them = board.color(us_color.opponent()).0;
    let kind = P::kind();
    let mut attackers = Bitboard(board.piece(kind).0 & us);
    let target = if CAPTURE {
        them
    } else {
        board.empty_squares().0
    };
    let ghost start = moves.view_moves();
    let ghost all_from = attackers.0;
    let ghost tag: int = if CAPTURE {
        4int
    } else {
        0int
    };
    let ghost tb = board.tables();
    let ghost occ = board.occupancy();
    let ghost pf = piece_part::<P>(board, side_of(WHITE), CAPTURE);
    assert(moves.view_moves() + over_squares(attackers.0, 0, pf) =~= start + over_squares(all_from, 0, pf));
    while attackers.0 != 0
        invariant
            target == target_set(board, us_color, CAPTURE),
            all_from == board.piece_set(P::kind_spec().idx()) & board.color_set(us_color.idx()),
            pf == piece_part::<P>(board, side_of(WHITE), CAPTURE),
            moves.view_moves() + over_squares(attackers.0, 0, pf) == start + over_squares(all_from, 0, pf),
            board.wf(),
            us_color == side_of(WHITE),
            kind == P::kind_spec(),
            tb == board.tables(),
            occ == board.occupancy(),
            tag == (if CAPTURE {
                4int
            } else {
                0int
            }),
            forall|s: int| #[trigger] holds(all_from, s) == (0 <= s < 64 && board.mailbox_view()[s] == Some(Piece::of(us_color, kind))),
            forall|s: int| #[trigger] holds(attackers.0, s) ==> holds(all_from, s),
            forall|s: int| #[trigger] holds(target, s) == (0 <= s < 64 && if CAPTURE {
                owned_by(board.mailbox_view(), s, us_color.other())
            } else {
                board.mailbox_view()[s] is None
            }),
            extends(moves.view_moves(), start),
            forall|i: int|
                start.len() <= i < moves.view_moves().len() ==> {
                    let m = #[trigger] moves.view_moves()[i];
                    &&& board.fits_as(m, side_of(WHITE))
                    &&& tag_of(m@) == tag
                    &&& board.mailbox_view()[crate::moves::from_of(m@)] == Some(
                        Piece::of(side_of(WHITE), P::kind_spec()),
                    )
                    &&& holds(
                        P::attacks_spec(tb, crate::moves::from_of(m@), occ),
                        crate::moves::to_of(m@),
                    )
                },
            forall|f: int, t: int|
                holds(all_from, f) && !holds(attackers.0, f) && #[trigger] holds(
                    P::attacks_spec(tb, f, occ),
                    t,
                ) && holds(target, t) ==> emitted(moves.view_moves(), start.len() as int, code(f, t, tag)),
        decreases attackers.0,
    {
        let ghost attackers_before = attackers.0;
        let from = attackers.pop_lsb();
        let attack_set = P::get_attacks(from, board).0;
        let mut attacks = Bitboard(attack_set & target);
        let ghost mid = moves.view_moves();
        let ghost g = moves_to(from as int, tag);
        proof {
            lemma_over_pop(attackers_before, attackers.0, from as int, pf);
            assert(pf(from as int) == over_squares(attack_set & target, 0, g));
            assert(mid + (pf(from as int) + over_squares(attackers.0, 0, pf)) =~= start + over_squares(all_from, 0, pf));
        }
        while attacks.0 != 0
            invariant
                target == target_set(board, us_color, CAPTURE),
                pf == piece_part::<P>(board, side_of(WHITE), CAPTURE),
                g == moves_to(from as int, tag),
                pf(from as int) == over_squares(attack_set & target, 0, g),
                mid + (pf(from as int) + over_squares(attackers.0, 0, pf)) == start + over_squares(all_from, 0, pf),
                moves.view_moves() + over_squares(attacks.0, 0, g) == mid + over_squares(attack_set & target, 0, g),
                board.wf(),
                from < 64,
                us_color == side_of(WHITE),
                kind == P::kind_spec(),
                tb == board.tables(),
                occ == board.occupancy(),
                tag == (if CAPTURE {
                    4int
                } else {
                    0int
                }),
                holds(all_from, from as int),
                !holds(attackers.0, from as int),
                board.mailbox_view()[from as int] == Some(Piece::of(us_color, kind)),
                attack_set == P::attacks_spec(tb, from as int, occ),
                forall|s: int| #[trigger] holds(all_from, s) == (0 <= s < 64 && board.mailbox_view()[s] == Some(Piece::of(us_color, kind))),
                forall|s: int| #[trigger] holds(attackers.0, s) ==> holds(all_from, s),
                forall|s: int| #[trigger] holds(attacks.0, s) ==> holds(attack_set, s) && holds(target, s),
                forall|s: int| #[trigger] holds(target, s) == (0 <= s < 64 && if CAPTURE {
                    owned_by(board.mailbox_view(), s, us_color.other())
                } else {
                    board.mailbox_view()[s] is None
                }),
                extends(moves.view_moves(), start),
                forall|i: int|
                    start.len() <= i < moves.view_moves().len() ==> {
                        let m = #[trigger] moves.view_moves()[i];
                        &&& board.fits_as(m, side_of(WHITE))
                        &&& tag_of(m@) == tag
                        &&& board.mailbox_view()[crate::moves::from_of(m@)] == Some(
                            Piece::of(side_of(WHITE), P::kind_spec()),
                        )
                        &&& holds(
                            P::attacks_spec(tb, crate::moves::from_of(m@), occ),
                            crate::moves::to_of(m@),
                        )
                    },
                forall|f: int, t: int|
                    holds(all_from, f) && !holds(attackers.0, f) && f != from && #[trigger] holds(
                        P::attacks_spec(tb, f, occ),
                        t,
                    ) && holds(target, t) ==> emitted(moves.view_moves(), start.len() as int, code(f, t, tag)),
                forall|t: int|
                    #[trigger] holds(attack_set, t) && holds(target, t) && !holds(attacks.0, t)
                        ==> emitted(moves.view_moves(), start.len() as int, code(from as int, t, tag)),
            decreases attacks.0,
        {
            let ghost attacks_before = attacks.0;
            let to = attacks.pop_lsb();
            let m = if CAPTURE {
                Move::new_special(from, to, MoveType::Capture)
            } else {
                Move::new_normal(from, to)
            };
            let ghost before = moves.view_moves();
            moves.push(m);
            proof {
                lemma_over_pop(attacks_before, attacks.0, to as int, g);
                assert(g(to as int) == seq![m]);
                assert(moves.view_moves() + over_squares(attacks.0, 0, g) =~= before + over_squares(attacks_before, 0, g));
                let after = moves.view_moves();
                assert(extends(after, before));
                lemma_emitted_last(after, start.len() as int);
                assert forall|f: int, t: int|
                    holds(all_from, f) && !holds(attackers.0, f) && f != from && #[trigger] holds(
                        P::attacks_spec(tb, f, occ),
                        t,
                    ) && holds(target, t) implies emitted(after, start.len() as int, code(f, t, tag)) by {
                    lemma_emitted_grow(before, after, start.len() as int, code(f, t, tag));
                }
                assert forall|t: int|
                    #[trigger] holds(attack_set, t) && holds(target, t) && !holds(attacks.0, t)
                        implies emitted(after, start.len() as int, code(from as int, t, tag)) by {
                    if t != to {
                        lemma_emitted_grow(before, after, start.len() as int, code(from as int, t, tag));
                    }
                }
            }
        }
        proof {
            assert forall|f: int, t: int|
                holds(all_from, f) && !holds(attackers.0, f) && #[trigger] holds(
                    P::attacks_spec(tb, f, occ),
                    t,
                ) && holds(target, t) implies emitted(moves.view_moves(), start.len() as int, code(f, t, tag)) by {
                if f == from {
                    assert(!holds(attacks.0, t));
                }
            }
            assert(attacks.0 == 0);
            lemma_over_empty(g);
            assert(moves.view_moves() =~= mid + pf(from as int));
            assert(moves.view_moves() + over_squares(attackers.0, 0, pf) =~= start + over_squares(all_from, 0, pf));
        }
    }
    proof {
        lemma_over_empty(pf);
        assert(moves.view_moves() =~= start + over_squares(all_from, 0, pf));
        assert forall|f: int, t: int|
            0 <= f < 64 && board.mailbox_view()[f] == Some(Piece::of(side_of(WHITE), P::kind_spec()))
                && #[trigger] holds(P::attacks_spec(board.tables(), f, board.occupancy()), t) && (
            if CAPTURE {
                owned_by(board.mailbox_view(), t, side_of(WHITE).other())
            } else {
                board.mailbox_view()[t] is None
            }) implies emitted(moves.view_moves(), start.len() as int, code(f, t, tag)) by {
            assert(holds(all_from, f));
            assert(!holds(attackers.0, f));
            assert(holds(target, t));
        }
    }
}

/// `t` is on the rank where pawns of `us` promote.
pub open spec fn last_rank(us: Color, t: int) -> bool {
    t / 8 == if us == Color::White {
        7int
    } else {
        0int
    }
}

/// A pawn of `us` may take en passant onto `t`: `t` is the en-passant square,
/// empty, with an opposing pawn behind it.
pub open spec fn ep_open(board: &Board, t: int, us: Color) -> bool {
    &&& match board.top().en_passant {
        Some(e) => e@ == t,
        None => false,
    }
    &&& board.mailbox_view()[t] is None
    &&& 0 <= behind(t, us) < 64
    &&& board.mailbox_view()[behind(t, us)] == Some(Piece::of(us.other(), PieceType::Pawn))
}

/// The captures of a pawn of `us` from `f` onto `t` are in `list` from `start`
/// on: en passant where it is open, else, onto an opposing piece, the four
/// promotion captures on the last rank and a plain capture elsewhere.
pub open spec fn capture_done(board: &Board, list: Seq<Move>, start: int, us: Color, f: int, t: int) -> bool {
    &&& ep_open(board, t, us) ==> emitted(list, start, code(f, t, 5))
    &&& (!ep_open(board, t, us) && owned_by(board.mailbox_view(), t, us.other()) && last_rank(us, t))
        ==> {
        &&& emitted(list, start, code(f, t, 15))
        &&& emitted(list, start, code(f, t, 14))
        &&& emitted(list, start, code(f, t, 13))
        &&& emitted(list, start, code(f, t, 12))
    }
    &&& (!ep_open(board, t, us) && owned_by(board.mailbox_view(), t, us.other()) && !last_rank(us, t))
        ==> emitted(list, start, code(f, t, 4))
}

/// The en-passant square as a bitboard, empty when there is none.
pub open spec fn ep_bits(board: &Board) -> u64 {
    match board.top().en_passant {
        Some(e) => 1u64 << (e@ as u64),
        None => 0u64,
    }
}

/// Squares a pawn of `us` on `f` may capture on: opposing pieces and the
/// en-passant square, among its capture squares.
pub open spec fn pawn_targets(board: &Board, f: int, us: Color) -> u64 {
    board.tables().pawn_capture@[us.idx()]@[f].0 & (board.color_set(us.other().idx()) | ep_bits(board))
}

/// The captures of a pawn of `us` on `f` onto `t`: en passant where it is
/// open; else, onto an opposing piece, the promotion captures to queen, rook,
/// bishop and knight on the last rank and a plain capture elsewhere.
pub open spec fn capture_moves(board: &Board, f: int, us: Color) -> spec_fn(int) -> Seq<Move> {
    |t: int|
        if ep_open(board, t, us) {
            seq![Move::pack(f, t, 5)]
        } else if owned_by(board.mailbox_view(), t, us.other()) {
            if last_rank(us, t) {
                seq![Move::pack(f, t, 15), Move::pack(f, t, 14), Move::pack(f, t, 13), Move::pack(f, t, 12)]
            } else {
                seq![Move::pack(f, t, 4)]
            }
        } else {
            Seq::empty()
        }
}

/// The captures of a pawn of `us` on `f`, targets ascending.
pub open spec fn pawn_capture_part(board: &Board, us: Color) -> spec_fn(int) -> Seq<Move> {
    |f: int| over_squares(pawn_targets(board, f, us), 0, capture_moves(board, f, us))
}

/// All pawn captures of `us`, origins ascending.
pub open spec fn pawn_capture_seq(board: &Board, us: Color) -> Seq<Move> {
    over_squares(board.piece_set(0) & board.color_set(us.idx()), 0, pawn_capture_part(board, us))
}

/// Every pawn capture of `us` is in `list` from `start` on.
#[verifier::opaque]
pub open spec fn pawn_captures_emitted(board: &Board, list: Seq<Move>, start: int, us: Color) -> bool {
    forall|f: int, t: int|
        0 <= f < 64 && board.mailbox_view()[f] == Some(Piece::of(us, PieceType::Pawn))
            && #[trigger] pawn_capture_step(us, f, t) ==> capture_done(board, list, start, us, f, t)
}

proof fn lemma_capture_done_grow(
    board: &Board,
    list: Seq<Move>,
    more: Seq<Move>,
    start: int,
    us: Color,
    f: int,
    t: int,
)
    requires
        0 <= start,
        capture_done(board, list, start, us, f, t),
        extends(more, list),
    ensures
        capture_done(board, more, start, us, f, t),
{
    if ep_open(board, t, us) {
        lemma_emitted_grow(list, more, start, code(f, t, 5));
    }
    if !ep_open(board, t, us) && owned_by(board.mailbox_view(), t, us.other()) {
        if last_rank(us, t) {
            lemma_emitted_grow(list, more, start, code(f, t, 15));
            lemma_emitted_grow(list, more, start, code(f, t, 14));
            lemma_emitted_grow(list, more, start, code(f, t, 13));
            lemma_emitted_grow(list, more, start, code(f, t, 12));
        } else {
            lemma_emitted_grow(list, more, start, code(f, t, 4));
        }
    }
}

proof fn lemma_last_rank_mask(t: u64)
    requires
        t < 64,
    ensures
        holds(0xFF00_0000_0000_0000u64, t as int) == (t / 8 == 7),
        holds(0x0000_0000_0000_00FFu64, t as int) == (t / 8 == 0),
{
    assert(bit(0xFF00_0000_0000_0000u64, t) == (t / 8 == 7) && bit(0xFFu64, t) == (t / 8 == 0))
        by (bit_vector)
        requires
            t < 64,
    ;
}

/// The pawn captures of the side `WHITE` names: en passant onto the en-passant
/// square, four promotion captures (queen, rook, bishop, knight) onto the last
/// rank, plain captures elsewhere. Nothing else is added.
#[verifier::spinoff_prover]
pub fn generate_pawn_captures<const WHITE: bool>(board: &Board, moves: &mut MoveList)
    requires
        board.wf(),
    ensures
        all_fit(board, old(moves).view_moves(), final(moves).view_moves(), side_of(WHITE)),
        pawn_captures_emitted(
            board,
            final(moves).view_moves(),
            old(moves).view_moves().len() as int,
            side_of(WHITE),
        ),
        final(moves).view_moves() == old(moves).view_moves() + pawn_capture_seq(board, side_of(WHITE)),
{
    proof {
        reveal(pawn_captures_emitted);
    }
    proof {
        board.lemma_wf();
    }
    let us_color = if WHITE {
        Color::White
    } else {
        Color::Black
    };
    let them_color = us_color.opponent();
    let mut pawns = Bitboard(board.piece(PieceType::Pawn).0 & board.color(us_color).0);
    let them = board.color(them_color).0;
    let promotion_rank: u64 = if WHITE {
        0xFF00_0000_0000_0000u64
    } else {
        0x0000_0000_0000_00FFu64
    };
    let ep_square: u64 = match board.en_passant_square() {
        Some(sq) => sq.bb().0,
        None => 0,
    };
    let tables = board.tables_ref();
    let ghost start = moves.view_moves();
    let ghost st = start.len() as int;
    let ghost all_pawns = pawns.0;
    let ghost pf = pawn_capture_part(board, us_color);
    assert(moves.view_moves() + over_squares(pawns.0, 0, pf) =~= start + over_squares(all_pawns, 0, pf));
    while pawns.0 != 0
        invariant
            all_pawns == board.piece_set(0) & board.color_set(us_color.idx()),
            them == board.color_set(them_color.idx()),
            ep_square == ep_bits(board),
            pf == pawn_capture_part(board, us_color),
            moves.view_moves() + over_squares(pawns.0, 0, pf) == start + over_squares(all_pawns, 0, pf),
            board.wf(),
            *tables == board.tables(),
            tables.wf(),
            us_color == side_of(WHITE),
            them_color == us_color.other(),
            st == start.len(),
            promotion_rank == (if WHITE {
                0xFF00_0000_0000_0000u64
            } else {
                0x0000_0000_0000_00FFu64
            }),
            forall|s: int| #[trigger] holds(ep_square, s) == match board.top().en_passant {
                Some(e) => e@ == s,
                None => false,
            },
            forall|s: int| #[trigger] holds(all_pawns, s) == (0 <= s < 64 && board.mailbox_view()[s] == Some(Piece::of(us_color, PieceType::Pawn))),
            forall|s: int| #[trigger] holds(pawns.0, s) ==> holds(all_pawns, s),
            forall|s: int| #[trigger] holds(them, s) == (0 <= s < 64 && owned_by(board.mailbox_view(), s, them_color)),
            all_fit(board, start, moves.view_moves(), us_color),
            forall|f: int, t: int|
                holds(all_pawns, f) && !holds(pawns.0, f) && #[trigger] pawn_capture_step(us_color, f, t)
                    ==> capture_done(board, moves.view_moves(), st, us_color, f, t),
        decreases pawns.0,
    {
        let ghost pawns_before = pawns.0;
        let from = pawns.pop_lsb();
        let cands = tables.pawn_capture[us_color.index()][from].0 & (them | ep_square);
        let mut attacks = Bitboard(cands);
        let ghost mid = moves.view_moves();
        let ghost cm = capture_moves(board, from as int, us_color);
        proof {
            lemma_over_pop(pawns_before, pawns.0, from as int, pf);
            assert(cands == pawn_targets(board, from as int, us_color));
            assert(pf(from as int) == over_squares(cands, 0, cm));
            assert(mid + (pf(from as int) + over_squares(pawns.0, 0, pf)) =~= start + over_squares(all_pawns, 0, pf));
        }
        while attacks.0 != 0
            invariant
                them == board.color_set(them_color.idx()),
                pf == pawn_capture_part(board, us_color),
                cm == capture_moves(board, from as int, us_color),
                pf(from as int) == over_squares(cands, 0, cm),
                mid + (pf(from as int) + over_squares(pawns.0, 0, pf)) == start + over_squares(all_pawns, 0, pf),
                moves.view_moves() + over_squares(attacks.0, 0, cm) == mid + over_squares(cands, 0, cm),
                board.wf(),
                from < 64,
                us_color == side_of(WHITE),
                them_color == us_color.other(),
                *tables == board.tables(),
                tables.wf(),
                st == start.len(),
                promotion_rank == (if WHITE {
                    0xFF00_0000_0000_0000u64
                } else {
                    0x0000_0000_0000_00FFu64
                }),
                cands == tables.pawn_capture@[us_color.idx()]@[from as int].0 & (them | ep_square),
                holds(all_pawns, from as int),
                !holds(pawns.0, from as int),
                board.mailbox_view()[from as int] == Some(Piece::of(us_color, PieceType::Pawn)),
                forall|s: int| #[trigger] holds(ep_square, s) == match board.top().en_passant {
                    Some(e) => e@ == s,
                    None => false,
                },
                forall|s: int| #[trigger] holds(all_pawns, s) == (0 <= s < 64 && board.mailbox_view()[s] == Some(Piece::of(us_color, PieceType::Pawn))),
                forall|s: int| #[trigger] holds(pawns.0, s) ==> holds(all_pawns, s),
                forall|s: int| #[trigger] holds(attacks.0, s) ==> holds(cands, s),
                forall|s: int| #[trigger] holds(them, s) == (0 <= s < 64 && owned_by(board.mailbox_view(), s, them_color)),
                all_fit(board, start, moves.view_moves(), us_color),
                forall|f: int, t: int|
                    holds(all_pawns, f) && !holds(pawns.0, f) && f != from && #[trigger] pawn_capture_step(us_color, f, t)
                        ==> capture_done(board, moves.view_moves(), st, us_color, f, t),
                forall|t: int|
                    #[trigger] holds(cands, t) && !holds(attacks.0, t)
                        ==> capture_done(board, moves.view_moves(), st, us_color, from as int, t),
            decreases attacks.0,
        {
            let ghost attacks_before = attacks.0;
            let to = attacks.pop_lsb();
            let to_bb = 1u64 << (to as u64);
            let ghost before = moves.view_moves();
            proof {
                lemma_over_pop(attacks_before, attacks.0, to as int, cm);
                lemma_single_and(them, to as u64);
                lemma_single_and(ep_square, to as u64);
                lemma_single_and(promotion_rank, to as u64);
                lemma_last_rank_mask(to as u64);
            }
            if to_bb & ep_square != 0 && board.piece_on(to).is_none() && ep_victim_ok(board, to, us_color) {
                moves.push(Move::new_special(from, to, MoveType::EnPassant));
                proof {
                    lemma_emitted_last(moves.view_moves(), st);
                }
            } else if to_bb & them != 0 {
                if to_bb & promotion_rank != 0 {
                    moves.push(Move::new_special(from, to, MoveType::PromotionCaptureQ));
                    proof {
                        lemma_emitted_last(moves.view_moves(), st);
                    }
                    let ghost l1 = moves.view_moves();
                    moves.push(Move::new_special(from, to, MoveType::PromotionCaptureR));
                    proof {
                        lemma_emitted_last(moves.view_moves(), st);
                        lemma_emitted_grow(l1, moves.view_moves(), st, code(from as int, to as int, 15));
                    }
                    let ghost l2 = moves.view_moves();
                    moves.push(Move::new_special(from, to, MoveType::PromotionCaptureB));
                    proof {
                        lemma_emitted_last(moves.view_moves(), st);
                        lemma_emitted_grow(l2, moves.view_moves(), st, code(from as int, to as int, 15));
                        lemma_emitted_grow(l2, moves.view_moves(), st, code(from as int, to as int, 14));
                    }
                    let ghost l3 = moves.view_moves();
                    moves.push(Move::new_special(from, to, MoveType::PromotionCaptureN));
                    proof {
                        lemma_emitted_last(moves.view_moves(), st);
                        lemma_emitted_grow(l3, moves.view_moves(), st, code(from as int, to as int, 15));
                        lemma_emitted_grow(l3, moves.view_moves(), st, code(from as int, to as int, 14));
                        lemma_emitted_grow(l3, moves.view_moves(), st, code(from as int, to as int, 13));
                    }
                } else {
                    moves.push(Move::new_special(from, to, MoveType::Capture));
                    proof {
                        lemma_emitted_last(moves.view_moves(), st);
                    }
                }
            }
            proof {
                assert(moves.view_moves() =~= before + cm(to as int));
                assert(moves.view_moves() + over_squares(attacks.0, 0, cm) =~= before + over_squares(attacks_before, 0, cm));
            }
            proof {
                let after = moves.view_moves();
                assert(extends(after, before));
                assert forall|f: int, t: int|
                    holds(all_pawns, f) && !holds(pawns.0, f) && f != from && #[trigger] pawn_capture_step(us_color, f, t)
                        implies capture_done(board, after, st, us_color, f, t) by {
                    lemma_capture_done_grow(board, before, after, st, us_color, f, t);
                }
                assert forall|t: int|
                    #[trigger] holds(cands, t) && !holds(attacks.0, t)
                        implies capture_done(board, after, st, us_color, from as int, t) by {
                    if t != to {
                        lemma_capture_done_grow(board, before, after, st, us_color, from as int, t);
                    }
                }
            }
        }
        proof {
            lemma_over_empty(cm);
            assert(moves.view_moves() =~= mid + pf(from as int));
            assert(moves.view_moves() + over_squares(pawns.0, 0, pf) =~= start + over_squares(all_pawns, 0, pf));
        }
        proof {
            assert forall|f: int, t: int|
                holds(all_pawns, f) && !holds(pawns.0, f) && #[trigger] pawn_capture_step(us_color, f, t)
                    implies capture_done(board, moves.view_moves(), st, us_color, f, t) by {
                if f == from {
                    if !holds(cands, t) {
                        assert(holds(tables.pawn_capture@[us_color.idx()]@[from as int].0, t));
                        assert(!ep_open(board, t, us_color));
                        assert(!owned_by(board.mailbox_view(), t, them_color));
                    }
                }
            }
        }
    }
    proof {
        lemma_over_empty(pf);
        assert(moves.view_moves() =~= start + over_squares(all_pawns, 0, pf));
    }
    proof {
        assert forall|f: int, t: int|
            0 <= f < 64 && board.mailbox_view()[f] == Some(Piece::of(us_color, PieceType::Pawn))
                && #[trigger] pawn_capture_step(us_color, f, t) implies capture_done(
            board,
            moves.view_moves(),
            st,
            us_color,
            f,
            t,
        ) by {
            assert(holds(all_pawns, f));
        }
    }
}

/// An opposing pawn stands behind `to`, where a pawn taken en passant would be.
fn ep_victim_ok(board: &Board, to: usize, us: Color) -> (r: bool)
    requires
        board.wf(),
        to < 64,
    ensures
        r == (0 <= behind(to as int, us) < 64 && board.mailbox_view()[behind(to as int, us)]
            == Some(Piece::of(us.other(), PieceType::Pawn))),
{
    let victim: usize = match us {
        Color::White => {
            if to < 8 {
                return false;
            }
            to - 8
        },
        Color::Black => {
            if to >= 56 {
                return false;
            }
            to + 8
        },
    };
    match board.piece_on(victim) {
        Some(p) => p == Piece::new(us.opponent(), PieceType::Pawn),
        None => false,
    }
}

/// The pushes of a pawn of `us` from `f` onto the empty square `t` are in
/// `list` from `start` on: the four promotions on the last rank; elsewhere
/// the single push, and the double push onto an empty square two ahead.
pub open spec fn push_done(board: &Board, list: Seq<Move>, start: int, us: Color, f: int, t: int) -> bool {
    &&& last_rank(us, t) ==> {
        &&& emitted(list, start, code(f, t, 11))
        &&& emitted(list, start, code(f, t, 10))
        &&& emitted(list, start, code(f, t, 9))
        &&& emitted(list, start, code(f, t, 8))
    }
    &&& !last_rank(us, t) ==> {
        &&& emitted(list, start, code(f, t, 0))
        &&& forall|t2: int|
            #[trigger] pawn_double_step(us, f, t2) && board.mailbox_view()[t2] is None ==> emitted(
                list,
                start,
                code(f, t2, 1),
            )
    }
}

/// Empty squares a pawn of `us` on `f` may push one square to.
pub open spec fn push_targets(board: &Board, f: int, us: Color) -> u64 {
    board.tables().pawn_push@[us.idx()]@[f].0 & !board.occupancy()
}

/// Empty squares a pawn of `us` on `f` may push two squares to.
pub open spec fn double_targets(board: &Board, f: int, us: Color) -> u64 {
    board.tables().pawn_double_push@[us.idx()]@[f].0 & !board.occupancy()
}

/// The pushes of a pawn of `us` on `f` onto the empty square `t`: the
/// promotions to queen, rook, bishop and knight on the last rank; elsewhere
/// the single push, then the double push where its square is empty.
pub open spec fn push_moves(board: &Board, f: int, us: Color) -> spec_fn(int) -> Seq<Move> {
    |t: int|
        if last_rank(us, t) {
            seq![Move::pack(f, t, 11), Move::pack(f, t, 10), Move::pack(f, t, 9), Move::pack(f, t, 8)]
        } else {
            seq![Move::pack(f, t, 0)] + if double_targets(board, f, us) != 0 {
                seq![Move::pack(f, lowest(double_targets(board, f, us)), 1)]
            } else {
                Seq::empty()
            }
        }
}

/// The pushes of a pawn of `us` on `f`.
pub open spec fn pawn_push_part(board: &Board, us: Color) -> spec_fn(int) -> Seq<Move> {
    |f: int| over_squares(push_targets(board, f, us), 0, push_moves(board, f, us))
}

/// All pawn pushes of `us`, origins ascending.
pub open spec fn pawn_push_seq(board: &Board, us: Color) -> Seq<Move> {
    over_squares(board.piece_set(0) & board.color_set(us.idx()), 0, pawn_push_part(board, us))
}

/// Every pawn push of `us` is in `list` from `start` on.
#[verifier::opaque]
pub open spec fn pawn_pushes_emitted(board: &Board, list: Seq<Move>, start: int, us: Color) -> bool {
    forall|f: int, t: int|
        0 <= f < 64 && board.mailbox_view()[f] == Some(Piece::of(us, PieceType::Pawn))
            && #[trigger] pawn_push_step(us, f, t) && board.mailbox_view()[t] is None ==> push_done(
            board,
            list,
            start,
            us,
            f,
            t,
        )
}

proof fn lemma_push_done_grow(
    board: &Board,
    list: Seq<Move>,
    more: Seq<Move>,
    start: int,
    us: Color,
    f: int,
    t: int,
)
    requires
        0 <= start,
        push_done(board, list, start, us, f, t),
        extends(more, list),
    ensures
        push_done(board, more, start, us, f, t),
{
    if last_rank(us, t) {
        lemma_emitted_grow(list, more, start, code(f, t, 11));
        lemma_emitted_grow(list, more, start, code(f, t, 10));
        lemma_emitted_grow(list, more, start, code(f, t, 9));
        lemma_emitted_grow(list, more, start, code(f, t, 8));
    } else {
        lemma_emitted_grow(list, more, start, code(f, t, 0));
        assert forall|t2: int|
            #[trigger] pawn_double_step(us, f, t2) && board.mailbox_view()[t2] is None implies emitted(
            more,
            start,
            code(f, t2, 1),
        ) by {
            lemma_emitted_grow(list, more, start, code(f, t2, 1));
        }
    }
}

/// The pawn pushes of the side `WHITE` names: four promotions (queen, rook,
/// bishop, knight) onto the last rank, else a single push and, from the
/// starting rank with both squares empty, a double push. Nothing else is added.
#[verifier::spinoff_prover]
pub fn generate_pawn_quiets<const WHITE: bool>(board: &Board, moves: &mut MoveList)
    requires
        board.wf(),
    ensures
        all_fit(board, old(moves).view_moves(), final(moves).view_moves(), side_of(WHITE)),
        pawn_pushes_emitted(
            board,
            final(moves).view_moves(),
            old(moves).view_moves().len() as int,
            side_of(WHITE),
        ),
        final(moves).view_moves() == old(moves).view_moves() + pawn_push_seq(board, side_of(WHITE)),
{
    proof {
        reveal(pawn_pushes_emitted);
    }
    proof {
        board.lemma_wf();
    }
    let us_color = if WHITE {
        Color::White
    } else {
        Color::Black
    };
    let mut pawns = Bitboard(board.piece(PieceType::Pawn).0 & board.color(us_color).0);
    let promotion_rank: u64 = if WHITE {
        0xFF00_0000_0000_0000u64
    } else {
        0x0000_0000_0000_00FFu64
    };
    let empty = board.empty_squares().0;
    let tables = board.tables_ref();
    let ghost start = moves.view_moves();
    let ghost st = start.len() as int;
    let ghost all_pawns = pawns.0;
    let ghost pf = pawn_push_part(board, us_color);
    assert(moves.view_moves() + over_squares(pawns.0, 0, pf) =~= start + over_squares(all_pawns, 0, pf));
    while pawns.0 != 0
        invariant
            all_pawns == board.piece_set(0) & board.color_set(us_color.idx()),
            empty == !board.occupancy(),
            pf == pawn_push_part(board, us_color),
            moves.view_moves() + over_squares(pawns.0, 0, pf) == start + over_squares(all_pawns, 0, pf),
            board.wf(),
            *tables == board.tables(),
            tables.wf(),
            us_color == side_of(WHITE),
            st == start.len(),
            promotion_rank == (if WHITE {
                0xFF00_0000_0000_0000u64
            } else {
                0x0000_0000_0000_00FFu64
            }),
            forall|s: int| #[trigger] holds(all_pawns, s) == (0 <= s < 64 && board.mailbox_view()[s] == Some(Piece::of(us_color, PieceType::Pawn))),
            forall|s: int| #[trigger] holds(pawns.0, s) ==> holds(all_pawns, s),
            forall|s: int| #[trigger] holds(empty, s) == (0 <= s < 64 && board.mailbox_view()[s] is None),
            all_fit(board, start, moves.view_moves(), us_color),
            forall|f: int, t: int|
                holds(all_pawns, f) && !holds(pawns.0, f) && #[trigger] pawn_push_step(us_color, f, t)
                    && board.mailbox_view()[t] is None ==> push_done(board, moves.view_moves(), st, us_color, f, t),
        decreases pawns.0,
    {
        let ghost pawns_before = pawns.0;
        let from = pawns.pop_lsb();
        let cands = tables.pawn_push[us_color.index()][from].0 & empty;
        let mut pushes = Bitboard(cands);
        let ghost mid = moves.view_moves();
        let ghost pm = push_moves(board, from as int, us_color);
        proof {
            lemma_over_pop(pawns_before, pawns.0, from as int, pf);
            assert(cands == push_targets(board, from as int, us_color));
            assert(pf(from as int) == over_squares(cands, 0, pm));
            assert(mid + (pf(from as int) + over_squares(pawns.0, 0, pf)) =~= start + over_squares(all_pawns, 0, pf));
        }
        while pushes.0 != 0
            invariant
                empty == !board.occupancy(),
                pf == pawn_push_part(board, us_color),
                pm == push_moves(board, from as int, us_color),
                pf(from as int) == over_squares(cands, 0, pm),
                mid + (pf(from as int) + over_squares(pawns.0, 0, pf)) == start + over_squares(all_pawns, 0, pf),
                moves.view_moves() + over_squares(pushes.0, 0, pm) == mid + over_squares(cands, 0, pm),
                board.wf(),
                from < 64,
                us_color == side_of(WHITE),
                *tables == board.tables(),
                tables.wf(),
                st == start.len(),
                promotion_rank == (if WHITE {
                    0xFF00_0000_0000_0000u64
                } else {
                    0x0000_0000_0000_00FFu64
                }),
                cands == tables.pawn_push@[us_color.idx()]@[from as int].0 & empty,
                holds(all_pawns, from as int),
                !holds(pawns.0, from as int),
                board.mailbox_view()[from as int] == Some(Piece::of(us_color, PieceType::Pawn)),
                forall|s: int| #[trigger] holds(all_pawns, s) == (0 <= s < 64 && board.mailbox_view()[s] == Some(Piece::of(us_color, PieceType::Pawn))),
                forall|s: int| #[trigger] holds(pawns.0, s) ==> holds(all_pawns, s),
                forall|s: int| #[trigger] holds(pushes.0, s) ==> holds(cands, s),
                forall|s: int| #[trigger] holds(empty, s) == (0 <= s < 64 && board.mailbox_view()[s] is None),
                all_fit(board, start, moves.view_moves(), us_color),
                forall|f: int, t: int|
                    holds(all_pawns, f) && !holds(pawns.0, f) && f != from && #[trigger] pawn_push_step(us_color, f, t)
                        && board.mailbox_view()[t] is None ==> push_done(board, moves.view_moves(), st, us_color, f, t),
                forall|t: int|
                    #[trigger] holds(cands, t) && !holds(pushes.0, t)
                        ==> push_done(board, moves.view_moves(), st, us_color, from as int, t),
            decreases pushes.0,
        {
            let ghost pushes_before = pushes.0;
            let to = pushes.pop_lsb();
            let to_bb = 1u64 << (to as u64);
            let ghost before = moves.view_moves();
            proof {
                lemma_over_pop(pushes_before, pushes.0, to as int, pm);
                lemma_single_and(promotion_rank, to as u64);
                lemma_last_rank_mask(to as u64);
            }
            if to_bb & promotion_rank != 0 {
                moves.push(Move::new_special(from, to, MoveType::PromotionQ));
                proof {
                    lemma_emitted_last(moves.view_moves(), st);
                }
                let ghost l1 = moves.view_moves();
                moves.push(Move::new_special(from, to, MoveType::PromotionR));
                proof {
                    lemma_emitted_last(moves.view_moves(), st);
                    lemma_emitted_grow(l1, moves.view_moves(), st, code(from as int, to as int, 11));
                }
                let ghost l2 = moves.view_moves();
                moves.push(Move::new_special(from, to, MoveType::PromotionB));
                proof {
                    lemma_emitted_last(moves.view_moves(), st);
                    lemma_emitted_grow(l2, moves.view_moves(), st, code(from as int, to as int, 11));
                    lemma_emitted_grow(l2, moves.view_moves(), st, code(from as int, to as int, 10));
                }
                let ghost l3 = moves.view_moves();
                moves.push(Move::new_special(from, to, MoveType::PromotionN));
                proof {
                    lemma_emitted_last(moves.view_moves(), st);
                    lemma_emitted_grow(l3, moves.view_moves(), st, code(from as int, to as int, 11));
                    lemma_emitted_grow(l3, moves.view_moves(), st, code(from as int, to as int, 10));
                    lemma_emitted_grow(l3, moves.view_moves(), st, code(from as int, to as int, 9));
                }
            } else {
                moves.push(Move::new_normal(from, to));
                proof {
                    lemma_emitted_last(moves.view_moves(), st);
                }
                let mut doubles = Bitboard(tables.pawn_double_push[us_color.index()][from].0 & empty);
                assert(doubles.0 == double_targets(board, from as int, us_color));
                let ghost l1 = moves.view_moves();
                if doubles.0 != 0 {
                    let to2 = doubles.lsb();
                    moves.push(Move::new_special(from, to2, MoveType::DoublePush));
                    proof {
                        lemma_emitted_last(moves.view_moves(), st);
                        lemma_emitted_grow(l1, moves.view_moves(), st, code(from as int, to as int, 0));
                    }
                }
                proof {
                    assert forall|t2: int|
                        #[trigger] pawn_double_step(us_color, from as int, t2) && board.mailbox_view()[t2] is None
                            implies emitted(moves.view_moves(), st, code(from as int, t2, 1)) by {
                        assert(holds(doubles.0, t2));
                        assert(t2 == lowest(doubles.0));
                    }
                }
            }
            proof {
                assert(moves.view_moves() =~= before + pm(to as int));
                assert(moves.view_moves() + over_squares(pushes.0, 0, pm) =~= before + over_squares(pushes_before, 0, pm));
            }
            proof {
                let after = moves.view_moves();
                assert(extends(after, before));
                assert forall|f: int, t: int|
                    holds(all_pawns, f) && !holds(pawns.0, f) && f != from && #[trigger] pawn_push_step(us_color, f, t)
                        && board.mailbox_view()[t] is None implies push_done(board, after, st, us_color, f, t) by {
                    lemma_push_done_grow(board, before, after, st, us_color, f, t);
                }
                assert forall|t: int|
                    #[trigger] holds(cands, t) && !holds(pushes.0, t)
                        implies push_done(board, after, st, us_color, from as int, t) by {
                    if t != to {
                        lemma_push_done_grow(board, before, after, st, us_color, from as int, t);
                    }
                }
            }
        }
        proof {
            lemma_over_empty(pm);
            assert(moves.view_moves() =~= mid + pf(from as int));
            assert(moves.view_moves() + over_squares(pawns.0, 0, pf) =~= start + over_squares(all_pawns, 0, pf));
        }
        proof {
            assert forall|f: int, t: int|
                holds(all_pawns, f) && !holds(pawns.0, f) && #[trigger] pawn_push_step(us_color, f, t)
                    && board.mailbox_view()[t] is None implies push_done(board, moves.view_moves(), st, us_color, f, t) by {
                if f == from {
                    assert(holds(tables.pawn_push@[us_color.idx()]@[from as int].0, t));
                    assert(holds(cands, t));
                }
            }
        }
    }
    proof {
        lemma_over_empty(pf);
        assert(moves.view_moves() =~= start + over_squares(all_pawns, 0, pf));
    }
    proof {
        assert forall|f: int, t: int|
            0 <= f < 64 && board.mailbox_view()[f] == Some(Piece::of(us_color, PieceType::Pawn))
                && #[trigger] pawn_push_step(us_color, f, t) && board.mailbox_view()[t] is None
                implies push_done(board, moves.view_moves(), st, us_color, f, t) by {
            assert(holds(all_pawns, f));
        }
    }
}

/// First square of the home rank of `us`: 0 for White, 56 for Black.
pub open spec fn home_rank(us: Color) -> int {
    if us == Color::White {
        0
    } else {
        56
    }
}

/// `us` may castle king-side: the right is held, king and rook stand on their
/// home squares, the two squares between are empty, and the king's square and
/// the two it crosses to are not attacked.
pub open spec fn can_castle_king_side(board: &Board, us: Color) -> bool {
    let base = home_rank(us);
    let mb = board.mailbox_view();
    let right: u8 = if us == Color::White {
        WK
    } else {
        BK
    };
    &&& board.top().castling & right != 0
    &&& mb[base + 4] == Some(Piece::of(us, PieceType::King))
    &&& mb[base + 7] == Some(Piece::of(us, PieceType::Rook))
    &&& mb[base + 5] is None
    &&& mb[base + 6] is None
    &&& !board.attacked(base + 4, us.other())
    &&& !board.attacked(base + 5, us.other())
    &&& !board.attacked(base + 6, us.other())
}

/// `us` may castle queen-side: the right is held, king and rook stand on their
/// home squares, the three squares between are empty, and the king's square
/// and the two it crosses to are not attacked.
pub open spec fn can_castle_queen_side(board: &Board, us: Color) -> bool {
    let base = home_rank(us);
    let mb = board.mailbox_view();
    let right: u8 = if us == Color::White {
        WQ
    } else {
        BQ
    };
    &&& board.top().castling & right != 0
    &&& mb[base + 4] == Some(Piece::of(us, PieceType::King))
    &&& mb[base] == Some(Piece::of(us, PieceType::Rook))
    &&& mb[base + 1] is None
    &&& mb[base + 2] is None
    &&& mb[base + 3] is None
    &&& !board.attacked(base + 2, us.other())
    &&& !board.attacked(base + 3, us.other())
    &&& !board.attacked(base + 4, us.other())
}

/// The castling moves of `us`: king-side, then queen-side, each where open.
pub open spec fn castle_seq(board: &Board, us: Color) -> Seq<Move> {
    let base = home_rank(us);
    (if can_castle_king_side(board, us) {
        seq![Move::pack(base + 4, base + 6, 2)]
    } else {
        Seq::empty()
    }) + (if can_castle_queen_side(board, us) {
        seq![Move::pack(base + 4, base + 2, 3)]
    } else {
        Seq::empty()
    })
}

/// Each castling move open to `us` is in `list` from `start` on.
#[verifier::opaque]
pub open spec fn castles_emitted(board: &Board, list: Seq<Move>, start: int, us: Color) -> bool {
    &&& can_castle_king_side(board, us) ==> emitted(
        list,
        start,
        code(home_rank(us) + 4, home_rank(us) + 6, 2),
    )
    &&& can_castle_queen_side(board, us) ==> emitted(
        list,
        start,
        code(home_rank(us) + 4, home_rank(us) + 2, 3),
    )
}

/// Castling for the side `WHITE` names, for each wing whose right is held:
/// king and rook in their corners, the squares between them empty, and the
/// king's square, the one it crosses and the one it lands on not attacked.
#[verifier::spinoff_prover]
pub fn generate_castling<const WHITE: bool>(board: &Board, moves: &mut MoveList)
    requires
        board.wf(),
    ensures
        all_fit(board, old(moves).view_moves(), final(moves).view_moves(), side_of(WHITE)),
        castles_emitted(
            board,
            final(moves).view_moves(),
            old(moves).view_moves().len() as int,
            side_of(WHITE),
        ),
        final(moves).view_moves() == old(moves).view_moves() + castle_seq(board, side_of(WHITE)),
        forall|i: int|
            old(moves).view_moves().len() <= i < final(moves).view_moves().len() ==> {
                let e = #[trigger] final(moves).view_moves()[i]@ as int;
                ||| e == code(home_rank(side_of(WHITE)) + 4, home_rank(side_of(WHITE)) + 6, 2)
                    && can_castle_king_side(board, side_of(WHITE))
                ||| e == code(home_rank(side_of(WHITE)) + 4, home_rank(side_of(WHITE)) + 2, 3)
                    && can_castle_queen_side(board, side_of(WHITE))
            },
{
    proof {
        reveal(castles_emitted);
    }
    let rights = board.castling_rights();
    let occupancy = board.occupied_squares().0;
    let (us, them) = if WHITE {
        (Color::White, Color::Black)
    } else {
        (Color::Black, Color::White)
    };
    let base: usize = if WHITE {
        0
    } else {
        56
    };
    let (king_bit, queen_bit) = if WHITE {
        (WK, WQ)
    } else {
        (BK, BQ)
    };
    let ghost start = moves.view_moves();
    let king = Piece::new(us, PieceType::King);
    let rook = Piece::new(us, PieceType::Rook);
    let home = board.piece_on(base + 4);
    proof {
        lemma_single_and(occupancy, (base + 5) as u64);
        lemma_single_and(occupancy, (base + 6) as u64);
        lemma_single_and(occupancy, (base + 1) as u64);
        lemma_single_and(occupancy, (base + 2) as u64);
        lemma_single_and(occupancy, (base + 3) as u64);
    }
    // King side: e -> g, rook h -> f.
    if rights & king_bit != 0 && home == Some(king) && board.piece_on(base + 7) == Some(rook) {
        if (1u64 << ((base + 5) as u64)) & occupancy == 0 && (1u64 << ((base + 6) as u64)) & occupancy == 0 {
            if !board.is_square_attacked(Square::new((base + 4) as u8), them)
                && !board.is_square_attacked(Square::new((base + 5) as u8), them)
                && !board.is_square_attacked(Square::new((base + 6) as u8), them)
            {
                moves.push(Move::new_special(base + 4, base + 6, MoveType::KingCastle));
                proof {
                    lemma_emitted_last(moves.view_moves(), start.len() as int);
                }
            }
        }
    }
    let ghost mid = moves.view_moves();
    assert(mid =~= start + (if can_castle_king_side(board, us) {
        seq![Move::pack(base + 4, base + 6, 2)]
    } else {
        Seq::empty()
    }));
    // Queen side: e -> c, rook a -> d.
    if rights & queen_bit != 0 && home == Some(king) && board.piece_on(base) == Some(rook) {
        if (1u64 << ((base + 1) as u64)) & occupancy == 0 && (1u64 << ((base + 2) as u64)) & occupancy == 0
            && (1u64 << ((base + 3) as u64)) & occupancy == 0
        {
            if !board.is_square_attacked(Square::new((base + 2) as u8), them)
                && !board.is_square_attacked(Square::new((base + 3) as u8), them)
                && !board.is_square_attacked(Square::new((base + 4) as u8), them)
            {
                moves.push(Move::new_special(base + 4, base + 2, MoveType::QueenCastle));
                proof {
                    lemma_emitted_last(moves.view_moves(), start.len() as int);
                    if can_castle_king_side(board, us) {
                        lemma_emitted_grow(mid, moves.view_moves(), start.len() as int, code(base + 4, base + 6, 2));
                    }
                }
            }
        }
    }
    assert(moves.view_moves() =~= start + castle_seq(board, us));
}

/// Boards that agree on their views.
pub open spec fn same_views(a: &Board, b: &Board) -> bool {
    &&& a.mailbox_view() == b.mailbox_view()
    &&& a.history() == b.history()
    &&& a.tables() == b.tables()
    &&& forall|k: int| 0 <= k < 6 ==> #[trigger] a.piece_set(k) == b.piece_set(k)
    &&& forall|c: int| 0 <= c < 2 ==> #[trigger] a.color_set(c) == b.color_set(c)
}

proof fn lemma_piece_seq_congruent<P: Attacker>(a: &Board, b: &Board, us: Color, capture: bool)
    requires
        same_views(a, b),
    ensures
        piece_seq::<P>(a, us, capture) == piece_seq::<P>(b, us, capture),
{
    assert(a.piece_set(P::kind_spec().idx()) == b.piece_set(P::kind_spec().idx()));
    assert(a.color_set(us.idx()) == b.color_set(us.idx()));
    assert(a.color_set(us.other().idx()) == b.color_set(us.other().idx()));
    assert(a.occupancy() == b.occupancy());
    assert(piece_part::<P>(a, us, capture) =~= piece_part::<P>(b, us, capture));
}

/// Two well-formed boards that agree on their pieces, history and tables
/// generate the same moves.
pub proof fn lemma_side_seq_congruent(a: &Board, b: &Board, us: Color)
    requires
        a.wf(),
        b.wf(),
        a.mailbox_view() == b.mailbox_view(),
        a.history() == b.history(),
        a.tables() == b.tables(),
    ensures
        side_seq(a, us) == side_seq(b, us),
{
    Board::lemma_bitboards_follow_mailbox(a, b);
    assert(same_views(a, b));
    lemma_piece_seq_congruent::<Caval>(a, b, us, false);
    lemma_piece_seq_congruent::<Caval>(a, b, us, true);
    lemma_piece_seq_congruent::<Re>(a, b, us, false);
    lemma_piece_seq_congruent::<Re>(a, b, us, true);
    lemma_piece_seq_congruent::<Alfe>(a, b, us, false);
    lemma_piece_seq_congruent::<Alfe>(a, b, us, true);
    lemma_piece_seq_congruent::<Tor>(a, b, us, false);
    lemma_piece_seq_congruent::<Tor>(a, b, us, true);
    lemma_piece_seq_congruent::<Argina>(a, b, us, false);
    lemma_piece_seq_congruent::<Argina>(a, b, us, true);
    assert(a.piece_set(0) == b.piece_set(0));
    assert(a.color_set(us.idx()) == b.color_set(us.idx()));
    assert(a.color_set(us.other().idx()) == b.color_set(us.other().idx()));
    assert(a.occupancy() == b.occupancy());
    assert forall|f: int| #[trigger] push_moves(a, f, us) == push_moves(b, f, us) by {
        assert(push_moves(a, f, us) =~= push_moves(b, f, us));
    }
    assert(pawn_push_part(a, us) =~= pawn_push_part(b, us));
    assert forall|f: int| #[trigger] capture_moves(a, f, us) == capture_moves(b, f, us) by {
        assert forall|t: int| #[trigger] ep_open(a, t, us) == ep_open(b, t, us) by {}
        assert(capture_moves(a, f, us) =~= capture_moves(b, f, us));
    }
    assert(pawn_capture_part(a, us) =~= pawn_capture_part(b, us));
    assert(can_castle_king_side(a, us) == can_castle_king_side(b, us));
    assert(can_castle_queen_side(a, us) == can_castle_queen_side(b, us));
}

} // verus!
