//! The position: a mailbox, per-kind and per-colour bitboards kept in step
//! with it, the side to move, and a stack of per-ply states that lets
//! `unmake_move` undo `make_move` exactly.
use std::sync::Arc;

use vstd::prelude::*;
use vstd::string::StringSliceAdditionalSpecFns;

use crate::attack::{forward, king_step, knight_step, pawn_capture_step, AttackTables};
use crate::bitboard::{group_bitboard, holds, lemma_bits_ext, lemma_empty_is_zero, lemma_squares_finite, lowest, popcount, squares, Bitboard};
use crate::fen::{fen_spec, parse_fen};
use crate::magics::{lemma_lookup_any_occupancy, lemma_slider_symmetric, slider_attacks};
use crate::moves::{from_of, promotion_kind, tag_of, to_of, Move};
use crate::types::{Color, Piece, PieceType, Square};

verus! {

broadcast use group_bitboard;

/// Plies the history is sized for before it grows.
pub const MAX_PLY: usize = 128;

/// White may castle king-side.
pub const WK: u8 = 0b0001;
/// White may castle queen-side.
pub const WQ: u8 = 0b0010;
/// Black may castle king-side.
pub const BK: u8 = 0b0100;
/// Black may castle queen-side.
pub const BQ: u8 = 0b1000;

/// What one ply needs to be undone.
#[derive(Clone, Copy, Debug)]
pub struct State {
    /// Castling rights: WK, WQ, BK, BQ bits.
    pub castling: u8,
    /// The square a pawn skipped over with a double push on the last ply.
    pub en_passant: Option<Square>,
    /// Plies since the last capture or pawn move.
    pub halfmove: usize,
    /// The piece the move that led here removed.
    pub captured: Option<Piece>,
    /// Reserved for a position hash; always zero.
    pub zobrist: Bitboard,
}

impl State {
    /// No rights, no en-passant square, clocks at zero.
    pub fn new() -> (r: State)
        ensures
            r.castling == 0,
            r.en_passant is None,
            r.halfmove == 0,
            r.captured is None,
            r.zobrist.0 == 0,
    {
        State { castling: 0, en_passant: None, halfmove: 0, captured: None, zobrist: Bitboard(0) }
    }
}

/// Square `s` of mailbox `mb` holds a piece of kind number `k`.
pub open spec fn kind_at(mb: Seq<Option<Piece>>, s: int, k: int) -> bool {
    match mb[s] {
        Some(p) => p.kind_of().idx() == k,
        None => false,
    }
}

/// Square `s` of mailbox `mb` holds a piece of colour number `c`.
pub open spec fn color_at(mb: Seq<Option<Piece>>, s: int, c: int) -> bool {
    match mb[s] {
        Some(p) => p.color_of().idx() == c,
        None => false,
    }
}

/// Square `s` of `mb` holds a piece of colour `c`.
pub open spec fn owned_by(mb: Seq<Option<Piece>>, s: int, c: Color) -> bool {
    match mb[s] {
        Some(p) => p.color_of() == c,
        None => false,
    }
}

/// The square behind `to`, seen from side `us`: where a pawn taken en passant
/// stands, and the square a double push skips.
pub open spec fn behind(to: int, us: Color) -> int {
    to - 8 * forward(us)
}

/// A castling king's destination: g1, c1, g8 or c8.
pub open spec fn castle_target(to: int) -> bool {
    to == 6 || to == 2 || to == 62 || to == 58
}

/// The corner the castling rook leaves.
pub open spec fn rook_from_sq(to: int) -> int {
    if to == 6 {
        7
    } else if to == 2 {
        0
    } else if to == 62 {
        63
    } else {
        56
    }
}

/// The square the castling rook lands on, next to the king.
pub open spec fn rook_to_sq(to: int) -> int {
    if to == 6 {
        5
    } else if to == 2 {
        3
    } else if to == 62 {
        61
    } else {
        59
    }
}

/// The piece a move removes from mailbox `mb` when `us` plays it.
pub open spec fn captured_of(mb: Seq<Option<Piece>>, m: u16, us: Color) -> Option<Piece> {
    if tag_of(m) == 5 {
        mb[behind(to_of(m), us)]
    } else if tag_of(m) % 8 >= 4 {
        mb[to_of(m)]
    } else {
        None
    }
}

/// The mailbox after `us` plays `m` on `mb`: the mover leaves its square, a
/// captured piece leaves its own, the mover (or the promoted piece) lands,
/// and a castling rook moves to the king's side.
pub open spec fn after_make(mb: Seq<Option<Piece>>, m: u16, us: Color) -> Seq<Option<Piece>> {
    let from = from_of(m);
    let to = to_of(m);
    let tag = tag_of(m);
    let placed = if tag >= 8 {
        Some(Piece::of(us, promotion_kind(tag)))
    } else {
        mb[from]
    };
    let mb1 = mb.update(from, None);
    let mb2 = if tag == 5 {
        mb1.update(behind(to, us), None)
    } else if tag % 8 >= 4 {
        mb1.update(to, None)
    } else {
        mb1
    };
    let mb3 = mb2.update(to, placed);
    if tag == 2 || tag == 3 {
        mb3.update(rook_from_sq(to), None).update(rook_to_sq(to), mb[rook_from_sq(to)])
    } else {
        mb3
    }
}

/// The mailbox after undoing `m`, played by `us`, which removed `captured`:
/// the mover (a pawn again after a promotion) returns, the captured piece is
/// put back, and a castling rook returns to its corner.
pub open spec fn after_unmake(
    mb: Seq<Option<Piece>>,
    m: u16,
    us: Color,
    captured: Option<Piece>,
) -> Seq<Option<Piece>> {
    let from = from_of(m);
    let to = to_of(m);
    let tag = tag_of(m);
    let back = if tag >= 8 {
        Some(Piece::of(us, PieceType::Pawn))
    } else {
        mb[to]
    };
    let mb1 = mb.update(to, None);
    let mb2 = match captured {
        Some(c) => mb1.update(
            if tag == 5 {
                behind(to, us)
            } else {
                to
            },
            Some(c),
        ),
        None => mb1,
    };
    let mb3 = mb2.update(from, back);
    if tag == 2 || tag == 3 {
        mb3.update(rook_to_sq(to), None).update(rook_from_sq(to), mb[rook_to_sq(to)])
    } else {
        mb3
    }
}

/// Castling rights a move from `from` to `to` takes away: both of a side when
/// its king leaves e1/e8, one when a corner rook leaves or is taken.
pub open spec fn rights_lost(from: int, to: int) -> u8 {
    (if from == 4 {
        3u8
    } else {
        0u8
    }) | (if from == 60 {
        12u8
    } else {
        0u8
    }) | (if from == 7 || to == 7 {
        1u8
    } else {
        0u8
    }) | (if from == 0 || to == 0 {
        2u8
    } else {
        0u8
    }) | (if from == 63 || to == 63 {
        4u8
    } else {
        0u8
    }) | (if from == 56 || to == 56 {
        8u8
    } else {
        0u8
    })
}

/// The halfmove clock after a move: reset by a pawn move or a capture,
/// else one more (saturating).
pub open spec fn halfmove_after(h: usize, pawn_moved: bool, tag: int) -> usize {
    if pawn_moved || tag % 8 >= 4 || tag == 5 {
        0
    } else if h < usize::MAX {
        (h + 1) as usize
    } else {
        h
    }
}

/// A position with its history.
pub struct Board {
    mailbox: Vec<Option<Piece>>,
    pieces: Vec<Bitboard>,
    colors: Vec<Bitboard>,
    side_to_move: Color,
    state_stack: Vec<State>,
    /// The lookup tables, shared by every board built from the same `Arc`.
    pub attack_tables: Arc<AttackTables>,
}

impl Board {
    /// What stands on each square.
    pub closed spec fn mailbox_view(&self) -> Seq<Option<Piece>> {
        self.mailbox@
    }

    /// The squares holding pieces of kind number `k`.
    pub closed spec fn piece_set(&self, k: int) -> u64 {
        self.pieces@[k].0
    }

    /// The squares holding pieces of colour number `c`.
    pub closed spec fn color_set(&self, c: int) -> u64 {
        self.colors@[c].0
    }

    /// The lookup tables the position reads.
    pub closed spec fn tables(&self) -> AttackTables {
        *self.attack_tables
    }

    /// The side to move.
    pub closed spec fn side(&self) -> Color {
        self.side_to_move
    }

    /// The per-ply states, oldest first; the last is the current one.
    pub closed spec fn history(&self) -> Seq<State> {
        self.state_stack@
    }

    /// The current per-ply state.
    pub open spec fn top(&self) -> State {
        self.history().last()
    }

    /// The three views agree: a square holds a piece exactly when its bit is
    /// set in the bitboard of that piece's kind and in that of its colour,
    /// and in no other.
    pub closed spec fn wf(&self) -> bool {
        &&& self.mailbox@.len() == 64
        &&& self.pieces@.len() == 6
        &&& self.colors@.len() == 2
        &&& self.state_stack@.len() >= 1
        &&& (*self.attack_tables).wf()
        &&& forall|s: int, k: int|
            0 <= s < 64 && 0 <= k < 6 ==> #[trigger] holds(self.pieces@[k].0, s) == kind_at(
                self.mailbox@,
                s,
                k,
            )
        &&& forall|s: int, c: int|
            0 <= s < 64 && 0 <= c < 2 ==> #[trigger] holds(self.colors@[c].0, s) == color_at(
                self.mailbox@,
                s,
                c,
            )
    }

    /// What a well-formed board exposes of its shape.
    pub proof fn lemma_wf(&self)
        requires
            self.wf(),
        ensures
            self.mailbox_view().len() == 64,
            self.history().len() >= 1,
            self.tables().wf(),
            forall|s: int, k: int|
                0 <= k < 6 ==> #[trigger] holds(self.piece_set(k), s) == (0 <= s < 64 && kind_at(
                    self.mailbox_view(),
                    s,
                    k,
                )),
            forall|s: int, c: int|
                0 <= c < 2 ==> #[trigger] holds(self.color_set(c), s) == (0 <= s < 64 && color_at(
                    self.mailbox_view(),
                    s,
                    c,
                )),
    {
    }

    /// Two well-formed boards with the same mailbox have the same bitboards.
    pub proof fn lemma_bitboards_follow_mailbox(a: &Board, b: &Board)
        requires
            a.wf(),
            b.wf(),
            a.mailbox_view() == b.mailbox_view(),
        ensures
            forall|k: int| 0 <= k < 6 ==> #[trigger] a.piece_set(k) == b.piece_set(k),
            forall|c: int| 0 <= c < 2 ==> #[trigger] a.color_set(c) == b.color_set(c),
    {
        assert forall|k: int| 0 <= k < 6 implies #[trigger] a.piece_set(k) == b.piece_set(k) by {
            lemma_bits_ext(a.pieces@[k].0, b.pieces@[k].0);
        }
        assert forall|c: int| 0 <= c < 2 implies #[trigger] a.color_set(c) == b.color_set(c) by {
            lemma_bits_ext(a.colors@[c].0, b.colors@[c].0);
        }
    }

    /// An empty board, White to move, no rights, with freshly built tables.
    pub fn new() -> (r: Self)
        ensures
            r.wf(),
            forall|s: int| 0 <= s < 64 ==> r.mailbox_view()[s] is None,
            r.side() == Color::White,
            r.history().len() == 1,
            r.top().castling == 0,
            r.top().en_passant is None,
            r.top().captured is None,
            r.top().halfmove == 0,
    {
        Self::with_tables(Arc::new(AttackTables::new()))
    }

    /// An empty board, White to move, no rights, reading the given tables:
    /// boards built from clones of one `Arc` share a single build.
    pub fn with_tables(attack_tables: Arc<AttackTables>) -> (r: Self)
        requires
            (*attack_tables).wf(),
        ensures
            r.tables() == *attack_tables,
            r.wf(),
            forall|s: int| 0 <= s < 64 ==> r.mailbox_view()[s] is None,
            r.side() == Color::White,
            r.history().len() == 1,
            r.top().castling == 0,
            r.top().en_passant is None,
            r.top().captured is None,
            r.top().halfmove == 0,
    {
        let mut mailbox: Vec<Option<Piece>> = Vec::new();
        let mut i: usize = 0;
        while i < 64
            invariant
                i <= 64,
                mailbox@.len() == i,
                forall|s: int| 0 <= s < i ==> mailbox@[s] is None,
            decreases 64 - i,
        {
            mailbox.push(None);
            i += 1;
        }
        let mut pieces: Vec<Bitboard> = Vec::new();
        let mut k: usize = 0;
        while k < 6
            invariant
                k <= 6,
                pieces@.len() == k,
                forall|j: int| 0 <= j < k ==> pieces@[j].0 == 0,
            decreases 6 - k,
        {
            pieces.push(Bitboard(0));
            k += 1;
        }
        let mut colors: Vec<Bitboard> = Vec::new();
        colors.push(Bitboard(0));
        colors.push(Bitboard(0));
        let mut state_stack: Vec<State> = Vec::with_capacity(MAX_PLY);
        state_stack.push(State::new());
        Board { mailbox, pieces, colors, side_to_move: Color::White, state_stack, attack_tables }
    }

    /// Clears square `sq` and returns the piece that stood there.
    fn remove_piece(&mut self, sq: usize) -> (p: Piece)
        requires
            old(self).wf(),
            sq < 64,
            old(self).mailbox_view()[sq as int] is Some,
        ensures
            final(self).wf(),
            Some(p) == old(self).mailbox_view()[sq as int],
            final(self).mailbox_view() == old(self).mailbox_view().update(sq as int, None),
            final(self).side() == old(self).side(),
            final(self).history() == old(self).history(),
            final(self).tables() == old(self).tables(),
    {
        let p = self.mailbox[sq].unwrap();
        let bit = Bitboard::from_square(sq);
        let k = p.get_type().index();
        let c = p.get_color().index();
        self.mailbox[sq] = None;
        let pk = self.pieces[k].0 ^ bit.0;
        self.pieces[k] = Bitboard(pk);
        let cc = self.colors[c].0 ^ bit.0;
        self.colors[c] = Bitboard(cc);
        p
    }

    /// Puts piece `p` on the empty square `sq`.
    fn put_piece(&mut self, sq: usize, p: Piece)
        requires
            old(self).wf(),
            sq < 64,
            old(self).mailbox_view()[sq as int] is None,
        ensures
            final(self).wf(),
            final(self).mailbox_view() == old(self).mailbox_view().update(sq as int, Some(p)),
            final(self).side() == old(self).side(),
            final(self).history() == old(self).history(),
            final(self).tables() == old(self).tables(),
    {
        let bit = Bitboard::from_square(sq);
        let k = p.get_type().index();
        let c = p.get_color().index();
        self.mailbox[sq] = Some(p);
        let pk = self.pieces[k].0 ^ bit.0;
        self.pieces[k] = Bitboard(pk);
        let cc = self.colors[c].0 ^ bit.0;
        self.colors[c] = Bitboard(cc);
    }

    /// `m` can be played here: the mover is the side to move's, the
    /// destination is empty or (for a capture) holds an opposing piece, an
    /// en-passant victim stands behind the destination, a promotion moves a
    /// pawn, a castling move has its rook in the corner and the rook's
    /// destination free, and a double push leaves a square behind on the board.
    pub open spec fn fits(&self, m: Move) -> bool {
        self.fits_as(m, self.side())
    }

    /// `m` could be played here by `us`, as `fits` says for the side to move.
    pub open spec fn fits_as(&self, m: Move, us: Color) -> bool {
        let mb = self.mailbox_view();
        let from = from_of(m@);
        let to = to_of(m@);
        let tag = tag_of(m@);
        &&& from != to
        &&& owned_by(mb, from, us)
        &&& tag >= 8 ==> mb[from] == Some(Piece::of(us, PieceType::Pawn))
        &&& if tag == 5 {
            &&& mb[to] is None
            &&& 0 <= behind(to, us) < 64
            &&& behind(to, us) != from
            &&& owned_by(mb, behind(to, us), us.other())
        } else if tag % 8 >= 4 {
            owned_by(mb, to, us.other())
        } else {
            mb[to] is None
        }
        &&& (tag == 2 || tag == 3) ==> {
            &&& castle_target(to)
            &&& rook_from_sq(to) != from
            &&& rook_to_sq(to) != from
            &&& mb[rook_from_sq(to)] == Some(Piece::of(us, PieceType::Rook))
            &&& mb[rook_to_sq(to)] is None
        }
        &&& tag == 1 ==> 0 <= behind(to, us) < 64
    }

    /// `m` can be undone here: it was the last move, its origin is empty and
    /// its destination occupied, and the squares a captured piece or a
    /// castling rook return to are free.
    pub open spec fn can_unmake(&self, m: Move) -> bool {
        let mb = self.mailbox_view();
        let from = from_of(m@);
        let to = to_of(m@);
        let tag = tag_of(m@);
        let us = self.side().other();
        &&& self.history().len() >= 2
        &&& from != to
        &&& mb[from] is None
        &&& mb[to] is Some
        &&& (tag == 5 && self.top().captured is Some) ==> {
            &&& 0 <= behind(to, us) < 64
            &&& behind(to, us) != from
            &&& mb[behind(to, us)] is None
        }
        &&& (tag == 2 || tag == 3) ==> {
            &&& castle_target(to)
            &&& rook_from_sq(to) != from
            &&& rook_to_sq(to) != from
            &&& mb[rook_to_sq(to)] is Some
            &&& mb[rook_from_sq(to)] is None
        }
    }

    /// `self` is `before` after `make_move(m)`.
    pub open spec fn made_from(&self, before: &Board, m: Move) -> bool {
        let from = from_of(m@);
        let to = to_of(m@);
        let tag = tag_of(m@);
        let us = before.side();
        let top = self.top();
        let prev = before.top();
        &&& self.wf()
        &&& self.tables() == before.tables()
        &&& self.mailbox_view() == after_make(before.mailbox_view(), m@, us)
        &&& self.side() == us.other()
        &&& self.history() == before.history().push(top)
        &&& top.captured == captured_of(before.mailbox_view(), m@, us)
        &&& top.castling == prev.castling & !rights_lost(from, to)
        &&& top.halfmove == halfmove_after(
            prev.halfmove,
            before.mailbox_view()[from] == Some(Piece::of(us, PieceType::Pawn)),
            tag,
        )
        &&& top.zobrist == prev.zobrist
        &&& tag == 1 ==> (top.en_passant matches Some(e) && e@ == behind(to, us))
        &&& tag != 1 ==> top.en_passant is None
    }

    /// `self` is `before` after `unmake_move(m)`.
    pub open spec fn unmade_from(&self, before: &Board, m: Move) -> bool {
        &&& self.wf()
        &&& self.tables() == before.tables()
        &&& self.side() == before.side().other()
        &&& self.history() == before.history().drop_last()
        &&& self.mailbox_view() == after_unmake(
            before.mailbox_view(),
            m@,
            before.side().other(),
            before.top().captured,
        )
    }

    /// Plays `m` without checking that it leaves the mover's king safe, and
    /// pushes the state that undoes it.
    #[verifier::spinoff_prover]
    pub fn make_move(&mut self, m: Move)
        requires
            old(self).wf(),
            old(self).fits(m),
        ensures
            final(self).made_from(old(self), m),
            final(self).can_unmake(m),
    {
        let from = m.from_square() as usize;
        let to = m.to_square() as usize;
        let us = self.side_to_move;
        let them = us.opponent();
        let last = self.state_stack.len() - 1;
        let prev = self.state_stack[last];
        let ghost mb0 = self.mailbox@;

        // Lift the mover.
        let moved = self.remove_piece(from);
        let pawn_moved = moved == Piece::new(us, PieceType::Pawn);

        // Take the captured piece.
        let mut captured: Option<Piece> = None;
        if m.is_enpassant() {
            let victim = match us {
                Color::White => to - 8,
                Color::Black => to + 8,
            };
            captured = Some(self.remove_piece(victim));
        } else if m.is_capture() {
            captured = Some(self.remove_piece(to));
        }
        let halfmove = if pawn_moved || m.is_capture() || m.is_enpassant() {
            0
        } else if prev.halfmove < usize::MAX {
            prev.halfmove + 1
        } else {
            prev.halfmove
        };

        // Land the mover, or the piece it promotes to.
        if m.is_promotion() {
            self.put_piece(to, Piece::new(us, m.get_promotion_piece()));
        } else {
            self.put_piece(to, moved);
        }

        // Bring the castling rook next to the king.
        if m.is_castling() {
            let (rook_from, rook_to) = Self::castling_rook_squares(to);
            let rook = self.remove_piece(rook_from);
            self.put_piece(rook_to, rook);
        }

        // Rights lost by the king or a corner rook moving, or a corner rook taken.
        let lost: u8 = (if from == 4 {
            3u8
        } else {
            0u8
        }) | (if from == 60 {
            12u8
        } else {
            0u8
        }) | (if from == 7 || to == 7 {
            1u8
        } else {
            0u8
        }) | (if from == 0 || to == 0 {
            2u8
        } else {
            0u8
        }) | (if from == 63 || to == 63 {
            4u8
        } else {
            0u8
        }) | (if from == 56 || to == 56 {
            8u8
        } else {
            0u8
        });

        let en_passant = if m.is_double_push() {
            match us {
                Color::White => Some(Square::new((to - 8) as u8)),
                Color::Black => Some(Square::new((to + 8) as u8)),
            }
        } else {
            None
        };
        let mut next = prev;
        next.castling = prev.castling & !lost;
        next.en_passant = en_passant;
        next.halfmove = halfmove;
        next.captured = captured;
        self.state_stack.push(next);
        self.side_to_move = them;
        proof {
            assert(self.mailbox@ =~= after_make(mb0, m@, us));
        }
    }

    /// The corner a castling rook leaves and the square it lands on, for a
    /// king landing on `to`.
    fn castling_rook_squares(to: usize) -> (r: (usize, usize))
        requires
            castle_target(to as int),
        ensures
            r.0 == rook_from_sq(to as int),
            r.1 == rook_to_sq(to as int),
    {
        if to == 6 {
            (7, 5)
        } else if to == 2 {
            (0, 3)
        } else if to == 62 {
            (63, 61)
        } else {
            (56, 59)
        }
    }

    /// Undoes `m`, the last move played, and pops its state.
    #[verifier::spinoff_prover]
    pub fn unmake_move(&mut self, m: Move)
        requires
            old(self).wf(),
            old(self).can_unmake(m),
        ensures
            final(self).unmade_from(old(self), m),
    {
        let from = m.from_square() as usize;
        let to = m.to_square() as usize;
        let ghost mb0 = self.mailbox@;
        let us = self.side_to_move.opponent();
        self.side_to_move = us;
        let state = self.state_stack.pop().unwrap();

        // Clear the destination.
        let moved = self.remove_piece(to);

        // Put the captured piece back.
        if let Some(captured) = state.captured {
            let captured_sq = if m.is_enpassant() {
                match us {
                    Color::White => to - 8,
                    Color::Black => to + 8,
                }
            } else {
                to
            };
            self.put_piece(captured_sq, captured);
        }

        // Return the mover, a pawn again after a promotion.
        let back = if m.is_promotion() {
            Piece::new(us, PieceType::Pawn)
        } else {
            moved
        };
        self.put_piece(from, back);

        // Return the castling rook to its corner.
        if m.is_castling() {
            let (rook_from, rook_to) = Self::castling_rook_squares(to);
            let rook = self.remove_piece(rook_to);
            self.put_piece(rook_from, rook);
        }
        proof {
            assert(self.mailbox@ =~= after_unmake(mb0, m@, us, state.captured));
        }
    }
}


/// What stands on square `s` in the starting position.
pub open spec fn start_cell(s: int) -> Option<Piece> {
    let back = if s % 8 == 0 || s % 8 == 7 {
        PieceType::Rook
    } else if s % 8 == 1 || s % 8 == 6 {
        PieceType::Knight
    } else if s % 8 == 2 || s % 8 == 5 {
        PieceType::Bishop
    } else if s % 8 == 3 {
        PieceType::Queen
    } else {
        PieceType::King
    };
    if s / 8 == 0 {
        Some(Piece::of(Color::White, back))
    } else if s / 8 == 1 {
        Some(Piece::of(Color::White, PieceType::Pawn))
    } else if s / 8 == 6 {
        Some(Piece::of(Color::Black, PieceType::Pawn))
    } else if s / 8 == 7 {
        Some(Piece::of(Color::Black, back))
    } else {
        None
    }
}

fn start_piece(s: usize) -> (r: Option<Piece>)
    requires
        s < 64,
    ensures
        r == start_cell(s as int),
{
    let f = s % 8;
    let back = if f == 0 || f == 7 {
        PieceType::Rook
    } else if f == 1 || f == 6 {
        PieceType::Knight
    } else if f == 2 || f == 5 {
        PieceType::Bishop
    } else if f == 3 {
        PieceType::Queen
    } else {
        PieceType::King
    };
    let r = s / 8;
    if r == 0 {
        Some(Piece::new(Color::White, back))
    } else if r == 1 {
        Some(Piece::new(Color::White, PieceType::Pawn))
    } else if r == 6 {
        Some(Piece::new(Color::Black, PieceType::Pawn))
    } else if r == 7 {
        Some(Piece::new(Color::Black, back))
    } else {
        None
    }
}

impl Board {
    /// Empties the board: no pieces, White to move, a single state with no
    /// rights, no en-passant square and clocks at zero.
    fn clear(&mut self)
        requires
            old(self).tables().wf(),
        ensures
            final(self).wf(),
            forall|s: int| 0 <= s < 64 ==> final(self).mailbox_view()[s] is None,
            final(self).side() == Color::White,
            final(self).history().len() == 1,
            final(self).top().castling == 0,
            final(self).top().en_passant is None,
            final(self).top().captured is None,
            final(self).top().halfmove == 0,
            final(self).top().zobrist.0 == 0,
            final(self).tables() == old(self).tables(),
    {
        let mut mailbox: Vec<Option<Piece>> = Vec::new();
        let mut i: usize = 0;
        while i < 64
            invariant
                i <= 64,
                mailbox@.len() == i,
                forall|s: int| 0 <= s < i ==> mailbox@[s] is None,
            decreases 64 - i,
        {
            mailbox.push(None);
            i += 1;
        }
        let mut pieces: Vec<Bitboard> = Vec::new();
        let mut k: usize = 0;
        while k < 6
            invariant
                k <= 6,
                pieces@.len() == k,
                forall|j: int| 0 <= j < k ==> pieces@[j].0 == 0,
            decreases 6 - k,
        {
            pieces.push(Bitboard(0));
            k += 1;
        }
        let mut colors: Vec<Bitboard> = Vec::new();
        colors.push(Bitboard(0));
        colors.push(Bitboard(0));
        let mut state_stack: Vec<State> = Vec::with_capacity(MAX_PLY);
        state_stack.push(State::new());
        self.mailbox = mailbox;
        self.pieces = pieces;
        self.colors = colors;
        self.state_stack = state_stack;
        self.side_to_move = Color::White;
    }

    /// Puts the pieces of `cells` on an empty board.
    fn place_all(&mut self, cells: &Vec<Option<Piece>>)
        requires
            old(self).wf(),
            cells@.len() == 64,
            forall|s: int| 0 <= s < 64 ==> old(self).mailbox_view()[s] is None,
        ensures
            final(self).wf(),
            final(self).mailbox_view() == cells@,
            final(self).side() == old(self).side(),
            final(self).history() == old(self).history(),
            final(self).tables() == old(self).tables(),
    {
        let ghost start = *self;
        let mut sq: usize = 0;
        while sq < 64
            invariant
                sq <= 64,
                cells@.len() == 64,
                self.wf(),
                self.mailbox_view().len() == 64,
                forall|s: int| 0 <= s < sq ==> self.mailbox_view()[s] == cells@[s],
                forall|s: int| sq <= s < 64 ==> self.mailbox_view()[s] is None,
                self.side() == start.side(),
                self.history() == start.history(),
                self.tables() == start.tables(),
            decreases 64 - sq,
        {
            if let Some(p) = cells[sq] {
                self.put_piece(sq, p);
            }
            sq += 1;
        }
        assert(self.mailbox_view() =~= cells@);
    }

    /// Sets up the starting position, White to move with every castling right.
    pub fn set_startpos(&mut self)
        requires
            old(self).wf(),
        ensures
            final(self).wf(),
            forall|s: int| 0 <= s < 64 ==> final(self).mailbox_view()[s] == start_cell(s),
            final(self).side() == Color::White,
            final(self).history().len() == 1,
            final(self).top().castling == 15,
            final(self).top().en_passant is None,
            final(self).top().halfmove == 0,
            final(self).top().captured is None,
            final(self).tables() == old(self).tables(),
    {
        proof {
            self.lemma_wf();
        }
        let mut cells: Vec<Option<Piece>> = Vec::new();
        let mut sq: usize = 0;
        while sq < 64
            invariant
                sq <= 64,
                cells@.len() == sq,
                forall|s: int| 0 <= s < sq ==> cells@[s] == start_cell(s),
            decreases 64 - sq,
        {
            cells.push(start_piece(sq));
            sq += 1;
        }
        self.clear();
        self.place_all(&cells);
        self.state_stack[0].castling = 15;
    }

    /// Sets the position from its text. On an error the board is left empty
    /// (as `new` leaves it) and the error's message is returned.
    #[verifier::spinoff_prover]
    pub fn from_fen(&mut self, fen: &str) -> (r: Result<(), &'static str>)
        requires
            old(self).wf(),
        ensures
            final(self).wf(),
            final(self).tables() == old(self).tables(),
            final(self).history().len() == 1,
            final(self).top().captured is None,
            match fen_spec(fen.spec_bytes()) {
                Ok(q) => {
                    &&& r is Ok
                    &&& final(self).mailbox_view() == q.0
                    &&& final(self).side() == q.1
                    &&& final(self).top().castling == q.2
                    &&& match (final(self).top().en_passant, q.3) {
                        (Some(x), Some(y)) => x@ == y,
                        (None, None) => true,
                        _ => false,
                    }
                    &&& final(self).top().halfmove == q.4
                },
                Err(e) => {
                    &&& r == Err::<(), &'static str>(e.text())
                    &&& forall|s: int| 0 <= s < 64 ==> final(self).mailbox_view()[s] is None
                    &&& final(self).side() == Color::White
                    &&& final(self).top().castling == 0
                    &&& final(self).top().en_passant is None
                    &&& final(self).top().halfmove == 0
                },
            },
    {
        proof {
            self.lemma_wf();
        }
        let parsed = parse_fen(fen.as_bytes());
        self.clear();
        match parsed {
            Err(e) => Err(e.message()),
            Ok(parts) => {
                self.place_all(&parts.cells);
                self.side_to_move = parts.side;
                let en_passant = match parts.en_passant {
                    Some(x) => {
                        if x < 64 {
                            Some(Square::new(x))
                        } else {
                            None
                        }
                    },
                    None => None,
                };
                self.state_stack[0].castling = parts.castling;
                self.state_stack[0].en_passant = en_passant;
                self.state_stack[0].halfmove = parts.halfmove;
                Ok(())
            },
        }
    }
}

/// A piece of kind `k` and colour `by` on `t` attacks `sq` under occupancy
/// `occ`, as the tables give it: leapers by their steps, sliders by the slider
/// lookup from `sq`, which meets `t` exactly when a slider on `t` sees `sq`.
pub open spec fn reaches(tables: AttackTables, k: PieceType, by: Color, t: int, sq: int, occ: u64) -> bool {
    match k {
        PieceType::Pawn => pawn_capture_step(by, t, sq),
        PieceType::Knight => knight_step(t, sq),
        PieceType::King => king_step(t, sq),
        PieceType::Bishop => holds(tables.magic_tables.bishop.lookup_spec(sq, occ), t),
        PieceType::Rook => holds(tables.magic_tables.rook.lookup_spec(sq, occ), t),
        PieceType::Queen => holds(tables.magic_tables.bishop.lookup_spec(sq, occ), t) || holds(
            tables.magic_tables.rook.lookup_spec(sq, occ),
            t,
        ),
    }
}

impl Board {
    /// The occupied squares.
    pub open spec fn occupancy(&self) -> u64 {
        self.color_set(0) | self.color_set(1)
    }

    /// Square `sq` is attacked by a piece of colour `by`.
    pub open spec fn attacked(&self, sq: int, by: Color) -> bool {
        exists|t: int|
            0 <= t < 64 && #[trigger] owned_by(self.mailbox_view(), t, by) && reaches(
                self.tables(),
                self.mailbox_view()[t]->0.kind_of(),
                by,
                t,
                sq,
                self.occupancy(),
            )
    }

    /// The tables the position reads.
    pub fn tables_ref(&self) -> (r: &AttackTables)
        ensures
            *r == self.tables(),
    {
        &*self.attack_tables
    }

    /// The squares of `c`'s king.
    pub open spec fn king_set(&self, c: Color) -> u64 {
        self.piece_set(5) & self.color_set(c.idx())
    }

    /// The pieces of one kind, both colours.
    pub fn piece(&self, piece_type: PieceType) -> (r: Bitboard)
        requires
            self.wf(),
        ensures
            r.0 == self.piece_set(piece_type.idx()),
            forall|s: int| #[trigger] holds(r.0, s) == (0 <= s < 64 && kind_at(
                self.mailbox_view(),
                s,
                piece_type.idx(),
            )),
    {
        self.pieces[piece_type.index()]
    }

    /// The piece on `sq`, which must be occupied.
    pub fn piece_on_unchecked(&self, sq: Square) -> (r: Piece)
        requires
            self.wf(),
            self.mailbox_view()[sq@] is Some,
        ensures
            Some(r) == self.mailbox_view()[sq@],
    {
        self.mailbox[sq.index()].unwrap()
    }

    /// What stands on `sq`.
    pub fn piece_on(&self, sq: usize) -> (r: Option<Piece>)
        requires
            self.wf(),
            sq < 64,
        ensures
            r == self.mailbox_view()[sq as int],
    {
        self.mailbox[sq]
    }

    /// The pieces of one colour.
    pub fn color(&self, color: Color) -> (r: Bitboard)
        requires
            self.wf(),
        ensures
            r.0 == self.color_set(color.idx()),
            forall|s: int| #[trigger] holds(r.0, s) == (0 <= s < 64 && owned_by(
                self.mailbox_view(),
                s,
                color,
            )),
    {
        self.colors[color.index()]
    }

    /// The side to move.
    pub fn side_to_move(&self) -> (r: Color)
        ensures
            r == self.side(),
    {
        self.side_to_move
    }

    /// The occupied squares.
    pub fn occupied_squares(&self) -> (r: Bitboard)
        requires
            self.wf(),
        ensures
            r.0 == self.occupancy(),
            forall|s: int| #[trigger] holds(r.0, s) == (0 <= s < 64 && self.mailbox_view()[s] is Some),
    {
        Bitboard(self.colors[0].0 | self.colors[1].0)
    }

    /// The empty squares.
    pub fn empty_squares(&self) -> (r: Bitboard)
        requires
            self.wf(),
        ensures
            r.0 == !self.occupancy(),
            forall|s: int| #[trigger] holds(r.0, s) == (0 <= s < 64 && self.mailbox_view()[s] is None),
    {
        Bitboard(!(self.colors[0].0 | self.colors[1].0))
    }

    /// The en-passant target square, if the last move was a double push.
    pub fn en_passant_square(&self) -> (r: Option<Square>)
        requires
            self.wf(),
        ensures
            r == self.top().en_passant,
    {
        self.state_stack[self.state_stack.len() - 1].en_passant
    }

    /// The castling rights: bits WK, WQ, BK, BQ.
    pub fn castling_rights(&self) -> (r: u8)
        requires
            self.wf(),
        ensures
            r == self.top().castling,
    {
        self.state_stack[self.state_stack.len() - 1].castling
    }

    /// The halfmove clock.
    pub fn halfmove_clock(&self) -> (r: usize)
        requires
            self.wf(),
        ensures
            r == self.top().halfmove,
    {
        self.state_stack[self.state_stack.len() - 1].halfmove
    }

    /// Number of plies that can be undone.
    pub fn ply(&self) -> (r: usize)
        requires
            self.wf(),
        ensures
            r == self.history().len() - 1,
    {
        self.state_stack.len() - 1
    }

    /// Whether `sq` is attacked by a piece of colour `by`, by looking from `sq`
    /// with each kind's attack set and meeting the pieces of that kind.
    #[verifier::spinoff_prover]
    pub fn is_square_attacked(&self, sq: Square, by: Color) -> (r: bool)
        requires
            self.wf(),
        ensures
            r == self.attacked(sq@, by),
    {
        let s = sq.index();
        let tables: &AttackTables = &*self.attack_tables;
        let occupancy = self.occupied_squares().0;
        let their = self.colors[by.index()].0;
        let pawns = self.pieces[0].0 & their;
        let knights = self.pieces[1].0 & their;
        let diagonal = (self.pieces[2].0 | self.pieces[4].0) & their;
        let straight = (self.pieces[3].0 | self.pieces[4].0) & their;
        let kings = self.pieces[5].0 & their;
        let pawn_hits = tables.pawn_capture[by.opponent().index()][s].0 & pawns;
        let knight_hits = tables.knight[s].0 & knights;
        let king_hits = tables.king[s].0 & kings;
        let bishop_hits = tables.magic_tables.bishop.lookup(true, s, occupancy) & diagonal;
        let rook_hits = tables.magic_tables.rook.lookup(false, s, occupancy) & straight;
        let r = pawn_hits != 0 || knight_hits != 0 || king_hits != 0 || bishop_hits != 0
            || rook_hits != 0;
        proof {
            let mb = self.mailbox@;
            let hits = pawn_hits | knight_hits | king_hits | bishop_hits | rook_hits;
            assert forall|t: int| #[trigger] holds(hits, t) == (0 <= t < 64 && owned_by(mb, t, by)
                && reaches(*self.attack_tables, mb[t]->0.kind_of(), by, t, s as int, occupancy)) by {
                if 0 <= t < 64 && owned_by(mb, t, by) {
                    assert(color_at(mb, t, by.idx()));
                    assert(holds(self.pieces@[mb[t]->0.kind_of().idx()].0, t));
                }
            }
            if r {
                assert(exists|t: int| 0 <= t < 64 && holds(hits, t)) by {
                    if forall|t: int| 0 <= t < 64 ==> !holds(hits, t) {
                        assert forall|t: int| 0 <= t < 64 implies !holds(pawn_hits, t) && !holds(
                            knight_hits,
                            t,
                        ) && !holds(king_hits, t) && !holds(bishop_hits, t) && !holds(rook_hits, t) by {
                            assert(!holds(hits, t));
                        }
                        lemma_empty_is_zero(pawn_hits);
                        lemma_empty_is_zero(knight_hits);
                        lemma_empty_is_zero(king_hits);
                        lemma_empty_is_zero(bishop_hits);
                        lemma_empty_is_zero(rook_hits);
                    }
                }
                let t = choose|t: int| 0 <= t < 64 && holds(hits, t);
                assert(owned_by(mb, t, by));
            } else {
                assert(pawn_hits == 0 && knight_hits == 0 && king_hits == 0 && bishop_hits == 0
                    && rook_hits == 0);
                assert forall|t: int|
                    0 <= t < 64 && #[trigger] owned_by(mb, t, by) implies !reaches(
                    *self.attack_tables,
                    mb[t]->0.kind_of(),
                    by,
                    t,
                    s as int,
                    occupancy,
                ) by {
                    assert(!holds(hits, t));
                }
            }
        }
        r
    }

    /// Whether `color`'s king is attacked. With no king of that colour on the
    /// board, it is not.
    pub fn king_in_check(&self, color: Color) -> (r: bool)
        requires
            self.wf(),
        ensures
            r == (self.king_set(color) != 0 && self.attacked(lowest(self.king_set(color)), color.other())),
    {
        let mut king_bb = Bitboard(self.pieces[5].0 & self.colors[color.index()].0);
        if king_bb.0 == 0 {
            return false;
        }
        let k = king_bb.lsb();
        self.is_square_attacked(Square::new(k as u8), color.opponent())
    }
}

/// Undoing a move restores the position it was played from: the mailbox,
/// every bitboard, the side to move, the whole history and the tables.
pub proof fn lemma_make_unmake_restores(before: &Board, made: &Board, after: &Board, m: Move)
    requires
        before.wf(),
        before.fits(m),
        made.made_from(before, m),
        after.unmade_from(made, m),
    ensures
        after.mailbox_view() == before.mailbox_view(),
        forall|k: int| 0 <= k < 6 ==> #[trigger] after.piece_set(k) == before.piece_set(k),
        forall|c: int| 0 <= c < 2 ==> #[trigger] after.color_set(c) == before.color_set(c),
        after.side() == before.side(),
        after.history() == before.history(),
        after.tables() == before.tables(),
{
    assert(after.mailbox_view() =~= before.mailbox_view());
    Board::lemma_bitboards_follow_mailbox(after, before);
    assert(after.history() =~= before.history());
}

/// In a well-formed position the kind bitboards together hold exactly the
/// occupied squares, and no square belongs to both colours.
pub proof fn lemma_occupancy_partition(b: &Board)
    requires
        b.wf(),
    ensures
        b.piece_set(0) | b.piece_set(1) | b.piece_set(2) | b.piece_set(3) | b.piece_set(4) | b.piece_set(
            5,
        ) == b.color_set(0) | b.color_set(1),
        b.color_set(0) & b.color_set(1) == 0,
{
    b.lemma_wf();
    let all_kinds = b.piece_set(0) | b.piece_set(1) | b.piece_set(2) | b.piece_set(3) | b.piece_set(
        4,
    ) | b.piece_set(5);
    let both = b.color_set(0) | b.color_set(1);
    assert forall|s: int| 0 <= s < 64 implies holds(all_kinds, s) == holds(both, s) by {
        assert(holds(b.piece_set(0), s) == kind_at(b.mailbox_view(), s, 0));
        assert(holds(b.piece_set(5), s) == kind_at(b.mailbox_view(), s, 5));
        assert(holds(b.color_set(0), s) == color_at(b.mailbox_view(), s, 0));
        assert(holds(b.color_set(1), s) == color_at(b.mailbox_view(), s, 1));
    }
    lemma_bits_ext(all_kinds, both);
    assert forall|s: int| 0 <= s < 64 implies !holds(b.color_set(0) & b.color_set(1), s) by {
        assert(holds(b.color_set(0), s) == color_at(b.mailbox_view(), s, 0));
        assert(holds(b.color_set(1), s) == color_at(b.mailbox_view(), s, 1));
    }
    lemma_empty_is_zero(b.color_set(0) & b.color_set(1));
}

/// The squares holding `c`'s king.
pub open spec fn king_squares(mb: Seq<Option<Piece>>, c: Color) -> Set<int> {
    Set::new(|s: int| 0 <= s < 64 && mb[s] == Some(Piece::of(c, PieceType::King)))
}

/// The king bitboard of `c` holds exactly the squares of `c`'s king.
pub proof fn lemma_king_set(b: &Board, c: Color)
    requires
        b.wf(),
    ensures
        squares(b.king_set(c)) == king_squares(b.mailbox_view(), c),
        popcount(b.king_set(c)) == king_squares(b.mailbox_view(), c).len(),
{
    b.lemma_wf();
    assert forall|s: int| #[trigger] holds(b.king_set(c), s) == king_squares(b.mailbox_view(), c).contains(s) by {
        if 0 <= s < 64 {
            assert(holds(b.piece_set(5), s) == kind_at(b.mailbox_view(), s, 5));
            assert(holds(b.color_set(c.idx()), s) == color_at(b.mailbox_view(), s, c.idx()));
        }
    }
    assert(squares(b.king_set(c)) =~= king_squares(b.mailbox_view(), c));
}

/// A move that takes no king keeps exactly one king of each colour on the
/// board, when there was exactly one before.
pub proof fn lemma_make_keeps_kings(before: &Board, made: &Board, m: Move, c: Color)
    requires
        before.wf(),
        before.fits(m),
        made.made_from(before, m),
        popcount(before.king_set(c)) == 1,
        !(captured_of(before.mailbox_view(), m@, before.side()) matches Some(p) && p.kind_of()
            == PieceType::King),
    ensures
        popcount(made.king_set(c)) == 1,
{
    lemma_king_set(before, c);
    lemma_king_set(made, c);
    let mb0 = before.mailbox_view();
    let mb1 = made.mailbox_view();
    let k0 = king_squares(mb0, c);
    let k1 = king_squares(mb1, c);
    let from = from_of(m@);
    let to = to_of(m@);
    let king = Piece::of(c, PieceType::King);
    lemma_squares_finite(before.king_set(c));
    if mb0[from] == Some(king) {
        assert(k1 =~= k0.remove(from).insert(to));
        assert(!k0.contains(to));
        assert(k0.contains(from));
    } else {
        assert(k1 =~= k0);
    }
}

/// The starting position has exactly one king of each colour.
pub proof fn lemma_start_kings(b: &Board, c: Color)
    requires
        b.wf(),
        forall|s: int| 0 <= s < 64 ==> b.mailbox_view()[s] == start_cell(s),
    ensures
        popcount(b.king_set(c)) == 1,
{
    lemma_king_set(b, c);
    let home: int = if c == Color::White {
        4
    } else {
        60
    };
    assert forall|s: int| #[trigger] king_squares(b.mailbox_view(), c).contains(s) == (s == home) by {
        if 0 <= s < 64 {
            assert(b.mailbox_view()[s] == start_cell(s));
        }
    }
    assert(king_squares(b.mailbox_view(), c) =~= set![home]);
}

/// A piece of kind `k` and colour `by` on `t` attacks `sq` under occupancy
/// `occ`, by the board's geometry: leapers by their steps, sliders when a
/// slider of that kind on `sq` reaches `t` by the reference ray walk.
pub open spec fn reaches_by_rays(k: PieceType, by: Color, t: int, sq: int, occ: u64) -> bool {
    match k {
        PieceType::Pawn => pawn_capture_step(by, t, sq),
        PieceType::Knight => knight_step(t, sq),
        PieceType::King => king_step(t, sq),
        PieceType::Bishop => holds(slider_attacks(sq, true, occ), t),
        PieceType::Rook => holds(slider_attacks(sq, false, occ), t),
        PieceType::Queen => holds(slider_attacks(sq, true, occ), t) || holds(
            slider_attacks(sq, false, occ),
            t,
        ),
    }
}

/// With tables whose search found every multiplier, `attacked` is the
/// geometric attack relation: table lookups agree with the ray walks.
pub proof fn lemma_attacked_by_rays(b: &Board, sq: int, by: Color)
    requires
        b.wf(),
        b.tables().magic_tables.complete,
        0 <= sq < 64,
    ensures
        b.attacked(sq, by) == exists|t: int|
            0 <= t < 64 && #[trigger] owned_by(b.mailbox_view(), t, by) && reaches_by_rays(
                b.mailbox_view()[t]->0.kind_of(),
                by,
                t,
                sq,
                b.occupancy(),
            ),
{
    b.lemma_wf();
    lemma_lookup_any_occupancy(&b.tables().magic_tables, sq, b.occupancy());
    if b.attacked(sq, by) {
        let t = choose|t: int|
            0 <= t < 64 && #[trigger] owned_by(b.mailbox_view(), t, by) && reaches(
                b.tables(),
                b.mailbox_view()[t]->0.kind_of(),
                by,
                t,
                sq,
                b.occupancy(),
            );
        assert(reaches_by_rays(b.mailbox_view()[t]->0.kind_of(), by, t, sq, b.occupancy()));
    }
    if exists|t: int|
        0 <= t < 64 && #[trigger] owned_by(b.mailbox_view(), t, by) && reaches_by_rays(
            b.mailbox_view()[t]->0.kind_of(),
            by,
            t,
            sq,
            b.occupancy(),
        ) {
        let t = choose|t: int|
            0 <= t < 64 && #[trigger] owned_by(b.mailbox_view(), t, by) && reaches_by_rays(
                b.mailbox_view()[t]->0.kind_of(),
                by,
                t,
                sq,
                b.occupancy(),
            );
        assert(reaches(b.tables(), b.mailbox_view()[t]->0.kind_of(), by, t, sq, b.occupancy()));
    }
}

/// A piece of kind `k` and colour `us` on `from` hits `to` by the tables:
/// pawns by their capture step, leapers by their table, sliders by the
/// lookup from `from`.
pub open spec fn piece_hits(tables: AttackTables, k: PieceType, us: Color, from: int, to: int, occ: u64) -> bool {
    match k {
        PieceType::Pawn => pawn_capture_step(us, from, to),
        PieceType::Knight => holds(tables.knight@[from].0, to),
        PieceType::King => holds(tables.king@[from].0, to),
        PieceType::Bishop => holds(tables.magic_tables.bishop.lookup_spec(from, occ), to),
        PieceType::Rook => holds(tables.magic_tables.rook.lookup_spec(from, occ), to),
        PieceType::Queen => holds(tables.magic_tables.rook.lookup_spec(from, occ), to) || holds(
            tables.magic_tables.bishop.lookup_spec(from, occ),
            to,
        ),
    }
}

impl Board {
    /// A capture of `us` takes what its piece attacks: an en-passant capture
    /// takes an opposing pawn, any other capture is onto a square the moving
    /// piece hits.
    pub open spec fn capture_ok(&self, m: Move, us: Color) -> bool {
        let mb = self.mailbox_view();
        let from = from_of(m@);
        let to = to_of(m@);
        let tag = tag_of(m@);
        &&& tag == 5 ==> mb[behind(to, us)] == Some(Piece::of(us.other(), PieceType::Pawn))
        &&& (tag % 8 >= 4 && tag != 5) ==> piece_hits(
            self.tables(),
            mb[from]->0.kind_of(),
            us,
            from,
            to,
            self.occupancy(),
        )
    }
}

proof fn lemma_single_member(s: Set<int>, a: int, b: int)
    requires
        s.finite(),
        s.len() == 1,
        s.contains(a),
        s.contains(b),
    ensures
        a == b,
{
    if a != b {
        assert(s.remove(a).contains(b));
        assert(s.remove(a).len() == 0);
        assert(s.remove(a).remove(b).len() + 1 == s.remove(a).len());
    }
}

/// A capture whose piece hits its target, played where the side not to move
/// is not in check, takes no king.
#[verifier::spinoff_prover]
pub proof fn lemma_capture_spares_king(b: &Board, m: Move)
    requires
        b.wf(),
        b.tables().magic_tables.complete,
        b.fits(m),
        b.capture_ok(m, b.side()),
        popcount(b.king_set(b.side().other())) == 1,
        !b.attacked(lowest(b.king_set(b.side().other())), b.side()),
    ensures
        !(captured_of(b.mailbox_view(), m@, b.side()) matches Some(p) && p.kind_of()
            == PieceType::King),
{
    let us = b.side();
    let them = us.other();
    let mb = b.mailbox_view();
    let from = from_of(m@);
    let to = to_of(m@);
    let tag = tag_of(m@);
    b.lemma_wf();
    if tag != 5 && tag % 8 >= 4 && (mb[to] matches Some(p) && p.kind_of() == PieceType::King) {
        let kings = b.king_set(them);
        lemma_king_set(b, them);
        lemma_squares_finite(kings);
        assert(king_squares(mb, them).contains(to));
        crate::bitboard::lemma_lowest(kings);
        assert(squares(kings).contains(lowest(kings)));
        lemma_single_member(squares(kings), to, lowest(kings));
        let occ = b.occupancy();
        let k = mb[from]->0.kind_of();
        lemma_lookup_any_occupancy(&b.tables().magic_tables, from, occ);
        lemma_lookup_any_occupancy(&b.tables().magic_tables, to, occ);
        lemma_slider_symmetric(from, to, true, occ);
        lemma_slider_symmetric(from, to, false, occ);
        assert(reaches(b.tables(), k, us, from, to, occ));
        assert(owned_by(mb, from, us));
        assert(b.attacked(to, us));
    }
}

/// One king of each colour survives a move that fits, whose capture hits its
/// target, played where the side not to move is not in check: the inductive
/// step that keeps one king each along legal play.
pub proof fn lemma_legal_play_keeps_kings(before: &Board, made: &Board, m: Move)
    requires
        before.wf(),
        before.tables().magic_tables.complete,
        before.fits(m),
        before.capture_ok(m, before.side()),
        popcount(before.king_set(Color::White)) == 1,
        popcount(before.king_set(Color::Black)) == 1,
        !before.attacked(lowest(before.king_set(before.side().other())), before.side()),
        made.made_from(before, m),
    ensures
        popcount(made.king_set(Color::White)) == 1,
        popcount(made.king_set(Color::Black)) == 1,
{
    lemma_capture_spares_king(before, m);
    lemma_make_keeps_kings(before, made, m, Color::White);
    lemma_make_keeps_kings(before, made, m, Color::Black);
}

/// A word holds exactly one square when it is non-zero and clearing its
/// lowest square leaves nothing.
proof fn lemma_single_square(x: u64)
    ensures
        (popcount(x) == 1) == (x != 0 && x & ((x - 1) as u64) == 0),
{
    lemma_squares_finite(x);
    if x == 0 {
        assert(squares(x) =~= Set::<int>::empty());
    } else {
        crate::bitboard::lemma_lowest(x);
        let y = x & ((x - 1) as u64);
        assert(squares(y) =~= squares(x).remove(lowest(x)));
        assert(squares(x).contains(lowest(x)));
        if y == 0 {
            assert(squares(y) =~= Set::<int>::empty());
        } else {
            crate::bitboard::lemma_lowest(y);
            assert(squares(y).contains(lowest(y)));
        }
    }
}

impl Board {
    /// Each side has exactly one king.
    pub fn has_one_king_each(&self) -> (r: bool)
        requires
            self.wf(),
        ensures
            r == (popcount(self.king_set(Color::White)) == 1 && popcount(self.king_set(Color::Black))
                == 1),
    {
        let kings = self.pieces[5].0;
        let white = kings & self.colors[0].0;
        let black = kings & self.colors[1].0;
        proof {
            lemma_single_square(white);
            lemma_single_square(black);
        }
        white != 0 && white & (white - 1) == 0 && black != 0 && black & (black - 1) == 0
    }
}

} // verus!
