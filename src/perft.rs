//! Perft: counts the leaves of the legal move tree to a fixed depth, the
//! standard check of move generation and make/unmake.
use vstd::prelude::*;

use crate::bitboard::lowest;
use crate::board::{lemma_make_unmake_restores, Board, State};
use crate::movegen::{generate_all_moves, lemma_side_seq_congruent, side_seq, MoveList};
use crate::types::{lemma_square_view_injective, Color, Piece};

verus! {

/// The position holds the same pieces, side to move, history and tables as `b`.
pub open spec fn same_position(a: &Board, b: &Board) -> bool {
    &&& a.wf()
    &&& a.mailbox_view() == b.mailbox_view()
    &&& a.side() == b.side()
    &&& a.history() == b.history()
    &&& a.tables() == b.tables()
}

/// What decides a position's count: its pieces, side to move, history and tables.
pub open spec fn key_of(b: &Board) -> (Seq<Option<Piece>>, Color, Seq<State>, crate::attack::AttackTables) {
    (b.mailbox_view(), b.side(), b.history(), b.tables())
}

/// A well-formed board with views `k`; all such boards count alike.
pub open spec fn board_for(k: (Seq<Option<Piece>>, Color, Seq<State>, crate::attack::AttackTables)) -> Board {
    choose|x: Board| x.wf() && key_of(&x) == k
}

/// After a move, the side that made it does not have its king attacked.
pub open spec fn leaves_king_safe(c: &Board) -> bool {
    let mover = c.side().other();
    !(c.king_set(mover) != 0 && c.attacked(lowest(c.king_set(mover)), mover.other()))
}

/// `a + b`, saturating at `u64::MAX`.
pub open spec fn sat_add(a: int, b: int) -> int {
    if a + b > u64::MAX {
        u64::MAX as int
    } else {
        a + b
    }
}

/// The leaf count of the position with views `k` at `depth`, with the moves
/// before index `i` of its generated list already added into `acc`: each
/// generated move that leaves the mover's king safe adds the count one ply
/// lower, saturating at `u64::MAX`.
pub open spec fn perft_fold(
    k: (Seq<Option<Piece>>, Color, Seq<State>, crate::attack::AttackTables),
    depth: nat,
    i: int,
    acc: int,
) -> int
    decreases depth, side_seq(&board_for(k), board_for(k).side()).len() - i,
{
    if depth == 0 {
        1
    } else {
        let b = board_for(k);
        let list = side_seq(&b, b.side());
        if i < 0 || i >= list.len() {
            acc
        } else {
            let c = choose|x: Board| x.made_from(&b, list[i]);
            let acc2 = if leaves_king_safe(&c) {
                sat_add(acc, perft_fold(key_of(&c), (depth - 1) as nat, 0, 0))
            } else {
                acc
            };
            perft_fold(k, depth, i + 1, acc2)
        }
    }
}

/// The number of leaves `depth` legal plies below `b`.
pub open spec fn perft_count(b: &Board, depth: nat) -> int {
    perft_fold(key_of(b), depth, 0, 0)
}

/// The number of leaves `depth` legal plies below `board`: every generated
/// move is played, kept when it leaves the mover's king unattacked, and
/// undone. The count saturates at `u64::MAX`. The position is left as found.
pub fn perft(board: &mut Board, depth: u64) -> (nodes: u64)
    requires
        old(board).wf(),
    ensures
        same_position(final(board), old(board)),
        nodes == perft_count(old(board), depth as nat),
    decreases depth,
{
    if depth == 0 {
        return 1;
    }
    let ghost at_entry = *board;
    let ghost k0 = key_of(&at_entry);
    let ghost rep = board_for(k0);
    let mut list = MoveList::new();
    generate_all_moves(board, &mut list);
    proof {
        assert(at_entry.wf() && key_of(&at_entry) == k0);
        assert(rep.wf() && key_of(&rep) == k0);
        lemma_side_seq_congruent(&at_entry, &rep, at_entry.side());
        assert(list.view_moves() =~= side_seq(&rep, rep.side()));
    }
    let mut nodes: u64 = 0;
    let mut i: usize = 0;
    while i < list.count()
        invariant
            depth > 0,
            same_position(board, &at_entry),
            at_entry.wf(),
            k0 == key_of(&at_entry),
            rep == board_for(k0),
            rep.wf(),
            key_of(&rep) == k0,
            list.view_moves() == side_seq(&rep, rep.side()),
            i <= list.view_moves().len(),
            perft_fold(k0, depth as nat, 0, 0) == perft_fold(k0, depth as nat, i as int, nodes as int),
            forall|j: int|
                0 <= j < list.view_moves().len() ==> at_entry.fits(#[trigger] list.view_moves()[j]),
        decreases list.view_moves().len() - i,
    {
        let m = list.get(i);
        let ghost pre = *board;
        board.make_move(m);
        let ghost made = *board;
        let ghost nodes_before = nodes;
        let safe = !board.king_in_check(board.side_to_move().opponent());
        proof {
            assert(made.made_from(&rep, m));
            let c = choose|x: Board| x.made_from(&rep, m);
            assert(c.made_from(&rep, m));
            match (c.top().en_passant, made.top().en_passant) {
                (Some(x), Some(y)) => lemma_square_view_injective(x, y),
                _ => {},
            }
            assert(c.top() == made.top());
            assert(c.history() =~= made.history());
            assert(key_of(&c) == key_of(&made));
            Board::lemma_bitboards_follow_mailbox(&c, &made);
            assert(c.occupancy() == made.occupancy());
            assert(c.king_set(made.side().other()) == made.king_set(made.side().other()));
            assert(leaves_king_safe(&c) == safe);
        }
        if safe {
            let below = perft(board, depth - 1);
            nodes = nodes.saturating_add(below);
        }
        board.unmake_move(m);
        proof {
            assert(board.unmade_from(&made, m));
            lemma_make_unmake_restores(&pre, &made, board, m);
            assert(perft_fold(k0, depth as nat, i as int, nodes_before as int) == perft_fold(
                k0,
                depth as nat,
                i + 1,
                nodes as int,
            ));
        }
        i += 1;
    }
    nodes
}

} // verus!
