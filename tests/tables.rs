use masca::attack::AttackTables;
use masca::bitboard::Bitboard;

fn reference_walk(sq: usize, deltas: &[(i32, i32)], occ: u64) -> u64 {
    let mut attacks = 0u64;
    let r0 = (sq / 8) as i32;
    let f0 = (sq % 8) as i32;
    for &(dr, df) in deltas {
        let (mut r, mut f) = (r0 + dr, f0 + df);
        while (0..8).contains(&r) && (0..8).contains(&f) {
            let bit = 1u64 << (r * 8 + f);
            attacks |= bit;
            if occ & bit != 0 {
                break;
            }
            r += dr;
            f += df;
        }
    }
    attacks
}

const ROOK: [(i32, i32); 4] = [(0, 1), (1, 0), (0, -1), (-1, 0)];
const BISHOP: [(i32, i32); 4] = [(1, 1), (1, -1), (-1, 1), (-1, -1)];

#[test]
fn magic_lookup_matches_reference_walk() {
    let tables = AttackTables::new();
    let mt = &tables.magic_tables;
    assert!(mt.complete);
    for sq in 0..64 {
        for (table, deltas, bishop) in [(&mt.rook, &ROOK, false), (&mt.bishop, &BISHOP, true)] {
            let mask = table.masks[sq].0;
            let mut occ = 0u64;
            loop {
                assert_eq!(table.lookup(bishop, sq, occ), reference_walk(sq, deltas, occ));
                occ = occ.wrapping_sub(mask) & mask;
                if occ == 0 {
                    break;
                }
            }
        }
    }
}

#[test]
fn magic_table_sizes() {
    let tables = AttackTables::new();
    let mt = &tables.magic_tables;
    let rook: usize = mt.rook.masks.iter().map(|m| 1usize << m.0.count_ones()).sum();
    let bishop: usize = mt.bishop.masks.iter().map(|m| 1usize << m.0.count_ones()).sum();
    assert_eq!(rook, 102_400);
    assert_eq!(bishop, 5_248);
    assert_eq!(mt.rook.attacks.len(), 102_400);
    assert_eq!(mt.bishop.attacks.len(), 5_248);
}

#[test]
fn magic_shifts_and_masks() {
    let tables = AttackTables::new();
    let mt = &tables.magic_tables;
    // Rook on a1: b1..g1 and a2..a7.
    assert_eq!(mt.rook.masks[0].0, 0x0001_0101_0101_017E);
    assert_eq!(mt.rook.shifts[0], 52);
    // Bishop on d4: the four diagonals without the rim.
    assert_eq!(mt.bishop.masks[27].0, 0x0040_2214_0014_2200);
    assert_eq!(mt.bishop.shifts[27], 55);
    assert_eq!(mt.rook.offsets[0], 0);
    assert_eq!(mt.rook.offsets[1], 4096);
}

#[test]
fn magic_search_is_deterministic() {
    let a = AttackTables::new();
    let b = AttackTables::new();
    assert_eq!(a.magic_tables.rook.magics, b.magic_tables.rook.magics);
    assert_eq!(a.magic_tables.bishop.magics, b.magic_tables.bishop.magics);
}

#[test]
fn pawn_tables_mirror() {
    let tables = AttackTables::new();
    let mirror = |s: usize| s ^ 56;
    for sq in 0..64 {
        let w = &tables;
        assert_eq!(w.pawn_push[1][mirror(sq)].0, w.pawn_push[0][sq].0.swap_bytes());
        assert_eq!(w.pawn_capture[1][mirror(sq)].0, w.pawn_capture[0][sq].0.swap_bytes());
        assert_eq!(w.pawn_double_push[1][mirror(sq)].0, w.pawn_double_push[0][sq].0.swap_bytes());
    }
}

#[test]
fn leaper_tables() {
    let tables = AttackTables::new();
    assert_eq!(tables.knight[0].0, (1 << 10) | (1 << 17));
    assert_eq!(tables.knight[27].0.count_ones(), 8);
    assert_eq!(tables.king[0].0, (1 << 1) | (1 << 8) | (1 << 9));
    assert_eq!(tables.king[63].0, (1 << 62) | (1 << 55) | (1 << 54));
    assert_eq!(tables.pawn_capture[0][8].0, 1 << 17);
    assert_eq!(tables.pawn_capture[0][12].0, (1 << 19) | (1 << 21));
    assert_eq!(tables.pawn_push[0][12].0, 1 << 20);
    assert_eq!(tables.pawn_push[0][60].0, 0);
    assert_eq!(tables.pawn_double_push[0][12].0, 1 << 28);
    assert_eq!(tables.pawn_double_push[0][20].0, 0);
    assert_eq!(tables.pawn_double_push[1][52].0, 1 << 36);
}

#[test]
fn bitboard_helpers() {
    assert_eq!(Bitboard::from_square(9).0, 1 << 9);
    assert_eq!(Bitboard::square_to_rank(10).0, 0xFF00);
    assert_eq!(Bitboard::square_to_file(10).0, 0x0404_0404_0404_0404);
    assert_eq!(Bitboard::rank_1().0 | Bitboard::rank_8().0, 0xFF00_0000_0000_00FF);
    assert_eq!(Bitboard::file_A().0 | Bitboard::file_H().0, 0x8181_8181_8181_8181);
    let mut b = Bitboard(0b1010_0000);
    assert_eq!(b.lsb(), 5);
    assert_eq!(b.pop_lsb(), 5);
    assert_eq!(b.0, 0b1000_0000);
    assert_eq!(b.pop_lsb(), 7);
    assert_eq!(b.0, 0);
    let mut empty = Bitboard(0);
    assert_eq!(empty.lsb(), 64);
}

#[test]
fn new_magic_tables_are_zeroed_fixed_size() {
    let mt = masca::magics::MagicTables::new();
    assert!(!mt.complete);
    assert_eq!(mt.rook.attacks.len(), 102_400);
    assert_eq!(mt.bishop.attacks.len(), 5_248);
    for t in [&mt.rook, &mt.bishop] {
        assert_eq!(t.masks.len(), 64);
        assert_eq!(t.magics.len(), 64);
        assert_eq!(t.offsets.len(), 64);
        assert!(t.masks.iter().all(|m| m.0 == 0));
        assert!(t.magics.iter().all(|&m| m == 0));
        assert!(t.offsets.iter().all(|&o| o == 0));
        assert!(t.attacks.iter().all(|a| a.0 == 0));
    }
}
