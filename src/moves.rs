//! Moves packed in 16 bits: origin in bits 0-5, destination in bits 6-11,
//! kind tag in bits 12-15.
use vstd::prelude::*;

use crate::types::PieceType;

verus! {

/// The kind of a move; its tag is the top four bits of the packed move.
#[derive(Clone, Copy, PartialEq, Eq, Debug, Structural)]
pub enum MoveType {
    Normal,
    DoublePush,
    KingCastle,
    QueenCastle,
    Capture,
    EnPassant,
    PromotionN,
    PromotionB,
    PromotionR,
    PromotionQ,
    PromotionCaptureN,
    PromotionCaptureB,
    PromotionCaptureR,
    PromotionCaptureQ,
}

impl MoveType {
    /// The four-bit tag of the kind.
    pub open spec fn tag(self) -> u16 {
        match self {
            MoveType::Normal => 0,
            MoveType::DoublePush => 1,
            MoveType::KingCastle => 2,
            MoveType::QueenCastle => 3,
            MoveType::Capture => 4,
            MoveType::EnPassant => 5,
            MoveType::PromotionN => 8,
            MoveType::PromotionB => 9,
            MoveType::PromotionR => 10,
            MoveType::PromotionQ => 11,
            MoveType::PromotionCaptureN => 12,
            MoveType::PromotionCaptureB => 13,
            MoveType::PromotionCaptureR => 14,
            MoveType::PromotionCaptureQ => 15,
        }
    }

    pub fn code(self) -> (r: u16)
        ensures
            r == self.tag(),
            r < 16,
    {
        match self {
            MoveType::Normal => 0,
            MoveType::DoublePush => 1,
            MoveType::KingCastle => 2,
            MoveType::QueenCastle => 3,
            MoveType::Capture => 4,
            MoveType::EnPassant => 5,
            MoveType::PromotionN => 8,
            MoveType::PromotionB => 9,
            MoveType::PromotionR => 10,
            MoveType::PromotionQ => 11,
            MoveType::PromotionCaptureN => 12,
            MoveType::PromotionCaptureB => 13,
            MoveType::PromotionCaptureR => 14,
            MoveType::PromotionCaptureQ => 15,
        }
    }
}

/// Origin square of a packed move.
pub open spec fn from_of(e: u16) -> int {
    e as int % 64
}

/// Destination square of a packed move.
pub open spec fn to_of(e: u16) -> int {
    (e as int / 64) % 64
}

/// Kind tag of a packed move.
pub open spec fn tag_of(e: u16) -> int {
    e as int / 4096
}

/// The piece kind a promotion tag names: its low two bits, knight to queen.
pub open spec fn promotion_kind(tag: int) -> PieceType {
    if tag % 4 == 0 {
        PieceType::Knight
    } else if tag % 4 == 1 {
        PieceType::Bishop
    } else if tag % 4 == 2 {
        PieceType::Rook
    } else {
        PieceType::Queen
    }
}

proof fn lemma_pack(from: u16, to: u16, tag: u16)
    by (bit_vector)
    requires
        from < 64,
        to < 64,
        tag < 16,
    ensures
        from | (to << 6u16) | (tag << 12u16) == from + 64 * to + 4096 * tag,
        from | (to << 6u16) == from + 64 * to,
{
}

proof fn lemma_unpack(e: u16)
    by (bit_vector)
    ensures
        e & 0x3Fu16 == e % 64,
        (e >> 6u16) & 0x3Fu16 == (e / 64) % 64,
        (e >> 12u16) & 3u16 == (e / 4096) % 4,
        e >> 12u16 == e / 4096,
        ((e & 0x4000u16) != 0) == ((e / 4096) % 8 >= 4),
        ((e & 0x8000u16) != 0) == (e / 4096 >= 8),
        ((e & 0xF000u16) == 0) == (e / 4096 == 0),
        ((e & 0xC000u16) != 0) == (e / 4096 >= 4),
        ((e & 0xE000u16) == 0x2000u16) == (e / 4096 == 2 || e / 4096 == 3),
        ((e & 0xF000u16) == 0x5000u16) == (e / 4096 == 5),
        ((e & 0xF000u16) == 0x1000u16) == (e / 4096 == 1),
{
}

/// A move packed in 16 bits.
#[derive(Clone, Copy, PartialEq, Eq, Debug)]
pub struct Move {
    encoding: u16,
}

impl View for Move {
    type V = u16;

    closed spec fn view(&self) -> u16 {
        self.encoding
    }
}

impl Move {
    /// The move from `f` to `t` with kind tag `tag`.
    pub closed spec fn pack(f: int, t: int, tag: int) -> Move {
        Move { encoding: (f + 64 * t + 4096 * tag) as u16 }
    }

    /// The reserved null move, encoded as zero.
    pub fn null_move() -> (r: Move)
        ensures
            r@ == 0,
    {
        Move { encoding: 0 }
    }

    /// A quiet move from `from_square` to `to_square`, tag 0.
    pub fn new_normal(from_square: usize, to_square: usize) -> (r: Self)
        requires
            from_square < 64,
            to_square < 64,
        ensures
            r@ == from_square + 64 * to_square,
            r == Move::pack(from_square as int, to_square as int, 0),
            from_of(r@) == from_square,
            to_of(r@) == to_square,
            tag_of(r@) == 0,
    {
        proof {
            lemma_pack(from_square as u16, to_square as u16, 0);
        }
        Self { encoding: (from_square as u16) | ((to_square as u16) << 6u16) }
    }

    /// A move of the given kind from `from_square` to `to_square`.
    pub fn new_special(from_square: usize, to_square: usize, movetype: MoveType) -> (r: Self)
        requires
            from_square < 64,
            to_square < 64,
        ensures
            r@ == from_square + 64 * to_square + 4096 * movetype.tag(),
            r == Move::pack(from_square as int, to_square as int, movetype.tag() as int),
            from_of(r@) == from_square,
            to_of(r@) == to_square,
            tag_of(r@) == movetype.tag(),
    {
        let code = movetype.code();
        proof {
            lemma_pack(from_square as u16, to_square as u16, code);
        }
        Self {
            encoding: (from_square as u16) | ((to_square as u16) << 6u16) | (code << 12u16),
        }
    }

    /// The kind of the move; tags 6 and 7 name no kind.
    pub fn get_type(self) -> (r: MoveType)
        requires
            tag_of(self@) != 6,
            tag_of(self@) != 7,
        ensures
            r.tag() == tag_of(self@),
    {
        proof {
            lemma_unpack(self.encoding);
        }
        match self.encoding >> 12u16 {
            0 => MoveType::Normal,
            1 => MoveType::DoublePush,
            2 => MoveType::KingCastle,
            3 => MoveType::QueenCastle,
            4 => MoveType::Capture,
            5 => MoveType::EnPassant,
            8 => MoveType::PromotionN,
            9 => MoveType::PromotionB,
            10 => MoveType::PromotionR,
            11 => MoveType::PromotionQ,
            12 => MoveType::PromotionCaptureN,
            13 => MoveType::PromotionCaptureB,
            14 => MoveType::PromotionCaptureR,
            _ => MoveType::PromotionCaptureQ,
        }
    }

    /// The origin square.
    pub fn from_square(self) -> (r: u8)
        ensures
            r == from_of(self@),
            r < 64,
    {
        proof {
            lemma_unpack(self.encoding);
        }
        (self.encoding & 0x3F) as u8
    }

    /// The destination square.
    pub fn to_square(self) -> (r: u8)
        ensures
            r == to_of(self@),
            r < 64,
    {
        proof {
            lemma_unpack(self.encoding);
        }
        ((self.encoding >> 6u16) & 0x3F) as u8
    }

    /// The capture flag (bit 14): ordinary, en-passant and promotion captures.
    pub fn is_capture(self) -> (r: bool)
        ensures
            r == (tag_of(self@) % 8 >= 4),
    {
        proof {
            lemma_unpack(self.encoding);
        }
        (self.encoding & 0x4000) != 0
    }

    /// The promotion flag (bit 15).
    pub fn is_promotion(self) -> (r: bool)
        ensures
            r == (tag_of(self@) >= 8),
    {
        proof {
            lemma_unpack(self.encoding);
        }
        (self.encoding & 0x8000) != 0
    }

    /// Neither capture nor any special kind: tag 0.
    pub fn is_quiet(self) -> (r: bool)
        ensures
            r == (tag_of(self@) == 0),
    {
        proof {
            lemma_unpack(self.encoding);
        }
        (self.encoding & 0xF000) == 0
    }

    /// A capture or a promotion.
    pub fn is_noisy(self) -> (r: bool)
        ensures
            r == (tag_of(self@) >= 4),
    {
        proof {
            lemma_unpack(self.encoding);
        }
        (self.encoding & 0xC000) != 0
    }

    /// King-side or queen-side castling.
    pub fn is_castling(self) -> (r: bool)
        ensures
            r == (tag_of(self@) == 2 || tag_of(self@) == 3),
    {
        proof {
            lemma_unpack(self.encoding);
        }
        (self.encoding & 0xE000) == 0x2000
    }

    /// An en-passant capture.
    pub fn is_enpassant(self) -> (r: bool)
        ensures
            r == (tag_of(self@) == 5),
    {
        proof {
            lemma_unpack(self.encoding);
        }
        (self.encoding & 0xF000) == 0x5000
    }

    /// A double pawn push.
    pub fn is_double_push(self) -> (r: bool)
        ensures
            r == (tag_of(self@) == 1),
    {
        proof {
            lemma_unpack(self.encoding);
        }
        (self.encoding & 0xF000) == 0x1000
    }

    /// The kind a promotion turns the pawn into: the tag's low two bits,
    /// knight, bishop, rook, queen.
    pub fn get_promotion_piece(self) -> (r: PieceType)
        ensures
            r == promotion_kind(tag_of(self@)),
    {
        proof {
            lemma_unpack(self.encoding);
        }
        match (self.encoding >> 12u16) & 3 {
            0 => PieceType::Knight,
            1 => PieceType::Bishop,
            2 => PieceType::Rook,
            _ => PieceType::Queen,
        }
    }
}

} // verus!
