//! Board coordinates, colours and pieces.
use vstd::prelude::*;

use crate::bitboard::{holds, Bitboard};

verus! {

/// The side a piece belongs to.
#[derive(Clone, Copy, PartialEq, Eq, Debug, Structural)]
pub enum Color {
    White,
    Black,
}

impl Color {
    /// 0 for White, 1 for Black.
    pub open spec fn idx(self) -> int {
        match self {
            Color::White => 0,
            Color::Black => 1,
        }
    }

    pub open spec fn other(self) -> Color {
        match self {
            Color::White => Color::Black,
            Color::Black => Color::White,
        }
    }

    pub fn index(self) -> (r: usize)
        ensures
            r == self.idx(),
    {
        match self {
            Color::White => 0,
            Color::Black => 1,
        }
    }

    /// The other side.
    pub fn opponent(self) -> (r: Color)
        ensures
            r == self.other(),
    {
        match self {
            Color::White => Color::Black,
            Color::Black => Color::White,
        }
    }
}

/// A square of the board, 0 (a1) to 63 (h8).
#[derive(Clone, Copy, PartialEq, Eq, Debug)]
pub struct Square(u8);

impl Square {
    #[verifier::type_invariant]
    spec fn on_board(self) -> bool {
        self.0 < 64
    }
}

impl View for Square {
    type V = int;

    closed spec fn view(&self) -> int {
        self.0 as int
    }
}


/// Squares with the same number are the same square.
pub proof fn lemma_square_view_injective(a: Square, b: Square)
    requires
        a@ == b@,
    ensures
        a == b,
{
}

impl Square {
    pub fn new(index: u8) -> (r: Square)
        requires
            index < 64,
        ensures
            r@ == index as int,
    {
        Square(index)
    }

    /// The square's number, 0 to 63.
    pub fn index(self) -> (r: usize)
        ensures
            r == self@,
            r < 64,
    {
        proof {
            use_type_invariant(&self);
        }
        self.0 as usize
    }

    /// Rank index, 0 (rank 1) to 7 (rank 8).
    pub fn rank(self) -> (r: u8)
        ensures
            r == self@ / 8,
            r < 8,
    {
        proof {
            use_type_invariant(&self);
        }
        self.0 / 8
    }

    /// File index, 0 (file a) to 7 (file h).
    pub fn file(self) -> (r: u8)
        ensures
            r == self@ % 8,
            r < 8,
    {
        proof {
            use_type_invariant(&self);
        }
        self.0 % 8
    }

    /// One rank up.
    pub fn north(self) -> (r: Square)
        requires
            self@ < 56,
        ensures
            r@ == self@ + 8,
    {
        Square(self.0 + 8)
    }

    /// One rank down.
    pub fn south(self) -> (r: Square)
        requires
            self@ >= 8,
        ensures
            r@ == self@ - 8,
    {
        proof {
            use_type_invariant(&self);
        }
        Square(self.0 - 8)
    }

    /// One rank up, one file right.
    pub fn north_east(self) -> (r: Square)
        requires
            self@ < 56,
            self@ % 8 != 7,
        ensures
            r@ == self@ + 9,
    {
        Square(self.0 + 9)
    }

    /// One rank up, one file left.
    pub fn north_west(self) -> (r: Square)
        requires
            self@ < 56,
            self@ % 8 != 0,
        ensures
            r@ == self@ + 7,
    {
        proof {
            use_type_invariant(&self);
        }
        Square(self.0 + 7)
    }

    /// One rank down, one file right.
    pub fn south_east(self) -> (r: Square)
        requires
            self@ >= 8,
            self@ % 8 != 7,
        ensures
            r@ == self@ - 7,
    {
        proof {
            use_type_invariant(&self);
        }
        Square(self.0 - 7)
    }

    /// One rank down, one file left.
    pub fn south_west(self) -> (r: Square)
        requires
            self@ >= 8,
            self@ % 8 != 0,
        ensures
            r@ == self@ - 9,
    {
        proof {
            use_type_invariant(&self);
        }
        Square(self.0 - 9)
    }

    /// The square as a one-member bitboard.
    pub fn bb(self) -> (r: Bitboard)
        ensures
            r.0 == 1u64 << (self@ as u64),
            forall|i: int| #[trigger] holds(r.0, i) == (i == self@),
    {
        let i = self.index();
        Bitboard::from_square(i)
    }
}

/// The six kinds of piece, in their conventional order.
#[derive(Clone, Copy, PartialEq, Eq, Debug, Structural)]
pub enum PieceType {
    Pawn,
    Knight,
    Bishop,
    Rook,
    Queen,
    King,
}

impl PieceType {
    /// Position of the kind in the order Pawn .. King.
    pub open spec fn idx(self) -> int {
        match self {
            PieceType::Pawn => 0,
            PieceType::Knight => 1,
            PieceType::Bishop => 2,
            PieceType::Rook => 3,
            PieceType::Queen => 4,
            PieceType::King => 5,
        }
    }

    pub open spec fn from_idx(i: int) -> PieceType {
        if i == 0 {
            PieceType::Pawn
        } else if i == 1 {
            PieceType::Knight
        } else if i == 2 {
            PieceType::Bishop
        } else if i == 3 {
            PieceType::Rook
        } else if i == 4 {
            PieceType::Queen
        } else {
            PieceType::King
        }
    }

    /// The kind at position `encoding`.
    pub fn new(encoding: u8) -> (r: PieceType)
        requires
            encoding < 6,
        ensures
            r.idx() == encoding,
            r == PieceType::from_idx(encoding as int),
    {
        match encoding {
            0 => PieceType::Pawn,
            1 => PieceType::Knight,
            2 => PieceType::Bishop,
            3 => PieceType::Rook,
            4 => PieceType::Queen,
            _ => PieceType::King,
        }
    }

    pub fn index(self) -> (r: usize)
        ensures
            r == self.idx(),
            r < 6,
    {
        match self {
            PieceType::Pawn => 0,
            PieceType::Knight => 1,
            PieceType::Bishop => 2,
            PieceType::Rook => 3,
            PieceType::Queen => 4,
            PieceType::King => 5,
        }
    }
}

/// A coloured piece.
#[derive(Clone, Copy, PartialEq, Eq, Debug, Structural)]
pub enum Piece {
    WhitePawn,
    WhiteKnight,
    WhiteBishop,
    WhiteRook,
    WhiteQueen,
    WhiteKing,
    BlackPawn,
    BlackKnight,
    BlackBishop,
    BlackRook,
    BlackQueen,
    BlackKing,
}

impl Piece {
    pub open spec fn color_of(self) -> Color {
        match self {
            Piece::WhitePawn | Piece::WhiteKnight | Piece::WhiteBishop | Piece::WhiteRook
            | Piece::WhiteQueen | Piece::WhiteKing => Color::White,
            _ => Color::Black,
        }
    }

    pub open spec fn kind_of(self) -> PieceType {
        match self {
            Piece::WhitePawn | Piece::BlackPawn => PieceType::Pawn,
            Piece::WhiteKnight | Piece::BlackKnight => PieceType::Knight,
            Piece::WhiteBishop | Piece::BlackBishop => PieceType::Bishop,
            Piece::WhiteRook | Piece::BlackRook => PieceType::Rook,
            Piece::WhiteQueen | Piece::BlackQueen => PieceType::Queen,
            Piece::WhiteKing | Piece::BlackKing => PieceType::King,
        }
    }

    /// The letter that names the piece: upper case for White, lower case for Black.
    pub open spec fn letter(self) -> char {
        match self {
            Piece::WhitePawn => 'P',
            Piece::WhiteKnight => 'N',
            Piece::WhiteBishop => 'B',
            Piece::WhiteRook => 'R',
            Piece::WhiteQueen => 'Q',
            Piece::WhiteKing => 'K',
            Piece::BlackPawn => 'p',
            Piece::BlackKnight => 'n',
            Piece::BlackBishop => 'b',
            Piece::BlackRook => 'r',
            Piece::BlackQueen => 'q',
            Piece::BlackKing => 'k',
        }
    }

    /// The piece of colour `c` and kind `k`.
    pub open spec fn of(c: Color, k: PieceType) -> Piece {
        match (c, k) {
            (Color::White, PieceType::Pawn) => Piece::WhitePawn,
            (Color::White, PieceType::Knight) => Piece::WhiteKnight,
            (Color::White, PieceType::Bishop) => Piece::WhiteBishop,
            (Color::White, PieceType::Rook) => Piece::WhiteRook,
            (Color::White, PieceType::Queen) => Piece::WhiteQueen,
            (Color::White, PieceType::King) => Piece::WhiteKing,
            (Color::Black, PieceType::Pawn) => Piece::BlackPawn,
            (Color::Black, PieceType::Knight) => Piece::BlackKnight,
            (Color::Black, PieceType::Bishop) => Piece::BlackBishop,
            (Color::Black, PieceType::Rook) => Piece::BlackRook,
            (Color::Black, PieceType::Queen) => Piece::BlackQueen,
            (Color::Black, PieceType::King) => Piece::BlackKing,
        }
    }

    /// Builds the piece of the given colour and kind.
    pub fn new(color: Color, piece_type: PieceType) -> (r: Self)
        ensures
            r == Piece::of(color, piece_type),
            r.color_of() == color,
            r.kind_of() == piece_type,
    {
        match (color, piece_type) {
            (Color::White, PieceType::Pawn) => Piece::WhitePawn,
            (Color::White, PieceType::Knight) => Piece::WhiteKnight,
            (Color::White, PieceType::Bishop) => Piece::WhiteBishop,
            (Color::White, PieceType::Rook) => Piece::WhiteRook,
            (Color::White, PieceType::Queen) => Piece::WhiteQueen,
            (Color::White, PieceType::King) => Piece::WhiteKing,
            (Color::Black, PieceType::Pawn) => Piece::BlackPawn,
            (Color::Black, PieceType::Knight) => Piece::BlackKnight,
            (Color::Black, PieceType::Bishop) => Piece::BlackBishop,
            (Color::Black, PieceType::Rook) => Piece::BlackRook,
            (Color::Black, PieceType::Queen) => Piece::BlackQueen,
            (Color::Black, PieceType::King) => Piece::BlackKing,
        }
    }

    /// The colour of the piece.
    pub fn get_color(self) -> (r: Color)
        ensures
            r == self.color_of(),
    {
        match self {
            Piece::WhitePawn | Piece::WhiteKnight | Piece::WhiteBishop | Piece::WhiteRook
            | Piece::WhiteQueen | Piece::WhiteKing => Color::White,
            _ => Color::Black,
        }
    }

    /// The kind of the piece.
    pub fn get_type(self) -> (r: PieceType)
        ensures
            r == self.kind_of(),
    {
        match self {
            Piece::WhitePawn | Piece::BlackPawn => PieceType::Pawn,
            Piece::WhiteKnight | Piece::BlackKnight => PieceType::Knight,
            Piece::WhiteBishop | Piece::BlackBishop => PieceType::Bishop,
            Piece::WhiteRook | Piece::BlackRook => PieceType::Rook,
            Piece::WhiteQueen | Piece::BlackQueen => PieceType::Queen,
            Piece::WhiteKing | Piece::BlackKing => PieceType::King,
        }
    }

    /// The letter of the piece.
    pub fn to_char(self) -> (r: char)
        ensures
            r == self.letter(),
    {
        match self {
            Piece::WhitePawn => 'P',
            Piece::WhiteKnight => 'N',
            Piece::WhiteBishop => 'B',
            Piece::WhiteRook => 'R',
            Piece::WhiteQueen => 'Q',
            Piece::WhiteKing => 'K',
            Piece::BlackPawn => 'p',
            Piece::BlackKnight => 'n',
            Piece::BlackBishop => 'b',
            Piece::BlackRook => 'r',
            Piece::BlackQueen => 'q',
            Piece::BlackKing => 'k',
        }
    }

    /// The piece named by a letter, if the letter names one.
    pub fn from_char(ch: char) -> (r: Option<Self>)
        ensures
            r matches Some(p) ==> p.letter() == ch,
            r is None ==> forall|p: Piece| p.letter() != ch,
    {
        match ch {
            'P' => Some(Piece::WhitePawn),
            'N' => Some(Piece::WhiteKnight),
            'B' => Some(Piece::WhiteBishop),
            'R' => Some(Piece::WhiteRook),
            'Q' => Some(Piece::WhiteQueen),
            'K' => Some(Piece::WhiteKing),
            'p' => Some(Piece::BlackPawn),
            'n' => Some(Piece::BlackKnight),
            'b' => Some(Piece::BlackBishop),
            'r' => Some(Piece::BlackRook),
            'q' => Some(Piece::BlackQueen),
            'k' => Some(Piece::BlackKing),
            _ => None,
        }
    }
}

} // verus!
