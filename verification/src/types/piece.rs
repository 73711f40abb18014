use vstd::prelude::*;
use crate::types::color::Color;

verus! {

/// A piece with its color, or no piece. Index = 2 * type + color.
#[derive(Clone, Copy, PartialEq, Eq, Structural, Debug)]
pub enum Piece {
    WhitePawn,
    BlackPawn,
    WhiteKnight,
    BlackKnight,
    WhiteBishop,
    BlackBishop,
    WhiteRook,
    BlackRook,
    WhiteQueen,
    BlackQueen,
    WhiteKing,
    BlackKing,
    NoPiece,
}

/// The kind of a piece, or no kind.
#[derive(Clone, Copy, PartialEq, Eq, Structural, Debug)]
pub enum PieceType {
    Pawn,
    Knight,
    Bishop,
    Rook,
    Queen,
    King,
    NoType,
}

/// Material value of each kind of piece, in centipawns.
pub open spec fn type_value(t: int) -> int {
    if t == 0 {
        100
    } else if t == 1 {
        300
    } else if t == 2 {
        400
    } else if t == 3 {
        600
    } else if t == 4 {
        1100
    } else {
        0
    }
}

/// The piece a FEN letter names.
pub open spec fn letter_piece(b: u8) -> Option<Piece> {
    if b == 80 {
        Some(Piece::WhitePawn)
    } else if b == 112 {
        Some(Piece::BlackPawn)
    } else if b == 78 {
        Some(Piece::WhiteKnight)
    } else if b == 110 {
        Some(Piece::BlackKnight)
    } else if b == 66 {
        Some(Piece::WhiteBishop)
    } else if b == 98 {
        Some(Piece::BlackBishop)
    } else if b == 82 {
        Some(Piece::WhiteRook)
    } else if b == 114 {
        Some(Piece::BlackRook)
    } else if b == 81 {
        Some(Piece::WhiteQueen)
    } else if b == 113 {
        Some(Piece::BlackQueen)
    } else if b == 75 {
        Some(Piece::WhiteKing)
    } else if b == 107 {
        Some(Piece::BlackKing)
    } else {
        None
    }
}

/// The piece with index `i` (12 and above: no piece).
pub open spec fn piece_of_index(i: int) -> Piece {
    if i == 0 {
        Piece::WhitePawn
    } else if i == 1 {
        Piece::BlackPawn
    } else if i == 2 {
        Piece::WhiteKnight
    } else if i == 3 {
        Piece::BlackKnight
    } else if i == 4 {
        Piece::WhiteBishop
    } else if i == 5 {
        Piece::BlackBishop
    } else if i == 6 {
        Piece::WhiteRook
    } else if i == 7 {
        Piece::BlackRook
    } else if i == 8 {
        Piece::WhiteQueen
    } else if i == 9 {
        Piece::BlackQueen
    } else if i == 10 {
        Piece::WhiteKing
    } else if i == 11 {
        Piece::BlackKing
    } else {
        Piece::NoPiece
    }
}

/// The kind with index `i` (6 and above: no kind).
pub open spec fn type_of_index(i: int) -> PieceType {
    if i == 0 {
        PieceType::Pawn
    } else if i == 1 {
        PieceType::Knight
    } else if i == 2 {
        PieceType::Bishop
    } else if i == 3 {
        PieceType::Rook
    } else if i == 4 {
        PieceType::Queen
    } else if i == 5 {
        PieceType::King
    } else {
        PieceType::NoType
    }
}

impl Piece {
    pub const NUM: usize = 12;

    /// Index of the piece: 2 * kind + color, 12 for no piece.
    pub open spec fn idx(self) -> int {
        match self {
            Piece::WhitePawn => 0,
            Piece::BlackPawn => 1,
            Piece::WhiteKnight => 2,
            Piece::BlackKnight => 3,
            Piece::WhiteBishop => 4,
            Piece::BlackBishop => 5,
            Piece::WhiteRook => 6,
            Piece::BlackRook => 7,
            Piece::WhiteQueen => 8,
            Piece::BlackQueen => 9,
            Piece::WhiteKing => 10,
            Piece::BlackKing => 11,
            Piece::NoPiece => 12,
        }
    }

    /// Index of the kind of the piece (6 for no piece).
    pub open spec fn type_idx(self) -> int {
        self.idx() / 2
    }

    /// Index of the color of the piece (white for no piece).
    pub open spec fn color_idx(self) -> int {
        self.idx() % 2
    }

    /// Signed material value: positive for white, negative for black.
    pub open spec fn spec_value(self) -> int {
        if self.color_idx() == 0 {
            type_value(self.type_idx())
        } else {
            -type_value(self.type_idx())
        }
    }

    /// Index of the piece.
    pub fn index(self) -> (i: usize)
        ensures
            i == self.idx(),
    {
        match self {
            Piece::WhitePawn => 0,
            Piece::BlackPawn => 1,
            Piece::WhiteKnight => 2,
            Piece::BlackKnight => 3,
            Piece::WhiteBishop => 4,
            Piece::BlackBishop => 5,
            Piece::WhiteRook => 6,
            Piece::BlackRook => 7,
            Piece::WhiteQueen => 8,
            Piece::BlackQueen => 9,
            Piece::WhiteKing => 10,
            Piece::BlackKing => 11,
            Piece::NoPiece => 12,
        }
    }

    /// The piece with index `i`.
    pub fn from_index(i: usize) -> (p: Piece)
        requires
            i <= 12,
        ensures
            p == piece_of_index(i as int),
            p.idx() == i,
    {
        if i == 0 {
            Piece::WhitePawn
        } else if i == 1 {
            Piece::BlackPawn
        } else if i == 2 {
            Piece::WhiteKnight
        } else if i == 3 {
            Piece::BlackKnight
        } else if i == 4 {
            Piece::WhiteBishop
        } else if i == 5 {
            Piece::BlackBishop
        } else if i == 6 {
            Piece::WhiteRook
        } else if i == 7 {
            Piece::BlackRook
        } else if i == 8 {
            Piece::WhiteQueen
        } else if i == 9 {
            Piece::BlackQueen
        } else if i == 10 {
            Piece::WhiteKing
        } else if i == 11 {
            Piece::BlackKing
        } else {
            Piece::NoPiece
        }
    }

    /// The piece of `color` and kind `piece_type`; a white "no kind" is no piece.
    pub fn new(color: Color, piece_type: PieceType) -> (p: Piece)
        requires
            piece_type != PieceType::NoType || color == Color::White,
        ensures
            p.idx() == 2 * piece_type.idx() + color.idx(),
    {
        Piece::from_index(2 * piece_type.index() + color.index())
    }

    /// The kind of the piece (no kind for no piece).
    pub fn piece_type(self) -> (t: PieceType)
        ensures
            t.idx() == self.type_idx(),
    {
        PieceType::new(self.index() / 2)
    }

    /// The color of the piece (white for no piece).
    pub fn color(self) -> (c: Color)
        ensures
            c.idx() == self.color_idx(),
    {
        Color::new((self.index() % 2) as u8)
    }

    /// Signed material value: positive for white, negative for black, 0 for kings.
    pub fn value(self) -> (v: i32)
        ensures
            v == self.spec_value(),
    {
        match self {
            Piece::WhitePawn => 100,
            Piece::WhiteKnight => 300,
            Piece::WhiteBishop => 400,
            Piece::WhiteRook => 600,
            Piece::WhiteQueen => 1100,
            Piece::WhiteKing => 0,
            Piece::BlackPawn => -100,
            Piece::BlackKnight => -300,
            Piece::BlackBishop => -400,
            Piece::BlackRook => -600,
            Piece::BlackQueen => -1100,
            Piece::BlackKing => 0,
            Piece::NoPiece => 0,
        }
    }

    /// The piece named by a FEN letter (`PpNnBbRrQqKk`).
    pub fn try_from_char(c: char) -> (r: Option<Piece>)
        ensures
            r is Some <==> (c == 'P' || c == 'p' || c == 'N' || c == 'n' || c == 'B' || c == 'b'
                || c == 'R' || c == 'r' || c == 'Q' || c == 'q' || c == 'K' || c == 'k'),
            r matches Some(p) ==> p != Piece::NoPiece && p.to_char_spec() == Some(c),
    {
        if c == 'P' {
            Some(Piece::WhitePawn)
        } else if c == 'p' {
            Some(Piece::BlackPawn)
        } else if c == 'N' {
            Some(Piece::WhiteKnight)
        } else if c == 'n' {
            Some(Piece::BlackKnight)
        } else if c == 'B' {
            Some(Piece::WhiteBishop)
        } else if c == 'b' {
            Some(Piece::BlackBishop)
        } else if c == 'R' {
            Some(Piece::WhiteRook)
        } else if c == 'r' {
            Some(Piece::BlackRook)
        } else if c == 'Q' {
            Some(Piece::WhiteQueen)
        } else if c == 'q' {
            Some(Piece::BlackQueen)
        } else if c == 'K' {
            Some(Piece::WhiteKing)
        } else if c == 'k' {
            Some(Piece::BlackKing)
        } else {
            None
        }
    }

    /// The piece named by a FEN letter given as a byte.
    pub fn try_from_letter(b: u8) -> (r: Option<Piece>)
        ensures
            r == letter_piece(b),
    {
        if b == 80 {
            Some(Piece::WhitePawn)
        } else if b == 112 {
            Some(Piece::BlackPawn)
        } else if b == 78 {
            Some(Piece::WhiteKnight)
        } else if b == 110 {
            Some(Piece::BlackKnight)
        } else if b == 66 {
            Some(Piece::WhiteBishop)
        } else if b == 98 {
            Some(Piece::BlackBishop)
        } else if b == 82 {
            Some(Piece::WhiteRook)
        } else if b == 114 {
            Some(Piece::BlackRook)
        } else if b == 81 {
            Some(Piece::WhiteQueen)
        } else if b == 113 {
            Some(Piece::BlackQueen)
        } else if b == 75 {
            Some(Piece::WhiteKing)
        } else if b == 107 {
            Some(Piece::BlackKing)
        } else {
            None
        }
    }

    /// The FEN letter of the piece: upper case for white, lower case for black.
    pub open spec fn to_char_spec(self) -> Option<char> {
        match self {
            Piece::WhitePawn => Some('P'),
            Piece::BlackPawn => Some('p'),
            Piece::WhiteKnight => Some('N'),
            Piece::BlackKnight => Some('n'),
            Piece::WhiteBishop => Some('B'),
            Piece::BlackBishop => Some('b'),
            Piece::WhiteRook => Some('R'),
            Piece::BlackRook => Some('r'),
            Piece::WhiteQueen => Some('Q'),
            Piece::BlackQueen => Some('q'),
            Piece::WhiteKing => Some('K'),
            Piece::BlackKing => Some('k'),
            Piece::NoPiece => None,
        }
    }

    /// The FEN letter of the piece, none for no piece.
    pub fn to_char(self) -> (r: Option<char>)
        ensures
            r == self.to_char_spec(),
    {
        match self {
            Piece::WhitePawn => Some('P'),
            Piece::BlackPawn => Some('p'),
            Piece::WhiteKnight => Some('N'),
            Piece::BlackKnight => Some('n'),
            Piece::WhiteBishop => Some('B'),
            Piece::BlackBishop => Some('b'),
            Piece::WhiteRook => Some('R'),
            Piece::BlackRook => Some('r'),
            Piece::WhiteQueen => Some('Q'),
            Piece::BlackQueen => Some('q'),
            Piece::WhiteKing => Some('K'),
            Piece::BlackKing => Some('k'),
            Piece::NoPiece => None,
        }
    }
}

impl PieceType {
    pub const NUM: usize = 6;

    /// Index of the kind: pawn 0 .. king 5, 6 for no kind.
    pub open spec fn idx(self) -> int {
        match self {
            PieceType::Pawn => 0,
            PieceType::Knight => 1,
            PieceType::Bishop => 2,
            PieceType::Rook => 3,
            PieceType::Queen => 4,
            PieceType::King => 5,
            PieceType::NoType => 6,
        }
    }

    /// Index of the kind.
    pub fn index(self) -> (i: usize)
        ensures
            i == self.idx(),
    {
        match self {
            PieceType::Pawn => 0,
            PieceType::Knight => 1,
            PieceType::Bishop => 2,
            PieceType::Rook => 3,
            PieceType::Queen => 4,
            PieceType::King => 5,
            PieceType::NoType => 6,
        }
    }

    /// The kind with index `value` (6: no kind).
    pub fn new(value: usize) -> (t: PieceType)
        requires
            value <= 6,
        ensures
            t.idx() == value,
            t == type_of_index(value as int),
    {
        if value == 0 {
            PieceType::Pawn
        } else if value == 1 {
            PieceType::Knight
        } else if value == 2 {
            PieceType::Bishop
        } else if value == 3 {
            PieceType::Rook
        } else if value == 4 {
            PieceType::Queen
        } else if value == 5 {
            PieceType::King
        } else {
            PieceType::NoType
        }
    }

    /// Material value of the kind, in centipawns (kings and no kind: 0).
    pub fn value(self) -> (v: i32)
        ensures
            v == type_value(self.idx()),
    {
        match self {
            PieceType::Pawn => 100,
            PieceType::Knight => 300,
            PieceType::Bishop => 400,
            PieceType::Rook => 600,
            PieceType::Queen => 1100,
            PieceType::King => 0,
            PieceType::NoType => 0,
        }
    }
}

/// A piece's kind and color give back the piece.
pub proof fn lemma_piece_parts(p: Piece)
    ensures
        p != Piece::NoPiece ==> 0 <= p.type_idx() < 6 && 0 <= p.color_idx() < 2,
        p.idx() == 2 * p.type_idx() + p.color_idx() || p == Piece::NoPiece,
        piece_of_index(p.idx()) == p,
{
}

} // verus!
