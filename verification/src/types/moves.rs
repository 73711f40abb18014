use vstd::prelude::*;
use crate::types::piece::PieceType;
use crate::types::square::{Square, file_of, rank_of};
use crate::board::Board;

verus! {

/// The name of a square in coordinate notation, such as `e4`.
pub open spec fn square_text(s: int) -> Seq<char> {
    seq![(97 + file_of(s)) as char, (49 + rank_of(s)) as char]
}

/// The letter that names a promotion kind in coordinate notation (knight to queen).
pub open spec fn promotion_text(kind: int) -> Seq<char> {
    if kind == 1 {
        seq!['n']
    } else if kind == 2 {
        seq!['b']
    } else if kind == 3 {
        seq!['r']
    } else {
        seq!['q']
    }
}

/// A move in coordinate notation: origin, destination and the promotion letter.
pub open spec fn uci_text(m: Move) -> Seq<char> {
    let base = square_text(m.from_idx()) + square_text(m.to_idx());
    if m.spec_is_promotion() {
        base + promotion_text(m.spec_promotion_type())
    } else {
        base
    }
}

/// Appends the file letter (`a` to `h`) or the rank digit (`1` to `8`) numbered `i`.
fn append_coordinate(out: &mut String, i: u8, files: bool)
    requires
        i < 8,
    ensures
        final(out)@ == old(out)@ + seq![(if files { 97 + i } else { 49 + i }) as char],
{
    proof {
        reveal_strlit("a");
        reveal_strlit("b");
        reveal_strlit("c");
        reveal_strlit("d");
        reveal_strlit("e");
        reveal_strlit("f");
        reveal_strlit("g");
        reveal_strlit("h");
        reveal_strlit("1");
        reveal_strlit("2");
        reveal_strlit("3");
        reveal_strlit("4");
        reveal_strlit("5");
        reveal_strlit("6");
        reveal_strlit("7");
        reveal_strlit("8");
    }
    let text = if files {
        if i == 0 { "a" } else if i == 1 { "b" } else if i == 2 { "c" } else if i == 3 { "d" }
        else if i == 4 { "e" } else if i == 5 { "f" } else if i == 6 { "g" } else { "h" }
    } else {
        if i == 0 { "1" } else if i == 1 { "2" } else if i == 2 { "3" } else if i == 3 { "4" }
        else if i == 4 { "5" } else if i == 5 { "6" } else if i == 6 { "7" } else { "8" }
    };
    out.append(text);
}

/// Appends the name of a square.
fn append_square(out: &mut String, sq: Square)
    requires
        sq.valid(),
    ensures
        final(out)@ == old(out)@ + square_text(sq.0 as int),
{
    append_coordinate(out, sq.0 % 8, true);
    append_coordinate(out, sq.0 / 8, false);
    assert(final(out)@ =~= old(out)@ + square_text(sq.0 as int));
}

/// A move packed in 16 bits: origin (bits 0-5), destination (bits 6-11), flag (bits 12-15).
#[derive(Clone, Copy, PartialEq, Eq, Structural, Debug)]
pub struct Move(pub u16);

/// What kind of move a move is; the value is the 4-bit code stored in the move.
#[derive(Clone, Copy, PartialEq, Eq, Structural, Debug)]
pub enum MoveFlag {
    Quiet,
    DoublePush,
    CastleKingside,
    CastleQueenside,
    Capture,
    EnPassant,
    PromoKnight,
    PromoBishop,
    PromoRook,
    PromoQueen,
    PromoCaptureKnight,
    PromoCaptureBishop,
    PromoCaptureRook,
    PromoCaptureQueen,
}

impl MoveFlag {
    /// The 4-bit code of the flag: bit 2 marks captures, bit 3 promotions.
    pub open spec fn code(self) -> int {
        match self {
            MoveFlag::Quiet => 0,
            MoveFlag::DoublePush => 1,
            MoveFlag::CastleKingside => 2,
            MoveFlag::CastleQueenside => 3,
            MoveFlag::Capture => 4,
            MoveFlag::EnPassant => 5,
            MoveFlag::PromoKnight => 8,
            MoveFlag::PromoBishop => 9,
            MoveFlag::PromoRook => 10,
            MoveFlag::PromoQueen => 11,
            MoveFlag::PromoCaptureKnight => 12,
            MoveFlag::PromoCaptureBishop => 13,
            MoveFlag::PromoCaptureRook => 14,
            MoveFlag::PromoCaptureQueen => 15,
        }
    }

    /// The code of the flag.
    pub fn bits(self) -> (c: u16)
        ensures
            c == self.code(),
    {
        match self {
            MoveFlag::Quiet => 0,
            MoveFlag::DoublePush => 1,
            MoveFlag::CastleKingside => 2,
            MoveFlag::CastleQueenside => 3,
            MoveFlag::Capture => 4,
            MoveFlag::EnPassant => 5,
            MoveFlag::PromoKnight => 8,
            MoveFlag::PromoBishop => 9,
            MoveFlag::PromoRook => 10,
            MoveFlag::PromoQueen => 11,
            MoveFlag::PromoCaptureKnight => 12,
            MoveFlag::PromoCaptureBishop => 13,
            MoveFlag::PromoCaptureRook => 14,
            MoveFlag::PromoCaptureQueen => 15,
        }
    }
}

/// Whether a 4-bit code names a flag (6 and 7 do not).
pub open spec fn valid_code(c: int) -> bool {
    0 <= c < 16 && c != 6 && c != 7
}

/// The flag of a valid code.
pub open spec fn flag_of_code(c: int) -> MoveFlag {
    if c == 0 {
        MoveFlag::Quiet
    } else if c == 1 {
        MoveFlag::DoublePush
    } else if c == 2 {
        MoveFlag::CastleKingside
    } else if c == 3 {
        MoveFlag::CastleQueenside
    } else if c == 4 {
        MoveFlag::Capture
    } else if c == 5 {
        MoveFlag::EnPassant
    } else if c == 8 {
        MoveFlag::PromoKnight
    } else if c == 9 {
        MoveFlag::PromoBishop
    } else if c == 10 {
        MoveFlag::PromoRook
    } else if c == 11 {
        MoveFlag::PromoQueen
    } else if c == 12 {
        MoveFlag::PromoCaptureKnight
    } else if c == 13 {
        MoveFlag::PromoCaptureBishop
    } else if c == 14 {
        MoveFlag::PromoCaptureRook
    } else {
        MoveFlag::PromoCaptureQueen
    }
}

proof fn lemma_fields(x: u16)
    ensures
        x & 0x3Fu16 == x % 64,
        (x >> 6u16) & 0x3Fu16 == (x / 64) % 64,
        (x >> 12u16) & 0xFu16 == x / 4096,
        ((x >> 12u16) & 0b0100u16 != 0) == ((x / 4096) % 8 >= 4),
        ((x >> 12u16) & 0b1000u16 != 0) == (x / 4096 >= 8),
{
    assert(x & 0x3Fu16 == x % 64 && (x >> 6u16) & 0x3Fu16 == (x / 64) % 64 && (x >> 12u16) & 0xFu16
        == x / 4096 && ((x >> 12u16) & 0b0100u16 != 0) == ((x / 4096) % 8 >= 4) && ((x >> 12u16)
        & 0b1000u16 != 0) == (x / 4096 >= 8)) by (bit_vector);
}

impl Move {
    /// Origin square index.
    pub open spec fn from_idx(self) -> int {
        (self.0 % 64) as int
    }

    /// Destination square index.
    pub open spec fn to_idx(self) -> int {
        ((self.0 / 64) % 64) as int
    }

    /// The 4-bit flag code.
    pub open spec fn code(self) -> int {
        (self.0 / 4096) as int
    }

    /// Whether the code names a flag.
    pub open spec fn well_formed(self) -> bool {
        valid_code(self.code())
    }

    /// The flag of a well-formed move.
    pub open spec fn spec_flag(self) -> MoveFlag {
        flag_of_code(self.code())
    }

    pub open spec fn spec_is_capture(self) -> bool {
        self.code() % 8 >= 4
    }

    pub open spec fn spec_is_promotion(self) -> bool {
        self.code() >= 8
    }

    pub open spec fn spec_is_castling(self) -> bool {
        self.code() == 2 || self.code() == 3
    }

    pub open spec fn spec_is_en_passant(self) -> bool {
        self.code() == 5
    }

    /// Kind a promotion promotes to: knight, bishop, rook, queen for codes ending in 0..3.
    pub open spec fn spec_promotion_type(self) -> int {
        self.code() % 4 + 1
    }

    /// The empty move.
    pub fn none() -> (m: Move)
        ensures
            m.0 == 0,
    {
        Move(0)
    }

    /// The move from `from` to `to` with `flag`.
    pub fn new(from: Square, to: Square, flag: MoveFlag) -> (m: Move)
        requires
            from.valid(),
            to.valid(),
        ensures
            m.0 == from.0 + 64 * to.0 + 4096 * flag.code(),
            m.from_idx() == from.0,
            m.to_idx() == to.0,
            m.code() == flag.code(),
            m.well_formed(),
            m.spec_flag() == flag,
    {
        let f = from.0 as u16;
        let t = to.0 as u16;
        let c = flag.bits();
        assert(f < 64 && t < 64 && c < 16 ==> f | (t << 6u16) | (c << 12u16) == f + 64 * t + 4096
            * c) by (bit_vector);
        Move(f | (t << 6) | (c << 12))
    }

    /// The origin square.
    pub fn from(self) -> (s: Square)
        ensures
            s.0 == self.from_idx(),
            s.valid(),
    {
        proof {
            lemma_fields(self.0);
        }
        Square((self.0 & 0x3F) as u8)
    }

    /// The destination square.
    pub fn to(self) -> (s: Square)
        ensures
            s.0 == self.to_idx(),
            s.valid(),
    {
        proof {
            lemma_fields(self.0);
        }
        Square(((self.0 >> 6) & 0x3F) as u8)
    }

    /// The flag of the move.
    pub fn flag(self) -> (f: MoveFlag)
        requires
            self.well_formed(),
        ensures
            f == self.spec_flag(),
            f.code() == self.code(),
    {
        proof {
            lemma_fields(self.0);
        }
        let c = (self.0 >> 12) & 0xF;
        if c == 0 {
            MoveFlag::Quiet
        } else if c == 1 {
            MoveFlag::DoublePush
        } else if c == 2 {
            MoveFlag::CastleKingside
        } else if c == 3 {
            MoveFlag::CastleQueenside
        } else if c == 4 {
            MoveFlag::Capture
        } else if c == 5 {
            MoveFlag::EnPassant
        } else if c == 8 {
            MoveFlag::PromoKnight
        } else if c == 9 {
            MoveFlag::PromoBishop
        } else if c == 10 {
            MoveFlag::PromoRook
        } else if c == 11 {
            MoveFlag::PromoQueen
        } else if c == 12 {
            MoveFlag::PromoCaptureKnight
        } else if c == 13 {
            MoveFlag::PromoCaptureBishop
        } else if c == 14 {
            MoveFlag::PromoCaptureRook
        } else {
            MoveFlag::PromoCaptureQueen
        }
    }

    /// Whether this is the empty move.
    pub fn is_none(self) -> (b: bool)
        ensures
            b == (self.0 == 0),
    {
        self.0 == 0
    }

    /// Whether the move captures (bit 2 of the flag: captures, en passant, capture-promotions).
    pub fn is_capture(self) -> (b: bool)
        ensures
            b == self.spec_is_capture(),
    {
        proof {
            lemma_fields(self.0);
        }
        (self.0 >> 12) & 0b0100 != 0
    }

    /// Whether the move promotes (bit 3 of the flag).
    pub fn is_promotion(self) -> (b: bool)
        ensures
            b == self.spec_is_promotion(),
    {
        proof {
            lemma_fields(self.0);
        }
        (self.0 >> 12) & 0b1000 != 0
    }

    /// Whether the move castles, on either side.
    pub fn is_castling(self) -> (b: bool)
        ensures
            b == self.spec_is_castling(),
    {
        proof {
            lemma_fields(self.0);
        }
        let c = (self.0 >> 12) & 0xF;
        c == 2 || c == 3
    }

    /// Whether the move captures en passant.
    pub fn is_en_passant(self) -> (b: bool)
        ensures
            b == self.spec_is_en_passant(),
    {
        proof {
            lemma_fields(self.0);
        }
        (self.0 >> 12) & 0xF == 5
    }

    /// The kind a promotion promotes to.
    pub fn promotion_piece_type(self) -> (t: PieceType)
        requires
            self.spec_is_promotion(),
        ensures
            t.idx() == self.spec_promotion_type(),
            t != PieceType::NoType,
            t != PieceType::Pawn,
            t != PieceType::King,
    {
        proof {
            lemma_fields(self.0);
        }
        let c = ((self.0 >> 12) & 0xF) as usize;
        PieceType::new(c % 4 + 1)
    }
}

/// Packing a move and reading it back gives its parts.
pub proof fn lemma_move_roundtrip(from: Square, to: Square, flag: MoveFlag)
    requires
        from.valid(),
        to.valid(),
    ensures
        ({
            let m = Move((from.0 + 64 * to.0 + 4096 * flag.code()) as u16);
            &&& m.from_idx() == from.0
            &&& m.to_idx() == to.0
            &&& m.spec_flag() == flag
            &&& m.well_formed()
        }),
{
}

impl Move {
    /// The move in coordinate notation (`e2e4`, `e7e8q`); the board is not consulted.
    pub fn to_uci(self, _board: &Board) -> (s: String)
        ensures
            s@ == uci_text(self),
    {
        let mut output = String::new();
        append_square(&mut output, self.from());
        append_square(&mut output, self.to());
        if self.is_promotion() {
            proof {
                reveal_strlit("n");
                reveal_strlit("b");
                reveal_strlit("r");
                reveal_strlit("q");
            }
            let kind = self.promotion_piece_type();
            match kind {
                PieceType::Knight => output.append("n"),
                PieceType::Bishop => output.append("b"),
                PieceType::Rook => output.append("r"),
                _ => output.append("q"),
            }
        }
        assert(output@ =~= uci_text(self));
        output
    }
}

} // verus!
