use vstd::prelude::*;
use crate::types::bitboard::Bitboard;

verus! {

/// Row of a square index (0 = first rank).
pub open spec fn rank_of(s: int) -> int {
    s / 8
}

/// Column of a square index (0 = a-file).
pub open spec fn file_of(s: int) -> int {
    s % 8
}

/// The square index of a rank and a file.
pub open spec fn square_at(rank: int, file: int) -> int {
    rank * 8 + file
}

/// Whether a rank and a file lie on the board.
pub open spec fn on_board(rank: int, file: int) -> bool {
    0 <= rank < 8 && 0 <= file < 8
}

/// The square that two ASCII bytes such as `e3` name, if they name one.
pub open spec fn name_square(t: Seq<u8>) -> Option<int> {
    if t.len() == 2 && 97 <= t[0] <= 104 && 49 <= t[1] <= 56 {
        Some(square_at(t[1] - 49, t[0] - 97))
    } else {
        None
    }
}

/// A square of the board, 0 = a1 .. 63 = h8, rank-major; 64 stands for "no square".
#[derive(Clone, Copy, PartialEq, Eq, Structural, Debug)]
pub struct Square(pub u8);

impl Square {
    pub const NUM: usize = 64;

    /// Whether this is a square of the board (not the "no square" marker).
    pub open spec fn valid(self) -> bool {
        self.0 < 64
    }

    /// The "no square" marker.
    pub fn none() -> (s: Square)
        ensures
            s.0 == 64,
    {
        Square(64)
    }

    /// The square with index `v` (64 gives the "no square" marker).
    pub fn new(v: u8) -> (s: Square)
        requires
            v <= 64,
        ensures
            s.0 == v,
    {
        Square(v)
    }

    /// The square on `rank` and `file`.
    pub fn get_board_square(rank: u8, file: u8) -> (s: Square)
        requires
            rank < 8,
            file < 8,
        ensures
            s.0 == square_at(rank as int, file as int),
            rank_of(s.0 as int) == rank,
            file_of(s.0 as int) == file,
    {
        Square(rank * 8 + file)
    }

    /// The row of the square.
    pub fn get_rank(self) -> (r: u8)
        requires
            self.valid(),
        ensures
            r == rank_of(self.0 as int),
            r < 8,
    {
        self.0 / 8
    }

    /// The column of the square.
    pub fn get_file(self) -> (f: u8)
        requires
            self.valid(),
        ensures
            f == file_of(self.0 as int),
            f < 8,
    {
        self.0 % 8
    }

    /// The square `delta` indices away (8 is one rank up, -8 one rank down).
    pub fn shift(self, delta: i8) -> (s: Square)
        requires
            0 <= self.0 + delta < 64,
        ensures
            s.0 == self.0 + delta,
    {
        Square((self.0 as i16 + delta as i16) as u8)
    }

    /// The square mirrored across the middle of the board: same file, rank `7 - rank`.
    pub fn flip_rank(self) -> (s: Square)
        requires
            self.valid(),
        ensures
            s.valid(),
            rank_of(s.0 as int) == 7 - rank_of(self.0 as int),
            file_of(s.0 as int) == file_of(self.0 as int),
    {
        let v = self.0;
        assert(v < 64 ==> (v ^ 56u8) == (7 - v / 8) * 8 + v % 8) by (bit_vector);
        Square(self.0 ^ 56)
    }

    /// The set holding only this square.
    pub fn to_bitboard(self) -> (b: Bitboard)
        requires
            self.valid(),
        ensures
            b.0 == 1u64 << (self.0 as u64),
    {
        Bitboard(1u64 << (self.0 as u64))
    }

    /// The square named by two ASCII bytes such as `e3`, if they name one.
    pub fn from_name(name: &[u8]) -> (r: Option<Square>)
        ensures
            r is Some <==> (name@.len() == 2 && 97 <= name@[0] <= 104 && 49 <= name@[1] <= 56),
            r matches Some(s) ==> s.0 == square_at(name@[1] - 49, name@[0] - 97),
    {
        if name.len() != 2 {
            return None;
        }
        let f = name[0];
        let r = name[1];
        if 97 <= f && f <= 104 && 49 <= r && r <= 56 {
            Some(Square((r - 49) * 8 + (f - 97)))
        } else {
            None
        }
    }

    /// The square named by the bytes `bytes[lo..hi]`, if they name one.
    pub fn from_name_in(bytes: &[u8], lo: usize, hi: usize) -> (r: Option<Square>)
        requires
            lo <= hi <= bytes@.len(),
        ensures
            match r {
                Some(s) => name_square(bytes@.subrange(lo as int, hi as int)) == Some(s.0 as int) && s.valid(),
                None => name_square(bytes@.subrange(lo as int, hi as int)) is None,
            },
    {
        if hi - lo != 2 {
            return None;
        }
        let f = bytes[lo];
        let r = bytes[lo + 1];
        if 97 <= f && f <= 104 && 49 <= r && r <= 56 {
            Some(Square((r - 49) * 8 + (f - 97)))
        } else {
            None
        }
    }

    /// The letter naming the file of the square.
    pub fn file_char(self) -> (c: char)
        requires
            self.valid(),
        ensures
            c as int == 97 + file_of(self.0 as int),
    {
        let f = self.0 % 8;
        if f == 0 {
            'a'
        } else if f == 1 {
            'b'
        } else if f == 2 {
            'c'
        } else if f == 3 {
            'd'
        } else if f == 4 {
            'e'
        } else if f == 5 {
            'f'
        } else if f == 6 {
            'g'
        } else {
            'h'
        }
    }

    /// The digit naming the rank of the square.
    pub fn rank_char(self) -> (c: char)
        requires
            self.valid(),
        ensures
            c as int == 49 + rank_of(self.0 as int),
    {
        let r = self.0 / 8;
        if r == 0 {
            '1'
        } else if r == 1 {
            '2'
        } else if r == 2 {
            '3'
        } else if r == 3 {
            '4'
        } else if r == 4 {
            '5'
        } else if r == 5 {
            '6'
        } else if r == 6 {
            '7'
        } else {
            '8'
        }
    }
}

} // verus!
