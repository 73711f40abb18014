use vstd::prelude::*;
use crate::board::Board;
use crate::types::bitboard::popcount;
use crate::types::color::Color;
use crate::types::piece::{PieceType, type_value};

verus! {

impl Board {
    /// The material of color `c` counted over the first `n` kinds of piece.
    pub open spec fn side_material(self, c: int, n: int) -> int
        decreases n,
    {
        if n <= 0 {
            0
        } else {
            self.side_material(c, n - 1) + popcount(self.colored(c, n - 1)) * type_value(n - 1)
        }
    }

    /// The classical evaluation: white's material minus black's, from the side to move's view.
    pub open spec fn material_eval(self) -> int {
        let diff = self.side_material(0, 6) - self.side_material(1, 6);
        if self.stm() == 0 {
            diff
        } else {
            -diff
        }
    }

    /// Piece counts times piece values, white minus black, seen from the side to move.
    pub fn evaluate(&self) -> (score: i32)
        ensures
            score == self.material_eval(),
            -422400 <= score <= 422400,
    {
        let mut white: i32 = 0;
        let mut black: i32 = 0;
        let mut k: usize = 0;
        while k < 6
            invariant
                k <= 6,
                white == self.side_material(0, k as int),
                black == self.side_material(1, k as int),
                0 <= white <= 70400 * (k as int),
                0 <= black <= 70400 * (k as int),
            decreases 6 - k,
        {
            let piece_type = PieceType::new(k);
            let w = self.colored_pieces(Color::White, piece_type).popcount();
            let b = self.colored_pieces(Color::Black, piece_type).popcount();
            proof {
                crate::types::bitboard::lemma_popcount_bound(self.colored(0, k as int));
                crate::types::bitboard::lemma_popcount_bound(self.colored(1, k as int));
            }
            let v = piece_type.value();
            let wi = w as i32;
            let bi = b as i32;
            assert(0 <= wi * v <= 64 * 1100) by (nonlinear_arith)
                requires
                    0 <= wi <= 64,
                    0 <= v <= 1100,
            ;
            assert(0 <= bi * v <= 64 * 1100) by (nonlinear_arith)
                requires
                    0 <= bi <= 64,
                    0 <= v <= 1100,
            ;
            white = white + wi * v;
            black = black + bi * v;
            k = k + 1;
        }
        let score = white - black;
        if self.side_to_move() == Color::White {
            score
        } else {
            -score
        }
    }
}

} // verus!
