use vstd::prelude::*;
use crate::board::Board;
use crate::types::piece::Piece;
use crate::types::square::Square;

verus! {

/// The line drawn above, between and below the ranks.
pub open spec fn border_text() -> Seq<char> {
    "+---+---+---+---+---+---+---+---+\n"@
}

/// The file letters under the board.
pub open spec fn files_text() -> Seq<char> {
    "  a   b   c   d   e   f   g   h\n"@
}

/// The letter drawn for a piece; a blank for an empty square.
pub open spec fn piece_symbol(p: Piece) -> char {
    match p.to_char_spec() {
        Some(c) => c,
        None => ' ',
    }
}

/// One square of a rank: the piece's letter between blanks, then a bar.
pub open spec fn cell_text(p: Piece) -> Seq<char> {
    seq![' ', piece_symbol(p), ' ', '|']
}

/// The first `n` squares of rank `rank`, from file a on.
pub open spec fn cells_text(s: Seq<Piece>, rank: int, n: int) -> Seq<char>
    decreases n,
{
    if n <= 0 {
        Seq::empty()
    } else {
        cells_text(s, rank, n - 1) + cell_text(s[8 * rank + n - 1])
    }
}

/// Rank `rank` drawn: a bar, its squares, its number, and a border line.
pub open spec fn rank_text(s: Seq<Piece>, rank: int) -> Seq<char> {
    seq!['|'] + cells_text(s, rank, 8) + seq![' ', (49 + rank) as char, '\n'] + border_text()
}

/// The top `n` ranks drawn, from rank 8 down.
pub open spec fn ranks_text(s: Seq<Piece>, n: int) -> Seq<char>
    decreases n,
{
    if n <= 0 {
        Seq::empty()
    } else {
        ranks_text(s, n - 1) + rank_text(s, 8 - n)
    }
}

/// The board drawn as text, white at the bottom, with file letters and rank numbers.
pub open spec fn board_text(s: Seq<Piece>) -> Seq<char> {
    border_text() + ranks_text(s, 8) + files_text()
}

/// Appends one square: the piece's letter (or a blank) between blanks, then a bar.
fn append_cell(out: &mut String, p: Piece)
    ensures
        final(out)@ == old(out)@ + cell_text(p),
{
    proof {
        reveal_strlit(" P |");
        reveal_strlit(" p |");
        reveal_strlit(" N |");
        reveal_strlit(" n |");
        reveal_strlit(" B |");
        reveal_strlit(" b |");
        reveal_strlit(" R |");
        reveal_strlit(" r |");
        reveal_strlit(" Q |");
        reveal_strlit(" q |");
        reveal_strlit(" K |");
        reveal_strlit(" k |");
        reveal_strlit("   |");
    }
    let text = match p {
        Piece::WhitePawn => " P |",
        Piece::BlackPawn => " p |",
        Piece::WhiteKnight => " N |",
        Piece::BlackKnight => " n |",
        Piece::WhiteBishop => " B |",
        Piece::BlackBishop => " b |",
        Piece::WhiteRook => " R |",
        Piece::BlackRook => " r |",
        Piece::WhiteQueen => " Q |",
        Piece::BlackQueen => " q |",
        Piece::WhiteKing => " K |",
        Piece::BlackKing => " k |",
        Piece::NoPiece => "   |",
    };
    out.append(text);
    assert(final(out)@ =~= old(out)@ + cell_text(p));
}

/// Appends the number of rank `rank` (0 for the first) after a blank, and a line break.
fn append_rank_number(out: &mut String, rank: u8)
    requires
        rank < 8,
    ensures
        final(out)@ == old(out)@ + seq![' ', (49 + rank) as char, '\n'],
{
    proof {
        reveal_strlit(" 1\n");
        reveal_strlit(" 2\n");
        reveal_strlit(" 3\n");
        reveal_strlit(" 4\n");
        reveal_strlit(" 5\n");
        reveal_strlit(" 6\n");
        reveal_strlit(" 7\n");
        reveal_strlit(" 8\n");
    }
    let text = if rank == 0 {
        " 1\n"
    } else if rank == 1 {
        " 2\n"
    } else if rank == 2 {
        " 3\n"
    } else if rank == 3 {
        " 4\n"
    } else if rank == 4 {
        " 5\n"
    } else if rank == 5 {
        " 6\n"
    } else if rank == 6 {
        " 7\n"
    } else {
        " 8\n"
    };
    out.append(text);
    assert(final(out)@ =~= old(out)@ + seq![' ', (49 + rank) as char, '\n']);
}

impl Board {
    /// The board drawn as text: eight ranks of bordered squares, rank 8 at the top, each with
    /// its number, and the file letters underneath.
    pub fn to_text(&self) -> (s: String)
        ensures
            s@ == board_text(self.squares()),
    {
        let mut out = String::from_str("+---+---+---+---+---+---+---+---+\n");
        let mut n: u8 = 0;
        while n < 8
            invariant
                n <= 8,
                out@ == border_text() + ranks_text(self.squares(), n as int),
            decreases 8 - n,
        {
            let rank: u8 = 7 - n;
            let ghost before = out@;
            proof {
                reveal_strlit("|");
            }
            out.append("|");
            let mut file: u8 = 0;
            while file < 8
                invariant
                    file <= 8,
                    rank < 8,
                    out@ == before + seq!['|'] + cells_text(self.squares(), rank as int, file as int),
                decreases 8 - file,
            {
                let p = self.get_piece_on_square(Square::get_board_square(rank, file));
                append_cell(&mut out, p);
                file = file + 1;
            }
            append_rank_number(&mut out, rank);
            out.append("+---+---+---+---+---+---+---+---+\n");
            assert(out@ =~= border_text() + ranks_text(self.squares(), n + 1));
            n = n + 1;
        }
        out.append("  a   b   c   d   e   f   g   h\n");
        out
    }
}

} // verus!
