use vstd::prelude::*;
use crate::types::color::Color;
use crate::types::moves::MoveFlag;
use crate::types::square::Square;
use crate::types::ascii_bytes;
use vstd::string::StringSliceAdditionalSpecFns;

verus! {

/// The four castling rights; the value of each is one bit of a rights set.
#[derive(Clone, Copy, PartialEq, Eq, Structural, Debug)]
pub enum CastlingDirections {
    WhiteKingside,
    WhiteQueenside,
    BlackKingside,
    BlackQueenside,
}

impl CastlingDirections {
    /// The bit of the right in a rights set.
    pub open spec fn spec_bit(self) -> u8 {
        match self {
            CastlingDirections::WhiteKingside => 1,
            CastlingDirections::WhiteQueenside => 2,
            CastlingDirections::BlackKingside => 4,
            CastlingDirections::BlackQueenside => 8,
        }
    }

    /// The bit of the right in a rights set.
    pub fn bit(self) -> (b: u8)
        ensures
            b == self.spec_bit(),
    {
        match self {
            CastlingDirections::WhiteKingside => 1,
            CastlingDirections::WhiteQueenside => 2,
            CastlingDirections::BlackKingside => 4,
            CastlingDirections::BlackQueenside => 8,
        }
    }

    /// The square the king lands on when castling this way.
    pub fn king_square(self) -> (s: Square)
        ensures
            s.0 == match self {
                CastlingDirections::WhiteKingside => 6u8,
                CastlingDirections::WhiteQueenside => 2,
                CastlingDirections::BlackKingside => 62,
                CastlingDirections::BlackQueenside => 58,
            },
    {
        match self {
            CastlingDirections::WhiteKingside => Square(6),
            CastlingDirections::WhiteQueenside => Square(2),
            CastlingDirections::BlackKingside => Square(62),
            CastlingDirections::BlackQueenside => Square(58),
        }
    }
}

/// Where the rook of a castling move starts and lands.
pub open spec fn spec_rook_squares(color: Color, kingside: bool) -> (int, int) {
    match (color, kingside) {
        (Color::White, true) => (7, 5),
        (Color::White, false) => (0, 3),
        (Color::Black, true) => (63, 61),
        (Color::Black, false) => (56, 59),
    }
}

/// The rook's origin and destination for a castling move of `color`.
pub fn castling_rook_squares(color: Color, flag: MoveFlag) -> (r: (Square, Square))
    requires
        flag == MoveFlag::CastleKingside || flag == MoveFlag::CastleQueenside,
    ensures
        (r.0.0 as int, r.1.0 as int) == spec_rook_squares(color, flag == MoveFlag::CastleKingside),
{
    match (color, flag) {
        (Color::White, MoveFlag::CastleKingside) => (Square(7), Square(5)),
        (Color::White, _) => (Square(0), Square(3)),
        (Color::Black, MoveFlag::CastleKingside) => (Square(63), Square(61)),
        (Color::Black, _) => (Square(56), Square(59)),
    }
}

/// The rights that survive a move touching square `sq`: moving the king or a rook, or
/// capturing on a rook's corner, loses the matching rights.
pub open spec fn spec_rights_mask(sq: int) -> u8 {
    if sq == 4 {
        0b1100
    } else if sq == 0 {
        0b1101
    } else if sq == 7 {
        0b1110
    } else if sq == 60 {
        0b0011
    } else if sq == 56 {
        0b0111
    } else if sq == 63 {
        0b1011
    } else {
        0b1111
    }
}

/// The rights that survive a move touching square `sq`.
pub fn castling_rights(sq: Square) -> (m: u8)
    ensures
        m == spec_rights_mask(sq.0 as int),
{
    if sq.0 == 4 {
        0b1100
    } else if sq.0 == 0 {
        0b1101
    } else if sq.0 == 7 {
        0b1110
    } else if sq.0 == 60 {
        0b0011
    } else if sq.0 == 56 {
        0b0111
    } else if sq.0 == 63 {
        0b1011
    } else {
        0b1111
    }
}

/// The FEN letter of each right, in FEN order: `K`, `Q`, `k`, `q`.
pub open spec fn rights_text(raw: u8) -> Seq<char> {
    if raw == 0 {
        seq!['-']
    } else {
        (if raw & 1 != 0 { seq!['K'] } else { seq![] }) + (if raw & 2 != 0 { seq!['Q'] } else { seq![] })
            + (if raw & 4 != 0 { seq!['k'] } else { seq![] }) + (if raw & 8 != 0 { seq!['q'] } else { seq![] })
    }
}

/// The right that a FEN byte grants, 0 for `-`.
pub open spec fn byte_right(b: u8) -> u8 {
    if b == 75 {
        1
    } else if b == 81 {
        2
    } else if b == 107 {
        4
    } else if b == 113 {
        8
    } else {
        0
    }
}

/// Whether a byte may stand in the castling field of a FEN: `KQkq-`.
pub open spec fn castling_byte(b: u8) -> bool {
    b == 75 || b == 81 || b == 107 || b == 113 || b == 45
}

/// The rights granted by a castling field.
pub open spec fn rights_of(s: Seq<u8>) -> u8
    decreases s.len(),
{
    if s.len() == 0 {
        0
    } else {
        rights_of(s.drop_last()) | byte_right(s.last())
    }
}

/// The set of castling rights still held, one bit per right.
#[derive(Clone, Copy, PartialEq, Eq, Structural, Debug)]
pub struct Castling {
    pub raw: u8,
}

impl Castling {
    /// The set as a number.
    pub fn raw(self) -> (r: u8)
        ensures
            r == self.raw,
    {
        self.raw
    }

    /// Whether the right `kind` is held.
    pub fn is_allowed(self, kind: CastlingDirections) -> (b: bool)
        ensures
            b == (self.raw & kind.spec_bit() != 0),
    {
        (self.raw & kind.bit()) != 0
    }

    /// Grants the right `kind`.
    pub fn add(&mut self, kind: CastlingDirections)
        ensures
            final(self).raw == old(self).raw | kind.spec_bit(),
    {
        self.raw = self.raw | kind.bit();
    }

    /// The rights in FEN notation: `-` when none is held.
    pub fn to_string(self) -> (s: String)
        ensures
            s@ == rights_text(self.raw),
    {
        proof {
            reveal_strlit("-");
            reveal_strlit("K");
            reveal_strlit("Q");
            reveal_strlit("k");
            reveal_strlit("q");
        }
        if self.raw == 0 {
            return String::from_str("-");
        }
        let mut result = String::new();
        if self.is_allowed(CastlingDirections::WhiteKingside) {
            result.append("K");
        }
        if self.is_allowed(CastlingDirections::WhiteQueenside) {
            result.append("Q");
        }
        if self.is_allowed(CastlingDirections::BlackKingside) {
            result.append("k");
        }
        if self.is_allowed(CastlingDirections::BlackQueenside) {
            result.append("q");
        }
        assert(result@ =~= rights_text(self.raw));
        result
    }

    /// The rights given by a FEN castling field; the first byte that is not one of `KQkq-`
    /// is the error.
    pub fn try_from_str(value: &str) -> (r: Result<Castling, u8>)
        ensures
            r == rights_result(value.spec_bytes()),
    {
        let bytes = value.as_bytes();
        let r = Self::parse_rights(bytes, 0, bytes.len());
        assert(bytes@.subrange(0, bytes@.len() as int) =~= bytes@);
        r
    }

    /// The rights given by the castling field held in `bytes[lo..hi]`.
    pub fn parse_rights(bytes: &[u8], lo: usize, hi: usize) -> (r: Result<Castling, u8>)
        requires
            lo <= hi <= bytes@.len(),
        ensures
            r == rights_result(bytes@.subrange(lo as int, hi as int)),
    {
        let ghost field = bytes@.subrange(lo as int, hi as int);
        let mut castling = Castling { raw: 0 };
        let mut i: usize = lo;
        while i < hi
            invariant
                lo <= i <= hi <= bytes@.len(),
                field == bytes@.subrange(lo as int, hi as int),
                forall|j: int| lo <= j < i ==> castling_byte(#[trigger] bytes@[j]),
                castling.raw == rights_of(bytes@.subrange(lo as int, i as int)),
            decreases hi - i,
        {
            let b = bytes[i];
            assert(bytes@.subrange(lo as int, i as int + 1).drop_last() =~= bytes@.subrange(
                lo as int,
                i as int,
            ));
            if b == 81 {
                castling.add(CastlingDirections::WhiteQueenside);
            } else if b == 75 {
                castling.add(CastlingDirections::WhiteKingside);
            } else if b == 113 {
                castling.add(CastlingDirections::BlackQueenside);
            } else if b == 107 {
                castling.add(CastlingDirections::BlackKingside);
            } else if b == 45 {
                assert(castling.raw | 0u8 == castling.raw) by (bit_vector);
            } else {
                proof {
                    lemma_first_bad_skip(field, i - lo);
                }
                return Err(b);
            }
            i = i + 1;
        }
        proof {
            lemma_first_bad_skip(field, field.len() as int);
            assert(bytes@.subrange(lo as int, hi as int) =~= field);
        }
        Ok(castling)
    }
}

/// The first byte of `s` that may not stand in a castling field, if any.
pub open spec fn first_bad(s: Seq<u8>) -> Option<u8>
    decreases s.len(),
{
    if s.len() == 0 {
        None
    } else if !castling_byte(s[0]) {
        Some(s[0])
    } else {
        first_bad(s.drop_first())
    }
}

/// What reading a castling field gives: its rights, or its first stray byte.
pub open spec fn rights_result(s: Seq<u8>) -> Result<Castling, u8> {
    match first_bad(s) {
        Some(b) => Err(b),
        None => Ok(Castling { raw: rights_of(s) }),
    }
}

/// Reading back the FEN text of a set of rights gives the same rights.
pub proof fn lemma_rights_text_roundtrip(c: Castling)
    requires
        c.raw < 16,
    ensures
        rights_result(ascii_bytes(rights_text(c.raw))) == Ok::<Castling, u8>(c),
{
    let raw = c.raw;
    let t = ascii_bytes(rights_text(raw));
    let k: Seq<u8> = if raw & 1 != 0 { seq![75u8] } else { seq![] };
    let q: Seq<u8> = if raw & 2 != 0 { seq![81u8] } else { seq![] };
    let kb: Seq<u8> = if raw & 4 != 0 { seq![107u8] } else { seq![] };
    let qb: Seq<u8> = if raw & 8 != 0 { seq![113u8] } else { seq![] };
    if raw == 0 {
        assert(t =~= seq![45u8]);
        lemma_rights_one(t);
        assert(byte_right(45u8) == 0);
        assert(rights_of(t) == 0);
        assert(first_bad(t) is None);
    } else {
        assert(t =~= k + q + kb + qb);
        lemma_rights_append(k, q);
        lemma_rights_append(k + q, kb);
        lemma_rights_append(k + q + kb, qb);
        lemma_first_bad_append(k, q);
        lemma_first_bad_append(k + q, kb);
        lemma_first_bad_append(k + q + kb, qb);
        lemma_rights_one(k);
        lemma_rights_one(q);
        lemma_rights_one(kb);
        lemma_rights_one(qb);
        assert((raw & 1 != 0 ==> raw & 1 == 1) && (raw & 2 != 0 ==> raw & 2 == 2) && (raw & 4 != 0
            ==> raw & 4 == 4) && (raw & 8 != 0 ==> raw & 8 == 8)) by (bit_vector);
        assert(raw < 16 ==> raw == (raw & 1) | (raw & 2) | (raw & 4) | (raw & 8)) by (bit_vector);
        assert(rights_of(t) == raw) by {
            let a = raw & 1;
            let b = raw & 2;
            let d = raw & 4;
            let e = raw & 8;
            assert(0u8 | a == a) by (bit_vector);
            assert(rights_of(k) == a);
            assert(rights_of(q) == b);
            assert(rights_of(kb) == d);
            assert(rights_of(qb) == e);
        }
        assert(first_bad(t) is None);
    }
    assert(rights_result(t) == Ok::<Castling, u8>(Castling { raw: rights_of(t) }));
}

/// The rights of two castling fields written one after the other.
proof fn lemma_rights_append(a: Seq<u8>, b: Seq<u8>)
    ensures
        rights_of(a + b) == rights_of(a) | rights_of(b),
    decreases b.len(),
{
    if b.len() == 0 {
        assert(a + b =~= a);
        let x = rights_of(a);
        assert(x | 0u8 == x) by (bit_vector);
    } else {
        lemma_rights_append(a, b.drop_last());
        assert((a + b).drop_last() =~= a + b.drop_last());
        let x = rights_of(a);
        let y = rights_of(b.drop_last());
        let z = byte_right(b.last());
        assert((x | y) | z == x | (y | z)) by (bit_vector);
    }
}

/// A stray byte of two fields written one after the other is one of either.
proof fn lemma_first_bad_append(a: Seq<u8>, b: Seq<u8>)
    ensures
        first_bad(a) is None && first_bad(b) is None ==> first_bad(a + b) is None,
    decreases a.len(),
{
    if a.len() == 0 {
        assert(a + b =~= b);
    } else {
        lemma_first_bad_append(a.drop_first(), b);
        assert((a + b).drop_first() =~= a.drop_first() + b);
    }
}

/// The rights of a field of at most one right letter.
proof fn lemma_rights_one(a: Seq<u8>)
    requires
        a.len() <= 1,
        a.len() == 1 ==> castling_byte(a[0]),
    ensures
        rights_of(a) == if a.len() == 0 { 0 } else { byte_right(a[0]) },
        first_bad(a) is None,
{
    if a.len() == 1 {
        assert(a.drop_last() =~= Seq::<u8>::empty());
        assert(a.drop_first() =~= Seq::<u8>::empty());
        assert(rights_of(a.drop_last()) == 0);
        assert(first_bad(a.drop_first()) is None);
        assert(a.last() == a[0]);
        let x = byte_right(a[0]);
        assert(0u8 | x == x) by (bit_vector);
        assert(rights_of(a) == rights_of(a.drop_last()) | byte_right(a.last()));
    }
}

/// The rights read from a castling field fit in four bits.
pub proof fn lemma_rights_small(s: Seq<u8>)
    ensures
        rights_of(s) < 16,
    decreases s.len(),
{
    if s.len() > 0 {
        lemma_rights_small(s.drop_last());
        let a = rights_of(s.drop_last());
        let b = byte_right(s.last());
        assert(a < 16 && (b == 0 || b == 1 || b == 2 || b == 4 || b == 8) ==> a | b < 16) by (bit_vector);
    }
}

/// When the first `i` bytes are allowed, the first stray byte lies in the rest.
proof fn lemma_first_bad_skip(s: Seq<u8>, i: int)
    requires
        0 <= i <= s.len(),
        forall|j: int| 0 <= j < i ==> castling_byte(#[trigger] s[j]),
    ensures
        first_bad(s) == first_bad(s.subrange(i, s.len() as int)),
    decreases i,
{
    if i > 0 {
        assert(castling_byte(s[0]));
        let t = s.drop_first();
        assert forall|j: int| 0 <= j < i - 1 implies castling_byte(#[trigger] t[j]) by {
            assert(t[j] == s[j + 1]);
        }
        lemma_first_bad_skip(t, i - 1);
        assert(t.subrange(i - 1, t.len() as int) =~= s.subrange(i, s.len() as int));
    } else {
        assert(s.subrange(0, s.len() as int) =~= s);
    }
}

} // verus!
