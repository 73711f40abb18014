use vstd::prelude::*;
use vstd::std_specs::bits::{u64_trailing_zeros, axiom_u64_trailing_zeros};
use crate::types::square::Square;

verus! {

/// Whether bit `i` of the word `b` is set (only indices 0..64 exist).
pub open spec fn bit(b: u64, i: int) -> bool {
    0 <= i < 64 && (b >> (i as u64)) & 1u64 == 1u64
}

/// Number of set bits of `x`.
pub open spec fn popcount(x: u64) -> nat
    decreases x,
{
    if x == 0 {
        0
    } else {
        (x % 2) as nat + popcount(x / 2)
    }
}

pub broadcast proof fn lemma_bit_or(a: u64, b: u64, i: int)
    ensures
        #[trigger] bit(a | b, i) == (bit(a, i) || bit(b, i)),
{
    if 0 <= i < 64 {
        let j = i as u64;
        assert(((a | b) >> j) & 1u64 == 1u64 <==> ((a >> j) & 1u64 == 1u64 || (b >> j) & 1u64
            == 1u64)) by (bit_vector);
    }
}

pub broadcast proof fn lemma_bit_and(a: u64, b: u64, i: int)
    ensures
        #[trigger] bit(a & b, i) == (bit(a, i) && bit(b, i)),
{
    if 0 <= i < 64 {
        let j = i as u64;
        assert(((a & b) >> j) & 1u64 == 1u64 <==> ((a >> j) & 1u64 == 1u64 && (b >> j) & 1u64
            == 1u64)) by (bit_vector);
    }
}

pub broadcast proof fn lemma_bit_xor(a: u64, b: u64, i: int)
    ensures
        #[trigger] bit(a ^ b, i) == (bit(a, i) != bit(b, i)),
{
    if 0 <= i < 64 {
        let j = i as u64;
        assert(((a ^ b) >> j) & 1u64 == 1u64 <==> ((a >> j) & 1u64 == 1u64) != ((b >> j) & 1u64
            == 1u64)) by (bit_vector);
    }
}

pub broadcast proof fn lemma_bit_not(a: u64, i: int)
    ensures
        #[trigger] bit(!a, i) == (0 <= i < 64 && !bit(a, i)),
{
    if 0 <= i < 64 {
        let j = i as u64;
        assert(j < 64 ==> (((!a) >> j) & 1u64 == 1u64 <==> !((a >> j) & 1u64 == 1u64)))
            by (bit_vector);
    }
}

pub broadcast proof fn lemma_bit_single(s: u64, i: int)
    requires
        s < 64,
    ensures
        #[trigger] bit(1u64 << s, i) == (i == s),
{
    if 0 <= i < 64 {
        let j = i as u64;
        assert(s < 64 ==> (((1u64 << s) >> j) & 1u64 == 1u64 <==> j == s)) by (bit_vector);
    }
}

pub broadcast proof fn lemma_bit_zero(i: int)
    ensures
        !#[trigger] bit(0u64, i),
{
    if 0 <= i < 64 {
        let j = i as u64;
        assert((0u64 >> j) & 1u64 == 0u64) by (bit_vector);
    }
}

pub broadcast group group_bits {
    lemma_bit_or,
    lemma_bit_and,
    lemma_bit_xor,
    lemma_bit_not,
    lemma_bit_single,
    lemma_bit_zero,
}

/// Two words with the same 64 bits are the same word.
pub proof fn lemma_bits_ext(a: u64, b: u64)
    requires
        forall|i: int| 0 <= i < 64 ==> #[trigger] bit(a, i) == bit(b, i),
    ensures
        a == b,
{
    assert(bit(a, 0) == bit(b, 0));
    assert(bit(a, 1) == bit(b, 1));
    assert(bit(a, 2) == bit(b, 2));
    assert(bit(a, 3) == bit(b, 3));
    assert(bit(a, 4) == bit(b, 4));
    assert(bit(a, 5) == bit(b, 5));
    assert(bit(a, 6) == bit(b, 6));
    assert(bit(a, 7) == bit(b, 7));
    assert(bit(a, 8) == bit(b, 8));
    assert(bit(a, 9) == bit(b, 9));
    assert(bit(a, 10) == bit(b, 10));
    assert(bit(a, 11) == bit(b, 11));
    assert(bit(a, 12) == bit(b, 12));
    assert(bit(a, 13) == bit(b, 13));
    assert(bit(a, 14) == bit(b, 14));
    assert(bit(a, 15) == bit(b, 15));
    assert(bit(a, 16) == bit(b, 16));
    assert(bit(a, 17) == bit(b, 17));
    assert(bit(a, 18) == bit(b, 18));
    assert(bit(a, 19) == bit(b, 19));
    assert(bit(a, 20) == bit(b, 20));
    assert(bit(a, 21) == bit(b, 21));
    assert(bit(a, 22) == bit(b, 22));
    assert(bit(a, 23) == bit(b, 23));
    assert(bit(a, 24) == bit(b, 24));
    assert(bit(a, 25) == bit(b, 25));
    assert(bit(a, 26) == bit(b, 26));
    assert(bit(a, 27) == bit(b, 27));
    assert(bit(a, 28) == bit(b, 28));
    assert(bit(a, 29) == bit(b, 29));
    assert(bit(a, 30) == bit(b, 30));
    assert(bit(a, 31) == bit(b, 31));
    assert(bit(a, 32) == bit(b, 32));
    assert(bit(a, 33) == bit(b, 33));
    assert(bit(a, 34) == bit(b, 34));
    assert(bit(a, 35) == bit(b, 35));
    assert(bit(a, 36) == bit(b, 36));
    assert(bit(a, 37) == bit(b, 37));
    assert(bit(a, 38) == bit(b, 38));
    assert(bit(a, 39) == bit(b, 39));
    assert(bit(a, 40) == bit(b, 40));
    assert(bit(a, 41) == bit(b, 41));
    assert(bit(a, 42) == bit(b, 42));
    assert(bit(a, 43) == bit(b, 43));
    assert(bit(a, 44) == bit(b, 44));
    assert(bit(a, 45) == bit(b, 45));
    assert(bit(a, 46) == bit(b, 46));
    assert(bit(a, 47) == bit(b, 47));
    assert(bit(a, 48) == bit(b, 48));
    assert(bit(a, 49) == bit(b, 49));
    assert(bit(a, 50) == bit(b, 50));
    assert(bit(a, 51) == bit(b, 51));
    assert(bit(a, 52) == bit(b, 52));
    assert(bit(a, 53) == bit(b, 53));
    assert(bit(a, 54) == bit(b, 54));
    assert(bit(a, 55) == bit(b, 55));
    assert(bit(a, 56) == bit(b, 56));
    assert(bit(a, 57) == bit(b, 57));
    assert(bit(a, 58) == bit(b, 58));
    assert(bit(a, 59) == bit(b, 59));
    assert(bit(a, 60) == bit(b, 60));
    assert(bit(a, 61) == bit(b, 61));
    assert(bit(a, 62) == bit(b, 62));
    assert(bit(a, 63) == bit(b, 63));
    assert(a == b) by (bit_vector)
        requires
            (((a >> 0u64) & 1u64 == 1u64) == ((b >> 0u64) & 1u64 == 1u64)) &&
            (((a >> 1u64) & 1u64 == 1u64) == ((b >> 1u64) & 1u64 == 1u64)) &&
            (((a >> 2u64) & 1u64 == 1u64) == ((b >> 2u64) & 1u64 == 1u64)) &&
            (((a >> 3u64) & 1u64 == 1u64) == ((b >> 3u64) & 1u64 == 1u64)) &&
            (((a >> 4u64) & 1u64 == 1u64) == ((b >> 4u64) & 1u64 == 1u64)) &&
            (((a >> 5u64) & 1u64 == 1u64) == ((b >> 5u64) & 1u64 == 1u64)) &&
            (((a >> 6u64) & 1u64 == 1u64) == ((b >> 6u64) & 1u64 == 1u64)) &&
            (((a >> 7u64) & 1u64 == 1u64) == ((b >> 7u64) & 1u64 == 1u64)) &&
            (((a >> 8u64) & 1u64 == 1u64) == ((b >> 8u64) & 1u64 == 1u64)) &&
            (((a >> 9u64) & 1u64 == 1u64) == ((b >> 9u64) & 1u64 == 1u64)) &&
            (((a >> 10u64) & 1u64 == 1u64) == ((b >> 10u64) & 1u64 == 1u64)) &&
            (((a >> 11u64) & 1u64 == 1u64) == ((b >> 11u64) & 1u64 == 1u64)) &&
            (((a >> 12u64) & 1u64 == 1u64) == ((b >> 12u64) & 1u64 == 1u64)) &&
            (((a >> 13u64) & 1u64 == 1u64) == ((b >> 13u64) & 1u64 == 1u64)) &&
            (((a >> 14u64) & 1u64 == 1u64) == ((b >> 14u64) & 1u64 == 1u64)) &&
            (((a >> 15u64) & 1u64 == 1u64) == ((b >> 15u64) & 1u64 == 1u64)) &&
            (((a >> 16u64) & 1u64 == 1u64) == ((b >> 16u64) & 1u64 == 1u64)) &&
            (((a >> 17u64) & 1u64 == 1u64) == ((b >> 17u64) & 1u64 == 1u64)) &&
            (((a >> 18u64) & 1u64 == 1u64) == ((b >> 18u64) & 1u64 == 1u64)) &&
            (((a >> 19u64) & 1u64 == 1u64) == ((b >> 19u64) & 1u64 == 1u64)) &&
            (((a >> 20u64) & 1u64 == 1u64) == ((b >> 20u64) & 1u64 == 1u64)) &&
            (((a >> 21u64) & 1u64 == 1u64) == ((b >> 21u64) & 1u64 == 1u64)) &&
            (((a >> 22u64) & 1u64 == 1u64) == ((b >> 22u64) & 1u64 == 1u64)) &&
            (((a >> 23u64) & 1u64 == 1u64) == ((b >> 23u64) & 1u64 == 1u64)) &&
            (((a >> 24u64) & 1u64 == 1u64) == ((b >> 24u64) & 1u64 == 1u64)) &&
            (((a >> 25u64) & 1u64 == 1u64) == ((b >> 25u64) & 1u64 == 1u64)) &&
            (((a >> 26u64) & 1u64 == 1u64) == ((b >> 26u64) & 1u64 == 1u64)) &&
            (((a >> 27u64) & 1u64 == 1u64) == ((b >> 27u64) & 1u64 == 1u64)) &&
            (((a >> 28u64) & 1u64 == 1u64) == ((b >> 28u64) & 1u64 == 1u64)) &&
            (((a >> 29u64) & 1u64 == 1u64) == ((b >> 29u64) & 1u64 == 1u64)) &&
            (((a >> 30u64) & 1u64 == 1u64) == ((b >> 30u64) & 1u64 == 1u64)) &&
            (((a >> 31u64) & 1u64 == 1u64) == ((b >> 31u64) & 1u64 == 1u64)) &&
            (((a >> 32u64) & 1u64 == 1u64) == ((b >> 32u64) & 1u64 == 1u64)) &&
            (((a >> 33u64) & 1u64 == 1u64) == ((b >> 33u64) & 1u64 == 1u64)) &&
            (((a >> 34u64) & 1u64 == 1u64) == ((b >> 34u64) & 1u64 == 1u64)) &&
            (((a >> 35u64) & 1u64 == 1u64) == ((b >> 35u64) & 1u64 == 1u64)) &&
            (((a >> 36u64) & 1u64 == 1u64) == ((b >> 36u64) & 1u64 == 1u64)) &&
            (((a >> 37u64) & 1u64 == 1u64) == ((b >> 37u64) & 1u64 == 1u64)) &&
            (((a >> 38u64) & 1u64 == 1u64) == ((b >> 38u64) & 1u64 == 1u64)) &&
            (((a >> 39u64) & 1u64 == 1u64) == ((b >> 39u64) & 1u64 == 1u64)) &&
            (((a >> 40u64) & 1u64 == 1u64) == ((b >> 40u64) & 1u64 == 1u64)) &&
            (((a >> 41u64) & 1u64 == 1u64) == ((b >> 41u64) & 1u64 == 1u64)) &&
            (((a >> 42u64) & 1u64 == 1u64) == ((b >> 42u64) & 1u64 == 1u64)) &&
            (((a >> 43u64) & 1u64 == 1u64) == ((b >> 43u64) & 1u64 == 1u64)) &&
            (((a >> 44u64) & 1u64 == 1u64) == ((b >> 44u64) & 1u64 == 1u64)) &&
            (((a >> 45u64) & 1u64 == 1u64) == ((b >> 45u64) & 1u64 == 1u64)) &&
            (((a >> 46u64) & 1u64 == 1u64) == ((b >> 46u64) & 1u64 == 1u64)) &&
            (((a >> 47u64) & 1u64 == 1u64) == ((b >> 47u64) & 1u64 == 1u64)) &&
            (((a >> 48u64) & 1u64 == 1u64) == ((b >> 48u64) & 1u64 == 1u64)) &&
            (((a >> 49u64) & 1u64 == 1u64) == ((b >> 49u64) & 1u64 == 1u64)) &&
            (((a >> 50u64) & 1u64 == 1u64) == ((b >> 50u64) & 1u64 == 1u64)) &&
            (((a >> 51u64) & 1u64 == 1u64) == ((b >> 51u64) & 1u64 == 1u64)) &&
            (((a >> 52u64) & 1u64 == 1u64) == ((b >> 52u64) & 1u64 == 1u64)) &&
            (((a >> 53u64) & 1u64 == 1u64) == ((b >> 53u64) & 1u64 == 1u64)) &&
            (((a >> 54u64) & 1u64 == 1u64) == ((b >> 54u64) & 1u64 == 1u64)) &&
            (((a >> 55u64) & 1u64 == 1u64) == ((b >> 55u64) & 1u64 == 1u64)) &&
            (((a >> 56u64) & 1u64 == 1u64) == ((b >> 56u64) & 1u64 == 1u64)) &&
            (((a >> 57u64) & 1u64 == 1u64) == ((b >> 57u64) & 1u64 == 1u64)) &&
            (((a >> 58u64) & 1u64 == 1u64) == ((b >> 58u64) & 1u64 == 1u64)) &&
            (((a >> 59u64) & 1u64 == 1u64) == ((b >> 59u64) & 1u64 == 1u64)) &&
            (((a >> 60u64) & 1u64 == 1u64) == ((b >> 60u64) & 1u64 == 1u64)) &&
            (((a >> 61u64) & 1u64 == 1u64) == ((b >> 61u64) & 1u64 == 1u64)) &&
            (((a >> 62u64) & 1u64 == 1u64) == ((b >> 62u64) & 1u64 == 1u64)) &&
            (((a >> 63u64) & 1u64 == 1u64) == ((b >> 63u64) & 1u64 == 1u64));
}

/// Bit `i` of a mask of the `s` lowest bits.
pub proof fn lemma_bit_low_mask(s: u64, i: int)
    requires
        s < 64,
    ensures
        bit(((1u64 << s) - 1) as u64, i) == (0 <= i < s),
{
    if 0 <= i < 64 {
        let j = i as u64;
        assert(s < 64 ==> ((((1u64 << s) - 1) as u64 >> j) & 1u64 == 1u64 <==> j < s))
            by (bit_vector);
    }
}

/// Facts about the lowest set bit of a nonzero word, and clearing it with `x & (x - 1)`.
pub proof fn lemma_lowest_bit(x: u64)
    requires
        x != 0,
    ensures
        u64_trailing_zeros(x) < 64,
        bit(x, u64_trailing_zeros(x) as int),
        forall|i: int| 0 <= i < u64_trailing_zeros(x) ==> !#[trigger] bit(x, i),
        forall|i: int|
            #[trigger] bit(x & ((x - 1) as u64), i) == (bit(x, i) && i != u64_trailing_zeros(x)),
{
    broadcast use group_bits;
    axiom_u64_trailing_zeros(x);
    let s = u64_trailing_zeros(x) as u64;
    assert forall|i: int| 0 <= i < s implies !#[trigger] bit(x, i) by {
        let j = i as u64;
        assert((x >> j) & 1u64 == 0u64);
    }
    let low = x & ((1u64 << s) - 1) as u64;
    assert forall|i: int| 0 <= i < 64 implies #[trigger] bit(low, i) == bit(0u64, i) by {
        lemma_bit_low_mask(s, i);
    }
    lemma_bits_ext(low, 0u64);
    assert(x & ((x - 1) as u64) == x ^ (1u64 << s)) by (bit_vector)
        requires
            s < 64,
            (x >> s) & 1u64 == 1u64,
            x & ((1u64 << s) - 1) as u64 == 0u64,
    ;
}

/// Shifting right by one halves; the low bit is the parity.
pub proof fn lemma_shr1(v: u64)
    ensures
        v >> 1u64 == v / 2,
        v & 1u64 == v % 2,
{
    assert(v >> 1u64 == v / 2 && v & 1u64 == v % 2) by (bit_vector);
}

/// At most 64 bits are set.
pub proof fn lemma_popcount_bound(x: u64)
    ensures
        popcount(x) <= 64,
{
    lemma_popcount_bound_rec(x, 64);
}

proof fn lemma_popcount_bound_rec(x: u64, n: nat)
    requires
        n <= 64,
        n < 64 ==> x < (1u64 << n),
    ensures
        popcount(x) <= n,
    decreases n,
{
    if n == 0 {
        assert(x < (1u64 << 0u64));
        assert((1u64 << 0u64) == 1u64) by (bit_vector);
    } else {
        let m = (n - 1) as nat;
        let mm = m as u64;
        assert(mm < 64 ==> (x / 2 < (1u64 << mm) || (mm + 1 < 64 && !(x < (1u64 << (mm + 1)))) || (mm + 1 == 64 && false)))
            by (bit_vector);
        lemma_popcount_bound_rec(x / 2, m);
    }
}

/// Clearing the lowest set bit removes exactly one from the count.
pub proof fn lemma_popcount_clear_lowest(x: u64)
    requires
        x != 0,
    ensures
        popcount(x & ((x - 1) as u64)) == popcount(x) - 1,
    decreases x,
{
    assert((x % 2 == 1 ==> x & ((x - 1) as u64) == (x - 1) as u64) && ((x != 0 && x % 2 == 0)
        ==> ((x & ((x - 1) as u64)) / 2 == (x / 2) & ((x / 2 - 1) as u64) && (x & ((x
        - 1) as u64)) % 2 == 0 && x / 2 != 0))) by (bit_vector);
    if x % 2 == 1 {
        assert(((x - 1) as u64) / 2 == x / 2);
        assert(popcount((x - 1) as u64) == popcount(x / 2)) by {
            if x - 1 != 0 {
            }
        }
    } else {
        lemma_popcount_clear_lowest(x / 2);
    }
}

/// A word has no set bit exactly when it is zero.
pub proof fn lemma_popcount_zero(x: u64)
    ensures
        (popcount(x) == 0) == (x == 0),
    decreases x,
{
    if x != 0 {
        if x % 2 == 0 {
            lemma_popcount_zero(x / 2);
        }
    }
}

/// A word with one set bit has the lowest of its bits set and no other.
pub proof fn lemma_popcount_one(x: u64)
    requires
        popcount(x) == 1,
    ensures
        u64_trailing_zeros(x) < 64,
        bit(x, u64_trailing_zeros(x) as int),
        forall|u: int| 0 <= u < 64 && u != u64_trailing_zeros(x) ==> !#[trigger] bit(x, u),
{
    lemma_popcount_zero(x);
    lemma_lowest_bit(x);
    lemma_popcount_clear_lowest(x);
    let y = x & ((x - 1) as u64);
    lemma_popcount_zero(y);
    assert forall|u: int| 0 <= u < 64 && u != u64_trailing_zeros(x) implies !#[trigger] bit(x, u) by {
        assert(bit(y, u) == (bit(x, u) && u != u64_trailing_zeros(x)));
        assert(!bit(0u64, u)) by {
            lemma_bit_zero(u);
        }
    }
}

/// A word whose only set bit is `p` has one set bit.
pub proof fn lemma_single_popcount(x: u64, p: int)
    requires
        bit(x, p),
        forall|u: int| 0 <= u < 64 && u != p ==> !#[trigger] bit(x, u),
    ensures
        popcount(x) == 1,
{
    lemma_lowest_bit(x);
    lemma_popcount_clear_lowest(x);
    let y = x & ((x - 1) as u64);
    assert(u64_trailing_zeros(x) == p);
    assert forall|i: int| 0 <= i < 64 implies #[trigger] bit(y, i) == bit(0u64, i) by {
        lemma_bit_zero(i);
    }
    lemma_bits_ext(y, 0u64);
    lemma_popcount_zero(y);
}

/// A set of squares, one bit per square.
#[derive(Clone, Copy, PartialEq, Eq, Structural, Debug)]
pub struct Bitboard(pub u64);

/// The a-file.
pub const FILE_A: u64 = 0x0101_0101_0101_0101u64;

impl Bitboard {
    /// Every square.
    pub fn all() -> (b: Bitboard)
        ensures
            b.0 == u64::MAX,
    {
        Bitboard(u64::MAX)
    }

    /// The squares of file `f` (0 = a-file).
    pub fn file(f: u8) -> (b: Bitboard)
        requires
            f < 8,
        ensures
            b.0 == FILE_A << (f as u64),
    {
        Bitboard(FILE_A << (f as u64))
    }

    /// Whether `sq` is in the set.
    pub fn contains(self, sq: Square) -> (b: bool)
        requires
            sq.0 < 64,
        ensures
            b == bit(self.0, sq.0 as int),
    {
        (self.0 >> sq.0) & 1 == 1
    }

    /// Adds `sq` to the set.
    pub fn set(&mut self, sq: Square)
        requires
            sq.0 < 64,
        ensures
            final(self).0 == old(self).0 | (1u64 << (sq.0 as u64)),
    {
        self.0 = self.0 | (1u64 << (sq.0 as u64));
    }

    /// Removes `sq` from the set.
    pub fn clear(&mut self, sq: Square)
        requires
            sq.0 < 64,
        ensures
            final(self).0 == old(self).0 & !(1u64 << (sq.0 as u64)),
    {
        self.0 = self.0 & !(1u64 << (sq.0 as u64));
    }

    /// Whether the set is empty.
    pub fn is_empty(self) -> (b: bool)
        ensures
            b == (self.0 == 0),
    {
        self.0 == 0
    }

    /// Whether the set has a square.
    pub fn not_empty(self) -> (b: bool)
        ensures
            b == (self.0 != 0),
    {
        self.0 != 0
    }

    /// Whether the set holds two squares or more.
    pub fn is_multiple(self) -> (b: bool)
        ensures
            b == (popcount(self.0) >= 2),
    {
        proof {
            if self.0 != 0 {
                lemma_popcount_clear_lowest(self.0);
                lemma_popcount_zero((self.0 & ((self.0 - 1) as u64)) as u64);
            } else {
                lemma_popcount_zero(self.0);
            }
        }
        self.0 != 0 && self.0 & (self.0 - 1) != 0
    }

    /// The lowest square of the set, or the "no square" marker for the empty set.
    pub fn lsb(self) -> (s: Square)
        ensures
            s.0 == u64_trailing_zeros(self.0),
            self.0 == 0 ==> s.0 == 64,
            self.0 != 0 ==> s.0 < 64 && bit(self.0, s.0 as int) && forall|i: int|
                0 <= i < s.0 ==> !#[trigger] bit(self.0, i),
    {
        proof {
            axiom_u64_trailing_zeros(self.0);
            if self.0 != 0 {
                lemma_lowest_bit(self.0);
            }
        }
        Square(self.0.trailing_zeros() as u8)
    }

    /// Removes and returns the lowest square of a nonempty set.
    pub fn pop_lsb(&mut self) -> (s: Square)
        requires
            old(self).0 != 0,
        ensures
            s.0 == u64_trailing_zeros(old(self).0),
            s.0 < 64,
            bit(old(self).0, s.0 as int),
            forall|i: int| 0 <= i < s.0 ==> !#[trigger] bit(old(self).0, i),
            final(self).0 == old(self).0 & ((old(self).0 - 1) as u64),
            forall|i: int| #[trigger] bit(final(self).0, i) == (bit(old(self).0, i) && i != s.0),
            popcount(final(self).0) == popcount(old(self).0) - 1,
    {
        proof {
            lemma_lowest_bit(self.0);
            lemma_popcount_clear_lowest(self.0);
        }
        let s = self.lsb();
        self.0 = self.0 & (self.0 - 1);
        s
    }

    /// Number of squares in the set.
    pub fn popcount(self) -> (n: u32)
        ensures
            n == popcount(self.0),
    {
        let mut v = self.0;
        let mut n: u32 = 0;
        proof {
            lemma_popcount_bound(self.0);
        }
        while v != 0
            invariant
                n + popcount(v) == popcount(self.0),
                popcount(self.0) <= 64,
            decreases v,
        {
            proof {
                lemma_shr1(v);
            }
            n = n + (v & 1) as u32;
            v = v >> 1;
        }
        n
    }
}

} // verus!
