use vstd::prelude::*;
use crate::types::moves::Move;

verus! {

/// Ages wrap at this value.
pub const AGE_CYCLE: u8 = 32;

/// Mask keeping an age inside its cycle.
pub const AGE_MASK: u8 = 31;

/// Entries sharing one slot of the table.
pub const CLUSTER_SIZE: usize = 3;

/// Bytes a cluster occupies in memory (three 8-byte entries, aligned to 32).
pub const CLUSTER_BYTES: usize = 32;

/// What a stored score says about the true score.
#[derive(Clone, Copy, PartialEq, Eq, Structural, Debug)]
pub enum Bound {
    /// The slot is empty.
    NoBound,
    Exact,
    /// Fail-high: the true score is at least the stored one.
    Lower,
    /// Fail-low: the true score is at most the stored one.
    Upper,
}

impl Bound {
    /// The 2-bit code of the bound.
    pub open spec fn code(self) -> int {
        match self {
            Bound::NoBound => 0,
            Bound::Exact => 1,
            Bound::Lower => 2,
            Bound::Upper => 3,
        }
    }

    /// The 2-bit code of the bound.
    pub fn bits(self) -> (c: u8)
        ensures
            c == self.code(),
    {
        match self {
            Bound::NoBound => 0,
            Bound::Exact => 1,
            Bound::Lower => 2,
            Bound::Upper => 3,
        }
    }
}

/// The bound with a 2-bit code.
pub open spec fn bound_of_code(c: int) -> Bound {
    if c == 0 {
        Bound::NoBound
    } else if c == 1 {
        Bound::Exact
    } else if c == 2 {
        Bound::Lower
    } else {
        Bound::Upper
    }
}

/// Bound (bits 0-1), principal-variation mark (bit 2) and age (bits 3-7) of an entry.
#[derive(Clone, Copy, PartialEq, Eq, Structural, Debug)]
pub struct Flags {
    pub data: u8,
}

proof fn lemma_flag_fields(x: u8)
    ensures
        x & 0b11u8 == x % 4,
        (x & 4u8 != 0) == ((x / 4) % 2 == 1),
        x >> 3u8 == x / 8,
{
    assert(x & 0b11u8 == x % 4 && (x & 4u8 != 0) == ((x / 4) % 2 == 1) && x >> 3u8 == x / 8)
        by (bit_vector);
}

impl Flags {
    pub open spec fn spec_bound(self) -> Bound {
        bound_of_code(self.data as int % 4)
    }

    pub open spec fn spec_tt_pv(self) -> bool {
        (self.data / 4) % 2 == 1
    }

    pub open spec fn spec_age(self) -> u8 {
        self.data / 8
    }

    /// Packs a bound, a principal-variation mark and an age.
    pub fn new(bound: Bound, tt_pv: bool, age: u8) -> (f: Flags)
        requires
            age <= AGE_MASK,
        ensures
            f.data == bound.code() + (if tt_pv { 4int } else { 0int }) + 8 * age,
            f.spec_bound() == bound,
            f.spec_tt_pv() == tt_pv,
            f.spec_age() == age,
    {
        let b = bound.bits();
        let p: u8 = if tt_pv { 1 } else { 0 };
        assert(b < 4 && p < 2 && age < 32 ==> b | (p << 2u8) | (age << 3u8) == b + 4 * p + 8 * age)
            by (bit_vector);
        Flags { data: b | (p << 2) | (age << 3) }
    }

    /// The flags of an empty slot.
    pub fn empty() -> (f: Flags)
        ensures
            f.data == 0,
    {
        Flags::new(Bound::NoBound, false, 0)
    }

    /// The bound.
    pub fn bound(self) -> (b: Bound)
        ensures
            b == self.spec_bound(),
    {
        proof {
            lemma_flag_fields(self.data);
        }
        let c = self.data & 0b11;
        if c == 0 {
            Bound::NoBound
        } else if c == 1 {
            Bound::Exact
        } else if c == 2 {
            Bound::Lower
        } else {
            Bound::Upper
        }
    }

    /// Whether the entry was on a principal variation.
    pub fn tt_pv(self) -> (b: bool)
        ensures
            b == self.spec_tt_pv(),
    {
        proof {
            lemma_flag_fields(self.data);
        }
        (self.data & 4) != 0
    }

    /// The search generation the entry was written in.
    pub fn age(self) -> (a: u8)
        ensures
            a == self.spec_age(),
    {
        proof {
            lemma_flag_fields(self.data);
        }
        self.data >> 3
    }
}

/// Verification key of an entry word (bits 0-15).
pub open spec fn word_verify(w: u64) -> u16 {
    w as u16
}

/// Best move of an entry word (bits 16-31).
pub open spec fn word_move(w: u64) -> u16 {
    (w >> 16u64) as u16
}

/// Score of an entry word (bits 32-47).
pub open spec fn word_score(w: u64) -> i16 {
    ((w >> 32u64) as u16) as i16
}

/// Depth of an entry word (bits 48-55).
pub open spec fn word_depth(w: u64) -> u8 {
    (w >> 48u64) as u8
}

/// Flags of an entry word (bits 56-63).
pub open spec fn word_flags(w: u64) -> u8 {
    (w >> 56u64) as u8
}

/// The word holding the given fields.
pub open spec fn pack_word(verify: u16, mv: u16, score: i16, depth: u8, flags: u8) -> u64 {
    (verify as u64) | ((mv as u64) << 16u64) | (((score as u16) as u64) << 32u64) | ((depth as u64)
        << 48u64) | ((flags as u64) << 56u64)
}

/// Reading the fields of a packed word gives them back.
pub proof fn lemma_pack_word(verify: u16, mv: u16, score: i16, depth: u8, flags: u8)
    ensures
        word_verify(pack_word(verify, mv, score, depth, flags)) == verify,
        word_move(pack_word(verify, mv, score, depth, flags)) == mv,
        word_score(pack_word(verify, mv, score, depth, flags)) == score,
        word_depth(pack_word(verify, mv, score, depth, flags)) == depth,
        word_flags(pack_word(verify, mv, score, depth, flags)) == flags,
        (pack_word(verify, mv, score, depth, flags) == 0) == (verify == 0 && mv == 0 && score == 0
            && depth == 0 && flags == 0),
{
    let w = (verify as u64) | ((mv as u64) << 16u64) | (((score as u16) as u64) << 32u64) | ((
    depth as u64) << 48u64) | ((flags as u64) << 56u64);
    assert(w as u16 == verify && (w >> 16u64) as u16 == mv && ((w >> 32u64) as u16) as i16 == score
        && (w >> 48u64) as u8 == depth && (w >> 56u64) as u8 == flags && ((w == 0) == (verify == 0
        && mv == 0 && score == 0 && depth == 0 && flags == 0))) by (bit_vector)
        requires
            w == (verify as u64) | ((mv as u64) << 16u64) | (((score as u16) as u64) << 32u64) | ((
            depth as u64) << 48u64) | ((flags as u64) << 56u64),
    ;
}

/// One stored search result, exactly 8 bytes.
#[derive(Clone, Copy, PartialEq, Eq, Structural, Debug)]
pub struct TTEntry {
    pub verify: u16,
    pub mv: Move,
    pub score: i16,
    pub depth: u8,
    pub flags: Flags,
}

impl TTEntry {
    /// The word holding this entry.
    pub open spec fn word(self) -> u64 {
        pack_word(self.verify, self.mv.0, self.score, self.depth, self.flags.data)
    }

    /// An entry written in generation `age`, not marked as principal variation.
    pub fn new(verification: u16, mv: Move, score: i16, depth: u8, bound: Bound, age: u8) -> (e:
        TTEntry)
        requires
            age <= AGE_MASK,
        ensures
            e.verify == verification,
            e.mv == mv,
            e.score == score,
            e.depth == depth,
            e.flags.spec_bound() == bound,
            !e.flags.spec_tt_pv(),
            e.flags.spec_age() == age,
    {
        TTEntry { verify: verification, mv, score, depth, flags: Flags::new(bound, false, age) }
    }

    /// The entry of an empty slot.
    pub fn empty() -> (e: TTEntry)
        ensures
            e.word() == 0,
    {
        proof {
            lemma_pack_word(0, 0, 0, 0, 0);
        }
        TTEntry { verify: 0, mv: Move::none(), score: 0, depth: 0, flags: Flags::empty() }
    }

    /// The 8-byte word of the entry.
    pub fn to_bits(self) -> (w: u64)
        ensures
            w == self.word(),
            TTEntry::decode(w) == self,
    {
        proof {
            lemma_pack_word(self.verify, self.mv.0, self.score, self.depth, self.flags.data);
        }
        (self.verify as u64) | ((self.mv.0 as u64) << 16) | (((self.score as u16) as u64) << 32) | ((
        self.depth as u64) << 48) | ((self.flags.data as u64) << 56)
    }

    /// The entry stored in a word.
    pub open spec fn decode(w: u64) -> TTEntry {
        TTEntry {
            verify: word_verify(w),
            mv: Move(word_move(w)),
            score: word_score(w),
            depth: word_depth(w),
            flags: Flags { data: word_flags(w) },
        }
    }

    /// The entry stored in a word.
    pub fn from_bits(bits: u64) -> (e: TTEntry)
        ensures
            e == TTEntry::decode(bits),
    {
        TTEntry {
            verify: bits as u16,
            mv: Move((bits >> 16) as u16),
            score: ((bits >> 32) as u16) as i16,
            depth: (bits >> 48) as u8,
            flags: Flags { data: (bits >> 56) as u8 },
        }
    }
}

/// Score as stored: mate scores are made relative to the node instead of the root.
pub open spec fn to_tt(score: int, ply: int) -> int {
    if score >= 31744 {
        score + ply
    } else if score <= -31744 {
        score - ply
    } else {
        score
    }
}

/// Score as read back: mate scores are made relative to the root again.
pub open spec fn from_tt(score: int, ply: int) -> int {
    if score >= 31744 {
        score - ply
    } else if score <= -31744 {
        score + ply
    } else {
        score
    }
}

/// Clamps into `lo..=hi`.
pub open spec fn clamp_int(x: int, lo: int, hi: int) -> int {
    if x < lo {
        lo
    } else if x > hi {
        hi
    } else {
        x
    }
}

/// The cluster a key hashes to, among `n` clusters: the high word of `key * n`.
pub open spec fn cluster_index(key: u64, n: nat) -> int {
    (key as int * n) / 0x1_0000_0000_0000_0000int
}

/// Whether a word is a nonempty entry with verification key `v`.
pub open spec fn is_hit(w: u64, v: u16) -> bool {
    word_flags(w) % 4 != 0 && word_verify(w) == v
}

/// Whether a slot may take an entry with verification key `v`: it is empty or holds `v`.
pub open spec fn free_or_match(w: u64, v: u16) -> bool {
    word_flags(w) % 4 == 0 || word_verify(w) == v
}

/// The first slot of cluster `c` holding key `v` (3 when none does).
pub open spec fn probe_slot(e: Seq<u64>, c: int, v: u16) -> int {
    if is_hit(e[3 * c], v) {
        0
    } else if is_hit(e[3 * c + 1], v) {
        1
    } else if is_hit(e[3 * c + 2], v) {
        2
    } else {
        3
    }
}

/// The first slot of cluster `c` that is empty or holds key `v` (3 when none is).
pub open spec fn free_slot(e: Seq<u64>, c: int, v: u16) -> int {
    if free_or_match(e[3 * c], v) {
        0
    } else if free_or_match(e[3 * c + 1], v) {
        1
    } else if free_or_match(e[3 * c + 2], v) {
        2
    } else {
        3
    }
}

/// How many generations ago a word was written, modulo the age cycle.
pub open spec fn staleness(age: u8, w: u64) -> int {
    (age as int - (word_flags(w) / 8) as int) % 32
}

/// Replacement priority of a word: lower is replaced first.
pub open spec fn replace_key(age: u8, w: u64) -> int {
    word_depth(w) as int - 4 * staleness(age, w)
}

/// The first slot of cluster `c` with the lowest replacement priority.
pub open spec fn victim_slot(e: Seq<u64>, c: int, age: u8) -> int {
    let k0 = replace_key(age, e[3 * c]);
    let k1 = replace_key(age, e[3 * c + 1]);
    let k2 = replace_key(age, e[3 * c + 2]);
    if k0 <= k1 && k0 <= k2 {
        0
    } else if k1 <= k2 {
        1
    } else {
        2
    }
}

/// Whether storing keeps an entry with the same key that is deeper and of this generation.
pub open spec fn store_skips(e: Seq<u64>, c: int, v: u16, depth: int, age: u8) -> bool {
    let f = free_slot(e, c, v);
    let w = e[3 * c + f];
    f < 3 && word_flags(w) % 4 != 0 && word_depth(w) > depth && word_flags(w) / 8 == age
}

/// The slot a store writes into.
pub open spec fn store_slot(e: Seq<u64>, c: int, v: u16, age: u8) -> int {
    let f = free_slot(e, c, v);
    if f < 3 {
        f
    } else {
        victim_slot(e, c, age)
    }
}

/// The word a store writes; an empty move keeps the move already stored under the same key.
pub open spec fn stored_word(
    e: Seq<u64>,
    c: int,
    v: u16,
    mv: Move,
    depth: int,
    score: int,
    bound: Bound,
    ply: int,
    age: u8,
) -> u64 {
    let old_w = e[3 * c + store_slot(e, c, v, age)];
    let m = if mv.0 == 0 && word_verify(old_w) == v {
        word_move(old_w)
    } else {
        mv.0
    };
    pack_word(
        v,
        m,
        clamp_int(to_tt(score, ply), -32768, 32767) as i16,
        clamp_int(depth, 0, 255) as u8,
        (bound.code() + 8 * age) as u8,
    )
}

/// The entries after a store.
pub open spec fn store_spec(
    e: Seq<u64>,
    age: u8,
    key: u64,
    mv: Move,
    depth: int,
    score: int,
    bound: Bound,
    ply: int,
) -> Seq<u64> {
    let c = cluster_index(key, e.len() / 3);
    let v = key as u16;
    if store_skips(e, c, v, depth, age) {
        e
    } else {
        e.update(3 * c + store_slot(e, c, v, age), stored_word(e, c, v, mv, depth, score, bound, ply, age))
    }
}

/// The result of looking a position up.
#[derive(Clone, Copy, PartialEq, Eq, Structural, Debug)]
pub struct ProbeResult {
    /// A score that may be returned at once, if the entry is deep enough and its bound allows.
    pub score: Option<i32>,
    pub best_move: Move,
    /// Depth of the entry found, -1 when none is.
    pub depth: i32,
}

/// The result of looking `key` up.
pub open spec fn probe_spec(e: Seq<u64>, key: u64, depth: int, alpha: int, beta: int, ply: int) -> ProbeResult {
    let c = cluster_index(key, e.len() / 3);
    let v = key as u16;
    let slot = probe_slot(e, c, v);
    if slot == 3 {
        ProbeResult { score: None, best_move: Move(0), depth: -1i32 }
    } else {
        let w = e[3 * c + slot];
        let d = word_depth(w) as int;
        if d < depth {
            ProbeResult { score: None, best_move: Move(word_move(w)), depth: d as i32 }
        } else {
            let s = from_tt(word_score(w) as int, ply);
            let b = bound_of_code(word_flags(w) as int % 4);
            let usable = match b {
                Bound::Exact => true,
                Bound::Upper => s <= alpha,
                Bound::Lower => s >= beta,
                Bound::NoBound => false,
            };
            ProbeResult {
                score: if usable { Some(s as i32) } else { None },
                best_move: Move(word_move(w)),
                depth: d as i32,
            }
        }
    }
}

/// Entries among the first `k` words written in generation `age`.
pub open spec fn filled_count(e: Seq<u64>, age: u8, k: int) -> int
    decreases k,
{
    if k <= 0 {
        0
    } else {
        filled_count(e, age, k - 1) + if word_flags(e[k - 1]) % 4 != 0 && word_flags(e[k - 1]) / 8
            == age {
            1int
        } else {
            0int
        }
    }
}

/// Per mille of the first (at most) thousand clusters filled in this generation.
pub open spec fn hashfull_spec(e: Seq<u64>, age: u8) -> int {
    let m: int = if e.len() / 3 < 1000 {
        (e.len() / 3) as int
    } else {
        1000
    };
    if m == 0 {
        0
    } else {
        filled_count(e, age, 3 * m as int) * 1000 / (3 * m as int)
    }
}

proof fn lemma_filled_count_bound(e: Seq<u64>, age: u8, k: int)
    requires
        k >= 0,
    ensures
        0 <= filled_count(e, age, k) <= k,
    decreases k,
{
    if k > 0 {
        lemma_filled_count_bound(e, age, k - 1);
    }
}

/// Search results shared between iterations, indexed by position hash.
pub struct TranspositionTable {
    /// Three entry words per cluster.
    pub entries: Vec<u64>,
    /// The current search generation.
    pub age: u8,
}

impl TranspositionTable {
    /// A table has at least one cluster, whole clusters, and an age inside the cycle.
    pub open spec fn wf(&self) -> bool {
        &&& self.entries@.len() >= 3
        &&& self.entries@.len() % 3 == 0
        &&& self.age <= AGE_MASK
    }

    /// An empty table of about `size_mb` mebibytes (at least one cluster).
    pub fn new(size_mb: usize) -> (t: TranspositionTable)
        requires
            size_mb * 1048576 <= usize::MAX,
        ensures
            t.wf(),
            t.age == 0,
            t.entries@.len() == 3 * (if size_mb * 1048576 / 32 < 1 { 1 } else { size_mb * 1048576 / 32 }),
            forall|i: int| 0 <= i < t.entries@.len() ==> #[trigger] t.entries@[i] == 0,
    {
        let raw = size_mb * 1024 * 1024 / CLUSTER_BYTES;
        let num_clusters = if raw < 1 { 1 } else { raw };
        let n = num_clusters * CLUSTER_SIZE;
        let mut entries: Vec<u64> = Vec::new();
        let mut i: usize = 0;
        while i < n
            invariant
                i <= n,
                entries@.len() == i,
                forall|j: int| 0 <= j < i ==> #[trigger] entries@[j] == 0,
            decreases n - i,
        {
            entries.push(0);
            i = i + 1;
        }
        TranspositionTable { entries, age: 0 }
    }

    /// Replaces the table by an empty one of about `size_mb` mebibytes.
    pub fn resize(&mut self, size_mb: usize)
        requires
            size_mb * 1048576 <= usize::MAX,
        ensures
            final(self).wf(),
            final(self).age == 0,
            forall|i: int| 0 <= i < final(self).entries@.len() ==> #[trigger] final(self).entries@[i] == 0,
    {
        *self = Self::new(size_mb);
    }

    /// Empties every slot and restarts the generations.
    pub fn clear(&mut self)
        requires
            old(self).wf(),
        ensures
            final(self).wf(),
            final(self).age == 0,
            final(self).entries@.len() == old(self).entries@.len(),
            forall|i: int| 0 <= i < final(self).entries@.len() ==> #[trigger] final(self).entries@[i] == 0,
    {
        let n = self.entries.len();
        let mut i: usize = 0;
        while i < n
            invariant
                i <= n,
                self.entries@.len() == n,
                n >= 3,
                n % 3 == 0,
                forall|j: int| 0 <= j < i ==> #[trigger] self.entries@[j] == 0,
            decreases n - i,
        {
            self.entries.set(i, 0);
            i = i + 1;
        }
        self.age = 0;
    }

    /// Starts a new search generation.
    pub fn new_search(&mut self)
        requires
            old(self).wf(),
        ensures
            final(self).wf(),
            final(self).entries@ == old(self).entries@,
            final(self).age == (old(self).age + 1) % 32,
    {
        let age = self.age;
        assert((age + 1) as u8 & 31u8 == (age + 1) % 32) by (bit_vector)
            requires
                age <= 31,
        ;
        self.age = (age + 1) & AGE_MASK;
    }

    proof fn lemma_cluster_in_range(n: int, c: int)
        requires
            n % 3 == 0,
            0 <= c < n / 3,
        ensures
            3 * c + 3 <= n,
    {
    }

    /// The first slot of cluster `c` holding verification key `v`, 3 if none does.
    fn first_hit(&self, c: usize, v: u16) -> (slot: usize)
        requires
            self.wf(),
            c < self.entries@.len() / 3,
        ensures
            slot == probe_slot(self.entries@, c as int, v),
    {
        let len = self.entries.len();
        proof {
            Self::lemma_cluster_in_range(len as int, c as int);
        }
        let base = 3 * c;
        let e0 = TTEntry::from_bits(self.entries[base]);
        if e0.flags.bound() != Bound::NoBound && e0.verify == v {
            return 0;
        }
        let e1 = TTEntry::from_bits(self.entries[base + 1]);
        if e1.flags.bound() != Bound::NoBound && e1.verify == v {
            return 1;
        }
        let e2 = TTEntry::from_bits(self.entries[base + 2]);
        if e2.flags.bound() != Bound::NoBound && e2.verify == v {
            return 2;
        }
        3
    }

    /// The first slot of cluster `c` that is empty or holds key `v`, 3 if none is.
    fn first_free(&self, c: usize, v: u16) -> (slot: usize)
        requires
            self.wf(),
            c < self.entries@.len() / 3,
        ensures
            slot == free_slot(self.entries@, c as int, v),
    {
        let len = self.entries.len();
        proof {
            Self::lemma_cluster_in_range(len as int, c as int);
        }
        let base = 3 * c;
        let e0 = TTEntry::from_bits(self.entries[base]);
        if e0.flags.bound() == Bound::NoBound || e0.verify == v {
            return 0;
        }
        let e1 = TTEntry::from_bits(self.entries[base + 1]);
        if e1.flags.bound() == Bound::NoBound || e1.verify == v {
            return 1;
        }
        let e2 = TTEntry::from_bits(self.entries[base + 2]);
        if e2.flags.bound() == Bound::NoBound || e2.verify == v {
            return 2;
        }
        3
    }

    /// The cluster `key` hashes to.
    pub fn index(&self, key: u64) -> (c: usize)
        requires
            self.wf(),
        ensures
            c == cluster_index(key, self.entries@.len() / 3),
            c < self.entries@.len() / 3,
    {
        let n = self.entries.len() / CLUSTER_SIZE;
        assert((key as u128) * (n as u128) <= u128::MAX) by (nonlinear_arith)
            requires
                key <= u64::MAX,
                n <= u64::MAX,
        ;
        let p: u128 = (key as u128) * (n as u128);
        assert(p >> 64u128 == p / 0x1_0000_0000_0000_0000u128) by (bit_vector);
        assert(p / 0x1_0000_0000_0000_0000u128 < n) by (nonlinear_arith)
            requires
                p == key as int * n as int,
                key < 0x1_0000_0000_0000_0000int,
                n >= 1,
        ;
        (p >> 64) as usize
    }

    /// The verification key of `key`: its low 16 bits.
    pub fn verification_key(key: u64) -> (v: u16)
        ensures
            v == key as u16,
    {
        key as u16
    }

    /// Score as stored: mate scores are made relative to the node.
    pub fn to_tt_score(score: i32, ply: i32) -> (s: i32)
        requires
            i32::MIN <= to_tt(score as int, ply as int) <= i32::MAX,
        ensures
            s == to_tt(score as int, ply as int),
    {
        if score >= 31744 {
            score + ply
        } else if score <= -31744 {
            score - ply
        } else {
            score
        }
    }

    /// Score as read back: mate scores are made relative to the root.
    pub fn from_tt_score(score: i32, ply: i32) -> (s: i32)
        requires
            i32::MIN <= from_tt(score as int, ply as int) <= i32::MAX,
        ensures
            s == from_tt(score as int, ply as int),
    {
        if score >= 31744 {
            score - ply
        } else if score <= -31744 {
            score + ply
        } else {
            score
        }
    }

    /// Looks `key` up: the first entry of its cluster with the same verification key.
    pub fn probe(&self, key: u64, depth: i32, alpha: i32, beta: i32, ply: i32) -> (r: ProbeResult)
        requires
            self.wf(),
            i32::MIN + 32768 <= ply <= i32::MAX - 32768,
        ensures
            r == probe_spec(self.entries@, key, depth as int, alpha as int, beta as int, ply as int),
    {
        let c = self.index(key);
        let verify = Self::verification_key(key);
        let len = self.entries.len();
        proof {
            Self::lemma_cluster_in_range(len as int, c as int);
        }
        let slot = self.first_hit(c, verify);
        if slot == 3 {
            return ProbeResult { score: None, best_move: Move::none(), depth: -1 };
        }
        let entry = TTEntry::from_bits(self.entries[3 * c + slot]);
        let b = entry.flags.bound();
        let entry_depth = entry.depth as i32;
        if entry_depth < depth {
            return ProbeResult { score: None, best_move: entry.mv, depth: entry_depth };
        }
        let score = Self::from_tt_score(entry.score as i32, ply);
        let usable = match b {
            Bound::Exact => true,
            Bound::Upper => score <= alpha,
            Bound::Lower => score >= beta,
            Bound::NoBound => false,
        };
        ProbeResult { score: if usable { Some(score) } else { None }, best_move: entry.mv, depth: entry_depth }
    }

    /// Stores a search result for `key`, unless a deeper entry of this generation holds it.
    pub fn store(&mut self, key: u64, mv: Move, depth: i32, score: i32, bound: Bound, ply: i32)
        requires
            old(self).wf(),
            i32::MIN <= to_tt(score as int, ply as int) <= i32::MAX,
        ensures
            final(self).wf(),
            final(self).age == old(self).age,
            final(self).entries@ == store_spec(
                old(self).entries@,
                old(self).age,
                key,
                mv,
                depth as int,
                score as int,
                bound,
                ply as int,
            ),
    {
        let c = self.index(key);
        let verify = Self::verification_key(key);
        let age = self.age;
        let depth_u8: u8 = if depth < 0 {
            0
        } else if depth > 255 {
            255
        } else {
            depth as u8
        };
        let tt_score = Self::to_tt_score(score, ply);
        let stored_score: i16 = if tt_score < -32768 {
            -32768
        } else if tt_score > 32767 {
            32767
        } else {
            tt_score as i16
        };
        let ghost e = self.entries@;
        let len = self.entries.len();
        proof {
            Self::lemma_cluster_in_range(len as int, c as int);
        }
        let mut target = self.first_free(c, verify);
        if target < 3 {
            let existing = TTEntry::from_bits(self.entries[3 * c + target]);
            if existing.flags.bound() != Bound::NoBound && existing.depth as i32 > depth
                && existing.flags.age() == age {
                return;
            }
        }
        let len = self.entries.len();
        proof {
            Self::lemma_cluster_in_range(len as int, c as int);
        }
        if target == 3 {
            let mut keys: [i32; 3] = [0, 0, 0];
            let mut j: usize = 0;
            while j < CLUSTER_SIZE
                invariant
                    j <= 3,
                    3 * c + 3 <= e.len(),
                    len == e.len(),
                    e == self.entries@,
                    age == self.age,
                    age <= 31,
                    forall|k: int| 0 <= k < j ==> #[trigger] keys@[k] == replace_key(age, e[3 * c + k]),
                decreases 3 - j,
            {
                let w = TTEntry::from_bits(self.entries[3 * c + j]);
                let ea = w.flags.age();
                let diff: u8 = age.wrapping_sub(ea);
                let st: i32 = (diff & AGE_MASK) as i32;
                assert(diff & 31u8 == diff % 32) by (bit_vector);
                assert(st == staleness(age, e[3 * c + j]));
                keys[j] = w.depth as i32 - st * 4;
                j = j + 1;
            }
            target = if keys[0] <= keys[1] && keys[0] <= keys[2] {
                0
            } else if keys[1] <= keys[2] {
                1
            } else {
                2
            };
        }
        let existing = TTEntry::from_bits(self.entries[3 * c + target]);
        let mv2 = if mv.0 == 0 && existing.verify == verify {
            existing.mv
        } else {
            mv
        };
        let entry = TTEntry::new(verify, mv2, stored_score, depth_u8, bound, age);
        let w = entry.to_bits();
        self.entries.set(3 * c + target, w);
    }

    /// Per mille of the first thousand clusters (or all, if fewer) filled in this generation.
    pub fn hashfull(&self) -> (h: usize)
        requires
            self.wf(),
        ensures
            h == hashfull_spec(self.entries@, self.age),
    {
        let n = self.entries.len() / CLUSTER_SIZE;
        let m = if n < 1000 { n } else { 1000 };
        let total = 3 * m;
        let mut filled: usize = 0;
        let mut k: usize = 0;
        while k < total
            invariant
                k <= total,
                total == 3 * m,
                m <= 1000,
                m <= n,
                n == self.entries@.len() / 3,
                self.entries@.len() % 3 == 0,
                filled == filled_count(self.entries@, self.age, k as int),
            decreases total - k,
        {
            proof {
                lemma_filled_count_bound(self.entries@, self.age, k as int);
            }
            let e = TTEntry::from_bits(self.entries[k]);
            if e.flags.bound() != Bound::NoBound && e.flags.age() == self.age {
                filled = filled + 1;
            }
            k = k + 1;
        }
        proof {
            lemma_filled_count_bound(self.entries@, self.age, total as int);
        }
        if total == 0 {
            0
        } else {
            filled * 1000 / total
        }
    }
}

/// Reading back a stored mate distance gives the same score at the same ply.
pub proof fn lemma_tt_score_roundtrip(score: int, ply: int)
    requires
        ply >= 0,
    ensures
        from_tt(to_tt(score, ply), ply) == score,
{
}

/// A store that writes is read back by a later probe of the same key: the probe finds the
/// stored move and depth, and, for a probe no deeper than the store, hands the stored score
/// back exactly when the stored bound settles the window: always for an exact score, for a
/// lower bound when it reaches `beta`, for an upper bound when it is at most `alpha`.
pub proof fn lemma_probe_after_store(
    e: Seq<u64>,
    age: u8,
    key: u64,
    mv: Move,
    depth: int,
    score: int,
    bound: Bound,
    ply: int,
    probe_depth: int,
    alpha: int,
    beta: int,
)
    requires
        e.len() >= 3,
        e.len() % 3 == 0,
        age <= AGE_MASK,
        !store_skips(e, cluster_index(key, e.len() / 3), key as u16, depth, age),
        bound != Bound::NoBound,
        mv.0 != 0,
        0 <= depth <= 255,
        -32000 <= score <= 32000,
        0 <= ply <= 256,
        probe_depth <= depth,
    ensures
        ({
            let r = probe_spec(
                store_spec(e, age, key, mv, depth, score, bound, ply),
                key,
                probe_depth,
                alpha,
                beta,
                ply,
            );
            &&& r.best_move == mv
            &&& r.depth == depth
            &&& bound == Bound::Exact ==> r.score == Some(score as i32)
            &&& r.score == if bound == Bound::Exact || (bound == Bound::Lower && score >= beta) || (bound
                == Bound::Upper && score <= alpha) {
                Some(score as i32)
            } else {
                None
            }
        }),
{
    let n = e.len() / 3;
    let c = cluster_index(key, n);
    let v = key as u16;
    let t = store_slot(e, c, v, age);
    assert(0 <= c < n) by (nonlinear_arith)
        requires
            c == (key as int * n) / 0x1_0000_0000_0000_0000int,
            0 <= key < 0x1_0000_0000_0000_0000int,
            n >= 1,
    ;
    let ts = clamp_int(to_tt(score, ply), -32768, 32767) as i16;
    let fl = (bound.code() + 8 * age) as u8;
    let w = pack_word(v, mv.0, ts, depth as u8, fl);
    assert(stored_word(e, c, v, mv, depth, score, bound, ply, age) == w);
    lemma_pack_word(v, mv.0, ts, depth as u8, fl);
    let e2 = e.update(3 * c + t, w);
    assert(store_spec(e, age, key, mv, depth, score, bound, ply) == e2);
    assert(e2.len() == e.len());
    assert(word_flags(w) % 4 == bound.code());
    assert(probe_slot(e2, c, v) == t);
    assert(from_tt(ts as int, ply) == score);
}

} // verus!
