//! Direct-mapped caches from position keys to eight-bit scores.

use vstd::prelude::*;

verus! {

/// Slot count of the naive table: a prime, sized for about 64MB.
pub const NAIVE_TABLE_SIZE: usize = 8388593;

/// Slot count of the dense table: two to the twenty-third plus nine.
pub const OPT_TABLE_SIZE: usize = 8388617;

/// Slot count of the opening-book table: a prime.
pub const BOOK_TABLE_SIZE: usize = 16777259;

/// The common face of the score caches: a `put` stores a byte under a
/// key, a `get` returns the byte stored under exactly that key or zero
/// for a miss, and `reset` restores whatever the variant's starting
/// state is. Every variant is a direct-mapped cache, so a `put` may
/// silently evict an unrelated entry.
pub trait TranspositionTable {
    /// The structural invariant of the cache.
    spec fn inv(&self) -> bool;

    /// The keys the variant accepts.
    spec fn key_fits(key: u64) -> bool;

    /// Which slot of the direct-mapped cache a key falls into.
    spec fn slot(key: u64) -> int;

    /// The discriminator a slot keeps to revalidate a hit: the full
    /// key, or its truncation to the width the variant stores.
    spec fn tag(key: u64) -> int;

    /// What a lookup of `key` currently returns: zero for a miss.
    spec fn gets(&self, key: u64) -> u8;

    /// What `reset` guarantees; a no-op variant guarantees nothing.
    spec fn cleared(&self) -> bool;

    /// Whether this variant's `reset` leaves every lookup untouched.
    spec fn reset_is_noop() -> bool;

    fn put(&mut self, key: u64, val: u8)
        requires
            old(self).inv(),
            Self::key_fits(key),
        ensures
            final(self).inv(),
            forall|k2: u64|
                Self::slot(k2) != Self::slot(key) ==> final(self).gets(k2) == old(self).gets(k2),
            forall|k2: u64|
                Self::slot(k2) == Self::slot(key) && Self::tag(k2) == Self::tag(key)
                    ==> final(self).gets(k2) == val,
            forall|k2: u64|
                Self::slot(k2) == Self::slot(key) && Self::tag(k2) != Self::tag(key)
                    ==> final(self).gets(k2) == 0,
    ;

    fn get(&self, key: u64) -> (r: u8)
        requires
            self.inv(),
            Self::key_fits(key),
        ensures
            r == self.gets(key),
    ;

    fn reset(&mut self)
        requires
            old(self).inv(),
        ensures
            final(self).inv(),
            final(self).cleared(),
            forall|k: u64|
                final(self).gets(k) == old(self).gets(k) || final(self).gets(k) == 0,
            Self::reset_is_noop() ==> forall|k: u64| final(self).gets(k) == old(self).gets(k),
    ;
}

/// A packed `(key, value)` pair: fifty-six bits of key above eight bits
/// of value, so an all-zero word doubles as the empty slot.
#[derive(Copy, Clone, Debug)]
pub struct Entry {
    key_val: u64,
}

impl Entry {
    /// The stored key, as specification.
    pub closed spec fn skey(&self) -> u64 {
        self.key_val >> 8u64
    }

    /// The stored value byte, as specification.
    pub closed spec fn sval(&self) -> u8 {
        (self.key_val & 0xFFu64) as u8
    }

    /// Packs a key below two to the fifty-sixth with a value byte.
    pub fn create(key: u64, val: u8) -> (r: Self)
        requires
            key < 0x100000000000000,
        ensures
            r.skey() == key,
            r.sval() == val,
    {
        let key_val = (key << 8u64) | val as u64;
        proof {
            assert(((key << 8u64) | val as u64) >> 8u64 == key && (((key << 8u64) | val as u64)
                & 0xFFu64) == val as u64) by (bit_vector)
                requires
                    key < 0x100000000000000,
            ;
        }
        Self { key_val }
    }

    pub fn new() -> (r: Self)
        ensures
            r.skey() == 0,
            r.sval() == 0,
    {
        Self::empty()
    }

    pub fn empty() -> (r: Self)
        ensures
            r.skey() == 0,
            r.sval() == 0,
    {
        proof {
            assert(0u64 >> 8u64 == 0 && 0u64 & 0xFFu64 == 0) by (bit_vector);
        }
        Self { key_val: 0 }
    }

    /// The stored key.
    pub fn key(&self) -> (r: u64)
        ensures
            r == self.skey(),
    {
        self.key_val >> 8
    }

    /// The stored value byte.
    pub fn value(&self) -> (r: u8)
        ensures
            r == self.sval(),
    {
        (self.key_val & 0xFF) as u8
    }
}

/// The straightforward cache: one packed entry per slot, the full key
/// kept, so a hit is a true hit for that key.
pub struct NaiveTranspositionTable {
    table: Vec<Entry>,
    accessed: u64,
}

impl NaiveTranspositionTable {
    /// An all-empty table: every lookup misses.
    pub fn new() -> (r: Self)
        ensures
            r.inv(),
            r.cleared(),
            forall|key: u64| r.gets(key) == 0,
    {
        let table = fill_entries(NAIVE_TABLE_SIZE);
        Self { table, accessed: 0 }
    }

    fn index(key: u64) -> (r: usize)
        ensures
            r == key as int % (NAIVE_TABLE_SIZE as int),
            r < NAIVE_TABLE_SIZE,
    {
        (key % NAIVE_TABLE_SIZE as u64) as usize
    }
}

impl TranspositionTable for NaiveTranspositionTable {
    closed spec fn inv(&self) -> bool {
        self.table@.len() == NAIVE_TABLE_SIZE
    }

    /// The packing leaves fifty-six bits for the key.
    open spec fn key_fits(key: u64) -> bool {
        key < 0x100000000000000
    }

    open spec fn slot(key: u64) -> int {
        key as int % (NAIVE_TABLE_SIZE as int)
    }

    open spec fn tag(key: u64) -> int {
        key as int
    }

    closed spec fn gets(&self, key: u64) -> u8 {
        let e = self.table@[key as int % (NAIVE_TABLE_SIZE as int)];
        if e.skey() == key {
            e.sval()
        } else {
            0
        }
    }

    /// After a reset every lookup misses.
    open spec fn cleared(&self) -> bool {
        forall|key: u64| self.gets(key) == 0
    }

    open spec fn reset_is_noop() -> bool {
        false
    }

    fn get(&self, key: u64) -> (r: u8) {
        let i = Self::index(key);
        if key == self.table[i].key() {
            self.table[i].value()
        } else {
            0
        }
    }

    fn put(&mut self, key: u64, val: u8) {
        let i = Self::index(key);
        self.table[i] = Entry::create(key, val);
        self.accessed = self.accessed.wrapping_add(1);
    }

    fn reset(&mut self) {
        self.accessed = 0;
        let n = self.table.len();
        let mut i: usize = 0;
        while i < n
            invariant
                self.table@.len() == n,
                n == NAIVE_TABLE_SIZE,
                i <= n,
                forall|j: int|
                    0 <= j < i ==> (#[trigger] self.table@[j]).skey() == 0 && self.table@[j].sval()
                        == 0,
            decreases n - i,
        {
            self.table[i] = Entry::new();
            i = i + 1;
        }
    }
}

/// Builds a vector of `n` empty entries.
fn fill_entries(n: usize) -> (r: Vec<Entry>)
    ensures
        r@.len() == n,
        forall|j: int| 0 <= j < n ==> (#[trigger] r@[j]).skey() == 0 && r@[j].sval() == 0,
{
    let mut v: Vec<Entry> = Vec::new();
    let mut i: usize = 0;
    while i < n
        invariant
            v@.len() == i,
            i <= n,
            forall|j: int| 0 <= j < i ==> (#[trigger] v@[j]).skey() == 0 && v@[j].sval() == 0,
        decreases n - i,
    {
        v.push(Entry::empty());
        i = i + 1;
    }
    v
}

/// Builds a vector of `n` zero bytes-or-words.
fn fill_zero_u8(n: usize) -> (r: Vec<u8>)
    ensures
        r@.len() == n,
        forall|j: int| 0 <= j < n ==> r@[j] == 0,
{
    let mut v: Vec<u8> = Vec::new();
    let mut i: usize = 0;
    while i < n
        invariant
            v@.len() == i,
            i <= n,
            forall|j: int| 0 <= j < i ==> v@[j] == 0,
        decreases n - i,
    {
        v.push(0);
        i = i + 1;
    }
    v
}

/// Builds a vector of `n` zero thirty-two bit words.
fn fill_zero_u32(n: usize) -> (r: Vec<u32>)
    ensures
        r@.len() == n,
        forall|j: int| 0 <= j < n ==> r@[j] == 0,
{
    let mut v: Vec<u32> = Vec::new();
    let mut i: usize = 0;
    while i < n
        invariant
            v@.len() == i,
            i <= n,
            forall|j: int| 0 <= j < i ==> v@[j] == 0,
        decreases n - i,
    {
        v.push(0);
        i = i + 1;
    }
    v
}

/// The dense cache: a truncated thirty-two bit key and the value byte
/// in two parallel arrays. A hit means the truncated keys agree, so a
/// rare truncation collision can surface a stale byte; the search
/// treats every byte it reads as no more than a cached bound.
pub struct OptimizedTranspoisitionTable {
    keys: Vec<u32>,
    values: Vec<u8>,
}

impl OptimizedTranspoisitionTable {
    /// An all-zero table: every lookup misses.
    pub fn new() -> (r: Self)
        ensures
            r.inv(),
            forall|key: u64| r.gets(key) == 0,
    {
        Self { keys: fill_zero_u32(OPT_TABLE_SIZE), values: fill_zero_u8(OPT_TABLE_SIZE) }
    }

    fn index(key: u64) -> (r: usize)
        ensures
            r == key as int % (OPT_TABLE_SIZE as int),
            r < OPT_TABLE_SIZE,
    {
        (key % OPT_TABLE_SIZE as u64) as usize
    }
}

impl TranspositionTable for OptimizedTranspoisitionTable {
    closed spec fn inv(&self) -> bool {
        self.keys@.len() == OPT_TABLE_SIZE && self.values@.len() == OPT_TABLE_SIZE
    }

    open spec fn key_fits(key: u64) -> bool {
        true
    }

    open spec fn slot(key: u64) -> int {
        key as int % (OPT_TABLE_SIZE as int)
    }

    open spec fn tag(key: u64) -> int {
        key as u32 as int
    }

    closed spec fn gets(&self, key: u64) -> u8 {
        if self.keys@[key as int % (OPT_TABLE_SIZE as int)] == key as u32 {
            self.values@[key as int % (OPT_TABLE_SIZE as int)]
        } else {
            0
        }
    }

    /// Resetting is a no-op by design: every slot is revalidated
    /// against the truncated key on each lookup anyway.
    open spec fn cleared(&self) -> bool {
        true
    }

    open spec fn reset_is_noop() -> bool {
        true
    }

    fn put(&mut self, key: u64, val: u8) {
        let i = Self::index(key);
        self.keys[i] = key as u32;
        self.values[i] = val;
    }

    fn get(&self, key: u64) -> (r: u8) {
        let i = Self::index(key);
        if key as u32 == self.keys[i] {
            self.values[i]
        } else {
            0
        }
    }

    fn reset(&mut self) {
    }
}

/// An odd number dividing a double divides the half.
proof fn lemma_odd_divides_half(n: int, m: int)
    requires
        n > 0,
        n % 2 == 1,
        m >= 0,
        (2 * m) % n == 0,
    ensures
        m % n == 0,
{
    vstd::arithmetic::div_mod::lemma_fundamental_div_mod(2 * m, n);
    let q = (2 * m) / n;
    assert(2 * m == n * q);
    assert(q >= 0) by (nonlinear_arith)
        requires
            n > 0 && m >= 0 && 2 * m == n * q,
    ;
    vstd::arithmetic::div_mod::lemma_fundamental_div_mod(q, 2);
    if q % 2 == 1 {
        let a = (n - 1) / 2;
        let b = (q - 1) / 2;
        vstd::arithmetic::div_mod::lemma_fundamental_div_mod(n, 2);
        assert(n == 2 * a + 1 && q == 2 * b + 1);
        assert(n * q == 2 * (2 * a * b + a + b) + 1) by (nonlinear_arith)
            requires
                n == 2 * a + 1 && q == 2 * b + 1,
        ;
        assert(false);
    }
    let h = q / 2;
    assert(q == 2 * h);
    assert(m == n * h) by (nonlinear_arith)
        requires
            2 * m == n * q && q == 2 * h,
    ;
    vstd::arithmetic::div_mod::lemma_mod_multiples_basic(h, n);
    assert(m % n == (h * n) % n) by (nonlinear_arith)
        requires
            m == n * h,
    ;
}

/// An odd number dividing a power-of-two multiple divides the factor.
proof fn lemma_odd_divides_shifted(n: int, t: int, k: nat)
    requires
        n > 0,
        n % 2 == 1,
        t >= 0,
        (vstd::arithmetic::power2::pow2(k) * t) % n == 0,
    ensures
        t % n == 0,
    decreases k,
{
    if k == 0 {
        assert(vstd::arithmetic::power2::pow2(0) == 1) by {
            vstd::arithmetic::power2::lemma2_to64();
        }
        assert(vstd::arithmetic::power2::pow2(k) * t == t) by (nonlinear_arith)
            requires
                vstd::arithmetic::power2::pow2(k) == 1,
        ;
    } else {
        vstd::arithmetic::power2::lemma_pow2_unfold(k);
        vstd::arithmetic::power2::lemma_pow2_pos((k - 1) as nat);
        let half = vstd::arithmetic::power2::pow2((k - 1) as nat) * t;
        assert(vstd::arithmetic::power2::pow2(k) * t == 2 * half && half >= 0) by (nonlinear_arith)
            requires
                vstd::arithmetic::power2::pow2(k) == 2 * vstd::arithmetic::power2::pow2(
                    (k - 1) as nat,
                ) && half == vstd::arithmetic::power2::pow2((k - 1) as nat) * t && t >= 0
                    && vstd::arithmetic::power2::pow2((k - 1) as nat) >= 1,
        ;
        lemma_odd_divides_half(n, half);
        lemma_odd_divides_shifted(n, t, (k - 1) as nat);
    }
}

/// The law behind the dense table's revalidation: within the board's
/// forty-nine bit key space, two distinct keys never share both the
/// slot and the truncated thirty-two bit key, because the slot count
/// is odd. A truncated hit is therefore a true hit for the looked-up
/// key, and a store never surfaces under another key of the space.
pub proof fn lemma_dense_keys_separate(k1: u64, k2: u64)
    requires
        k1 < 0x2000000000000,
        k2 < 0x2000000000000,
        k1 != k2,
    ensures
        k1 as int % (OPT_TABLE_SIZE as int) != k2 as int % (OPT_TABLE_SIZE as int) || k1 as u32
            != k2 as u32,
{
    if k1 as int % (OPT_TABLE_SIZE as int) == k2 as int % (OPT_TABLE_SIZE as int) && k1 as u32
        == k2 as u32 {
        let s = OPT_TABLE_SIZE as int;
        let lo = if k1 < k2 {
            k1 as int
        } else {
            k2 as int
        };
        let hi = if k1 < k2 {
            k2 as int
        } else {
            k1 as int
        };
        let d = hi - lo;
        assert(0 < d < 0x2000000000000);
        vstd::arithmetic::div_mod::lemma_fundamental_div_mod(hi, s);
        vstd::arithmetic::div_mod::lemma_fundamental_div_mod(lo, s);
        assert(d == s * (hi / s - lo / s));
        vstd::arithmetic::div_mod::lemma_mod_multiples_basic(hi / s - lo / s, s);
        assert(d % s == ((hi / s - lo / s) * s) % s) by (nonlinear_arith)
            requires
                d == s * (hi / s - lo / s),
        ;
        assert(k1 % 0x100000000 == k2 % 0x100000000) by (bit_vector)
            requires
                k1 as u32 == k2 as u32,
        ;
        vstd::arithmetic::div_mod::lemma_fundamental_div_mod(hi, 0x100000000);
        vstd::arithmetic::div_mod::lemma_fundamental_div_mod(lo, 0x100000000);
        let t = hi / 0x100000000 - lo / 0x100000000;
        assert(d == 0x100000000 * t);
        assert(t >= 1) by (nonlinear_arith)
            requires
                d == 0x100000000 * t && d > 0,
        ;
        assert(t < OPT_TABLE_SIZE) by (nonlinear_arith)
            requires
                d == 0x100000000 * t && d < 0x2000000000000,
        ;
        assert(vstd::arithmetic::power2::pow2(32) == 0x100000000) by {
            vstd::arithmetic::power2::lemma2_to64();
        }
        lemma_odd_divides_shifted(s, t, 32);
        vstd::arithmetic::div_mod::lemma_small_mod(t as nat, OPT_TABLE_SIZE as nat);
        assert(false);
    }
}

/// The opening-book cache: an eight-bit truncated key and the value
/// byte in two parallel arrays, filled once from the book file.
pub struct BookTranspositionTable {
    pub keys: Vec<u8>,
    pub values: Vec<u8>,
}

impl BookTranspositionTable {
    /// An all-zero table.
    pub fn new() -> (r: Self)
        ensures
            r.inv(),
            forall|i: int| 0 <= i < BOOK_TABLE_SIZE ==> r.values@[i] == 0,
    {
        Self { keys: fill_zero_u8(BOOK_TABLE_SIZE), values: fill_zero_u8(BOOK_TABLE_SIZE) }
    }

    /// Wraps two loaded columns of book bytes.
    pub fn create(keys: Vec<u8>, values: Vec<u8>) -> (r: Self)
        requires
            keys@.len() == BOOK_TABLE_SIZE,
            values@.len() == BOOK_TABLE_SIZE,
        ensures
            r.inv(),
            r.keys@ == keys@,
            r.values@ == values@,
    {
        Self { keys, values }
    }

    /// Looks `key` up outside the trait, for callers that hold the
    /// book directly.
    pub fn get(&self, key: u64) -> (r: u8)
        requires
            self.inv(),
            key < 0x100000000000,
        ensures
            r == self.gets(key),
    {
        let i = Self::index(key);
        if key as u8 == self.keys[i] {
            self.values[i]
        } else {
            0
        }
    }

    fn index(key: u64) -> (r: usize)
        ensures
            r == key as int % (BOOK_TABLE_SIZE as int),
            r < BOOK_TABLE_SIZE,
    {
        (key % BOOK_TABLE_SIZE as u64) as usize
    }
}

impl TranspositionTable for BookTranspositionTable {
    open spec fn inv(&self) -> bool {
        self.keys@.len() == BOOK_TABLE_SIZE && self.values@.len() == BOOK_TABLE_SIZE
    }

    /// Book keys come from the symmetry-folded ternary code, which
    /// stays below two to the forty-fourth.
    open spec fn key_fits(key: u64) -> bool {
        key < 0x100000000000
    }

    open spec fn slot(key: u64) -> int {
        key as int % (BOOK_TABLE_SIZE as int)
    }

    open spec fn tag(key: u64) -> int {
        key as u8 as int
    }

    open spec fn gets(&self, key: u64) -> u8 {
        if self.keys@[key as int % (BOOK_TABLE_SIZE as int)] == key as u8 {
            self.values@[key as int % (BOOK_TABLE_SIZE as int)]
        } else {
            0
        }
    }

    /// Resetting is a no-op: the book is read-only after loading.
    open spec fn cleared(&self) -> bool {
        true
    }

    open spec fn reset_is_noop() -> bool {
        true
    }

    fn put(&mut self, key: u64, val: u8) {
        let i = Self::index(key);
        self.keys[i] = key as u8;
        self.values[i] = val;
    }

    fn get(&self, key: u64) -> (r: u8) {
        let i = Self::index(key);
        if key as u8 == self.keys[i] {
            self.values[i]
        } else {
            0
        }
    }

    fn reset(&mut self) {
    }
}

} // verus!
