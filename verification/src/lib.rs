mod bitarray;

use vstd::prelude::*;
use vstd::arithmetic::div_mod::{
    lemma_add_mod_noop, lemma_div_is_ordered, lemma_div_multiples_vanish_fancy,
    lemma_mod_bound, lemma_mod_mod, lemma_mod_multiples_basic, lemma_mul_mod_noop_general,
};
use vstd::arithmetic::mul::lemma_mul_inequality;
use vstd::arithmetic::power2::{
    is_pow2, is_pow2_equiv, lemma2_to64, lemma2_to64_rest, lemma_pow2_adds, lemma_pow2_pos,
    lemma_pow2_strictly_increases, pow2,
};
use vstd::bits::{lemma_u64_low_bits_mask_is_mod, low_bits_mask};

verus! {

/// The pair of 64-bit hash values derived from an item's bytes: the first is
/// the item's digest, the second the digest of that digest fed back into the
/// same hasher state. Named abstractly; `hash_pair` is the only way to
/// compute it.
pub uninterp spec fn hash_pair_of(data: Seq<u8>) -> (u64, u64);

/// Relies on ahash::AHasher through Default, which (with the crate's
/// random-seed features disabled) uses fixed keys, so the two digests are a
/// function of the bytes written alone.
#[verifier::external_body]
fn hash_pair(data: &[u8]) -> (r: (u64, u64))
    ensures
        r == hash_pair_of(data@),
{
    let mut hasher = ahash::AHasher::default();
    std::hash::Hash::hash(data, &mut hasher);
    let hash1 = std::hash::Hasher::finish(&hasher);
    std::hash::Hash::hash(&hash1, &mut hasher);
    let hash2 = std::hash::Hasher::finish(&hasher);
    (hash1, hash2)
}

/// ln 2 as the fixed rational LN2_NUMER / LN2_DENOM.
pub const LN2_NUMER: u128 = 693147;

pub const LN2_DENOM: u128 = 1000000;

/// A valid bit capacity: a power of two no smaller than 8.
pub open spec fn valid_capacity(n: nat) -> bool {
    n >= 8 && is_pow2(n as int)
}

/// The number of bit positions derived per operation for a filter of `n`
/// bits that expects `m` inserted items: the standard optimal hash count
/// ceil((n / m) * ln 2), computed exactly over the rational above. Written
/// with floor division: ceil(a / b) == (a + b - 1) / b.
pub open spec fn spec_hash_count(n: nat, m: nat) -> nat
    recommends
        m >= 1,
{
    ((n * LN2_NUMER + m * LN2_DENOM - 1) / (m * LN2_DENOM)) as nat
}

/// The `i`-th bit position probed for an item in a filter of `n` bits, by
/// Kirsch–Mitzenmacher double hashing: (h1 + i * h2) mod n.
pub open spec fn bit_index_of(data: Seq<u8>, n: nat, i: nat) -> nat
    recommends
        n >= 1,
{
    ((hash_pair_of(data).0 + i * hash_pair_of(data).1) % (n as int)) as nat
}

/// The bits of a filter with `k` probes per item after `data` is inserted:
/// each of the item's `k` probed positions is set, every other bit keeps its
/// value.
pub open spec fn spec_insert(bits: Seq<bool>, data: Seq<u8>, k: nat) -> Seq<bool> {
    Seq::new(
        bits.len(),
        |b: int|
            bits[b] || exists|i: nat| i < k && #[trigger] bit_index_of(data, bits.len(), i) == b,
    )
}

/// Whether every one of the item's `k` probed positions is set: what
/// `contains` reports.
pub open spec fn spec_contains(bits: Seq<bool>, data: Seq<u8>, k: nat) -> bool {
    forall|i: nat| i < k ==> bits[#[trigger] bit_index_of(data, bits.len(), i) as int]
}

/// The hash count is between 1 and n whenever n and m are at least 1.
proof fn lemma_hash_count_bounds(n: nat, m: nat)
    requires
        n >= 1,
        m >= 1,
    ensures
        1 <= spec_hash_count(n, m) <= n,
{
    let numer = n * LN2_NUMER + m * LN2_DENOM - 1;
    let denom = m * LN2_DENOM;
    assert(denom >= LN2_DENOM) by {
        lemma_mul_inequality(1, m as int, LN2_DENOM as int);
    }
    assert(n * LN2_NUMER >= LN2_NUMER) by {
        lemma_mul_inequality(1, n as int, LN2_NUMER as int);
    }
    // lower bound: numer >= denom, so the quotient is at least 1
    assert(numer / denom >= denom / denom) by {
        lemma_div_is_ordered(denom as int, numer as int, denom as int);
    }
    assert(denom / denom == 1) by {
        lemma_div_multiples_vanish_fancy(1, 0, denom as int);
    }
    // upper bound: n * LN2_NUMER <= n * denom, so numer <= denom * n + (denom - 1)
    assert(n * LN2_NUMER <= n * denom) by {
        lemma_mul_inequality(LN2_NUMER as int, denom as int, n as int);
        vstd::arithmetic::mul::lemma_mul_is_commutative(n as int, LN2_NUMER as int);
        vstd::arithmetic::mul::lemma_mul_is_commutative(n as int, denom as int);
    }
    assert((denom * n + (denom - 1)) / denom == n) by {
        lemma_div_multiples_vanish_fancy(n as int, denom as int - 1, denom as int);
    }
    assert(numer / denom <= (denom * n + (denom - 1)) / denom) by {
        vstd::arithmetic::mul::lemma_mul_is_commutative(n as int, denom as int);
        lemma_div_is_ordered(numer as int, (denom * n + (denom - 1)) as int, denom as int);
    }
}

/// The hash-function count for a filter of `capacity` bits that expects
/// `expected_inserts_number` items.
fn hash_count(capacity: usize, expected_inserts_number: usize) -> (k: usize)
    requires
        capacity >= 1,
        expected_inserts_number >= 1,
    ensures
        k == spec_hash_count(capacity as nat, expected_inserts_number as nat),
        1 <= k <= capacity,
{
    let n = capacity as u128;
    let m = expected_inserts_number as u128;
    proof {
        lemma_mul_inequality(n as int, 0xffff_ffff_ffff_ffff, LN2_NUMER as int);
        lemma_mul_inequality(m as int, 0xffff_ffff_ffff_ffff, LN2_DENOM as int);
        lemma_hash_count_bounds(capacity as nat, expected_inserts_number as nat);
    }
    let numer = n * LN2_NUMER + (m * LN2_DENOM - 1);
    let denom = m * LN2_DENOM;
    let k = numer / denom;
    k as usize
}

/// Whether `n` is a power of two, found by walking the powers of two upward
/// until one reaches or passes `n`.
fn is_power_of_two(n: usize) -> (r: bool)
    ensures
        r == is_pow2(n as int),
{
    broadcast use is_pow2_equiv;

    if n == 0 {
        assert(!is_pow2(0)) by {
            reveal(is_pow2);
        }
        return false;
    }
    let mut p: usize = 1;
    let ghost mut e: nat = 0;
    proof {
        assert(pow2(0) == 1) by {
            lemma2_to64();
        }
    }
    while p < n
        invariant
            1 <= p <= n,
            p == pow2(e),
        decreases n - p,
    {
        if p > n / 2 {
            // p < n yet 2 * p > n: no power of two can equal n, for the
            // next power of two past p already overshoots it.
            proof {
                if is_pow2(n as int) {
                    is_pow2_equiv(n as int);
                    let w = choose|w: nat| vstd::arithmetic::power::pow(2, w) == n as int;
                    assert(pow2(w) == n) by {
                        vstd::arithmetic::power::lemma_pow_positive(2, w);
                    }
                    assert(e < w) by {
                        if w <= e {
                            if w < e {
                                lemma_pow2_strictly_increases(w, e);
                            }
                        }
                    }
                    assert(pow2(w) == pow2((w - 1) as nat) * 2) by {
                        lemma_pow2_adds((w - 1) as nat, 1);
                        lemma2_to64();
                    }
                    assert(pow2(e) <= pow2((w - 1) as nat)) by {
                        if e < w - 1 {
                            lemma_pow2_strictly_increases(e, (w - 1) as nat);
                        }
                    }
                    assert(n / 2 == pow2((w - 1) as nat)) by (nonlinear_arith)
                        requires
                            n == pow2((w - 1) as nat) * 2,
                    ;
                }
            }
            return false;
        }
        p = p * 2;
        proof {
            assert(pow2(e + 1) == pow2(e) * 2) by {
                lemma_pow2_adds(e, 1);
                lemma2_to64();
            }
            e = e + 1;
        }
    }
    proof {
        assert(vstd::arithmetic::power::pow(2, e) == n as int) by {
            vstd::arithmetic::power::lemma_pow_positive(2, e);
        }
        is_pow2_equiv(n as int);
    }
    true
}

/// A mask of some number of low one bits, n - 1 for a power-of-two n that
/// fits a 64-bit index space.
spec fn is_index_mask(mask: u64) -> bool {
    exists|e: nat| e < 64 && mask + 1 == #[trigger] pow2(e)
}

/// Masking with such a mask reduces a 64-bit value modulo mask + 1.
proof fn lemma_mask_is_mod(x: u64, mask: u64)
    requires
        is_index_mask(mask),
    ensures
        x & mask == x as int % (mask + 1),
        x & mask <= mask,
{
    let e = choose|e: nat| e < 64 && mask + 1 == #[trigger] pow2(e);
    lemma_u64_low_bits_mask_is_mod(x, e);
    lemma_pow2_pos(e);
    assert(pow2(e) <= pow2(63)) by {
        if e < 63 {
            lemma_pow2_strictly_increases(e, 63);
        }
    }
    assert(pow2(63) == 0x8000_0000_0000_0000) by {
        lemma2_to64_rest();
    }
    assert(low_bits_mask(e) == mask);
    assert((pow2(e) as u64) == mask + 1);
    lemma_mod_bound(x as int, (mask + 1) as int);
}

/// Reducing each operand of h1 + i * h2 modulo n, with the product also
/// reduced through an intermediate modulus that n divides, leaves the
/// double-hashing index unchanged.
proof fn lemma_double_hash_mod(a: int, b: int, i: int, n: int, w: int)
    requires
        0 < n,
        0 < w,
        0 <= a,
        0 <= b,
        0 <= i,
    ensures
        ((a % n) + ((i % n) * (b % n)) % (n * w) % n) % n == (a + i * b) % n,
{
    lemma_mod_mod((i % n) * (b % n), n, w);
    lemma_mul_mod_noop_general(i, b, n);
    lemma_add_mod_noop(a, i * b, n);
}

/// A transient generator of the probed bit positions for one item: double
/// hashing yields exactly `iters` positions, the `i`-th being
/// (h1 + i * h2) mod (mod_mask + 1). Created fresh for each insert or
/// contains call and consumed once.
struct HashesIter {
    h1: u64,
    h2: u64,
    mod_mask: u64,
    cur_iter: usize,
    iters: usize,
    data: Ghost<Seq<u8>>,
}

impl HashesIter {
    /// The size of the index space the positions fall in.
    spec fn n(&self) -> nat {
        (self.mod_mask + 1) as nat
    }

    spec fn wf(&self) -> bool {
        &&& is_index_mask(self.mod_mask)
        &&& self.h1 == hash_pair_of(self.data@).0 as int % self.n() as int
        &&& self.h2 == hash_pair_of(self.data@).1 as int % self.n() as int
        &&& self.cur_iter <= self.iters
    }

    fn new(data: &[u8], iters: usize, mod_mask: u64) -> (r: Self)
        requires
            is_index_mask(mod_mask),
        ensures
            r.wf(),
            r.data@ == data@,
            r.iters == iters,
            r.cur_iter == 0,
            r.mod_mask == mod_mask,
    {
        let (hash1, hash2) = hash_pair(data);
        let h1 = hash1 & mod_mask;
        let h2 = hash2 & mod_mask;
        proof {
            lemma_mask_is_mod(hash1, mod_mask);
            lemma_mask_is_mod(hash2, mod_mask);
        }
        HashesIter { h1, h2, mod_mask, cur_iter: 0, iters, data: Ghost(data@) }
    }

    /// The next probed position: `None` once `iters` positions have been
    /// yielded.
    fn next(&mut self) -> (r: Option<u64>)
        requires
            old(self).wf(),
        ensures
            final(self).wf(),
            final(self).data == old(self).data,
            final(self).iters == old(self).iters,
            final(self).mod_mask == old(self).mod_mask,
            match r {
                Option::None => *final(self) == *old(self) && old(self).cur_iter == old(
                    self,
                ).iters,
                Option::Some(v) => {
                    &&& old(self).cur_iter < old(self).iters
                    &&& final(self).cur_iter == old(self).cur_iter + 1
                    &&& v == bit_index_of(old(self).data@, old(self).n(), old(self).cur_iter as nat)
                    &&& v < old(self).n()
                },
            },
    {
        if self.cur_iter == self.iters {
            return None;
        }
        let ghost e = choose|e: nat| e < 64 && self.mod_mask + 1 == #[trigger] pow2(e);
        let i_masked = (self.cur_iter as u64) & self.mod_mask;
        let prod = i_masked.wrapping_mul(self.h2);
        let h2i = prod & self.mod_mask;
        proof {
            lemma_mask_is_mod(self.cur_iter as u64, self.mod_mask);
            lemma_mask_is_mod(prod, self.mod_mask);
            lemma_mod_bound(hash_pair_of(self.data@).0 as int, self.n() as int);
            assert(self.mod_mask + 1 <= pow2(63)) by {
                if e < 63 {
                    lemma_pow2_strictly_increases(e, 63);
                }
            }
            assert(pow2(63) == 0x8000_0000_0000_0000) by {
                lemma2_to64_rest();
            }
        }
        let sum = self.h1 + h2i;
        let idx = sum & self.mod_mask;
        proof {
            lemma_mask_is_mod(sum, self.mod_mask);
            let n = self.n() as int;
            let w = pow2((64 - e) as nat) as int;
            assert(n * w == pow2(64)) by {
                lemma_pow2_adds(e, (64 - e) as nat);
            }
            assert(pow2(64) == 0x1_0000_0000_0000_0000) by {
                lemma2_to64_rest();
            }
            lemma_pow2_pos((64 - e) as nat);
            let hp = hash_pair_of(self.data@);
            let i = self.cur_iter as int;
            assert(prod == ((i % n) * (hp.1 as int % n)) % (n * w));
            lemma_double_hash_mod(hp.0 as int, hp.1 as int, i, n, w);
            lemma_mod_bound(hp.0 + i * hp.1, n);
        }
        self.cur_iter = self.cur_iter + 1;
        Some(idx)
    }
}

/// A bloom filter: a probabilistic set over byte strings with no false
/// negatives. It owns one bit array of a fixed power-of-two capacity and
/// derives a fixed number of bit positions per item by double hashing.
pub struct BloomFilter {
    bitarray: bitarray::BitArray,
    hash_functions_num: usize,
}

impl View for BloomFilter {
    type V = Seq<bool>;

    /// The filter's bits, in index order.
    closed spec fn view(&self) -> Seq<bool> {
        self.bitarray@
    }
}

impl BloomFilter {
    /// The number of bit positions derived per insert or contains call.
    pub closed spec fn k(&self) -> nat {
        self.hash_functions_num as nat
    }

    /// Validity: the capacity is a power of two no smaller than 8 that fits
    /// the machine, and each operation probes at least one position.
    pub closed spec fn wf(&self) -> bool {
        &&& valid_capacity(self@.len())
        &&& self@.len() <= usize::MAX
        &&& 1 <= self.k() <= self@.len()
    }

    /// A valid capacity, being a power of two below 2^64, is n - 1 away
    /// from a low-bits index mask, and a multiple of 8.
    proof fn lemma_capacity_mask(n: nat)
        requires
            valid_capacity(n),
            n <= usize::MAX,
        ensures
            is_index_mask((n - 1) as u64),
            n % 8 == 0,
    {
        is_pow2_equiv(n as int);
        let e = choose|e: nat| vstd::arithmetic::power::pow(2, e) == n as int;
        vstd::arithmetic::power::lemma_pow_positive(2, e);
        assert(pow2(e) == n);
        assert(e < 64) by {
            if e >= 64 {
                assert(pow2(64) <= pow2(e)) by {
                    if 64 < e {
                        lemma_pow2_strictly_increases(64, e);
                    }
                }
                assert(pow2(64) == 0x1_0000_0000_0000_0000) by {
                    lemma2_to64_rest();
                }
            }
        }
        assert(e >= 3) by {
            if e < 3 {
                lemma_pow2_strictly_increases(e, 3);
                assert(pow2(3) == 8) by {
                    lemma2_to64();
                }
            }
        }
        assert(pow2(e) == pow2((e - 3) as nat) * 8) by {
            lemma_pow2_adds((e - 3) as nat, 3);
            lemma2_to64();
        }
        assert((pow2((e - 3) as nat) * 8) as int % 8 == 0) by {
            lemma_mod_multiples_basic(pow2((e - 3) as nat) as int, 8);
        }
    }

    /// A fresh filter of `capacity` bits sized for `expected_inserts_number`
    /// items: all bits zero, and ceil((capacity / expected) * ln 2) bit
    /// positions probed per item. Returns `None` exactly when the capacity
    /// is below 8 or not a power of two, or the expected count is zero.
    pub fn new(capacity: usize, expected_inserts_number: usize) -> (r: Option<BloomFilter>)
        ensures
            match r {
                Option::Some(f) => {
                    &&& valid_capacity(capacity as nat)
                    &&& expected_inserts_number >= 1
                    &&& f.wf()
                    &&& f@.len() == capacity
                    &&& forall|b: int| 0 <= b < capacity ==> !f@[b]
                    &&& f.k() == spec_hash_count(
                        capacity as nat,
                        expected_inserts_number as nat,
                    )
                },
                Option::None => !valid_capacity(capacity as nat) || expected_inserts_number
                    == 0,
            },
    {
        if capacity < 8 || expected_inserts_number == 0 {
            return None;
        }
        if !is_power_of_two(capacity) {
            return None;
        }
        proof {
            Self::lemma_capacity_mask(capacity as nat);
        }
        let hash_functions_num = hash_count(capacity, expected_inserts_number);
        Some(
            BloomFilter {
                bitarray: bitarray::BitArray::new(capacity),
                hash_functions_num,
            },
        )
    }

    /// The number of bit positions derived per insert or contains call.
    pub fn hash_functions_num(&self) -> (r: usize)
        ensures
            r == self.k(),
    {
        self.hash_functions_num
    }

    /// Insert an item: set each of its k probed bits. Every bit already set
    /// stays set, and no bit outside the item's probed positions changes.
    pub fn insert(&mut self, data: &[u8])
        requires
            old(self).wf(),
        ensures
            final(self).wf(),
            final(self).k() == old(self).k(),
            final(self)@ == spec_insert(old(self)@, data@, old(self).k()),
    {
        let ghost orig = self@;
        let ghost n = self@.len();
        proof {
            Self::lemma_capacity_mask(n);
        }
        let num_bits = self.bitarray.num_bits();
        let mask = (num_bits as u64) - 1;
        let mut hashes_iter = HashesIter::new(data, self.hash_functions_num, mask);
        while hashes_iter.cur_iter < hashes_iter.iters
            invariant
                hashes_iter.wf(),
                hashes_iter.data@ == data@,
                hashes_iter.iters == self.hash_functions_num,
                hashes_iter.n() == n,
                self.wf(),
                self@.len() == n,
                orig.len() == n,
                self.hash_functions_num == old(self).hash_functions_num,
                hashes_iter.cur_iter <= self.hash_functions_num,
                forall|b: int|
                    0 <= b < n ==> self@[b] == (orig[b] || exists|i: nat|
                        i < hashes_iter.cur_iter && #[trigger] bit_index_of(data@, n, i) == b),
            decreases hashes_iter.iters - hashes_iter.cur_iter,
        {
            let ghost cur = hashes_iter.cur_iter as nat;
            match hashes_iter.next() {
                Option::Some(h) => {
                    let ghost prev = self@;
                    self.bitarray.set(h as usize);
                    proof {
                        assert forall|b: int| 0 <= b < n implies self@[b] == (orig[b]
                            || exists|i: nat|
                            i < hashes_iter.cur_iter && #[trigger] bit_index_of(data@, n, i)
                                == b) by {
                            assert(hashes_iter.cur_iter == cur + 1);
                            if b == h {
                                assert(bit_index_of(data@, n, cur) == b);
                                assert(cur < hashes_iter.cur_iter && bit_index_of(data@, n, cur)
                                    == b);
                                assert(self@[b]);
                            } else {
                                assert(self@[b] == prev[b]);
                                if prev[b] && !orig[b] {
                                    let i0 = choose|i: nat|
                                        i < cur && #[trigger] bit_index_of(data@, n, i) == b;
                                    assert(i0 < hashes_iter.cur_iter && bit_index_of(data@, n, i0)
                                        == b);
                                }
                                if exists|i: nat|
                                    i < hashes_iter.cur_iter && #[trigger] bit_index_of(
                                        data@,
                                        n,
                                        i,
                                    ) == b {
                                    let i0 = choose|i: nat|
                                        i < hashes_iter.cur_iter && #[trigger] bit_index_of(
                                            data@,
                                            n,
                                            i,
                                        ) == b;
                                    assert(i0 != cur);
                                    assert(i0 < cur && bit_index_of(data@, n, i0) == b);
                                }
                            }
                        }
                    }
                },
                Option::None => {},
            }
        }
        proof {
            let k = old(self).k();
            assert(hashes_iter.cur_iter == k);
            assert(orig.len() == n);
            assert forall|b: int| 0 <= b < n implies self@[b] == spec_insert(orig, data@, k)[b] by {
                assert(spec_insert(orig, data@, k)[b] == (orig[b] || exists|i: nat|
                    i < k && #[trigger] bit_index_of(data@, orig.len(), i) == b));
                assert(self@[b] == (orig[b] || exists|i: nat|
                    i < hashes_iter.cur_iter && #[trigger] bit_index_of(data@, n, i) == b));
                if self@[b] && !orig[b] {
                    let i0 = choose|i: nat|
                        i < hashes_iter.cur_iter && #[trigger] bit_index_of(data@, n, i) == b;
                    assert(i0 < k && bit_index_of(data@, orig.len(), i0) == b);
                }
                if exists|i: nat| i < k && #[trigger] bit_index_of(data@, orig.len(), i) == b {
                    let i0 = choose|i: nat|
                        i < k && #[trigger] bit_index_of(data@, orig.len(), i) == b;
                    assert(i0 < hashes_iter.cur_iter && bit_index_of(data@, n, i0) == b);
                }
            }
            assert(self@ =~= spec_insert(orig, data@, k));
        }
    }

    /// Whether the item may have been inserted: true exactly when every one
    /// of its k probed bits is set. An inserted item is always reported
    /// present; an item never inserted may still be reported present (a
    /// false positive), never the other way round.
    pub fn contains(&self, data: &[u8]) -> (r: bool)
        requires
            self.wf(),
        ensures
            r == spec_contains(self@, data@, self.k()),
    {
        let ghost n = self@.len();
        proof {
            Self::lemma_capacity_mask(n);
        }
        let num_bits = self.bitarray.num_bits();
        let mask = (num_bits as u64) - 1;
        let mut hashes_iter = HashesIter::new(data, self.hash_functions_num, mask);
        loop
            invariant
                hashes_iter.wf(),
                hashes_iter.data@ == data@,
                hashes_iter.iters == self.hash_functions_num,
                hashes_iter.n() == n,
                self.wf(),
                self@.len() == n,
                forall|i: nat|
                    i < hashes_iter.cur_iter ==> self@[#[trigger] bit_index_of(
                        data@,
                        n,
                        i,
                    ) as int],
            ensures
                forall|i: nat|
                    i < self.hash_functions_num ==> self@[#[trigger] bit_index_of(
                        data@,
                        n,
                        i,
                    ) as int],
            decreases hashes_iter.iters - hashes_iter.cur_iter,
        {
            let ghost cur = hashes_iter.cur_iter as nat;
            match hashes_iter.next() {
                Option::Some(h) => {
                    if !self.bitarray.get(h as usize) {
                        proof {
                            assert(!self@[bit_index_of(data@, self@.len(), cur) as int]);
                            assert(cur < self.k());
                        }
                        return false;
                    }
                },
                Option::None => {
                    break ;
                },
            }
        }
        proof {
            assert forall|i: nat| i < self.k() implies self@[#[trigger] bit_index_of(
                data@,
                self@.len(),
                i,
            ) as int] by {
                assert(self@[bit_index_of(data@, n, i) as int]);
            }
        }
        true
    }
}

/// The bits of a filter after inserting each of `items` in order.
pub open spec fn spec_insert_all(bits: Seq<bool>, items: Seq<Seq<u8>>, k: nat) -> Seq<bool>
    decreases items.len(),
{
    if items.len() == 0 {
        bits
    } else {
        spec_insert_all(spec_insert(bits, items[0], k), items.drop_first(), k)
    }
}

/// Law: an insert sets every one of the inserted item's probed bits, so the
/// item is reported present right afterwards.
pub proof fn lemma_insert_sets_own_bits(bits: Seq<bool>, data: Seq<u8>, k: nat)
    requires
        bits.len() >= 1,
    ensures
        spec_contains(spec_insert(bits, data, k), data, k),
{
    let post = spec_insert(bits, data, k);
    assert forall|i: nat| i < k implies post[#[trigger] bit_index_of(data, post.len(), i) as int] by {
        lemma_mod_bound(
            hash_pair_of(data).0 + i * hash_pair_of(data).1,
            bits.len() as int,
        );
        assert(bit_index_of(data, bits.len(), i) < bits.len());
    }
}

/// Law (monotonicity): an insert never clears a bit; bits only flip from
/// zero to one over a filter's lifetime.
pub proof fn lemma_insert_monotone(bits: Seq<bool>, data: Seq<u8>, k: nat, b: int)
    requires
        0 <= b < bits.len(),
        bits[b],
    ensures
        spec_insert(bits, data, k)[b],
{
}

/// Law (monotonicity of answers): an item reported present is still reported
/// present after any further insert; contains never flips from true to
/// false.
pub proof fn lemma_contains_monotone(bits: Seq<bool>, x: Seq<u8>, y: Seq<u8>, k: nat)
    requires
        bits.len() >= 1,
        spec_contains(bits, x, k),
    ensures
        spec_contains(spec_insert(bits, y, k), x, k),
{
    let post = spec_insert(bits, y, k);
    assert forall|i: nat| i < k implies post[#[trigger] bit_index_of(x, post.len(), i) as int] by {
        lemma_mod_bound(hash_pair_of(x).0 + i * hash_pair_of(x).1, bits.len() as int);
        assert(bits[bit_index_of(x, bits.len(), i) as int]);
    }
}

/// Inserting a sequence of items keeps the filter's length and never clears
/// a set bit or un-answers a contained item.
pub proof fn lemma_insert_all_preserves_contains(bits: Seq<bool>, items: Seq<Seq<u8>>, x: Seq<u8>, k: nat)
    requires
        bits.len() >= 1,
        spec_contains(bits, x, k),
    ensures
        spec_insert_all(bits, items, k).len() == bits.len(),
        spec_contains(spec_insert_all(bits, items, k), x, k),
    decreases items.len(),
{
    if items.len() > 0 {
        lemma_contains_monotone(bits, x, items[0], k);
        lemma_insert_all_preserves_contains(spec_insert(bits, items[0], k), items.drop_first(), x, k);
    }
}

/// Law (no false negatives): after any sequence of inserts that includes an
/// item, the filter reports that item present, whatever else was inserted
/// before or after it.
pub proof fn lemma_no_false_negatives(bits: Seq<bool>, items: Seq<Seq<u8>>, x: Seq<u8>, k: nat)
    requires
        bits.len() >= 1,
        items.contains(x),
    ensures
        spec_contains(spec_insert_all(bits, items, k), x, k),
    decreases items.len(),
{
    if items[0] == x {
        lemma_insert_sets_own_bits(bits, x, k);
        lemma_insert_all_preserves_contains(spec_insert(bits, x, k), items.drop_first(), x, k);
    } else {
        assert(items.drop_first().contains(x)) by {
            let j = choose|j: int| 0 <= j < items.len() && items[j] == x;
            assert(items.drop_first()[j - 1] == x);
        }
        lemma_no_false_negatives(spec_insert(bits, items[0], k), items.drop_first(), x, k);
    }
}

/// Law (idempotence): inserting the same item again leaves the bits exactly
/// as they were after the first insert.
pub proof fn lemma_insert_idempotent(bits: Seq<bool>, data: Seq<u8>, k: nat)
    ensures
        spec_insert(spec_insert(bits, data, k), data, k) == spec_insert(bits, data, k),
{
    let once = spec_insert(bits, data, k);
    let twice = spec_insert(once, data, k);
    assert forall|b: int| 0 <= b < bits.len() implies twice[b] == once[b] by {
        if twice[b] && !once[b] {
            let i0 = choose|i: nat| i < k && #[trigger] bit_index_of(data, once.len(), i) == b;
            assert(bit_index_of(data, bits.len(), i0) == b);
        }
    }
    assert(twice =~= once);
}

/// Law (empty filter): a freshly constructed filter, probing at least one
/// position per item, reports every item absent.
pub proof fn lemma_empty_filter(n: nat, x: Seq<u8>, k: nat)
    requires
        n >= 1,
        k >= 1,
    ensures
        !spec_contains(Seq::new(n, |b: int| false), x, k),
{
    let bits = Seq::new(n, |b: int| false);
    lemma_mod_bound(hash_pair_of(x).0 + 0 * hash_pair_of(x).1, n as int);
    assert(bit_index_of(x, n, 0) < n);
    assert(!bits[bit_index_of(x, bits.len(), 0) as int]);
}

} // verus!
