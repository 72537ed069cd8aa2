use vstd::arithmetic::power2::{lemma2_to64, lemma_pow2_pos, lemma_pow2_unfold, pow2};
use vstd::bits::lemma_u64_shl_is_mul;
use vstd::prelude::*;
use vstd::std_specs::bits::u64_leading_zeros;

verus! {

/// Number of bits in one word of the set.
pub const WORD_BITS: usize = 64;

/// Number of bucket slots: bucket `i` holds `2^i` words.
pub const BUCKET_COUNT: usize = 64;

/// Position of the highest set bit of a positive number, `floor(log2(n))`.
pub open spec fn log2(n: nat) -> nat
    decreases n,
{
    if n <= 1 {
        0
    } else {
        1 + log2(n / 2)
    }
}

proof fn lemma_log2_bounds(n: nat)
    requires
        n >= 1,
    ensures
        pow2(log2(n)) <= n < pow2(log2(n) + 1),
    decreases n,
{
    lemma_pow2_unfold(log2(n) + 1);
    if n > 1 {
        lemma_log2_bounds(n / 2);
        lemma_pow2_unfold(log2(n));
    } else {
        lemma_pow2_unfold(1);
        lemma2_to64();
    }
}

proof fn lemma_leading_zeros_log2(n: u64)
    requires
        n >= 1,
    ensures
        64 - u64_leading_zeros(n) == log2(n as nat) + 1,
    decreases n,
{
    reveal(u64_leading_zeros);
    assert(u64_leading_zeros(0) == 64);
    if n > 1 {
        lemma_leading_zeros_log2(n / 2);
        assert(u64_leading_zeros(n) == u64_leading_zeros(n / 2) - 1);
        assert(log2(n as nat) == 1 + log2((n / 2) as nat));
    } else {
        assert(u64_leading_zeros(1) == u64_leading_zeros(0) - 1);
    }
}

/// Maps a word index `k` to `(bucket, bucket_size, offset)`: the bucket is
/// `floor(log2(k + 1))`, it holds `2^bucket` words, and the word sits at
/// `offset = k - (2^bucket - 1)` inside it.
pub fn index(k: usize) -> (r: (usize, usize, usize))
    requires
        k < usize::MAX,
    ensures
        r.0 == log2((k + 1) as nat),
        r.0 < BUCKET_COUNT,
        r.1 == pow2(r.0 as nat),
        r.2 == k + 1 - r.1,
        r.2 < r.1,
{
    let lz = ((k + 1) as u64).leading_zeros();
    proof {
        lemma_leading_zeros_log2((k + 1) as u64);
        lemma_log2_bounds((k + 1) as nat);
        lemma_pow2_unfold(log2((k + 1) as nat) + 1);
        lemma2_to64();
    }
    let bucket = (63 - lz) as usize;
    proof {
        vstd::bits::lemma_u64_pow2_no_overflow(bucket as nat);
        lemma_u64_shl_is_mul(1, bucket as u64);
    }
    let size = (1u64 << (bucket as u64)) as usize;
    let offset = k - (size - 1);
    (bucket, size, offset)
}

/// The bucket that holds value `v`.
pub open spec fn bucket_of(v: usize) -> nat {
    log2((v / WORD_BITS) as nat + 1)
}

/// Whether bit `s` of word `w` is set.
pub open spec fn bit_of(w: u64, s: nat) -> bool {
    (w >> (s as u64)) & 1u64 == 1u64
}

proof fn lemma_bits(w: u64, s: u64, t: u64)
    requires
        s < 64,
        t < 64,
    ensures
        (w & (1u64 << s) != 0) == bit_of(w, s as nat),
        bit_of(w | (1u64 << s), t as nat) == (bit_of(w, t as nat) || s == t),
        bit_of(w & !(1u64 << s), t as nat) == (bit_of(w, t as nat) && s != t),
        !bit_of(0u64, t as nat),
{
    assert((w & (1u64 << s) != 0) == ((w >> s) & 1u64 == 1u64)) by (bit_vector)
        requires
            s < 64,
    ;
    assert((((w | (1u64 << s)) >> t) & 1u64 == 1u64) == (((w >> t) & 1u64 == 1u64) || s == t))
        by (bit_vector)
        requires
            s < 64,
            t < 64,
    ;
    assert((((w & !(1u64 << s)) >> t) & 1u64 == 1u64) == (((w >> t) & 1u64 == 1u64) && s != t))
        by (bit_vector)
        requires
            s < 64,
            t < 64,
    ;
    assert((0u64 >> t) & 1u64 != 1u64) by (bit_vector);
}

/// A sparse, unbounded set of `usize` values, stored as bits of 64-bit words.
///
/// Word `k` holds the values `64 * k .. 64 * k + 64`. Words are grouped in
/// buckets of doubling size: bucket `i` holds `2^i` words and is allocated,
/// zeroed, the first time a value that falls in it is added. A bucket, once
/// allocated, is never moved or resized; only `clear` releases buckets.
///
/// Changes take `&mut self`: each one is proved against the set's contents,
/// and callers that share a set between threads serialise changes themselves.
/// Allocation failure aborts the process before any bit is changed.
pub struct AtomicBitSet {
    buckets: Vec<Vec<u64>>,
}

impl AtomicBitSet {
    /// Every slot is either unallocated (no words) or holds exactly `2^i` words.
    pub closed spec fn wf(&self) -> bool {
        &&& self.buckets@.len() == BUCKET_COUNT
        &&& forall|i: int|
            0 <= i < BUCKET_COUNT ==> (#[trigger] self.buckets@[i]@.len() == 0
                || self.buckets@[i]@.len() == pow2(i as nat))
    }

    /// Whether bucket `i` has been allocated.
    pub closed spec fn allocated(&self, i: int) -> bool {
        self.buckets@[i]@.len() != 0
    }

    /// Word number `k`; a word of an unallocated bucket reads as zero.
    spec fn word(&self, k: nat) -> u64 {
        let b = log2(k + 1);
        let off = k + 1 - pow2(b);
        if b < BUCKET_COUNT && 0 <= off < self.buckets@[b as int]@.len() {
            self.buckets@[b as int]@[off as int]
        } else {
            0
        }
    }

    spec fn has(&self, v: usize) -> bool {
        bit_of(self.word((v / WORD_BITS) as nat), (v % WORD_BITS) as nat)
    }
}

impl View for AtomicBitSet {
    type V = Set<usize>;

    closed spec fn view(&self) -> Set<usize> {
        Set::new(|v: usize| self.has(v))
    }
}

impl AtomicBitSet {
    /// Creates an empty set with no bucket allocated.
    pub fn new() -> (r: Self)
        ensures
            r.wf(),
            r@ == Set::<usize>::empty(),
            forall|i: int| 0 <= i < BUCKET_COUNT ==> !#[trigger] r.allocated(i),
    {
        let mut buckets: Vec<Vec<u64>> = Vec::new();
        let mut i: usize = 0;
        while i < BUCKET_COUNT
            invariant
                i <= BUCKET_COUNT,
                buckets@.len() == i,
                forall|j: int| 0 <= j < i ==> (#[trigger] buckets@[j])@.len() == 0,
            decreases BUCKET_COUNT - i,
        {
            buckets.push(Vec::new());
            i = i + 1;
        }
        let r = AtomicBitSet { buckets };
        assert(r@ =~= Set::<usize>::empty()) by {
            assert forall|v: usize| !r.has(v) by {
                let k = (v / WORD_BITS) as nat;
                let b = log2(k + 1);
                if b < BUCKET_COUNT {
                    assert(r.buckets@[b as int]@.len() == 0);
                }
                assert(r.word(k) == 0);
                lemma_bits(0, 0, (v % WORD_BITS) as u64);
            }
        }
        r
    }
}

impl AtomicBitSet {
    /// Writing word `w` at word index `k` (bucket `b`, offset `off`), with the
    /// bucket's other words kept (or zero when it was unallocated), changes
    /// word `k` and no other word.
    proof fn lemma_write_word(old_set: &Self, new_set: &Self, k: nat, b: int, off: int, w: u64)
        requires
            old_set.wf(),
            new_set.buckets@.len() == BUCKET_COUNT,
            b == log2(k + 1),
            0 <= b < BUCKET_COUNT,
            off == k + 1 - pow2(b as nat),
            0 <= off < pow2(b as nat),
            forall|i: int|
                0 <= i < BUCKET_COUNT && i != b ==> #[trigger] new_set.buckets@[i]@
                    == old_set.buckets@[i]@,
            new_set.buckets@[b]@.len() == pow2(b as nat),
            new_set.buckets@[b]@[off] == w,
            forall|j: int|
                0 <= j < pow2(b as nat) && j != off ==> #[trigger] new_set.buckets@[b]@[j] == (
                if old_set.allocated(b) {
                    old_set.buckets@[b]@[j]
                } else {
                    0u64
                }),
        ensures
            new_set.wf(),
            new_set.word(k) == w,
            forall|k2: nat| k2 != k ==> #[trigger] new_set.word(k2) == old_set.word(k2),
    {
        assert(new_set.wf()) by {
            assert forall|i: int| 0 <= i < BUCKET_COUNT implies (#[trigger] new_set.buckets@[i]@.len()
                == 0 || new_set.buckets@[i]@.len() == pow2(i as nat)) by {
                if i != b {
                    assert(old_set.buckets@[i]@.len() == 0 || old_set.buckets@[i]@.len() == pow2(i as nat));
                }
            }
        }
        assert forall|k2: nat| k2 != k implies #[trigger] new_set.word(k2) == old_set.word(k2) by {
            let b2 = log2(k2 + 1);
            let off2 = k2 + 1 - pow2(b2);
            if b2 < BUCKET_COUNT {
                assert(old_set.buckets@[b2 as int]@.len() == 0 || old_set.buckets@[b2 as int]@.len()
                    == pow2(b2));
                if b2 == b {
                    assert(off2 != off);
                    if 0 <= off2 < pow2(b as nat) {
                        assert(new_set.buckets@[b]@[off2] == (if old_set.allocated(b) {
                            old_set.buckets@[b]@[off2]
                        } else {
                            0u64
                        }));
                    }
                } else {
                    assert(new_set.buckets@[b2 as int]@ == old_set.buckets@[b2 as int]@);
                }
            }
        }
    }

    /// How the membership of every value follows a change of one word.
    proof fn lemma_view_after_write(old_set: &Self, new_set: &Self, v: usize, w: u64)
        requires
            new_set.word((v / WORD_BITS) as nat) == w,
            forall|k2: nat|
                k2 != (v / WORD_BITS) as nat ==> #[trigger] new_set.word(k2) == old_set.word(k2),
        ensures
            forall|v2: usize|
                #![trigger new_set.has(v2)]
                v2 / WORD_BITS != v / WORD_BITS ==> new_set.has(v2) == old_set.has(v2),
            forall|v2: usize|
                #![trigger new_set.has(v2)]
                v2 / WORD_BITS == v / WORD_BITS ==> new_set.has(v2) == bit_of(
                    w,
                    (v2 % WORD_BITS) as nat,
                ),
    {
        assert forall|v2: usize| v2 / WORD_BITS != v / WORD_BITS implies #[trigger] new_set.has(v2)
            == old_set.has(v2) by {
            assert(new_set.word((v2 / WORD_BITS) as nat) == old_set.word((v2 / WORD_BITS) as nat));
        }
    }

    /// Adds `v`; returns whether it was already present.
    ///
    /// Allocates the bucket that holds `v` if it is not allocated yet; no
    /// other bucket is touched.
    pub fn add(&mut self, v: usize) -> (r: bool)
        requires
            old(self).wf(),
        ensures
            final(self).wf(),
            r == old(self)@.contains(v),
            final(self)@ == old(self)@.insert(v),
            final(self).allocated(bucket_of(v) as int),
            forall|i: int|
                0 <= i < BUCKET_COUNT && i != bucket_of(v) ==> #[trigger] final(self).allocated(i)
                    == old(self).allocated(i),
    {
        let k = v / WORD_BITS;
        let sub = v % WORD_BITS;
        let (b, size, off) = index(k);
        self.buckets.push(Vec::new());
        let mut words = self.buckets.swap_remove(b);
        assert(words@.len() == 0 || words@.len() == pow2(b as nat));
        if words.len() == 0 {
            words = vec![0u64; size];
        }
        let mask = 1u64 << (sub as u64);
        let prev = words[off];
        let ghost before = words@;
        words.set(off, prev | mask);
        self.buckets.set(b, words);
        proof {
            let o = &*old(self);
            let n = &*self;
            assert(o.word(k as nat) == prev);
            Self::lemma_write_word(o, n, k as nat, b as int, off as int, prev | mask);
            Self::lemma_view_after_write(o, n, v, prev | mask);
            lemma_bits(prev, sub as u64, sub as u64);
            assert forall|v2: usize| #[trigger] n.has(v2) == (o.has(v2) || v2 == v) by {
                if v2 / WORD_BITS == v / WORD_BITS {
                    lemma_bits(prev, sub as u64, (v2 % WORD_BITS) as u64);
                }
            }
            assert(n@ =~= o@.insert(v));
            lemma_pow2_pos(b as nat);
            assert forall|i: int| 0 <= i < BUCKET_COUNT && i != bucket_of(v) implies #[trigger] n.allocated(i)
                == o.allocated(i) by {
                assert(n.buckets@[i]@ == o.buckets@[i]@);
            }
        }
        prev & mask != 0
    }

    /// Removes `v`; returns whether it was present.
    ///
    /// Never allocates: when the bucket that would hold `v` is unallocated,
    /// `v` is absent and `false` is returned at once.
    pub fn remove(&mut self, v: usize) -> (r: bool)
        requires
            old(self).wf(),
        ensures
            final(self).wf(),
            r == old(self)@.contains(v),
            final(self)@ == old(self)@.remove(v),
            forall|i: int|
                0 <= i < BUCKET_COUNT ==> #[trigger] final(self).allocated(i) == old(self).allocated(
                    i,
                ),
    {
        let k = v / WORD_BITS;
        let sub = v % WORD_BITS;
        let (b, size, off) = index(k);
        if self.buckets[b].len() == 0 {
            proof {
                assert(self.word(k as nat) == 0);
                lemma_bits(0, 0, sub as u64);
                assert(self@ =~= self@.remove(v));
            }
            return false;
        }
        self.buckets.push(Vec::new());
        let mut words = self.buckets.swap_remove(b);
        assert(words@.len() == pow2(b as nat));
        let mask = 1u64 << (sub as u64);
        let prev = words[off];
        words.set(off, prev & !mask);
        self.buckets.set(b, words);
        proof {
            let o = &*old(self);
            let n = &*self;
            assert(o.word(k as nat) == prev);
            Self::lemma_write_word(o, n, k as nat, b as int, off as int, prev & !mask);
            Self::lemma_view_after_write(o, n, v, prev & !mask);
            lemma_bits(prev, sub as u64, sub as u64);
            assert forall|v2: usize| #[trigger] n.has(v2) == (o.has(v2) && v2 != v) by {
                if v2 / WORD_BITS == v / WORD_BITS {
                    lemma_bits(prev, sub as u64, (v2 % WORD_BITS) as u64);
                }
            }
            assert(n@ =~= o@.remove(v));
            assert forall|i: int| 0 <= i < BUCKET_COUNT implies #[trigger] n.allocated(i)
                == o.allocated(i) by {
                if i == b {
                    lemma_pow2_pos(b as nat);
                }
            }
        }
        prev & mask != 0
    }

    /// Whether `v` is in the set.
    pub fn contains(&self, v: usize) -> (r: bool)
        requires
            self.wf(),
        ensures
            r == self@.contains(v),
    {
        let k = v / WORD_BITS;
        let sub = v % WORD_BITS;
        let (b, _size, off) = index(k);
        let words = &self.buckets[b];
        if words.len() == 0 {
            proof {
                assert(self.word(k as nat) == 0);
                lemma_bits(0, 0, sub as u64);
            }
            return false;
        }
        assert(words@.len() == pow2(b as nat));
        let mask = 1u64 << (sub as u64);
        let w = words[off];
        proof {
            assert(self.word(k as nat) == w);
            lemma_bits(w, sub as u64, sub as u64);
        }
        w & mask != 0
    }

    /// Empties the set and releases every allocated bucket; the set is then
    /// as one made by `new`.
    pub fn clear(&mut self)
        requires
            old(self).wf(),
        ensures
            final(self).wf(),
            final(self)@ == Set::<usize>::empty(),
            forall|i: int| 0 <= i < BUCKET_COUNT ==> !#[trigger] final(self).allocated(i),
    {
        let mut i: usize = 0;
        while i < BUCKET_COUNT
            invariant
                i <= BUCKET_COUNT,
                self.buckets@.len() == BUCKET_COUNT,
                forall|j: int| 0 <= j < i ==> (#[trigger] self.buckets@[j])@.len() == 0,
            decreases BUCKET_COUNT - i,
        {
            self.buckets.set(i, Vec::new());
            i = i + 1;
        }
        proof {
            assert forall|v: usize| !self.has(v) by {
                let k = (v / WORD_BITS) as nat;
                let b = log2(k + 1);
                if b < BUCKET_COUNT {
                    assert(self.buckets@[b as int]@.len() == 0);
                }
                lemma_bits(0, 0, (v % WORD_BITS) as u64);
            }
            assert(self@ =~= Set::<usize>::empty());
        }
    }
}

/// The position of the highest set bit of `val`, or `None` when `val` is 0.
pub fn most_sig_set_bit(val: usize) -> (r: Option<u32>)
    ensures
        r is None <==> val == 0,
        r matches Some(m) ==> m < 64 && bit_of(val as u64, m as nat) && forall|j: nat|
            m < j < 64 ==> !#[trigger] bit_of(val as u64, j),
{
    let x = val as u64;
    let mut i: u32 = 0;
    let mut ret: Option<u32> = None;
    // the bits below `i`
    let ghost mut low: u64 = 0;
    assert(vstd::prelude::sub(1u64 << 0u64, 1u64) == 0u64 && x & 0u64 == 0u64) by (bit_vector);
    while i < 64
        invariant
            i <= 64,
            i < 64 ==> low == vstd::prelude::sub(1u64 << (i as u64), 1u64),
            i == 64 ==> low == u64::MAX,
            ret is None ==> x & low == 0,
            ret is None ==> forall|j: nat| j < i ==> !#[trigger] bit_of(x, j),
            ret matches Some(m) ==> m < i && bit_of(x, m as nat) && forall|j: nat|
                m < j < i ==> !#[trigger] bit_of(x, j),
        decreases 64 - i,
    {
        let ghost ii = i as u64;
        proof {
            lemma_bits(x, ii, ii);
            assert((x & low == 0 && x & (1u64 << ii) == 0) ==> x & (low | (1u64 << ii)) == 0)
                by (bit_vector);
            if ii < 63 {
                assert(ii < 63 ==> vstd::prelude::sub(1u64 << ii, 1u64) | (1u64 << ii) == vstd::prelude::sub(
                    1u64 << vstd::prelude::add(ii, 1u64),
                    1u64,
                )) by (bit_vector);
            } else {
                assert(ii == 63 ==> vstd::prelude::sub(1u64 << ii, 1u64) | (1u64 << ii) == 0xffff_ffff_ffff_ffffu64)
                    by (bit_vector);
            }
            low = low | (1u64 << ii);
        }
        if x & (1u64 << (i as u64)) != 0 {
            ret = Some(i);
        }
        i = i + 1;
    }
    proof {
        if val == 0 {
            assert(x == 0);
            if let Some(m) = ret {
                lemma_bits(0, 0, m as u64);
            }
        } else {
            assert(x & 0xffff_ffff_ffff_ffffu64 == x) by (bit_vector);
        }
    }
    ret
}

/// Adding an absent value reports `false` and makes it present; adding it
/// once more reports `true` and leaves the set as it was.
pub proof fn law_add_idempotent(
    s0: AtomicBitSet,
    s1: AtomicBitSet,
    s2: AtomicBitSet,
    v: usize,
    r1: bool,
    r2: bool,
)
    requires
        !s0@.contains(v),
        r1 == s0@.contains(v),
        s1@ == s0@.insert(v),
        r2 == s1@.contains(v),
        s2@ == s1@.insert(v),
    ensures
        !r1,
        r2,
        s1@.contains(v),
        s2@ == s1@,
{
    assert(s2@ =~= s1@);
}

/// Removing an absent value reports `false` and leaves it absent; removing a
/// value just added reports `true` and makes it absent, and a second removal
/// reports `false`.
pub proof fn law_remove_after_add(
    s0: AtomicBitSet,
    s1: AtomicBitSet,
    s2: AtomicBitSet,
    s3: AtomicBitSet,
    v: usize,
    r2: bool,
    r3: bool,
)
    requires
        s1@ == s0@.insert(v),
        r2 == s1@.contains(v),
        s2@ == s1@.remove(v),
        r3 == s2@.contains(v),
        s3@ == s2@.remove(v),
    ensures
        r2,
        !s2@.contains(v),
        !r3,
        s3@ == s2@,
{
    assert(s3@ =~= s2@);
}

/// Removing a value that is absent reports `false` and changes nothing.
pub proof fn law_remove_absent(s0: AtomicBitSet, s1: AtomicBitSet, v: usize, r: bool)
    requires
        !s0@.contains(v),
        r == s0@.contains(v),
        s1@ == s0@.remove(v),
    ensures
        !r,
        !s1@.contains(v),
        s1@ == s0@,
{
    assert(s1@ =~= s0@);
}

/// Adding `v1` does not change whether any other value `v2` is present.
pub proof fn law_add_independent(s0: AtomicBitSet, s1: AtomicBitSet, v1: usize, v2: usize)
    requires
        s1@ == s0@.insert(v1),
        v2 != v1,
    ensures
        s1@.contains(v2) == s0@.contains(v2),
{
}

/// After `clear`, no value is present, and the set holds and reports what a
/// new set does under the same additions.
pub proof fn law_clear_like_new(
    cleared: AtomicBitSet,
    fresh: AtomicBitSet,
    a: AtomicBitSet,
    b: AtomicBitSet,
    v: usize,
)
    requires
        cleared@ == Set::<usize>::empty(),
        fresh@ == Set::<usize>::empty(),
        a@ == cleared@.insert(v),
        b@ == fresh@.insert(v),
    ensures
        !cleared@.contains(v),
        cleared@ == fresh@,
        a@ == b@,
        cleared@.contains(v) == fresh@.contains(v),
{
}

} // verus!
