use vstd::prelude::*;
use vstd::std_specs::bits::axiom_u64_trailing_zeros;

verus! {

/// Whether bit `i` of `x` is set.
pub open spec fn bit(x: u64, i: u64) -> bool {
    (x >> i) & 1u64 == 1u64
}

/// The number of set bits of `x` below position `k`.
pub open spec fn ones_below(x: u64, k: nat) -> nat
    decreases k,
{
    if k == 0 {
        0
    } else {
        ones_below(x, (k - 1) as nat) + if bit(x, (k - 1) as u64) {
            1nat
        } else {
            0nat
        }
    }
}

/// The elements below `k` of the word `x`.
pub open spec fn elements_below(x: u64, k: nat) -> Set<u32> {
    Set::new(|e: u32| e < k && bit(x, e as u64))
}

/// The integers below `n`.
pub open spec fn below(n: nat) -> Set<u32> {
    Set::new(|e: u32| e < n)
}

/// Relies on u64::count_ones: the number of ones in the binary
/// representation of `x`.
#[verifier::external_body]
fn count_ones(x: u64) -> (r: u32)
    ensures
        r as nat == ones_below(x, 64),
{
    x.count_ones()
}

proof fn lemma_bit_and(a: u64, b: u64, i: u64)
    by (bit_vector)
    requires
        i < 64,
    ensures
        (((a & b) >> i) & 1u64 == 1u64) == (((a >> i) & 1u64 == 1u64) && ((b >> i) & 1u64 == 1u64)),
{
}

proof fn lemma_bit_or(a: u64, b: u64, i: u64)
    by (bit_vector)
    requires
        i < 64,
    ensures
        (((a | b) >> i) & 1u64 == 1u64) == (((a >> i) & 1u64 == 1u64) || ((b >> i) & 1u64 == 1u64)),
{
}

proof fn lemma_bit_not(a: u64, i: u64)
    by (bit_vector)
    requires
        i < 64,
    ensures
        (((!a) >> i) & 1u64 == 1u64) == !((a >> i) & 1u64 == 1u64),
{
}

proof fn lemma_bit_single(el: u64, i: u64)
    by (bit_vector)
    requires
        i < 64,
        el < 64,
    ensures
        (((1u64 << el) >> i) & 1u64 == 1u64) == (i == el),
{
}

proof fn lemma_bit_xor_single(a: u64, el: u64, i: u64)
    by (bit_vector)
    requires
        i < 64,
        el < 64,
    ensures
        (((a ^ (1u64 << el)) >> i) & 1u64 == 1u64) == (((a >> i) & 1u64 == 1u64) != (i == el)),
{
}

proof fn lemma_bit_low_mask(k: u64, i: u64)
    by (bit_vector)
    requires
        i < 64,
        k < 64,
    ensures
        ((((1u64 << k) - 1u64) as u64 >> i) & 1u64 == 1u64) == (i < k),
{
}

proof fn lemma_bit_zero(i: u64)
    by (bit_vector)
    ensures
        (0u64 >> i) & 1u64 != 1u64,
{
}

proof fn lemma_or_single_unchanged(a: u64, el: u64)
    by (bit_vector)
    requires
        el < 64,
    ensures
        ((a | (1u64 << el)) == a) == ((a >> el) & 1u64 == 1u64),
{
}

/// The elements of a word below `k` are finite and as many as its ones
/// below `k`.
proof fn lemma_elements_below(x: u64, k: nat)
    requires
        k <= 64,
    ensures
        elements_below(x, k).finite(),
        elements_below(x, k).len() == ones_below(x, k),
    decreases k,
{
    if k == 0 {
        assert(elements_below(x, 0) =~= Set::empty());
    } else {
        let m = (k - 1) as nat;
        lemma_elements_below(x, m);
        if bit(x, m as u64) {
            assert(elements_below(x, k) =~= elements_below(x, m).insert(m as u32));
        } else {
            assert(elements_below(x, k) =~= elements_below(x, m));
        }
    }
}

/// The integers below `n` are finite and `n` of them.
proof fn lemma_below(n: nat)
    requires
        n <= u32::MAX as nat + 1,
    ensures
        below(n).finite(),
        below(n).len() == n,
    decreases n,
{
    if n == 0 {
        assert(below(0) =~= Set::empty());
    } else {
        lemma_below((n - 1) as nat);
        assert(below(n) =~= below((n - 1) as nat).insert((n - 1) as u32));
    }
}

/// A set of the integers `0..64`, held in the bits of one word.
#[derive(Clone, Copy, PartialEq, Eq, Structural, Debug)]
pub struct TinySet(u64);

impl View for TinySet {
    type V = Set<u32>;

    closed spec fn view(&self) -> Set<u32> {
        elements_below(self.0, 64)
    }
}

/// Hands out the elements of a `TinySet` in ascending order.
pub struct TinySetIterator(TinySet);

impl View for TinySetIterator {
    type V = Set<u32>;

    /// The elements not handed out yet.
    closed spec fn view(&self) -> Set<u32> {
        self.0@
    }
}

impl TinySetIterator {
    /// The smallest element not handed out yet, if any.
    pub fn next(&mut self) -> (r: Option<u32>)
        ensures
            r is None ==> old(self)@ == Set::<u32>::empty() && final(self)@ == old(self)@,
            r matches Some(l) ==> old(self)@.contains(l) && (forall|e: u32|
                old(self)@.contains(e) ==> l <= e) && final(self)@ == old(self)@.remove(l),
    {
        self.0.pop_lowest()
    }
}

impl TinySet {
    /// The word that holds the elements as bits.
    pub closed spec fn word(&self) -> u64 {
        self.0
    }

    /// Every element is below 64.
    pub proof fn lemma_bounded(self)
        ensures
            self@.finite(),
            forall|e: u32| self@.contains(e) ==> e < 64,
    {
        lemma_elements_below(self.0, 64);
    }

    /// Iterates over the elements in ascending order.
    pub fn into_iter(self) -> (r: TinySetIterator)
        ensures
            r@ == self@,
    {
        TinySetIterator(self)
    }

    /// Returns an empty `TinySet`.
    pub fn empty() -> (r: TinySet)
        ensures
            r@ == Set::<u32>::empty(),
    {
        let r = TinySet(0u64);
        proof {
            assert forall|e: u32| !r@.contains(e) by {
                lemma_bit_zero(e as u64);
            }
            assert(r@ =~= Set::<u32>::empty());
        }
        r
    }

    /// Removes all elements.
    pub fn clear(&mut self)
        ensures
            final(self)@ == Set::<u32>::empty(),
    {
        *self = TinySet::empty();
    }

    /// Returns the complement of the set in `[0, 64[`.
    fn complement(self) -> (r: TinySet)
        ensures
            r@ == below(64).difference(self@),
    {
        let r = TinySet(!self.0);
        proof {
            assert forall|e: u32| e < 64 implies r@.contains(e) == !self@.contains(e) by {
                lemma_bit_not(self.0, e as u64);
            }
            assert(r@ =~= below(64).difference(self@));
        }
        r
    }

    /// Returns true iff the `TinySet` contains the element `el`.
    pub fn contains(self, el: u32) -> (r: bool)
        requires
            el < 64,
        ensures
            r == self@.contains(el),
    {
        let s = self.intersect(TinySet::singleton(el));
        proof {
            assert(s@.contains(el) == self@.contains(el));
            if !self@.contains(el) {
                assert(s@ =~= Set::<u32>::empty());
            }
        }
        !s.is_empty()
    }

    /// Returns the number of elements in the `TinySet`.
    pub fn len(self) -> (r: u32)
        ensures
            r == self@.len(),
    {
        proof {
            lemma_elements_below(self.0, 64);
        }
        count_ones(self.0)
    }

    /// Returns the intersection of `self` and `other`.
    pub fn intersect(self, other: TinySet) -> (r: TinySet)
        ensures
            r@ == self@.intersect(other@),
    {
        let r = TinySet(self.0 & other.0);
        proof {
            assert forall|e: u32| e < 64 implies r@.contains(e) == (self@.contains(e) && other@.contains(e)) by {
                lemma_bit_and(self.0, other.0, e as u64);
            }
            assert(r@ =~= self@.intersect(other@));
        }
        r
    }

    /// Creates a new `TinySet` containing only one element within `[0; 64[`.
    pub fn singleton(el: u32) -> (r: TinySet)
        requires
            el < 64,
        ensures
            r@ == set![el],
            r.word() == 1u64 << (el as u64),
    {
        let r = TinySet(1u64 << (el as u64));
        proof {
            assert forall|e: u32| e < 64 implies r@.contains(e) == (e == el) by {
                lemma_bit_single(el as u64, e as u64);
            }
            assert(r@ =~= set![el]);
        }
        r
    }

    /// Inserts a new element within `[0..64[`.
    pub fn insert(self, el: u32) -> (r: TinySet)
        requires
            el < 64,
        ensures
            r@ == self@.insert(el),
            r.word() == self.word() | (1u64 << (el as u64)),
    {
        self.union(TinySet::singleton(el))
    }

    /// Inserts a new element within `[0..64[`; returns whether it was absent.
    pub fn insert_mut(&mut self, el: u32) -> (r: bool)
        requires
            el < 64,
        ensures
            final(self)@ == old(self)@.insert(el),
            r == !old(self)@.contains(el),
    {
        let old = *self;
        *self = old.insert(el);
        proof {
            lemma_or_single_unchanged(old.0, el as u64);
        }
        old != *self
    }

    /// Returns the union of two tinysets.
    pub fn union(self, other: TinySet) -> (r: TinySet)
        ensures
            r@ == self@.union(other@),
            r.word() == self.word() | other.word(),
    {
        let r = TinySet(self.0 | other.0);
        proof {
            assert forall|e: u32| e < 64 implies r@.contains(e) == (self@.contains(e) || other@.contains(e)) by {
                lemma_bit_or(self.0, other.0, e as u64);
            }
            assert(r@ =~= self@.union(other@));
        }
        r
    }

    /// Returns true iff the `TinySet` is empty.
    pub fn is_empty(self) -> (r: bool)
        ensures
            r == (self@ == Set::<u32>::empty()),
    {
        proof {
            broadcast use axiom_u64_trailing_zeros;

            if self.0 == 0 {
                assert forall|e: u32| !self@.contains(e) by {
                    lemma_bit_zero(e as u64);
                }
                assert(self@ =~= Set::<u32>::empty());
            } else {
                let tz = self.0.trailing_zeros();
                assert(self@.contains(tz));
            }
        }
        self.0 == 0u64
    }

    /// Returns the lowest element in the `TinySet` and removes it.
    pub fn pop_lowest(&mut self) -> (r: Option<u32>)
        ensures
            r is None ==> old(self)@ == Set::<u32>::empty() && final(self)@ == old(self)@,
            r matches Some(l) ==> old(self)@.contains(l) && (forall|e: u32|
                old(self)@.contains(e) ==> l <= e) && final(self)@ == old(self)@.remove(l),
    {
        if self.is_empty() {
            None
        } else {
            let ghost before = *self;
            let lowest = self.0.trailing_zeros() as u32;
            proof {
                broadcast use axiom_u64_trailing_zeros;

                if before.0 == 0 {
                    assert forall|e: u32| !before@.contains(e) by {
                        lemma_bit_zero(e as u64);
                    }
                    assert(before@ =~= Set::<u32>::empty());
                }

                assert(before@.contains(lowest));
                assert forall|e: u32| before@.contains(e) implies lowest <= e by {
                    if e < lowest {
                        assert((before.0 >> (e as u64)) & 1u64 == 0u64);
                    }
                }
            }
            self.0 ^= TinySet::singleton(lowest).0;
            proof {
                assert forall|e: u32| e < 64 implies self@.contains(e) == (before@.contains(e) && e != lowest) by {
                    lemma_bit_xor_single(before.0, lowest as u64, e as u64);
                }
                assert(self@ =~= before@.remove(lowest));
            }
            Some(lowest)
        }
    }

    /// Returns a `TinySet` that contains all values up to `upper_bound % 64`,
    /// excluded.
    pub fn range_lower(upper_bound: u32) -> (r: TinySet)
        ensures
            r@ == below((upper_bound % 64) as nat),
    {
        let k = (upper_bound % 64u32) as u64;
        proof {
            assert((1u64 << k) >= 1u64) by (bit_vector)
                requires
                    k < 64,
            ;
        }
        let r = TinySet((1u64 << k) - 1u64);
        proof {
            assert forall|e: u32| e < 64 implies r@.contains(e) == (e < k) by {
                lemma_bit_low_mask(k, e as u64);
            }
            assert(r@ =~= below((upper_bound % 64) as nat));
        }
        r
    }

    /// Returns a `TinySet` that contains all values from `from_included % 64`
    /// up to 63.
    pub fn range_greater_or_equal(from_included: u32) -> (r: TinySet)
        ensures
            r@ == below(64).difference(below((from_included % 64) as nat)),
    {
        TinySet::range_lower(from_included).complement()
    }
}


/// The number of 64-bit buckets that cover `[0, max_val[`.
pub open spec fn bucket_count(max_val: u32) -> nat {
    (max_val as nat + 63) / 64
}

/// The number of buckets needed for the values `[0, max_val[`.
fn num_buckets(max_val: u32) -> (r: u32)
    ensures
        r == bucket_count(max_val),
{
    max_val / 64u32 + if max_val % 64u32 != 0 {
        1u32
    } else {
        0u32
    }
}

/// A set of the integers `[0, max_value[`, held in 64-bit buckets.
#[derive(Clone)]
pub struct BitSet {
    tinysets: Vec<TinySet>,
    len: usize,
    max_value: u32,
}

impl View for BitSet {
    type V = Set<u32>;

    closed spec fn view(&self) -> Set<u32> {
        Set::new(
            |e: u32|
                (e / 64) < self.tinysets@.len() && self.tinysets@[(e / 64) as int]@.contains(e % 64),
        )
    }
}

impl BitSet {
    /// The bound the set was made with.
    pub closed spec fn max_value_spec(&self) -> u32 {
        self.max_value
    }

    /// The number of buckets.
    pub closed spec fn buckets(&self) -> nat {
        self.tinysets@.len()
    }

    /// The elements of bucket `b`, as offsets from `64 * b`.
    pub closed spec fn bucket(&self, b: int) -> Set<u32> {
        self.tinysets@[b]@
    }

    /// The set's invariant.
    pub closed spec fn wf(&self) -> bool {
        &&& self.tinysets@.len() == bucket_count(self.max_value)
        &&& self@.subset_of(below(self.max_value as nat))
        &&& self.len == self@.len()
    }

    /// The set is finite and has at most `max_value` elements.
    pub proof fn lemma_size(&self)
        requires
            self.wf(),
        ensures
            self@.finite(),
            self@.len() <= self.max_value_spec(),
    {
        lemma_below(self.max_value as nat);
        vstd::set_lib::lemma_len_subset(self@, below(self.max_value as nat));
    }

    /// Creates a new `BitSet` that may contain elements within
    /// `[0, max_value[`.
    pub fn with_max_value(max_value: u32) -> (r: BitSet)
        ensures
            r.wf(),
            r@ == Set::<u32>::empty(),
            r.max_value_spec() == max_value,
            r.buckets() == bucket_count(max_value),
    {
        let num_buckets = num_buckets(max_value);
        let mut tinysets: Vec<TinySet> = Vec::new();
        while tinysets.len() < num_buckets as usize
            invariant
                tinysets@.len() <= num_buckets,
                forall|b: int| 0 <= b < tinysets@.len() ==> #[trigger] tinysets@[b]@ == Set::<u32>::empty(),
            decreases num_buckets - tinysets@.len(),
        {
            tinysets.push(TinySet::empty());
        }
        let r = BitSet { tinysets, len: 0, max_value };
        proof {
            assert(r@ =~= Set::<u32>::empty());
        }
        r
    }

    /// Removes all elements from the `BitSet`.
    pub fn clear(&mut self)
        requires
            old(self).wf(),
        ensures
            final(self).wf(),
            final(self)@ == Set::<u32>::empty(),
            final(self).max_value_spec() == old(self).max_value_spec(),
            final(self).buckets() == old(self).buckets(),
    {
        let mut b: usize = 0;
        while b < self.tinysets.len()
            invariant
                self.tinysets@.len() == bucket_count(self.max_value),
                self.max_value == old(self).max_value,
                b <= self.tinysets@.len(),
                forall|c: int| 0 <= c < b ==> #[trigger] self.tinysets@[c]@ == Set::<u32>::empty(),
            decreases self.tinysets@.len() - b,
        {
            self.tinysets.set(b, TinySet::empty());
            b += 1;
        }
        self.len = 0;
        proof {
            assert(self@ =~= Set::<u32>::empty());
        }
    }

    /// Returns the number of elements in the `BitSet`.
    pub fn len(&self) -> (r: usize)
        requires
            self.wf(),
        ensures
            r == self@.len(),
    {
        self.len
    }

    /// Inserts an element in the `BitSet`.
    pub fn insert(&mut self, el: u32)
        requires
            old(self).wf(),
            el < old(self).max_value_spec(),
        ensures
            final(self).wf(),
            final(self)@ == old(self)@.insert(el),
            final(self).max_value_spec() == old(self).max_value_spec(),
            final(self).buckets() == old(self).buckets(),
    {
        let ghost before = *self;
        let higher = el / 64u32;
        let lower = el % 64u32;
        proof {
            self.lemma_size();
            if !before@.contains(el) {
                lemma_below(self.max_value as nat);
                assert(before@.subset_of(below(self.max_value as nat).remove(el)));
                vstd::set_lib::lemma_len_subset(before@, below(self.max_value as nat).remove(el));
            }
        }
        let mut t = self.tinysets[higher as usize];
        let added = t.insert_mut(lower);
        self.tinysets.set(higher as usize, t);
        self.len += if added {
            1
        } else {
            0
        };
        proof {
            assert forall|e: u32| #[trigger] self@.contains(e) == (before@.contains(e) || e == el) by {
                if e / 64 == higher {
                    assert(e == el <==> e % 64 == lower);
                }
            }
            assert(self@ =~= before@.insert(el));
            assert(before@.contains(el) == !added);
        }
    }

    /// Returns true iff the element is in the `BitSet`.
    pub fn contains(&self, el: u32) -> (r: bool)
        requires
            self.wf(),
            el / 64 < self.buckets(),
        ensures
            r == self@.contains(el),
    {
        self.tinyset(el / 64u32).contains(el % 64)
    }

    /// Returns the first non-empty bucket at or after `bucket`.
    ///
    /// Reminder: the bucket `bucket` represents the elements from
    /// `bucket * 64` to `(bucket + 1) * 64`.
    pub(crate) fn first_non_empty_bucket(&self, bucket: u32) -> (r: Option<u32>)
        requires
            self.wf(),
            bucket <= self.buckets(),
        ensures
            r matches Some(b) ==> bucket <= b < self.buckets() && self.bucket(b as int) != Set::<u32>::empty()
                && forall|c: int| bucket <= c < b ==> #[trigger] self.bucket(c) == Set::<u32>::empty(),
            r is None ==> forall|c: int|
                bucket <= c < self.buckets() ==> #[trigger] self.bucket(c) == Set::<u32>::empty(),
    {
        let mut b: usize = bucket as usize;
        while b < self.tinysets.len()
            invariant
                self.wf(),
                bucket <= b <= self.tinysets@.len(),
                self.tinysets@.len() <= u32::MAX,
                forall|c: int| bucket <= c < b ==> #[trigger] self.bucket(c) == Set::<u32>::empty(),
            decreases self.tinysets@.len() - b,
        {
            if !self.tinysets[b].is_empty() {
                return Some(b as u32);
            }
            b += 1;
        }
        None
    }

    /// The bound the set was made with.
    pub fn max_value(&self) -> (r: u32)
        ensures
            r == self.max_value_spec(),
    {
        self.max_value
    }

    /// Returns the tiny bitset representing the set restricted to the number
    /// range from `bucket * 64` to `(bucket + 1) * 64`.
    pub(crate) fn tinyset(&self, bucket: u32) -> (r: TinySet)
        requires
            bucket < self.buckets(),
        ensures
            r@ == self.bucket(bucket as int),
    {
        self.tinysets[bucket as usize]
    }

    /// The elements in ascending order.
    pub fn iter(&self) -> (r: Vec<u32>)
        requires
            self.wf(),
        ensures
            forall|i: int, j: int| 0 <= i < j < r@.len() ==> r@[i] < r@[j],
            forall|x: u32| #[trigger] r@.contains(x) <==> self@.contains(x),
    {
        let mut out: Vec<u32> = Vec::new();
        let mut b: usize = 0;
        while b < self.tinysets.len()
            invariant
                self.wf(),
                b <= self.tinysets@.len(),
                forall|i: int, j: int| 0 <= i < j < out@.len() ==> out@[i] < out@[j],
                forall|x: u32| #[trigger] out@.contains(x) <==> (self@.contains(x) && x / 64 < b),
            decreases self.tinysets@.len() - b,
        {
            let ghost whole = self.tinysets@[b as int]@;
            let offset = (b * 64) as u32;
            let mut t = self.tinysets[b];
            proof {
                assert forall|i: int| 0 <= i < out@.len() implies out@[i] < offset by {
                    assert(out@.contains(out@[i]));
                }
            }
            loop
                invariant
                    self.wf(),
                    b < self.tinysets@.len(),
                    whole == self.tinysets@[b as int]@,
                    offset == b * 64,
                    t@.subset_of(whole),
                    forall|i: int, j: int| 0 <= i < j < out@.len() ==> out@[i] < out@[j],
                    forall|i: int, e: u32|
                        #![trigger out@[i], t@.contains(e)]
                        0 <= i < out@.len() && t@.contains(e) ==> out@[i] < offset + e,
                    forall|x: u32| #[trigger] out@.contains(x) <==> (self@.contains(x) && (x / 64 < b || (x / 64 == b
                        && !t@.contains(x % 64)))),
                ensures
                    t@ == Set::<u32>::empty(),
                    forall|i: int, j: int| 0 <= i < j < out@.len() ==> out@[i] < out@[j],
                    forall|x: u32| #[trigger] out@.contains(x) <==> (self@.contains(x) && (x / 64 < b || (x / 64 == b
                        && !t@.contains(x % 64)))),
                decreases t@.len(),
            {
                let ghost before = t;
                let ghost prev = out@;
                proof {
                    t.lemma_bounded();
                }
                match t.pop_lowest() {
                    None => {
                        break;
                    },
                    Some(el) => {
                        proof {
                            before.lemma_bounded();
                            assert(whole.contains(el));
                        }
                        let x = offset + el;
                        out.push(x);
                        proof {
                            assert(x / 64 == b && x % 64 == el);
                            assert forall|y: u32| #[trigger] out@.contains(y) <==> (self@.contains(y) && (y / 64 < b || (y / 64 == b
                                && !t@.contains(y % 64)))) by {
                                if out@.contains(y) && y != x {
                                    let w = choose|w: int| 0 <= w < out@.len() && out@[w] == y;
                                    assert(prev[w] == y);
                                    assert(prev.contains(y));
                                }
                                if y != x && prev.contains(y) {
                                    let w = choose|w: int| 0 <= w < prev.len() && prev[w] == y;
                                    assert(out@[w] == y);
                                }
                                if y == x {
                                    assert(out@[prev.len() as int] == x);
                                }
                            }
                            assert forall|i: int, e: u32|
                                #![trigger out@[i], t@.contains(e)]
                                0 <= i < out@.len() && t@.contains(e) implies out@[i] < offset + e by {
                                if i < prev.len() {
                                    assert(prev[i] == out@[i]);
                                    assert(before@.contains(e));
                                }
                            }
                        }
                    },
                }
            }
            b += 1;
        }
        out
    }
}

} // verus!
