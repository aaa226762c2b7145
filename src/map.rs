use crate::bytesref::{BytesRef, NULL_ADDR};
use crate::hasher::{fnv32a_yoshimitsu_hasher, hash_of};
use crate::probe::{lemma_pow2_bounds, lemma_probes_reach, probe_slot, QuadraticProbing};
use crate::varint::{encodes_at, lemma_varint_len, push_varint, read_varint, varint};
use vstd::arithmetic::power2::{lemma_pow2_unfold, pow2};
use vstd::bits::{lemma_usize_shl_is_mul, low_bits_mask};
use vstd::prelude::*;
use vstd::slice::slice_subrange;
use vstd::string::StringSliceAdditionalSpecFns;

verus! {

/// The most entries a map holds: two thirds of the largest table, which has
/// `2^30` slots (see `probe::MAX_LEN_EXP`). Beyond it the table could not
/// double and would fill up.
pub const MAX_ENTRIES: usize = 0x2AAA_AAAAusize;

/// The capacity exponent of `StringHashMap::new`.
pub const DEFAULT_POWER_OF_TWO: usize = 10;

/// One slot of the table: a value and the reference to its key, or the null
/// reference in an unused slot.
pub(crate) struct TableEntry<T> {
    pub(crate) value: T,
    pub(crate) pointer: BytesRef,
}

impl<T> TableEntry<T> {
    pub(crate) open spec fn used(&self) -> bool {
        self.pointer@ != NULL_ADDR
    }
}

/// The number of used slots in `s`.
pub(crate) open spec fn count_used<T>(s: Seq<TableEntry<T>>) -> nat
    decreases s.len(),
{
    if s.len() == 0 {
        0
    } else {
        count_used(s.drop_last()) + if s.last().used() {
            1nat
        } else {
            0nat
        }
    }
}

/// Whether `data` holds `key` at offset `ptr`: its length as a varint, then
/// its bytes.
pub(crate) open spec fn stores(data: Seq<u8>, ptr: int, key: Seq<u8>) -> bool {
    let n = varint(key.len() as u32).len() as int;
    &&& key.len() <= u32::MAX
    &&& encodes_at(data, ptr, key.len() as u32)
    &&& ptr + n + key.len() <= data.len()
    &&& data.subrange(ptr + n, ptr + n + key.len()) == key
}

/// The value that a lookup of `key` finds in `m`, or `default` where `m` has
/// no entry for it.
pub open spec fn lookup_or<T>(m: Map<Seq<u8>, T>, key: Seq<u8>, default: T) -> T {
    if m.contains_key(key) {
        m[key]
    } else {
        default
    }
}

/// A map from strings to values of `T` with open addressing. All keys are
/// packed into one byte buffer; slots refer to them by offset.
pub struct StringHashMap<T> {
    /// contains string in compressed format
    pub(crate) string_data: Vec<u8>,
    /// pointer to string data and value
    pub(crate) table: Vec<TableEntry<T>>,
    bitshift: usize,
    pub occupied: usize,
    mask: u32,
    /// The key stored in each used slot.
    keys: Ghost<Seq<Seq<u8>>>,
    /// For each key, the number of the probe that reached its slot.
    steps: Ghost<Map<Seq<u8>, nat>>,
}

impl<T> View for StringHashMap<T> {
    type V = Map<Seq<u8>, T>;

    /// Each key, as bytes, with its value.
    closed spec fn view(&self) -> Map<Seq<u8>, T> {
        Map::new(
            |k: Seq<u8>| self.steps@.contains_key(k),
            |k: Seq<u8>| self.table@[self.slot_of(k) as int].value,
        )
    }
}

impl<T> StringHashMap<T> {
    /// The number of bytes of packed key data.
    pub closed spec fn data_len(&self) -> nat {
        self.string_data@.len()
    }

    /// The packed key data.
    pub closed spec fn data(&self) -> Seq<u8> {
        self.string_data@
    }

    /// The offset in the key data of the entry of `k`.
    pub closed spec fn handle_of(&self, k: Seq<u8>) -> u32 {
        self.table@[self.slot_of(k) as int].pointer@
    }

    /// The number of slots of the table.
    pub closed spec fn capacity(&self) -> nat {
        self.table@.len()
    }

    /// Whether the table can still double.
    pub closed spec fn can_grow(&self) -> bool {
        self.bitshift > 1
    }

    /// The number of entries.
    pub closed spec fn entries(&self) -> nat {
        self.occupied as nat
    }

    pub(crate) closed spec fn exp(&self) -> nat {
        (31 - self.bitshift) as nat
    }

    /// The first probe of `k`: the top bits of its hash.
    pub(crate) closed spec fn start(&self, k: Seq<u8>) -> u32 {
        hash_of(k) >> (self.bitshift as u32)
    }

    pub(crate) closed spec fn slot_of(&self, k: Seq<u8>) -> nat {
        probe_slot(self.start(k), self.table@.len(), self.steps@[k])
    }

    /// Every probe of `k` before the one that reached its slot met a used slot.
    pub(crate) closed spec fn chain_ok(&self, k: Seq<u8>) -> bool {
        let len = self.table@.len();
        &&& self.steps@[k] < 2 * len
        &&& self.table@[self.slot_of(k) as int].used()
        &&& self.keys@[self.slot_of(k) as int] == k
        &&& forall|j: nat|
            j < self.steps@[k] ==> self.table@[#[trigger] probe_slot(self.start(k), len, j) as int].used()
    }

    pub(crate) closed spec fn slot_ok(&self, i: int) -> bool {
        self.table@[i].used() ==> {
            &&& self.steps@.contains_key(self.keys@[i])
            &&& self.slot_of(self.keys@[i]) == i
            &&& stores(self.string_data@, self.table@[i].pointer@ as int, self.keys@[i])
        }
    }

    /// The keys of the used slots among the first `n`, in slot order.
    pub(crate) closed spec fn keys_upto(&self, n: nat) -> Seq<Seq<u8>>
        decreases n,
    {
        if n == 0 {
            Seq::empty()
        } else {
            let p = self.keys_upto((n - 1) as nat);
            if self.table@[n - 1].used() {
                p.push(self.keys@[n - 1])
            } else {
                p
            }
        }
    }

    /// The keys in the order of their slots.
    pub closed spec fn key_order(&self) -> Seq<Seq<u8>> {
        self.keys_upto(self.table@.len())
    }

    /// The table's invariant.
    pub closed spec fn wf(&self) -> bool {
        &&& 1 <= self.bitshift <= 31
        &&& self.table@.len() == pow2(self.exp())
        &&& self.mask == low_bits_mask(self.exp())
        &&& self.keys@.len() == self.table@.len()
        &&& self.occupied == count_used(self.table@)
        &&& self.steps@.dom().finite()
        &&& self.steps@.dom().len() == self.occupied
        &&& self.occupied <= self.table@.len()
        &&& forall|k: Seq<u8>| #[trigger] self.steps@.contains_key(k) ==> self.chain_ok(k)
        &&& forall|i: int| 0 <= i < self.table@.len() ==> #[trigger] self.slot_ok(i)
    }
}

/// Setting one slot changes the count by what that slot held.
proof fn lemma_count_update<T>(s: Seq<TableEntry<T>>, i: int, e: TableEntry<T>)
    requires
        0 <= i < s.len(),
    ensures
        count_used(s.update(i, e)) + (if s[i].used() {
            1int
        } else {
            0int
        }) == count_used(s) + (if e.used() {
            1int
        } else {
            0int
        }),
    decreases s.len(),
{
    let t = s.update(i, e);
    if i == s.len() - 1 {
        assert(t.drop_last() =~= s.drop_last());
    } else {
        assert(t.drop_last() =~= s.drop_last().update(i, e));
        lemma_count_update(s.drop_last(), i, e);
    }
}

/// The count never exceeds the length.
proof fn lemma_count_le<T>(s: Seq<TableEntry<T>>)
    ensures
        count_used(s) <= s.len(),
    decreases s.len(),
{
    if s.len() > 0 {
        lemma_count_le(s.drop_last());
    }
}

/// A table whose slots are all used counts its length.
proof fn lemma_count_all_used<T>(s: Seq<TableEntry<T>>)
    requires
        forall|i: int| 0 <= i < s.len() ==> #[trigger] s[i].used(),
    ensures
        count_used(s) == s.len(),
    decreases s.len(),
{
    if s.len() > 0 {
        lemma_count_all_used(s.drop_last());
    }
}

/// A table whose slots are all unused counts zero.
proof fn lemma_count_none_used<T>(s: Seq<TableEntry<T>>)
    requires
        forall|i: int| 0 <= i < s.len() ==> !(#[trigger] s[i].used()),
    ensures
        count_used(s) == 0,
    decreases s.len(),
{
    if s.len() > 0 {
        lemma_count_none_used(s.drop_last());
    }
}

/// Appending to the data keeps every key stored before.
proof fn lemma_stores_extend(data: Seq<u8>, extra: Seq<u8>, ptr: int, key: Seq<u8>)
    requires
        stores(data, ptr, key),
    ensures
        stores(data + extra, ptr, key),
{
    let n = varint(key.len() as u32).len() as int;
    assert((data + extra).subrange(ptr, ptr + n) =~= data.subrange(ptr, ptr + n));
    assert((data + extra).subrange(ptr + n, ptr + n + key.len()) =~= data.subrange(
        ptr + n,
        ptr + n + key.len(),
    ));
}

/// Compares two byte strings.
fn bytes_eq(a: &[u8], b: &[u8]) -> (r: bool)
    ensures
        r == (a@ == b@),
{
    if a.len() != b.len() {
        return false;
    }
    let mut i: usize = 0;
    while i < a.len()
        invariant
            a@.len() == b@.len(),
            i <= a@.len(),
            forall|j: int| 0 <= j < i ==> a@[j] == b@[j],
        decreases a@.len() - i,
    {
        if a[i] != b[i] {
            return false;
        }
        i += 1;
    }
    assert(a@ =~= b@);
    true
}

impl<T: Default> StringHashMap<T> {
    /// Creates a map with a table of `2^(power_of_two - 1)` slots;
    /// `power_of_two` is at most 31, as a table has at most `2^30` slots.
    pub fn with_power_of_two_size(power_of_two: usize) -> (r: Self)
        requires
            1 <= power_of_two <= 31,
        ensures
            r.wf(),
            r@ == Map::<Seq<u8>, T>::empty(),
            r.entries() == 0,
            r.capacity() == pow2((power_of_two - 1) as nat),
            r.data_len() == 0,
    {
        let shift = power_of_two - 1;
        proof {
            lemma_pow2_bounds(shift as nat);
            lemma_usize_shl_is_mul(1, shift);
        }
        let len: usize = 1usize << shift;
        let mut table: Vec<TableEntry<T>> = Vec::new();
        while table.len() < len
            invariant
                table@.len() <= len,
                forall|i: int| 0 <= i < table@.len() ==> !(#[trigger] table@[i].used()),
            decreases len - table@.len(),
        {
            table.push(TableEntry { value: T::default(), pointer: BytesRef::default() });
        }
        let r = StringHashMap {
            string_data: Vec::with_capacity(len * 2),
            mask: (len - 1) as u32,
            table,
            bitshift: 32 - power_of_two,
            occupied: 0,
            keys: Ghost(Seq::new(len as nat, |i: int| Seq::<u8>::empty())),
            steps: Ghost(Map::empty()),
        };
        proof {
            lemma_count_none_used(r.table@);
            assert(r@ =~= Map::<Seq<u8>, T>::empty());
        }
        r
    }

    /// Creates a map with the default table size.
    pub fn new() -> (r: Self)
        ensures
            r.wf(),
            r@ == Map::<Seq<u8>, T>::empty(),
            r.entries() == 0,
            r.capacity() == pow2((DEFAULT_POWER_OF_TWO - 1) as nat),
            r.data_len() == 0,
    {
        Self::with_power_of_two_size(DEFAULT_POWER_OF_TWO)
    }

    /// The number of bytes of packed key data, which must stay below
    /// `u32::MAX`.
    pub fn string_data_len(&self) -> (r: usize)
        ensures
            r == self.data_len(),
    {
        self.string_data.len()
    }

    /// The probe sequence of `el` in the current table.
    fn get_probe(&self, el: &[u8]) -> (r: QuadraticProbing)
        requires
            self.wf(),
        ensures
            r.wf(),
            r.hash == self.start(el@),
            r.mask == self.mask,
            r.exp@ == self.exp(),
            r.len == self.table@.len(),
            r.steps() == 0,
    {
        let hash = fnv32a_yoshimitsu_hasher(el);
        let hash = hash >> (self.bitshift as u32);
        let probe = QuadraticProbing::compute(hash, self.mask, Ghost(self.exp()));
        probe
    }

    /// The bytes of the key that `pos` refers to.
    fn read_string(&self, pos: BytesRef, Ghost(key): Ghost<Seq<u8>>) -> (r: &[u8])
        requires
            stores(self.string_data@, pos@ as int, key),
        ensures
            r@ == key,
    {
        let data = self.string_data.as_slice();
        let total = data.len();
        let mut start = pos.addr() as usize;
        let length_string = read_varint(data, &mut start);
        proof {
            assert(encodes_at(data@, pos@ as int, key.len() as u32));
        }
        let n = length_string.unwrap() as usize;
        proof {
            assert(n == key.len() && start == pos@ + varint(key.len() as u32).len());
            assert(start + n <= total);
        }
        slice_subrange(data, start, start + n)
    }

    /// Fills the unused slot `idx`, reached by probe number `step` of `key`,
    /// with `entry`.
    fn place(&mut self, idx: usize, entry: TableEntry<T>, Ghost(key): Ghost<Seq<u8>>, Ghost(step): Ghost<nat>)
        requires
            old(self).wf(),
            !old(self).steps@.contains_key(key),
            step < 2 * old(self).table@.len(),
            idx == probe_slot(old(self).start(key), old(self).table@.len(), step),
            !old(self).table@[idx as int].used(),
            forall|j: nat|
                j < step ==> old(self).table@[#[trigger] probe_slot(
                    old(self).start(key),
                    old(self).table@.len(),
                    j,
                ) as int].used(),
            entry.used(),
            stores(old(self).string_data@, entry.pointer@ as int, key),
        ensures
            final(self).wf(),
            final(self)@ == old(self)@.insert(key, entry.value),
            final(self).string_data@ == old(self).string_data@,
            final(self).bitshift == old(self).bitshift,
            final(self).table@.len() == old(self).table@.len(),
            final(self).steps@.dom() == old(self).steps@.dom().insert(key),
            final(self).slot_of(key) == idx,
            final(self).table@ == old(self).table@.update(idx as int, entry),
            final(self).occupied == old(self).occupied + 1,
            forall|k: Seq<u8>|
                #[trigger] old(self).steps@.contains_key(k) ==> final(self).handle_of(k) == old(self).handle_of(k),
    {
        let ghost old_self = *self;
        let ghost value = entry.value;
        proof {
            lemma_count_update(self.table@, idx as int, entry);
            lemma_count_le(self.table@.update(idx as int, entry));
            lemma_pow2_bounds(self.exp());
        }
        self.table.set(idx, entry);
        self.occupied += 1;
        self.keys = Ghost(self.keys@.update(idx as int, key));
        self.steps = Ghost(self.steps@.insert(key, step));
        proof {
            assert(self.slot_of(key) == idx);
            assert forall|k: Seq<u8>| #[trigger] self.steps@.contains_key(k) implies self.chain_ok(k) by {
                if k != key {
                    assert(old_self.chain_ok(k));
                    assert(self.slot_of(k) == old_self.slot_of(k));
                    assert(self.slot_of(k) != idx);
                }
            }
            assert forall|i: int| 0 <= i < self.table@.len() implies #[trigger] self.slot_ok(i) by {
                if i != idx {
                    assert(old_self.slot_ok(i));
                    if self.table@[i].used() {
                        assert(self.keys@[i] != key);
                    }
                }
            }
            assert(self@ =~= old_self@.insert(key, value));
            assert forall|k: Seq<u8>| #[trigger] old_self.steps@.contains_key(k) implies self.handle_of(k) == old_self.handle_of(k) by {
                assert(old_self.chain_ok(k));
                assert(self.slot_of(k) == old_self.slot_of(k));
            }
        }
    }

    /// Moves `new_entry`, whose key is `key`, into the table along the probe
    /// sequence `probe` of that key.
    fn put_entry_resize(&mut self, probe: QuadraticProbing, new_entry: TableEntry<T>, Ghost(key): Ghost<Seq<u8>>)
        requires
            old(self).wf(),
            old(self).occupied < old(self).table@.len(),
            !old(self).steps@.contains_key(key),
            probe.wf(),
            probe.hash == old(self).start(key),
            probe.len == old(self).table@.len(),
            probe.steps() == 0,
            new_entry.used(),
            stores(old(self).string_data@, new_entry.pointer@ as int, key),
        ensures
            final(self).wf(),
            final(self)@ == old(self)@.insert(key, new_entry.value),
            final(self).string_data@ == old(self).string_data@,
            final(self).bitshift == old(self).bitshift,
            final(self).table@.len() == old(self).table@.len(),
            final(self).steps@.dom() == old(self).steps@.dom().insert(key),
            final(self).occupied == old(self).occupied + 1,
            final(self).handle_of(key) == new_entry.pointer@,
            forall|k: Seq<u8>|
                #[trigger] old(self).steps@.contains_key(k) ==> final(self).handle_of(k) == old(self).handle_of(k),
            exists|step: nat|
                #![trigger probe_slot(old(self).start(key), old(self).table@.len(), step)]
                step < 2 * old(self).table@.len() && !old(self).table@[probe_slot(
                    old(self).start(key),
                    old(self).table@.len(),
                    step,
                ) as int].used() && (forall|j: nat|
                    j < step ==> old(self).table@[#[trigger] probe_slot(
                        old(self).start(key),
                        old(self).table@.len(),
                        j,
                    ) as int].used()) && final(self).table@ == old(self).table@.update(
                    probe_slot(old(self).start(key), old(self).table@.len(), step) as int,
                    new_entry,
                ),
    {
        let mut probe = probe;
        loop
            invariant
                self.wf(),
                *self == *old(self),
                self.occupied < self.table@.len(),
                !self.steps@.contains_key(key),
                new_entry.used(),
                stores(self.string_data@, new_entry.pointer@ as int, key),
                probe.wf(),
                probe.hash == self.start(key),
                probe.len == self.table@.len(),
                forall|j: nat|
                    j < probe.steps() ==> self.table@[#[trigger] probe_slot(
                        self.start(key),
                        self.table@.len(),
                        j,
                    ) as int].used(),
            decreases 2 * probe.len - probe.steps(),
        {
            proof {
                self.lemma_not_full(key, probe.steps());
            }
            let ghost step = probe.steps();
            let hash = probe.next_probe() as usize;
            if self.table[hash].pointer.is_null() {
                let ghost before = *self;
                self.place(hash, new_entry, Ghost(key), Ghost(step));
                proof {
                    assert(self.handle_of(key) == new_entry.pointer@);
                    let len = before.table@.len();
                    assert(self.table@ == before.table@.update(
                        probe_slot(before.start(key), len, step) as int,
                        new_entry,
                    ));
                }
                return;
            }
        }
    }

    /// A probe sequence that met only used slots has not run out.
    proof fn lemma_not_full(&self, key: Seq<u8>, steps: nat)
        requires
            self.wf(),
            self.occupied < self.table@.len(),
            steps <= 2 * self.table@.len(),
            forall|j: nat|
                j < steps ==> self.table@[#[trigger] probe_slot(
                    self.start(key),
                    self.table@.len(),
                    j,
                ) as int].used(),
        ensures
            steps < 2 * self.table@.len(),
    {
        if steps == 2 * self.table@.len() {
            assert forall|i: int| 0 <= i < self.table@.len() implies #[trigger] self.table@[i].used() by {
                lemma_probes_reach(self.start(key), self.exp(), i as nat);
                let j = choose|j: nat|
                    j < 2 * pow2(self.exp()) && #[trigger] probe_slot(self.start(key), pow2(self.exp()), j) == i;
                assert(self.table@[probe_slot(self.start(key), self.table@.len(), j) as int].used());
            }
            lemma_count_all_used(self.table@);
        }
    }
}

impl<T: Default> StringHashMap<T> {
    /// Returns the value stored for `el`. Where `el` is new, first stores it
    /// with `value`; the table doubles first once it is over two thirds full.
    pub fn get_or_create(&mut self, el: &str, value: T) -> (r: &mut T)
        requires
            old(self).wf(),
            old(self).entries() < MAX_ENTRIES,
            old(self).data_len() + el.spec_bytes().len() + 5 < u32::MAX,
        ensures
            final(self).wf(),
            *r == lookup_or(old(self)@, el.spec_bytes(), value),
            final(self)@ == old(self)@.insert(el.spec_bytes(), *final(r)),
            final(self).data() == old(self).data() + if old(self)@.contains_key(el.spec_bytes()) {
                Seq::<u8>::empty()
            } else {
                varint(el.spec_bytes().len() as u32) + el.spec_bytes()
            },
            final(self).data_len() <= old(self).data_len() + el.spec_bytes().len() + 5,
            final(self).entries() == final(self)@.len(),
            final(self).capacity() == if 3 * old(self).entries() > 2 * old(self).capacity() {
                2 * old(self).capacity()
            } else {
                old(self).capacity()
            },
    {
        if (self.occupied as u64) * 3 > (self.table.len() as u64) * 2 {
            proof {
                lemma_pow2_bounds(self.exp());
                if self.bitshift == 1 {
                    assert(self.table@.len() == 0x4000_0000) by {
                        vstd::arithmetic::power2::lemma2_to64();
                    }
                }
            }
            self.resize();
        }
        let ghost mid = *self;
        let key = el.as_bytes();
        let mut probe = self.get_probe(key);
        proof {
            lemma_pow2_bounds(self.exp());
        }
        loop
            invariant
                self.wf(),
                *self == mid,
                mid@ == old(self)@,
                mid.data_len() == old(self).data_len(),
                mid.data() == old(self).data(),
                mid.capacity() == if 3 * old(self).entries() > 2 * old(self).capacity() {
                    2 * old(self).capacity()
                } else {
                    old(self).capacity()
                },
                (self.occupied as int) * 3 <= (self.table@.len() as int) * 2,
                self.table@.len() >= 1,
                self.occupied < MAX_ENTRIES,
                self.data_len() + key@.len() + 5 < u32::MAX,
                key@ == el.spec_bytes(),
                probe.wf(),
                probe.hash == self.start(key@),
                probe.len == self.table@.len(),
                forall|j: nat|
                    j < probe.steps() ==> {
                        let s = #[trigger] probe_slot(self.start(key@), self.table@.len(), j) as int;
                        self.table@[s].used() && self.keys@[s] != key@
                    },
            decreases 2 * probe.len - probe.steps(),
        {
            proof {
                self.lemma_not_full(key@, probe.steps());
            }
            let ghost step = probe.steps();
            let hash = probe.next_probe() as usize;
            proof {
                assert(self.slot_ok(hash as int));
            }
            if self.table[hash].pointer.is_null() {
                proof {
                    self.lemma_absent(key@, step);
                }
                proof {
                    lemma_varint_len(key@.len() as u32);
                }
                self.put_in_bucket(hash, key, value, Ghost(step));
                return self.value_mut(hash, Ghost(key@));
            } else if bytes_eq(self.read_string(self.table[hash].pointer, Ghost(self.keys@[hash as int])), key) {
                proof {
                    assert(self.slot_ok(hash as int));
                }
                return self.value_mut(hash, Ghost(key@));
            }
        }
    }

    /// A probe sequence that met an unused slot before it met `key` shows that
    /// `key` is absent.
    proof fn lemma_absent(&self, key: Seq<u8>, step: nat)
        requires
            self.wf(),
            !self.table@[probe_slot(self.start(key), self.table@.len(), step) as int].used(),
            forall|j: nat|
                j < step ==> {
                    let s = #[trigger] probe_slot(self.start(key), self.table@.len(), j) as int;
                    self.table@[s].used() && self.keys@[s] != key
                },
        ensures
            !self.steps@.contains_key(key),
    {
        if self.steps@.contains_key(key) {
            assert(self.chain_ok(key));
            if self.steps@[key] < step {
                assert(self.keys@[probe_slot(self.start(key), self.table@.len(), self.steps@[key]) as int] != key);
            }
        }
    }

    /// The value in slot `idx`, which holds `key`, for writing.
    fn value_mut(&mut self, idx: usize, Ghost(key): Ghost<Seq<u8>>) -> (r: &mut T)
        requires
            old(self).wf(),
            old(self).steps@.contains_key(key),
            old(self).slot_of(key) == idx,
        ensures
            *r == old(self)@[key],
            final(self).wf(),
            final(self)@ == old(self)@.insert(key, *final(r)),
            final(self).string_data@ == old(self).string_data@,
            final(self).occupied == old(self).occupied,
            final(self).entries() == final(self)@.len(),
            final(self).table@.len() == old(self).table@.len(),
    {
        let ghost old_self = *self;
        proof {
            assert(old_self.chain_ok(key));
        }
        let r = &mut self.table[idx].value;
        proof {
            let ghost fin = after_borrow(*self);
            assert(fin.table@ == old_self.table@.update(idx as int, TableEntry { value: *final(r), pointer: old_self.table@[idx as int].pointer }));
            assert forall|k: Seq<u8>| #[trigger] fin.steps@.contains_key(k) implies fin.chain_ok(k) by {
                assert(old_self.chain_ok(k));
            }
            assert forall|i: int| 0 <= i < fin.table@.len() implies #[trigger] fin.slot_ok(i) by {
                assert(old_self.slot_ok(i));
            }
            lemma_count_update(old_self.table@, idx as int, fin.table@[idx as int]);
            assert(fin@ =~= old_self@.insert(key, *final(r)));
            assert(fin@.dom() =~= fin.steps@.dom());
        }
        r
    }

    /// Appends `el` to the string data and stores it with `value` in the
    /// unused slot `hash`, reached by probe number `step` of `el`.
    fn put_in_bucket(&mut self, hash: usize, el: &[u8], value: T, Ghost(step): Ghost<nat>)
        requires
            old(self).wf(),
            !old(self).steps@.contains_key(el@),
            step < 2 * old(self).table@.len(),
            hash == probe_slot(old(self).start(el@), old(self).table@.len(), step),
            !old(self).table@[hash as int].used(),
            forall|j: nat|
                j < step ==> old(self).table@[#[trigger] probe_slot(
                    old(self).start(el@),
                    old(self).table@.len(),
                    j,
                ) as int].used(),
            old(self).data_len() + el@.len() + 5 < u32::MAX,
        ensures
            final(self).wf(),
            final(self)@ == old(self)@.insert(el@, value),
            final(self).string_data@ == old(self).string_data@ + varint(el@.len() as u32) + el@,
            final(self).bitshift == old(self).bitshift,
            final(self).table@.len() == old(self).table@.len(),
            final(self).steps@.contains_key(el@),
            final(self).slot_of(el@) == hash,
            final(self).table@[hash as int].value == value,
            final(self).table@[hash as int].pointer@ == old(self).string_data@.len(),
            forall|i: int| 0 <= i < old(self).table@.len() && i != hash ==> final(self).table@[i] == old(self).table@[i],
            final(self).occupied == old(self).occupied + 1,
    {
        let ghost old_self = *self;
        let pos = BytesRef::at(self.string_data.len() as u32);
        push_varint(&mut self.string_data, el.len() as u32);
        self.string_data.extend_from_slice(el);
        proof {
            let extra = varint(el@.len() as u32) + el@;
            lemma_varint_len(el@.len() as u32);
            assert(self.string_data@ =~= old_self.string_data@ + extra);
            assert forall|i: int| 0 <= i < self.table@.len() implies #[trigger] self.slot_ok(i) by {
                assert(old_self.slot_ok(i));
                if self.table@[i].used() {
                    lemma_stores_extend(old_self.string_data@, extra, self.table@[i].pointer@ as int, self.keys@[i]);
                }
            }
            let n = varint(el@.len() as u32).len() as int;
            let p = pos@ as int;
            assert(self.string_data@.subrange(p, p + n) =~= varint(el@.len() as u32));
            assert(self.string_data@.subrange(p + n, p + n + el@.len()) =~= el@);
        }
        self.place(hash, TableEntry { value, pointer: pos }, Ghost(el@), Ghost(step));
    }

    /// Doubles the size of the table. The keys stay where they are in the
    /// string data; only the slots are laid out anew.
    pub fn resize(&mut self)
        requires
            old(self).wf(),
            old(self).can_grow(),
        ensures
            final(self).wf(),
            final(self)@ == old(self)@,
            final(self).capacity() == 2 * old(self).capacity(),
            final(self).data_len() == old(self).data_len(),
            final(self).data() == old(self).data(),
            final(self).entries() == old(self).entries(),
            forall|k: Seq<u8>|
                #[trigger] old(self)@.contains_key(k) ==> final(self).handle_of(k) == old(self).handle_of(k),
    {
        let ghost old_self = *self;
        proof {
            lemma_pow2_bounds(self.exp());
            lemma_pow2_unfold((self.exp() + 1) as nat);
            lemma_pow2_bounds((self.exp() + 1) as nat);
        }
        let new_len = self.table.len() * 2;
        let mut table: Vec<TableEntry<T>> = Vec::new();
        while table.len() < new_len
            invariant
                table@.len() <= new_len,
                forall|i: int| 0 <= i < table@.len() ==> !(#[trigger] table@[i].used()),
            decreases new_len - table@.len(),
        {
            table.push(TableEntry { value: T::default(), pointer: BytesRef::default() });
        }
        self.mask = (new_len - 1) as u32;
        std::mem::swap(&mut self.table, &mut table);
        self.bitshift -= 1;
        self.occupied = 0;
        self.keys = Ghost(Seq::new(new_len as nat, |i: int| Seq::<u8>::empty()));
        self.steps = Ghost(Map::empty());
        proof {
            lemma_count_none_used(self.table@);
        }
        let mut i: usize = 0;
        while i < table.len()
            invariant
                self.wf(),
                self.string_data@ == old_self.string_data@,
                self.bitshift == old_self.bitshift - 1,
                self.table@.len() == 2 * old_self.table@.len(),
                table@.len() == old_self.table@.len(),
                old_self.wf(),
                i <= table@.len(),
                forall|j: int| i <= j < table@.len() ==> table@[j] == old_self.table@[j],
                forall|k: Seq<u8>|
                    #![trigger self.steps@.contains_key(k)]
                    #![trigger old_self.steps@.contains_key(k)]
                    self.steps@.contains_key(k) <==> (old_self.steps@.contains_key(k)
                        && old_self.slot_of(k) < i),
                forall|k: Seq<u8>| #[trigger] self.steps@.contains_key(k) ==> self@[k] == old_self@[k],
                forall|k: Seq<u8>|
                    #[trigger] self.steps@.contains_key(k) ==> self.handle_of(k) == old_self.handle_of(k),
            decreases table@.len() - i,
        {
            let ghost before = *self;
            let ghost key = old_self.keys@[i as int];
            if !table[i].pointer.is_null() {
                proof {
                    assert(old_self.slot_ok(i as int));
                    assert(self.steps@.dom().subset_of(old_self.steps@.dom().remove(key)));
                    vstd::set_lib::lemma_len_subset(self.steps@.dom(), old_self.steps@.dom().remove(key));
                }
                let mut entry = TableEntry { value: T::default(), pointer: BytesRef::default() };
                std::mem::swap(&mut entry, &mut table[i]);
                let probe = self.get_probe(self.read_string(entry.pointer, Ghost(key)));
                self.put_entry_resize(probe, entry, Ghost(key));
                proof {
                    assert forall|k: Seq<u8>| #[trigger] self.steps@.contains_key(k) implies self@[k] == old_self@[k] by {
                        if k != key {
                            assert(before.steps@.contains_key(k));
                            assert(before@.contains_key(k));
                        }
                    }
                }
            }
            i += 1;
            proof {
                assert(old_self.slot_ok((i - 1) as int));
                assert forall|k: Seq<u8>|
                    #![trigger self.steps@.contains_key(k)]
                    #![trigger old_self.steps@.contains_key(k)]
                    self.steps@.contains_key(k) <==> (old_self.steps@.contains_key(k)
                        && old_self.slot_of(k) < i) by {
                    if old_self.steps@.contains_key(k) && old_self.slot_of(k) == i - 1 {
                        assert(old_self.chain_ok(k));
                    }
                    if k != key {
                        assert(self.steps@.contains_key(k) == before.steps@.contains_key(k));
                    }
                }
            }
        }
        proof {
            assert forall|k: Seq<u8>| #[trigger] old_self.steps@.contains_key(k) implies old_self.slot_of(k) < i by {
                lemma_pow2_bounds(old_self.exp());
            }
            assert(self.steps@.dom() =~= old_self.steps@.dom());
            assert(self@ =~= old_self@);
        }
    }
}


impl<T> StringHashMap<T> {
    /// The prefix up to slot `n` lists, once each, the keys whose slot is
    /// below `n`.
    proof fn lemma_keys_upto(&self, n: nat)
        requires
            self.wf(),
            n <= self.table@.len(),
        ensures
            self.keys_upto(n).no_duplicates(),
            forall|k: Seq<u8>|
                #[trigger] self.keys_upto(n).contains(k) <==> (self.steps@.contains_key(k)
                    && self.slot_of(k) < n),
            forall|j: int|
                0 <= j < self.keys_upto(n).len() ==> self.steps@.contains_key(
                    #[trigger] self.keys_upto(n)[j],
                ),
        decreases n,
    {
        if n > 0 {
            let m = (n - 1) as nat;
            self.lemma_keys_upto(m);
            assert(self.slot_ok(m as int));
            let p = self.keys_upto(m);
            assert forall|k: Seq<u8>|
                #[trigger] self.keys_upto(n).contains(k) <==> (self.steps@.contains_key(k)
                    && self.slot_of(k) < n) by {
                if self.steps@.contains_key(k) && self.slot_of(k) == m {
                    assert(self.chain_ok(k));
                }
                if self.table@[m as int].used() {
                    if p.push(self.keys@[m as int]).contains(k) && k != self.keys@[m as int] {
                        let w = choose|w: int| 0 <= w < p.push(self.keys@[m as int]).len() && p.push(self.keys@[m as int])[w] == k;
                        assert(p[w] == k);
                    }
                    if k == self.keys@[m as int] {
                        assert(p.push(k)[p.len() as int] == k);
                    }
                    if p.contains(k) {
                        let w = choose|w: int| 0 <= w < p.len() && p[w] == k;
                        assert(p.push(self.keys@[m as int])[w] == k);
                    }
                }
            }
            if self.table@[m as int].used() {
                assert(!p.contains(self.keys@[m as int]));
                assert forall|a: int, b: int|
                    0 <= a < b < p.push(self.keys@[m as int]).len() implies p.push(self.keys@[m as int])[a]
                    != p.push(self.keys@[m as int])[b] by {
                    if b == p.len() {
                        assert(p.contains(p[a]));
                    }
                }
            }
        }
    }

    /// The values of all entries, in the order of their slots.
    pub fn get_values(&self) -> (r: Vec<&T>)
        requires
            self.wf(),
        ensures
            self.key_order().no_duplicates(),
            self.key_order().to_set() == self@.dom(),
            r@.len() == self.key_order().len(),
            r@.len() == self@.len(),
            forall|j: int| 0 <= j < r@.len() ==> *r@[j] == self@[#[trigger] self.key_order()[j]],
    {
        let mut out: Vec<&T> = Vec::new();
        let mut i: usize = 0;
        while i < self.table.len()
            invariant
                self.wf(),
                i <= self.table@.len(),
                out@.len() == self.keys_upto(i as nat).len(),
                forall|j: int|
                    0 <= j < out@.len() ==> *out@[j] == self@[#[trigger] self.keys_upto(i as nat)[j]],
            decreases self.table@.len() - i,
        {
            proof {
                assert(self.slot_ok(i as int));
                self.lemma_keys_upto(i as nat);
            }
            if !self.table[i].pointer.is_null() {
                out.push(&self.table[i].value);
            }
            i += 1;
        }
        proof {
            self.lemma_keys_upto(self.table@.len());
            let ko = self.key_order();
            assert forall|k: Seq<u8>| #[trigger] self@.dom().contains(k) implies ko.to_set().contains(k) by {
                if self.steps@.contains_key(k) {
                    assert(self.chain_ok(k));
                    lemma_pow2_bounds(self.exp());
                    assert(ko.contains(k));
                }
            }
            assert(ko.to_set() =~= self@.dom());
            ko.unique_seq_to_set();
        }
        out
    }
}


/// A second lookup of a key finds what the first one left behind: the value
/// stored then, or whatever was written through the reference it returned.
/// The second lookup changes nothing.
pub proof fn lemma_lookup_idempotent<T>(m: Map<Seq<u8>, T>, key: Seq<u8>, written: T, default: T)
    ensures
        lookup_or(m.insert(key, written), key, default) == written,
        m.insert(key, written).insert(key, lookup_or(m.insert(key, written), key, default)) == m.insert(
            key,
            written,
        ),
{
    assert(m.insert(key, written).insert(key, written) =~= m.insert(key, written));
}

/// The keys that lookups of `keys`, one after another, leave in a map that
/// started empty: each lookup adds its key.
pub open spec fn keys_after(keys: Seq<Seq<u8>>) -> Set<Seq<u8>>
    decreases keys.len(),
{
    if keys.len() == 0 {
        Set::empty()
    } else {
        keys_after(keys.drop_last()).insert(keys.last())
    }
}

/// The keys left by a run of lookups are exactly its distinct keys.
proof fn lemma_keys_after(keys: Seq<Seq<u8>>)
    ensures
        keys_after(keys) == keys.to_set(),
    decreases keys.len(),
{
    if keys.len() > 0 {
        lemma_keys_after(keys.drop_last());
        let p = keys.drop_last();
        assert forall|k: Seq<u8>| #[trigger] keys.to_set().contains(k) == p.to_set().insert(keys.last()).contains(k) by {
            if keys.contains(k) && k != keys.last() {
                let w = choose|w: int| 0 <= w < keys.len() && keys[w] == k;
                assert(p[w] == k);
            }
            if p.contains(k) {
                let w = choose|w: int| 0 <= w < p.len() && p[w] == k;
                assert(keys[w] == k);
            }
            if k == keys.last() {
                assert(keys[keys.len() - 1] == k);
            }
        }
        assert(keys.to_set() =~= p.to_set().insert(keys.last()));
    }
}

impl<T> StringHashMap<T> {
    /// The entry count is the number of keys.
    pub proof fn lemma_entries(&self)
        requires
            self.wf(),
        ensures
            self.entries() == self@.len(),
            self@.dom().finite(),
    {
        assert(self@.dom() =~= self.steps@.dom());
    }

    /// A map that started empty and saw lookups of `keys` holds one entry per
    /// distinct key, however often a key came: no more entries, and so no more
    /// listed values, than there are distinct keys, and never more than
    /// lookups.
    pub proof fn lemma_one_entry_per_distinct_key(&self, keys: Seq<Seq<u8>>)
        requires
            self.wf(),
            self@.dom() == keys_after(keys),
        ensures
            self@.len() == keys.to_set().len(),
            self@.len() <= keys.len(),
    {
        lemma_keys_after(keys);
        keys.lemma_cardinality_of_set();
    }
}


/// The number of times `k` occurs in `keys`.
pub open spec fn occurrences(keys: Seq<Seq<u8>>, k: Seq<u8>) -> nat
    decreases keys.len(),
{
    if keys.len() == 0 {
        0
    } else {
        occurrences(keys.drop_last(), k) + if keys.last() == k {
            1nat
        } else {
            0nat
        }
    }
}

/// The sum, over the keys of `order`, of how often each occurs in `keys`.
pub open spec fn sum_of_occurrences(order: Seq<Seq<u8>>, keys: Seq<Seq<u8>>) -> nat
    decreases order.len(),
{
    if order.len() == 0 {
        0
    } else {
        sum_of_occurrences(order.drop_last(), keys) + occurrences(keys, order.last())
    }
}

proof fn lemma_sum_of_occurrences_push(order: Seq<Seq<u8>>, keys: Seq<Seq<u8>>, x: Seq<u8>)
    requires
        order.no_duplicates(),
    ensures
        sum_of_occurrences(order, keys.push(x)) == sum_of_occurrences(order, keys) + if order.contains(x) {
            1nat
        } else {
            0nat
        },
    decreases order.len(),
{
    assert(keys.push(x).drop_last() =~= keys);
    if order.len() > 0 {
        let o = order.drop_last();
        let y = order.last();
        assert forall|a: int, b: int| 0 <= a < b < o.len() implies o[a] != o[b] by {
            assert(order[a] == o[a] && order[b] == o[b]);
        }
        lemma_sum_of_occurrences_push(o, keys, x);
        if o.contains(x) {
            let w = choose|w: int| 0 <= w < o.len() && o[w] == x;
            assert(order[w] == x);
            assert(y != x) by {
                assert(order[order.len() - 1] == y);
            }
        }
        if order.contains(x) && !o.contains(x) {
            let w = choose|w: int| 0 <= w < order.len() && order[w] == x;
            if w < o.len() {
                assert(o[w] == x);
            }
        }
        if y == x {
            assert(order[order.len() - 1] == x);
        }
    }
}

/// Counting tokens: where every token of `keys` is listed once in `order`
/// (as the keys of a map are listed by `get_values`), and each key's value
/// is how often it occurred, the values sum to the number of tokens.
pub proof fn lemma_counts_sum_to_token_count(order: Seq<Seq<u8>>, keys: Seq<Seq<u8>>)
    requires
        order.no_duplicates(),
        forall|i: int| 0 <= i < keys.len() ==> order.contains(#[trigger] keys[i]),
    ensures
        sum_of_occurrences(order, keys) == keys.len(),
    decreases keys.len(),
{
    if keys.len() == 0 {
        assert(keys =~= Seq::<Seq<u8>>::empty());
        lemma_sum_of_nothing(order);
    } else {
        let p = keys.drop_last();
        assert forall|i: int| 0 <= i < p.len() implies order.contains(#[trigger] p[i]) by {
            assert(keys[i] == p[i]);
        }
        lemma_counts_sum_to_token_count(order, p);
        assert(order.contains(keys[keys.len() - 1]));
        assert(p.push(keys.last()) =~= keys);
        lemma_sum_of_occurrences_push(order, p, keys.last());
        assert(order.contains(keys.last()));
    }
}

proof fn lemma_sum_of_nothing(order: Seq<Seq<u8>>)
    ensures
        sum_of_occurrences(order, Seq::empty()) == 0,
    decreases order.len(),
{
    if order.len() > 0 {
        lemma_sum_of_nothing(order.drop_last());
    }
}

} // verus!
