//! A fixed-size open-addressing table from station names to their statistics,
//! with linear probing and FNV-1a hashing.
use vstd::prelude::*;
use crate::stats::{
    Stats, add_stats, bounded_map, combine, empty_stats, lemma_add_stats_commute, lemma_combine_assoc,
    lemma_combine_comm, lemma_merge_dom, lemma_merge_insert, merge_maps, single, stats_of,
};

verus! {

/// Number of slots of a table.
pub const SLOTS: usize = 4096;

/// `SLOTS - 1`, the mask that maps a hash to its home slot.
pub const MASK: usize = 4095;

/// Longest station name a slot can hold, in bytes.
pub const KEY_CAPACITY: usize = 100;

/// FNV-1a offset basis.
pub const FNV_OFFSET: u32 = 2166136261;

/// FNV-1a prime.
pub const FNV_PRIME: u32 = 16777619;

/// One FNV-1a step: xor in the byte, then multiply by the prime modulo 2^32.
#[verifier::opaque]
pub open spec fn fnv_step(h: u32, b: u8) -> u32 {
    (((h ^ (b as u32)) as nat * FNV_PRIME as nat) % 0x1_0000_0000) as u32
}

/// The 32-bit FNV-1a hash of a byte string.
pub open spec fn fnv1a(s: Seq<u8>) -> u32
    decreases s.len(),
{
    if s.len() == 0 {
        FNV_OFFSET
    } else {
        fnv_step(fnv1a(s.drop_last()), s.last())
    }
}

/// The 32-bit FNV-1a hash of `name`.
pub fn fnv1a_hash(name: &[u8]) -> (h: u32)
    ensures
        h == fnv1a(name@),
{
    let mut h: u32 = FNV_OFFSET;
    let mut j: usize = 0;
    while j < name.len()
        invariant
            j <= name@.len(),
            h == fnv1a(name@.subrange(0, j as int)),
        decreases name@.len() - j,
    {
        proof {
            let s = name@.subrange(0, j as int + 1);
            assert(s.drop_last() =~= name@.subrange(0, j as int));
            reveal(fnv_step);
        }
        h = (h ^ (name[j] as u32)).wrapping_mul(FNV_PRIME);
        j = j + 1;
    }
    assert(name@.subrange(0, name@.len() as int) =~= name@);
    h
}

/// A zero hash marks an empty slot, so a zero hash is stored as 1.
pub open spec fn nonzero_hash(h: u32) -> u32 {
    if h == 0 {
        1
    } else {
        h
    }
}

/// The hash stored in the slot of a station.
pub open spec fn slot_hash(name: Seq<u8>) -> u32 {
    nonzero_hash(fnv1a(name))
}

/// The slot where probing for hash `h` starts.
pub open spec fn home(h: u32) -> int {
    h as int % 4096
}

/// The slot probed in step `k` (from 0) for hash `h`.
pub open spec fn probe_slot(h: u32, k: int) -> int {
    (home(h) + k) % 4096
}

/// In which probing step for hash `h` slot `i` is reached.
pub open spec fn probe_distance(h: u32, i: int) -> int {
    (i - home(h)) % 4096
}

pub proof fn lemma_probe_slot(h: u32, k: int)
    requires
        0 <= k < 4096,
    ensures
        0 <= probe_slot(h, k) < 4096,
        probe_distance(h, probe_slot(h, k)) == k,
        probe_slot(h, k + 1) == (probe_slot(h, k) + 1) % 4096,
{
}

pub proof fn lemma_probe_distance(h: u32, i: int)
    requires
        0 <= i < 4096,
    ensures
        0 <= probe_distance(h, i) < 4096,
        probe_slot(h, probe_distance(h, i)) == i,
{
}

/// A slot seen abstractly: the stored hash (0 when the slot is empty), the
/// station name and its statistics.
pub type Slot = (u32, Seq<u8>, Stats);

/// The slots of an empty table.
pub open spec fn empty_layout() -> Seq<Slot> {
    Seq::new(4096, |i: int| (0u32, Seq::<u8>::empty(), empty_stats()))
}

/// Some taken slot of `m` holds station `name`.
pub open spec fn holds(m: Seq<Slot>, name: Seq<u8>) -> bool {
    exists|j: int| #![trigger m[j]] 0 <= j < 4096 && m[j].0 != 0 && m[j].1 == name
}

/// Slot `i` is the first empty slot on the probing path of hash `h`.
pub open spec fn first_free(m: Seq<Slot>, h: u32, i: int) -> bool {
    &&& 0 <= i < 4096
    &&& m[i].0 == 0
    &&& forall|k: int| 0 <= k < probe_distance(h, i) ==> #[trigger] m[probe_slot(h, k)].0 != 0
}

/// The slot that station `name`, stored with hash `h` (0 standing for 1),
/// occupies: the slot that holds it, or else the first empty slot on its
/// probing path.
pub open spec fn target_slot(m: Seq<Slot>, name: Seq<u8>, h: u32) -> int {
    if holds(m, name) {
        choose|j: int| #![trigger m[j]] 0 <= j < 4096 && m[j].0 != 0 && m[j].1 == name
    } else {
        choose|i: int| first_free(m, nonzero_hash(h), i)
    }
}

/// There is one first empty slot on a probing path.
pub proof fn lemma_first_free_unique(m: Seq<Slot>, h: u32, i1: int, i2: int)
    requires
        first_free(m, h, i1),
        first_free(m, h, i2),
    ensures
        i1 == i2,
{
    lemma_probe_distance(h, i1);
    lemma_probe_distance(h, i2);
    let d1 = probe_distance(h, i1);
    let d2 = probe_distance(h, i2);
    if d1 < d2 {
        assert(m[probe_slot(h, d1)].0 != 0);
    } else if d2 < d1 {
        assert(m[probe_slot(h, d2)].0 != 0);
    }
}

/// The statistics of one station, with its name stored inline.
#[derive(Clone, Copy)]
pub struct Entry {
    pub key: [u8; 100],
    pub klen: u8,
    pub min: i32,
    pub max: i32,
    pub sum: i64,
    pub count: u32,
}

impl Entry {
    /// The station name: the first `klen` bytes of `key`.
    pub open spec fn name_view(&self) -> Seq<u8> {
        self.key@.subrange(0, self.klen as int)
    }

    /// Every byte of `key` past the name is zero.
    pub open spec fn key_padded(&self) -> bool {
        forall|k: int| self.klen <= k < 100 ==> self.key@[k] == 0
    }

    /// The entry of an empty slot: empty name, zero key, no readings.
    pub open spec fn is_zero(&self) -> bool {
        &&& self.klen == 0
        &&& forall|k: int| 0 <= k < 100 ==> self.key@[k] == 0
        &&& self.stats() == empty_stats()
    }

    /// The statistics held in the entry.
    pub open spec fn stats(&self) -> Stats {
        Stats { min: self.min as int, max: self.max as int, sum: self.sum as int, count: self.count as int }
    }

    /// An entry with an empty name and no readings.
    pub fn zero() -> (e: Entry)
        ensures
            e.is_zero(),
    {
        Entry { key: [0u8; 100], klen: 0, min: i32::MAX, max: i32::MIN, sum: 0, count: 0 }
    }

    /// The station name.
    pub fn name(&self) -> (r: &[u8])
        requires
            self.klen <= 100,
        ensures
            r@ == self.name_view(),
    {
        &self.key[0..self.klen as usize]
    }

    /// Whether the entry holds station `name`: its name fits the key buffer
    /// and equals `name`.
    pub fn has_name(&self, name: &[u8]) -> (r: bool)
        ensures
            r == (self.klen <= 100 && self.name_view() == name@),
    {
        let n = name.len();
        if self.klen as usize != n || n > KEY_CAPACITY {
            return false;
        }
        let mut j: usize = 0;
        while j < n
            invariant
                j <= n,
                n == name@.len(),
                n == self.klen,
                n <= 100,
                forall|k: int| 0 <= k < j ==> self.key@[k] == name@[k],
            decreases n - j,
        {
            if self.key[j] != name[j] {
                return false;
            }
            j = j + 1;
        }
        assert(self.name_view() =~= name@);
        true
    }
}

/// The slots of a table: `hashes[i] == 0` marks an empty slot, otherwise
/// `entries[i]` holds a station and `hashes[i]` the hash of its name.
pub struct Table {
    pub entries: Vec<Entry>,
    pub hashes: Vec<u32>,
}

/// What probing for a station found.
pub enum Probe {
    /// The station is in this slot.
    Found(usize),
    /// The station is absent, and this is the first empty slot on its path.
    Vacant(usize),
    /// The station is absent and every slot is taken.
    Full,
}

impl Table {
    pub open spec fn occupied(&self, i: int) -> bool {
        self.hashes@[i] != 0
    }

    pub open spec fn name_at(&self, i: int) -> Seq<u8> {
        self.entries@[i].name_view()
    }

    pub open spec fn stats_at(&self, i: int) -> Stats {
        self.entries@[i].stats()
    }

    /// A taken slot holds a name that fits its key buffer, padded with zero
    /// bytes; an empty slot holds the zero entry.
    pub open spec fn slot_clean(&self, i: int) -> bool {
        if self.occupied(i) {
            self.entries@[i].klen <= 100 && self.entries@[i].key_padded()
        } else {
            self.entries@[i].is_zero()
        }
    }

    /// Slot `i` holds station `name` under stored hash `h`.
    pub open spec fn slot_matches(&self, i: int, name: Seq<u8>, h: u32) -> bool {
        &&& self.hashes@[i] == h
        &&& self.entries@[i].klen <= 100
        &&& self.name_at(i) == name
    }

    /// The first `d` slots on the probing path of hash `h` are taken, and
    /// none of them holds station `name` under hash `h`.
    pub open spec fn passed(&self, name: Seq<u8>, h: u32, d: int) -> bool {
        forall|k: int|
            0 <= k < d ==> #[trigger] self.hashes@[probe_slot(h, k)] != 0 && !self.slot_matches(
                probe_slot(h, k),
                name,
                h,
            )
    }

    /// Slot `i` is where probing for station `name` with stored hash `h`
    /// stops: every slot before it on the path is passed, and it is empty or
    /// holds the station under `h`.
    pub open spec fn first_stop(&self, name: Seq<u8>, h: u32, i: int) -> bool {
        &&& 0 <= i < 4096
        &&& self.passed(name, h, probe_distance(h, i))
        &&& (!self.occupied(i) || self.slot_matches(i, name, h))
    }

    /// Some slot is empty or holds station `name` under stored hash `h`, so
    /// that probing for it stops.
    pub open spec fn probe_stops(&self, name: Seq<u8>, h: u32) -> bool {
        exists|j: int| 0 <= j < 4096 && (!#[trigger] self.occupied(j) || self.slot_matches(j, name, h))
    }

    /// The slot where probing for station `name` with hash `h` (0 standing
    /// for 1) stops.
    pub open spec fn stop_slot(&self, name: Seq<u8>, h: u32) -> int {
        choose|i: int| self.first_stop(name, nonzero_hash(h), i)
    }

    /// The slots seen abstractly.
    pub open spec fn slots(&self) -> Seq<Slot> {
        Seq::new(4096, |i: int| (self.hashes@[i], self.name_at(i), self.stats_at(i)))
    }

    /// `h` may be used to look station `name` up: if the table holds the
    /// station, it is stored with hash `h` (0 standing for 1).
    pub open spec fn hash_fits(&self, name: Seq<u8>, h: u32) -> bool {
        forall|j: int|
            0 <= j < 4096 && self.occupied(j) && #[trigger] self.name_at(j) == name ==> self.hashes@[j]
                == nonzero_hash(h)
    }

    /// Every station is stored with the FNV-1a hash of its name.
    pub open spec fn fnv_keyed(&self) -> bool {
        forall|j: int|
            0 <= j < 4096 && #[trigger] self.occupied(j) ==> self.hashes@[j] == slot_hash(self.name_at(j))
    }

    /// A station held by both tables is stored with the same hash in both.
    pub open spec fn hashes_agree(&self, other: &Table) -> bool {
        forall|i: int, j: int|
            #![trigger self.name_at(i), other.name_at(j)]
            0 <= i < 4096 && 0 <= j < 4096 && self.occupied(i) && other.occupied(j) && self.name_at(i)
                == other.name_at(j) ==> self.hashes@[i] == other.hashes@[j]
    }

    /// No two taken slots hold the same station.
    pub open spec fn distinct_names(&self) -> bool {
        forall|i: int, j: int|
            #![trigger self.name_at(i), self.name_at(j)]
            0 <= i < 4096 && 0 <= j < 4096 && i != j && self.occupied(i) && self.occupied(j)
                ==> self.name_at(i) != self.name_at(j)
    }

    /// The layout of the slots: the slot arrays have `SLOTS` elements, every
    /// slot is clean, and every slot on the probing path from a station's
    /// home slot (given by its stored hash) to its slot is taken.
    pub open spec fn well_laid(&self) -> bool {
        &&& self.entries@.len() == SLOTS
        &&& self.hashes@.len() == SLOTS
        &&& forall|i: int| 0 <= i < 4096 ==> #[trigger] self.slot_clean(i)
        &&& forall|i: int, k: int|
            #![trigger self.occupied(probe_slot(self.hashes@[i], k))]
            0 <= i < 4096 && self.occupied(i) && 0 <= k < probe_distance(self.hashes@[i], i)
                ==> self.occupied(probe_slot(self.hashes@[i], k))
    }

    /// The table invariant: the layout holds and no station is held twice.
    pub open spec fn wf(&self) -> bool {
        &&& self.well_laid()
        &&& self.distinct_names()
    }

    /// The stations held in the slots below `k`, with their statistics.
    pub open spec fn view_upto(&self, k: int) -> Map<Seq<u8>, Stats>
        decreases k,
    {
        if k <= 0 {
            Map::empty()
        } else if self.occupied(k - 1) {
            self.view_upto(k - 1).insert(self.name_at(k - 1), self.stats_at(k - 1))
        } else {
            self.view_upto(k - 1)
        }
    }

    /// Which stations the slots below `k` hold, and with which statistics.
    pub proof fn lemma_view_upto(&self, k: int)
        requires
            0 <= k <= 4096,
            self.entries@.len() == SLOTS,
            self.hashes@.len() == SLOTS,
            self.distinct_names(),
        ensures
            forall|n: Seq<u8>|
                #[trigger] self.view_upto(k).contains_key(n) <==> exists|j: int|
                    0 <= j < k && self.occupied(j) && #[trigger] self.name_at(j) == n,
            forall|j: int|
                0 <= j < k && self.occupied(j) ==> #[trigger] self.view_upto(k)[self.name_at(j)]
                    == self.stats_at(j),
            self.view_upto(k).dom().finite(),
            self.view_upto(k).dom().len() <= k,
            (forall|j: int| 0 <= j < k ==> self.occupied(j)) ==> self.view_upto(k).dom().len() == k,
            (exists|j: int| 0 <= j < k && !self.occupied(j)) ==> self.view_upto(k).dom().len() < k,
        decreases k,
    {
        if k > 0 {
            self.lemma_view_upto(k - 1);
            let m = self.view_upto(k - 1);
            if self.occupied(k - 1) {
                assert(!m.contains_key(self.name_at(k - 1))) by {
                    if m.contains_key(self.name_at(k - 1)) {
                        let j = choose|j: int|
                            0 <= j < k - 1 && self.occupied(j) && #[trigger] self.name_at(j)
                                == self.name_at(k - 1);
                        assert(self.name_at(j) != self.name_at(k - 1));
                    }
                }
                assert forall|n: Seq<u8>|
                    #[trigger] self.view_upto(k).contains_key(n) implies exists|j: int|
                        0 <= j < k && self.occupied(j) && #[trigger] self.name_at(j) == n by {
                    if n != self.name_at(k - 1) {
                        let j = choose|j: int|
                            0 <= j < k - 1 && self.occupied(j) && #[trigger] self.name_at(j) == n;
                    }
                }
                assert forall|j: int|
                    0 <= j < k && self.occupied(j) implies #[trigger] self.view_upto(k)[self.name_at(
                        j,
                    )] == self.stats_at(j) by {
                    if j < k - 1 {
                        assert(self.name_at(j) != self.name_at(k - 1));
                    }
                }
            } else {
                assert forall|n: Seq<u8>|
                    (exists|j: int| 0 <= j < k && self.occupied(j) && #[trigger] self.name_at(j) == n)
                        implies #[trigger] self.view_upto(k).contains_key(n) by {
                    let j = choose|j: int| 0 <= j < k && self.occupied(j) && #[trigger] self.name_at(j) == n;
                    assert(j < k - 1);
                }
            }
        }
    }

    /// Shorthand for the characterisation of the whole view.
    pub proof fn lemma_view(&self)
        requires
            self.wf(),
        ensures
            forall|n: Seq<u8>|
                #[trigger] self@.contains_key(n) <==> exists|j: int|
                    0 <= j < 4096 && self.occupied(j) && #[trigger] self.name_at(j) == n,
            forall|j: int|
                0 <= j < 4096 && self.occupied(j) ==> #[trigger] self@[self.name_at(j)] == self.stats_at(j),
            self@.dom().finite(),
            self@.dom().len() <= SLOTS,
            (forall|j: int| 0 <= j < 4096 ==> self.occupied(j)) ==> self@.dom().len() == SLOTS,
            (exists|j: int| 0 <= j < 4096 && !self.occupied(j)) ==> self@.dom().len() < SLOTS,
    {
        self.lemma_view_upto(4096);
    }

    /// The view of `t2` is that of `t1` with slot `i` set: all other slots
    /// agree, and slot `i` of `t1` is empty or holds the same station.
    pub proof fn lemma_view_change(t1: &Table, t2: &Table, i: int)
        requires
            t1.wf(),
            t2.wf(),
            0 <= i < 4096,
            t2.occupied(i),
            t1.occupied(i) ==> t1.name_at(i) == t2.name_at(i),
            forall|j: int|
                0 <= j < 4096 && j != i ==> (t1.occupied(j) <==> t2.occupied(j)),
            forall|j: int|
                0 <= j < 4096 && j != i && t1.occupied(j) ==> t1.name_at(j) == t2.name_at(j)
                    && t1.stats_at(j) == t2.stats_at(j),
        ensures
            t2@ == t1@.insert(t2.name_at(i), t2.stats_at(i)),
    {
        t1.lemma_view();
        t2.lemma_view();
        let n = t2.name_at(i);
        assert forall|m: Seq<u8>| #[trigger] t2@.contains_key(m) <==> t1@.insert(n, t2.stats_at(i)).contains_key(m) by {
            if t2@.contains_key(m) && m != n {
                let j = choose|j: int| 0 <= j < 4096 && t2.occupied(j) && #[trigger] t2.name_at(j) == m;
                assert(j != i);
                assert(t1.name_at(j) == m);
            }
            if t1@.contains_key(m) {
                let j = choose|j: int| 0 <= j < 4096 && t1.occupied(j) && #[trigger] t1.name_at(j) == m;
                if j != i {
                    assert(t2.name_at(j) == m);
                }
            }
        }
        assert forall|m: Seq<u8>| #[trigger] t2@.contains_key(m) implies t2@[m] == t1@.insert(n, t2.stats_at(i))[m] by {
            if m != n {
                let j = choose|j: int| 0 <= j < 4096 && t2.occupied(j) && #[trigger] t2.name_at(j) == m;
                assert(j != i);
                assert(t1.name_at(j) == m);
                assert(t1@[t1.name_at(j)] == t1.stats_at(j));
            }
        }
        assert(t2@ =~= t1@.insert(n, t2.stats_at(i)));
    }

    /// An empty table.
    pub fn new() -> (t: Table)
        ensures
            t.wf(),
            t@ == Map::<Seq<u8>, Stats>::empty(),
            t.fnv_keyed(),
            t.slots() == empty_layout(),
            forall|i: int| 0 <= i < 4096 ==> t.hashes@[i] == 0 && (#[trigger] t.entries@[i]).is_zero(),
    {
        let mut entries: Vec<Entry> = Vec::with_capacity(SLOTS);
        let mut i: usize = 0;
        while i < SLOTS
            invariant
                i <= SLOTS,
                entries@.len() == i,
                forall|k: int| 0 <= k < i ==> (#[trigger] entries@[k]).is_zero(),
            decreases SLOTS - i,
        {
            entries.push(Entry::zero());
            i = i + 1;
        }
        let hashes: Vec<u32> = vec![0u32; SLOTS];
        let t = Table { entries, hashes };
        proof {
            assert forall|i: int| 0 <= i < 4096 implies #[trigger] t.slot_clean(i) by {
                assert(t.entries@[i].is_zero());
            }
            t.lemma_view();
            assert(t@ =~= Map::<Seq<u8>, Stats>::empty());
            assert forall|i: int| 0 <= i < 4096 implies #[trigger] t.slots()[i] == empty_layout()[i] by {
                assert(t.entries@[i].is_zero());
                assert(t.name_at(i) =~= Seq::<u8>::empty());
            }
            assert(t.slots() =~= empty_layout());
        }
        t
    }

    /// Two entries whose keys agree byte for byte and whose other fields are
    /// equal are equal.
    pub proof fn lemma_entry_eq(e1: Entry, e2: Entry)
        requires
            e1.key@ == e2.key@,
            e1.klen == e2.klen,
            e1.stats() == e2.stats(),
        ensures
            e1 == e2,
    {
        broadcast use vstd::array::axiom_array_ext_equal;
        assert(e1.key =~= e2.key);
    }

    /// A table is determined, slot for slot, by its slots seen abstractly:
    /// two tables with the invariant and the same abstract slots have the
    /// same hashes and the same entries.
    pub proof fn lemma_slots_determine(t1: &Table, t2: &Table)
        requires
            t1.wf(),
            t2.wf(),
            t1.slots() == t2.slots(),
        ensures
            t1.hashes@ == t2.hashes@,
            t1.entries@ == t2.entries@,
    {
        assert forall|i: int| 0 <= i < 4096 implies t1.hashes@[i] == t2.hashes@[i] && t1.entries@[i]
            == t2.entries@[i] by {
            assert(t1.slots()[i] == t2.slots()[i]);
            assert(t1.slot_clean(i));
            assert(t2.slot_clean(i));
            let e1 = t1.entries@[i];
            let e2 = t2.entries@[i];
            if t1.occupied(i) {
                assert(e1.name_view().len() == e1.klen);
                assert(e2.name_view().len() == e2.klen);
                assert forall|k: int| 0 <= k < 100 implies e1.key@[k] == e2.key@[k] by {
                    if k < e1.klen {
                        assert(e1.name_view()[k] == e2.name_view()[k]);
                    }
                }
            }
            assert(e1.key@ =~= e2.key@);
            Table::lemma_entry_eq(e1, e2);
        }
        assert(t1.hashes@ =~= t2.hashes@);
        assert(t1.entries@ =~= t2.entries@);
    }

    /// Two tables whose stations are stored with the FNV-1a hashes of their
    /// names agree on the hashes.
    pub proof fn lemma_fnv_keyed_agree(t1: &Table, t2: &Table)
        requires
            t1.fnv_keyed(),
            t2.fnv_keyed(),
        ensures
            t1.hashes_agree(t2),
    {
        assert forall|i: int, j: int|
            0 <= i < 4096 && 0 <= j < 4096 && t1.occupied(i) && t2.occupied(j)
                && #[trigger] t1.name_at(i) == #[trigger] t2.name_at(j) implies t1.hashes@[i] == t2.hashes@[j] by {
            assert(t1.hashes@[i] == slot_hash(t1.name_at(i)));
            assert(t2.hashes@[j] == slot_hash(t2.name_at(j)));
        }
    }

    /// With the FNV-1a hash of its name a station can be looked up in a
    /// table keyed by FNV-1a.
    pub proof fn lemma_fnv_fits(&self, name: Seq<u8>)
        requires
            self.fnv_keyed(),
        ensures
            self.hash_fits(name, fnv1a(name)),
    {
        assert forall|j: int|
            0 <= j < 4096 && self.occupied(j) && #[trigger] self.name_at(j) == name implies self.hashes@[j]
                == nonzero_hash(fnv1a(name)) by {
            assert(self.hashes@[j] == slot_hash(self.name_at(j)));
        }
    }

    /// A station is absent when its probing path reaches an empty slot
    /// without passing it.
    pub proof fn lemma_absent_at_vacant(&self, name: Seq<u8>, h: u32, k: int)
        requires
            self.wf(),
            h != 0,
            self.hash_fits(name, h),
            0 <= k < 4096,
            !self.occupied(probe_slot(h, k)),
            self.passed(name, h, k),
        ensures
            !self@.contains_key(name),
    {
        self.lemma_view();
        if self@.contains_key(name) {
            let j = choose|j: int| 0 <= j < 4096 && self.occupied(j) && #[trigger] self.name_at(j) == name;
            assert(self.hashes@[j] == h);
            self.lemma_slot(j);
            lemma_probe_distance(h, j);
            let d = probe_distance(h, j);
            if d < k {
                assert(self.occupied(probe_slot(h, d)));
            } else if d > k {
                assert(self.occupied(probe_slot(self.hashes@[j], k)));
            }
        }
    }

    /// A station is absent, and the table full, when its whole probing path
    /// is taken by other stations.
    pub proof fn lemma_absent_when_full(&self, name: Seq<u8>, h: u32)
        requires
            self.wf(),
            h != 0,
            self.hash_fits(name, h),
            self.passed(name, h, 4096),
        ensures
            !self@.contains_key(name),
            self@.dom().len() == SLOTS,
    {
        self.lemma_view();
        assert forall|j: int| 0 <= j < 4096 implies self.occupied(j) && #[trigger] self.name_at(j) != name by {
            lemma_probe_distance(h, j);
            let d = probe_distance(h, j);
            assert(self.occupied(probe_slot(h, d)));
            self.lemma_slot(j);
        }
        assert forall|j: int| 0 <= j < 4096 implies #[trigger] self.occupied(j) by {
            lemma_probe_distance(h, j);
            assert(self.occupied(probe_slot(h, probe_distance(h, j))));
        }
    }

    /// What the invariant says of a taken slot.
    pub proof fn lemma_slot(&self, i: int)
        requires
            self.wf(),
            0 <= i < 4096,
            self.occupied(i),
        ensures
            self.entries@[i].klen <= 100,
            self.entries@[i].key_padded(),
    {
        assert(self.slot_clean(i));
    }

    /// Probing stops at one slot only.
    pub proof fn lemma_first_stop_unique(&self, name: Seq<u8>, h: u32, i1: int, i2: int)
        requires
            self.first_stop(name, h, i1),
            self.first_stop(name, h, i2),
        ensures
            i1 == i2,
    {
        lemma_probe_distance(h, i1);
        lemma_probe_distance(h, i2);
        let d1 = probe_distance(h, i1);
        let d2 = probe_distance(h, i2);
        if d1 < d2 {
            assert(self.hashes@[probe_slot(h, d1)] != 0);
        } else if d2 < d1 {
            assert(self.hashes@[probe_slot(h, d2)] != 0);
        }
    }

    /// When some slot is empty or holds the station, probing stops, at the
    /// stop slot.
    pub proof fn lemma_stop_slot(&self, name: Seq<u8>, h: u32)
        requires
            self.probe_stops(name, nonzero_hash(h)),
        ensures
            self.first_stop(name, nonzero_hash(h), self.stop_slot(name, h)),
    {
        self.lemma_stop_from(name, nonzero_hash(h), 0);
    }

    /// Probing on from step `d`, with the steps before it passed, stops.
    proof fn lemma_stop_from(&self, name: Seq<u8>, h: u32, d: int)
        requires
            0 <= d <= 4096,
            self.passed(name, h, d),
            self.probe_stops(name, h),
        ensures
            exists|i: int| self.first_stop(name, h, i),
        decreases 4096 - d,
    {
        if d == 4096 {
            self.lemma_passed_all(name, h);
            let j = choose|j: int| 0 <= j < 4096 && (!#[trigger] self.occupied(j) || self.slot_matches(j, name, h));
            assert(self.hashes@[j] != 0);
        } else {
            let p = probe_slot(h, d);
            lemma_probe_slot(h, d);
            if !self.occupied(p) || self.slot_matches(p, name, h) {
                assert(self.first_stop(name, h, p));
            } else {
                assert forall|k: int| 0 <= k < d + 1 implies #[trigger] self.hashes@[probe_slot(h, k)] != 0
                    && !self.slot_matches(probe_slot(h, k), name, h) by {
                    if k < d {
                        assert(self.hashes@[probe_slot(h, k)] != 0);
                    }
                }
                self.lemma_stop_from(name, h, d + 1);
            }
        }
    }

    /// A whole probing path passed covers every slot.
    pub proof fn lemma_passed_all(&self, name: Seq<u8>, h: u32)
        requires
            self.passed(name, h, 4096),
        ensures
            forall|j: int| 0 <= j < 4096 ==> #[trigger] self.hashes@[j] != 0 && !self.slot_matches(j, name, h),
    {
        assert forall|j: int| 0 <= j < 4096 implies #[trigger] self.hashes@[j] != 0 && !self.slot_matches(j, name, h) by {
            lemma_probe_distance(h, j);
            assert(self.occupied(probe_slot(h, probe_distance(h, j))));
        }
    }

    /// Probes for station `name` with stored hash `h`, from the home slot of
    /// `h` on, until a slot that holds the station under `h` or an empty slot
    /// is met, or every slot has been seen.
    #[verifier::rlimit(50)]
    pub fn probe(&self, name: &[u8], h: u32) -> (r: Probe)
        requires
            self.entries@.len() == SLOTS,
            self.hashes@.len() == SLOTS,
            h != 0,
        ensures
            match r {
                Probe::Found(i) => {
                    &&& i < SLOTS
                    &&& self.slot_matches(i as int, name@, h)
                    &&& self.passed(name@, h, probe_distance(h, i as int))
                },
                Probe::Vacant(i) => {
                    &&& i < SLOTS
                    &&& !self.occupied(i as int)
                    &&& self.passed(name@, h, probe_distance(h, i as int))
                },
                Probe::Full => self.passed(name@, h, 4096),
            },
            self.wf() && self.hash_fits(name@, h) ==> match r {
                Probe::Found(i) => self.occupied(i as int) && self.name_at(i as int) == name@,
                Probe::Vacant(i) => {
                    &&& !self@.contains_key(name@)
                    &&& forall|k: int|
                        0 <= k < probe_distance(h, i as int) ==> #[trigger] self.occupied(probe_slot(h, k))
                },
                Probe::Full => !self@.contains_key(name@) && self@.dom().len() == SLOTS,
            },
    {
        let hu = h as usize;
        let mut i: usize = hu & MASK;
        assert((hu & 4095usize) == hu % 4096usize) by (bit_vector);
        let mut k: usize = 0;
        while k < SLOTS
            invariant
                self.entries@.len() == SLOTS,
                self.hashes@.len() == SLOTS,
                h != 0,
                k <= SLOTS,
                i < SLOTS,
                k < SLOTS ==> i == probe_slot(h, k as int),
                self.passed(name@, h, k as int),
            decreases SLOTS - k,
        {
            proof {
                lemma_probe_slot(h, k as int);
            }
            let slot_h = self.hashes[i];
            if slot_h == 0 {
                proof {
                    if self.wf() && self.hash_fits(name@, h) {
                        self.lemma_absent_at_vacant(name@, h, k as int);
                    }
                }
                return Probe::Vacant(i);
            }
            if slot_h == h && self.entries[i].has_name(name) {
                return Probe::Found(i);
            }
            let next = i + 1;
            assert((next & 4095usize) == next % 4096usize) by (bit_vector);
            i = next & MASK;
            let ghost old_k = k;
            k = k + 1;
            proof {
                let ghost p = probe_slot(h, old_k as int);
                assert(self.occupied(p) && !self.slot_matches(p, name@, h));
                assert forall|k2: int| 0 <= k2 < old_k + 1 implies #[trigger] self.occupied(probe_slot(h, k2))
                    && !self.slot_matches(probe_slot(h, k2), name@, h) by {
                    if k2 < old_k {
                        assert(self.occupied(probe_slot(h, k2)));
                    }
                }
                assert(self.passed(name@, h, old_k + 1));
                assert(self.passed(name@, h, k as int));
            }
        }
        proof {
            if self.wf() && self.hash_fits(name@, h) {
                self.lemma_absent_when_full(name@, h);
            }
        }
        Probe::Full
    }

    /// Taking empty slot `i`, at the end of the taken part of the probing
    /// path of hash `h`, for a name that fits its key buffer keeps the layout.
    pub proof fn lemma_take_slot_laid(t1: &Table, t2: &Table, i: int, h: u32)
        requires
            t1.well_laid(),
            0 <= i < 4096,
            !t1.occupied(i),
            t2.entries@.len() == SLOTS,
            t2.hashes@ == t1.hashes@.update(i, h),
            forall|j: int| 0 <= j < 4096 && j != i ==> t2.entries@[j] == t1.entries@[j],
            h != 0,
            t2.entries@[i].klen <= 100,
            t2.entries@[i].key_padded(),
            forall|k: int| 0 <= k < probe_distance(h, i) ==> #[trigger] t1.occupied(probe_slot(h, k)),
        ensures
            t2.well_laid(),
    {
        assert forall|a: int, k: int|
            0 <= a < 4096 && t2.occupied(a) && 0 <= k < probe_distance(t2.hashes@[a], a)
                implies #[trigger] t2.occupied(probe_slot(t2.hashes@[a], k)) by {
            if a != i {
                assert(t1.occupied(probe_slot(t1.hashes@[a], k)));
            } else {
                assert(t1.occupied(probe_slot(h, k)));
            }
        }
        assert forall|a: int| 0 <= a < 4096 implies #[trigger] t2.slot_clean(a) by {
            if a != i {
                assert(t1.slot_clean(a));
            }
        }
    }

    /// Taking empty slot `i`, at the end of the taken part of the probing
    /// path of an absent station, for that station keeps the invariant.
    pub proof fn lemma_take_slot(t1: &Table, t2: &Table, i: int, h: u32)
        requires
            t1.wf(),
            0 <= i < 4096,
            !t1.occupied(i),
            t2.entries@.len() == SLOTS,
            t2.hashes@ == t1.hashes@.update(i, h),
            forall|j: int| 0 <= j < 4096 && j != i ==> t2.entries@[j] == t1.entries@[j],
            h != 0,
            t2.entries@[i].klen <= 100,
            t2.entries@[i].key_padded(),
            !t1@.contains_key(t2.name_at(i)),
            forall|k: int| 0 <= k < probe_distance(h, i) ==> #[trigger] t1.occupied(probe_slot(h, k)),
        ensures
            t2.wf(),
    {
        Table::lemma_take_slot_laid(t1, t2, i, h);
        t1.lemma_view();
        assert forall|a: int, b: int|
            0 <= a < 4096 && 0 <= b < 4096 && a != b && t2.occupied(a) && t2.occupied(b)
                implies #[trigger] t2.name_at(a) != #[trigger] t2.name_at(b) by {
            if a == i {
                assert(t1.name_at(b) == t2.name_at(b));
            } else if b == i {
                assert(t1.name_at(a) == t2.name_at(a));
            } else {
                assert(t1.name_at(a) != t1.name_at(b));
            }
        }
    }

    /// The slot of a taken station, and the first empty slot on the probing
    /// path of an absent one, is its target slot.
    pub proof fn lemma_target_slot(&self, name: Seq<u8>, h: u32, i: int)
        requires
            self.wf(),
            0 <= i < 4096,
            (self.occupied(i) && self.name_at(i) == name) || (!self@.contains_key(name) && first_free(
                self.slots(),
                nonzero_hash(h),
                i,
            )),
        ensures
            target_slot(self.slots(), name, h) == i,
    {
        self.lemma_view();
        let m = self.slots();
        if self.occupied(i) && self.name_at(i) == name {
            assert(m[i].0 != 0 && m[i].1 == name);
            let j = choose|j: int| #![trigger m[j]] 0 <= j < 4096 && m[j].0 != 0 && m[j].1 == name;
            assert(self.name_at(j) == self.name_at(i));
        } else {
            if holds(m, name) {
                let j = choose|j: int| #![trigger m[j]] 0 <= j < 4096 && m[j].0 != 0 && m[j].1 == name;
                assert(self.occupied(j) && self.name_at(j) == name);
            }
            let i2 = choose|i2: int| first_free(m, nonzero_hash(h), i2);
            lemma_first_free_unique(m, nonzero_hash(h), i, i2);
        }
    }

    /// Finds the slot that holds station `name` under hash `h` (0 standing
    /// for 1), probing from the home slot of that hash on, or takes for the
    /// station, with no readings yet, the first empty slot met on the way.
    /// Gives `None`, with the table unchanged, when every slot is taken and
    /// none holds the station under that hash. Only the taken slot is
    /// written. In a table with the invariant, where the station, if held,
    /// is held under `h`, this is the slot of the station in the table's
    /// view.
    pub fn get_or_insert(&mut self, name: &[u8], h: u32) -> (r: Option<usize>)
        requires
            old(self).entries@.len() == SLOTS,
            old(self).hashes@.len() == SLOTS,
            name@.len() <= KEY_CAPACITY,
        ensures
            final(self).entries@.len() == SLOTS,
            final(self).hashes@.len() == SLOTS,
            old(self).well_laid() ==> final(self).well_laid(),
            match r {
                None => {
                    &&& *final(self) == *old(self)
                    &&& !old(self).probe_stops(name@, nonzero_hash(h))
                    &&& forall|j: int|
                        0 <= j < 4096 ==> #[trigger] old(self).hashes@[j] != 0 && !old(self).slot_matches(
                            j,
                            name@,
                            nonzero_hash(h),
                        )
                },
                Some(i) => {
                    &&& i < SLOTS
                    &&& old(self).probe_stops(name@, nonzero_hash(h))
                    &&& i == old(self).stop_slot(name@, h)
                    &&& old(self).passed(name@, nonzero_hash(h), probe_distance(nonzero_hash(h), i as int))
                    &&& final(self).slot_matches(i as int, name@, nonzero_hash(h))
                    &&& old(self).occupied(i as int) ==> old(self).slot_matches(i as int, name@, nonzero_hash(h))
                        && *final(self) == *old(self)
                    &&& !old(self).occupied(i as int) ==> {
                        &&& final(self).hashes@ == old(self).hashes@.update(i as int, nonzero_hash(h))
                        &&& final(self).entries@ == old(self).entries@.update(
                            i as int,
                            final(self).entries@[i as int],
                        )
                        &&& final(self).entries@[i as int].klen == name@.len()
                        &&& forall|k: int|
                            0 <= k < 100 ==> final(self).entries@[i as int].key@[k] == if k < name@.len() {
                                name@[k]
                            } else {
                                0u8
                            }
                        &&& final(self).stats_at(i as int) == empty_stats()
                    }
                },
            },
            old(self).wf() && old(self).hash_fits(name@, h) ==> final(self).wf(),
            old(self).wf() && old(self).hash_fits(name@, h) && old(self)@.contains_key(name@) ==> *final(self)
                == *old(self),
            old(self).wf() && old(self).hash_fits(name@, h) ==> match r {
                None => !old(self)@.contains_key(name@) && old(self)@.dom().len() == SLOTS,
                Some(i) => {
                    &&& i == target_slot(old(self).slots(), name@, h)
                    &&& final(self).occupied(i as int)
                    &&& final(self).name_at(i as int) == name@
                    &&& final(self).stats_at(i as int) == stats_of(old(self)@, name@)
                    &&& final(self)@ == old(self)@.insert(name@, stats_of(old(self)@, name@))
                    &&& final(self).hashes@ == old(self).hashes@.update(i as int, nonzero_hash(h))
                    &&& final(self).entries@ == old(self).entries@.update(
                        i as int,
                        final(self).entries@[i as int],
                    )
                    &&& final(self).entries@[i as int].klen == name@.len()
                    &&& forall|k: int|
                        0 <= k < 100 ==> final(self).entries@[i as int].key@[k] == if k < name@.len() {
                            name@[k]
                        } else {
                            0u8
                        }
                    &&& final(self).slots() == old(self).slots().update(
                        i as int,
                        (nonzero_hash(h), name@, stats_of(old(self)@, name@)),
                    )
                    &&& !old(self)@.contains_key(name@) ==> first_free(
                        old(self).slots(),
                        nonzero_hash(h),
                        i as int,
                    )
                },
            },
    {
        let ghost t0 = *self;
        let ghost h0 = h;
        let h = if h == 0 {
            1
        } else {
            h
        };
        match self.probe(name, h) {
            Probe::Found(i) => {
                proof {
                    assert(self.first_stop(name@, h, i as int));
                    self.lemma_stop_slot(name@, h0);
                    self.lemma_first_stop_unique(name@, h, i as int, self.stop_slot(name@, h0));
                    if self.wf() && self.hash_fits(name@, h) {
                        self.lemma_view();
                        self.lemma_slot(i as int);
                        assert(self@.insert(name@, stats_of(self@, name@)) =~= self@);
                        self.lemma_target_slot(name@, h, i as int);
                        assert(self.entries@.update(i as int, self.entries@[i as int]) =~= self.entries@);
                        assert(self.hashes@.update(i as int, h) =~= self.hashes@);
                        assert(self@[self.name_at(i as int)] == self.stats_at(i as int));
                        assert(self.slots().update(i as int, (h, name@, stats_of(self@, name@)))
                            =~= self.slots());
                    }
                }
                Some(i)
            },
            Probe::Full => {
                proof {
                    self.lemma_passed_all(name@, h);
                }
                None
            },
            Probe::Vacant(i) => {
                let ghost t1 = *self;
                proof {
                    assert(self.first_stop(name@, h, i as int));
                    self.lemma_stop_slot(name@, h0);
                    self.lemma_first_stop_unique(name@, h, i as int, self.stop_slot(name@, h0));
                }
                let mut e = Entry::zero();
                let n = name.len();
                e.klen = n as u8;
                let mut j: usize = 0;
                while j < n
                    invariant
                        j <= n,
                        n == name@.len(),
                        n <= 100,
                        e.klen == n,
                        e.stats() == empty_stats(),
                        forall|k: int| 0 <= k < j ==> e.key@[k] == name@[k],
                        forall|k: int| j <= k < 100 ==> e.key@[k] == 0,
                    decreases n - j,
                {
                    e.key[j] = name[j];
                    j = j + 1;
                }
                assert(e.name_view() =~= name@);
                self.entries.set(i, e);
                self.hashes.set(i, h);
                proof {
                    assert forall|k: int| 0 <= k < probe_distance(h, i as int) implies #[trigger] t1.occupied(
                        probe_slot(h, k),
                    ) by {
                        assert(t1.occupied(probe_slot(h, k)));
                    }
                    if t1.well_laid() {
                        Table::lemma_take_slot_laid(&t1, self, i as int, h);
                    }
                    if t1.wf() && t1.hash_fits(name@, h) {
                        Table::lemma_take_slot(&t1, self, i as int, h);
                        Table::lemma_view_change(&t1, self, i as int);
                        let m = t1.slots();
                        assert forall|k: int| 0 <= k < probe_distance(h, i as int) implies #[trigger] m[probe_slot(
                            h,
                            k,
                        )].0 != 0 by {
                            assert(t1.occupied(probe_slot(h, k)));
                            lemma_probe_slot(h, k);
                        }
                        assert(first_free(m, h, i as int));
                        t1.lemma_target_slot(name@, h, i as int);
                        assert(t1.slot_clean(i as int));
                        assert(stats_of(t1@, name@) == empty_stats());
                        assert(self.slots() =~= m.update(i as int, (h, name@, empty_stats())));
                    }
                }
                Some(i)
            },
        }
    }

    /// A table whose slots hold the same names as a well-laid table, at the
    /// same places and with the same hashes, is well laid too.
    pub proof fn lemma_same_names_laid(t1: &Table, t2: &Table)
        requires
            t1.well_laid(),
            t2.entries@.len() == SLOTS,
            t2.hashes@ == t1.hashes@,
            forall|j: int|
                0 <= j < 4096 ==> (#[trigger] t2.entries@[j]).klen == t1.entries@[j].klen
                    && t2.entries@[j].key == t1.entries@[j].key,
            forall|j: int| 0 <= j < 4096 && !t1.occupied(j) ==> t2.entries@[j] == t1.entries@[j],
        ensures
            t2.well_laid(),
    {
        assert forall|a: int| 0 <= a < 4096 implies #[trigger] t2.slot_clean(a) by {
            assert(t2.entries@[a].klen == t1.entries@[a].klen);
            assert(t1.slot_clean(a));
        }
        assert forall|a: int, k: int|
            0 <= a < 4096 && t2.occupied(a) && 0 <= k < probe_distance(t2.hashes@[a], a)
                implies #[trigger] t2.occupied(probe_slot(t2.hashes@[a], k)) by {
            assert(t1.occupied(probe_slot(t1.hashes@[a], k)));
        }
    }

    /// A table whose slots hold the same stations as a table with the
    /// invariant, at the same places and with the same hashes, has the
    /// invariant too.
    pub proof fn lemma_same_stations(t1: &Table, t2: &Table)
        requires
            t1.wf(),
            t2.entries@.len() == SLOTS,
            t2.hashes@ == t1.hashes@,
            forall|j: int|
                0 <= j < 4096 ==> (#[trigger] t2.entries@[j]).klen == t1.entries@[j].klen
                    && t2.entries@[j].key == t1.entries@[j].key,
            forall|j: int| 0 <= j < 4096 && !t1.occupied(j) ==> t2.entries@[j] == t1.entries@[j],
        ensures
            t2.wf(),
    {
        Table::lemma_same_names_laid(t1, t2);
        assert forall|a: int, b: int|
            0 <= a < 4096 && 0 <= b < 4096 && a != b && t2.occupied(a) && t2.occupied(b)
                implies #[trigger] t2.name_at(a) != #[trigger] t2.name_at(b) by {
            assert(t2.entries@[a].klen == t1.entries@[a].klen);
            assert(t2.entries@[b].klen == t1.entries@[b].klen);
            assert(t1.name_at(a) != t1.name_at(b));
        }
    }

    /// The statistics of a table with the invariant are those of its
    /// entries, so their fields are machine integers.
    pub proof fn lemma_view_bounded(&self)
        requires
            self.wf(),
        ensures
            bounded_map(self@),
            forall|n: Seq<u8>|
                #[trigger] self@.contains_key(n) ==> 0 <= self@[n].count <= u32::MAX && i64::MIN
                    <= self@[n].sum <= i64::MAX && i32::MIN <= self@[n].min <= i32::MAX && i32::MIN
                    <= self@[n].max <= i32::MAX,
    {
        self.lemma_view();
        assert forall|n: Seq<u8>| #[trigger] self@.contains_key(n) implies 0 <= self@[n].count
            <= u32::MAX && i64::MIN <= self@[n].sum <= i64::MAX && i32::MIN <= self@[n].min
            <= i32::MAX && i32::MIN <= self@[n].max <= i32::MAX by {
            let j = choose|j: int| 0 <= j < 4096 && self.occupied(j) && #[trigger] self.name_at(j) == n;
            assert(self@[self.name_at(j)] == self.stats_at(j));
        }
    }

    /// Replaces the statistics in taken slot `i` by `e`'s.
    fn set_stats(&mut self, i: usize, e: Entry)
        requires
            old(self).entries@.len() == SLOTS,
            old(self).hashes@.len() == SLOTS,
            i < SLOTS,
            old(self).occupied(i as int),
            e.key == old(self).entries@[i as int].key,
            e.klen == old(self).entries@[i as int].klen,
        ensures
            final(self).hashes@ == old(self).hashes@,
            final(self).entries@ == old(self).entries@.update(i as int, e),
            final(self).name_at(i as int) == old(self).name_at(i as int),
            old(self).well_laid() ==> final(self).well_laid(),
            old(self).wf() ==> final(self).wf(),
            old(self).wf() ==> final(self)@ == old(self)@.insert(old(self).name_at(i as int), e.stats()),
            final(self).slots() == old(self).slots().update(
                i as int,
                (old(self).hashes@[i as int], old(self).name_at(i as int), e.stats()),
            ),
    {
        let ghost t1 = *self;
        self.entries.set(i, e);
        proof {
            assert forall|j: int| 0 <= j < 4096 implies (#[trigger] self.entries@[j]).klen
                == t1.entries@[j].klen && self.entries@[j].key == t1.entries@[j].key by {}
            if t1.well_laid() {
                Table::lemma_same_names_laid(&t1, self);
            }
            if t1.wf() {
                Table::lemma_same_stations(&t1, self);
                Table::lemma_view_change(&t1, self, i as int);
            }
            assert(self.name_at(i as int) =~= t1.name_at(i as int));
            assert(self.slots() =~= t1.slots().update(
                i as int,
                (t1.hashes@[i as int], t1.name_at(i as int), e.stats()),
            ));
        }
    }

    /// Adds reading `t` to the station in taken slot `i`.
    pub(crate) fn record_reading(&mut self, i: usize, t: i32)
        requires
            old(self).wf(),
            i < SLOTS,
            old(self).occupied(i as int),
            old(self).stats_at(i as int).count < u32::MAX,
            i64::MIN <= old(self).stats_at(i as int).sum + t <= i64::MAX,
        ensures
            final(self).wf(),
            final(self)@ == old(self)@.insert(
                old(self).name_at(i as int),
                combine(old(self).stats_at(i as int), single(t as int)),
            ),
            final(self).hashes@ == old(self).hashes@,
            forall|j: int| 0 <= j < 4096 && j != i ==> final(self).entries@[j] == old(self).entries@[j],
            final(self).entries@[i as int].key == old(self).entries@[i as int].key,
            final(self).entries@[i as int].klen == old(self).entries@[i as int].klen,
            final(self).slots() == old(self).slots().update(
                i as int,
                (
                    old(self).hashes@[i as int],
                    old(self).name_at(i as int),
                    combine(old(self).stats_at(i as int), single(t as int)),
                ),
            ),
    {
        let mut e = self.entries[i];
        if t < e.min {
            e.min = t;
        }
        if t > e.max {
            e.max = t;
        }
        e.sum = e.sum + t as i64;
        e.count = e.count + 1;
        self.set_stats(i, e);
    }

    /// Merges the statistics of entry `e`, whose stored hash is `h` (0
    /// standing for 1), into the slot where probing for its station stops:
    /// the slot that holds the station under that hash, or else the first
    /// empty slot on the way, which the station takes. Only that slot is
    /// written. In a table with the invariant, where the station, if held,
    /// is held under `h`, this merges `e` into the station in the table's
    /// view.
    pub fn merge_entry(&mut self, e: &Entry, h: u32)
        requires
            old(self).entries@.len() == SLOTS,
            old(self).hashes@.len() == SLOTS,
            e.klen <= KEY_CAPACITY,
            old(self).probe_stops(e.name_view(), nonzero_hash(h)),
            old(self).occupied(old(self).stop_slot(e.name_view(), h)) ==> old(self).stats_at(
                old(self).stop_slot(e.name_view(), h),
            ).count + e.count <= u32::MAX && i64::MIN <= old(self).stats_at(
                old(self).stop_slot(e.name_view(), h),
            ).sum + e.sum <= i64::MAX,
        ensures
            final(self).entries@.len() == SLOTS,
            final(self).hashes@.len() == SLOTS,
            old(self).well_laid() ==> final(self).well_laid(),
            ({
                let p = old(self).stop_slot(e.name_view(), h);
                &&& old(self).first_stop(e.name_view(), nonzero_hash(h), p)
                &&& final(self).hashes@ == old(self).hashes@.update(p, nonzero_hash(h))
                &&& forall|j: int| 0 <= j < 4096 && j != p ==> final(self).entries@[j] == old(self).entries@[j]
                &&& final(self).slot_matches(p, e.name_view(), nonzero_hash(h))
                &&& final(self).stats_at(p) == combine(
                    if old(self).occupied(p) {
                        old(self).stats_at(p)
                    } else {
                        empty_stats()
                    },
                    e.stats(),
                )
            }),
            old(self).wf() && old(self).hash_fits(e.name_view(), h) ==> ({
                let n = e.name_view();
                let i = target_slot(old(self).slots(), n, h);
                &&& final(self).wf()
                &&& entry_merged(*old(self), *final(self), *e, h)
                &&& final(self)@ == add_stats(old(self)@, n, e.stats())
                &&& i == old(self).stop_slot(n, h)
                &&& 0 <= i < SLOTS
                &&& final(self).entries@[i].klen == e.klen
                &&& forall|k: int|
                    0 <= k < 100 ==> final(self).entries@[i].key@[k] == if k < e.klen {
                        e.key@[k]
                    } else {
                        0u8
                    }
                &&& final(self).stats_at(i) == combine(stats_of(old(self)@, n), e.stats())
                &&& final(self).slots() == old(self).slots().update(
                    i,
                    (nonzero_hash(h), n, combine(stats_of(old(self)@, n), e.stats())),
                )
                &&& old(self)@.contains_key(n) && combine(old(self)@[n], e.stats()) == old(self)@[n]
                    ==> final(self).hashes@ == old(self).hashes@ && final(self).entries@ == old(
                    self,
                ).entries@
            }),
    {
        let ghost t0 = *self;
        match self.get_or_insert(e.name(), h) {
            None => {},
            Some(i) => {
                let ghost t1 = *self;
                let mut d = self.entries[i];
                proof {
                    if !t0.occupied(i as int) {
                        assert(d.stats() == empty_stats());
                    }
                }
                if e.min < d.min {
                    d.min = e.min;
                }
                if e.max > d.max {
                    d.max = e.max;
                }
                d.sum = d.sum + e.sum;
                d.count = d.count + e.count;
                self.set_stats(i, d);
                proof {
                    if t0.occupied(i as int) {
                        assert(t0.hashes@.update(i as int, nonzero_hash(h)) =~= t0.hashes@);
                    }
                    assert(self.name_at(i as int) == e.name_view());
                    if t0.wf() && t0.hash_fits(e.name_view(), h) {
                        assert(self@ =~= add_stats(t0@, e.name_view(), e.stats()));
                        assert forall|k: int| 0 <= k < 100 implies self.entries@[i as int].key@[k] == if k
                            < e.klen {
                            e.key@[k]
                        } else {
                            0u8
                        } by {
                            if k < e.klen {
                                assert(e.name_view()[k] == e.key@[k]);
                            }
                        }
                        assert(self.slots() =~= t0.slots().update(
                            i as int,
                            (
                                nonzero_hash(h),
                                e.name_view(),
                                combine(stats_of(t0@, e.name_view()), e.stats()),
                            ),
                        ));
                        if t0@.contains_key(e.name_view()) && combine(t0@[e.name_view()], e.stats())
                            == t0@[e.name_view()] {
                            assert(t0.slots() =~= self.slots());
                            Table::lemma_slots_determine(self, &t0);
                        }
                    }
                }
            },
        }
    }

    /// Whether every station is stored with the FNV-1a hash of its name.
    pub fn is_fnv_keyed(&self) -> (r: bool)
        requires
            self.wf(),
        ensures
            r == self.fnv_keyed(),
    {
        let mut i: usize = 0;
        while i < SLOTS
            invariant
                self.wf(),
                i <= SLOTS,
                forall|j: int| 0 <= j < i && #[trigger] self.occupied(j) ==> self.hashes@[j] == slot_hash(self.name_at(j)),
            decreases SLOTS - i,
        {
            if self.hashes[i] != 0 {
                proof {
                    self.lemma_slot(i as int);
                }
                let h = fnv1a_hash(self.entries[i].name());
                let h = if h == 0 {
                    1
                } else {
                    h
                };
                if self.hashes[i] != h {
                    proof {
                        assert(self.occupied(i as int) && self.hashes@[i as int] != slot_hash(
                            self.name_at(i as int),
                        ));
                    }
                    return false;
                }
            }
            i = i + 1;
        }
        true
    }

    /// Merges every station of `other` into this table, slot by slot with
    /// `merge_entry`, when the two can be merged. Returns whether they can;
    /// when they cannot, the table holds the merge with the stations of the
    /// slots of `other` below some slot. The contract covers tables that
    /// store a station held by both under one hash, as tables keyed by
    /// FNV-1a do (`is_fnv_keyed` tells).
    pub fn try_merge_table(&mut self, other: &Table) -> (ok: bool)
        requires
            old(self).wf(),
            other.wf(),
            old(self).hashes_agree(other),
        ensures
            final(self).wf(),
            final(self).hashes_agree(other),
            old(self).fnv_keyed() && other.fnv_keyed() ==> final(self).fnv_keyed(),
            ok == mergeable(old(self)@, other@),
            ok ==> final(self)@ == merge_maps(old(self)@, other@),
            !ok ==> exists|k: int|
                0 <= k < 4096 && final(self)@ == #[trigger] merge_maps(old(self)@, other.view_upto(k)),
    {
        let ghost a = self@;
        let ghost keyed = self.fnv_keyed() && other.fnv_keyed();
        proof {
            old(self).lemma_view_bounded();
            old(self).lemma_view();
            other.lemma_view_bounded();
            other.lemma_view();
            other.lemma_view_upto(0);
            assert(merge_maps(a, other.view_upto(0)) =~= a);
            lemma_merge_dom(a, other@);
        }
        let mut i: usize = 0;
        while i < SLOTS
            invariant
                self.wf(),
                other.wf(),
                i <= SLOTS,
                a == old(self)@,
                keyed == (old(self).fnv_keyed() && other.fnv_keyed()),
                self.hashes_agree(other),
                keyed ==> self.fnv_keyed(),
                bounded_map(a),
                a.dom().finite(),
                other@.dom().finite(),
                merge_maps(a, other@).dom().finite(),
                self@ == merge_maps(a, other.view_upto(i as int)),
            decreases SLOTS - i,
        {
            if other.hashes[i] != 0 {
                let ghost n = other.name_at(i as int);
                let ghost b = other.view_upto(i as int);
                proof {
                    other.lemma_slot(i as int);
                    other.lemma_view_upto(i as int);
                    other.lemma_view();
                    self.lemma_view_bounded();
                    self.lemma_view();
                    assert(!b.contains_key(n)) by {
                        if b.contains_key(n) {
                            let j = choose|j: int|
                                0 <= j < i && other.occupied(j) && #[trigger] other.name_at(j) == n;
                            assert(other.name_at(j) != other.name_at(i as int));
                        }
                    }
                    lemma_merge_insert(a, b, n, other.stats_at(i as int));
                    assert(other@.contains_key(n));
                    assert(other@[n] == other.stats_at(i as int));
                    lemma_merge_dom(a, other@);
                    lemma_merge_dom(a, b);
                    assert(merge_maps(a, other@).contains_key(n));
                    assert(merge_maps(a, other@)[n] == combine(stats_of(a, n), other.stats_at(i as int)));
                    assert(self@.dom().subset_of(merge_maps(a, other@).dom())) by {
                        assert forall|m: Seq<u8>| self@.dom().contains(m) implies merge_maps(
                            a,
                            other@,
                        ).dom().contains(m) by {
                            if b.contains_key(m) {
                                let j = choose|j: int|
                                    0 <= j < i && other.occupied(j) && #[trigger] other.name_at(j) == m;
                                assert(other@.contains_key(other.name_at(j)));
                            }
                        }
                    }
                }
                let e = &other.entries[i];
                let h = other.hashes[i];
                proof {
                    assert forall|j: int|
                        0 <= j < 4096 && self.occupied(j) && #[trigger] self.name_at(j) == n implies self.hashes@[j]
                            == nonzero_hash(h) by {
                        assert(self.name_at(j) == other.name_at(i as int));
                    }
                }
                let ghost t0 = *self;
                match self.probe(e.name(), h) {
                    Probe::Full => {
                        proof {
                            assert(self@.dom().insert(n).subset_of(merge_maps(a, other@).dom()));
                            vstd::set_lib::lemma_len_subset(
                                self@.dom().insert(n),
                                merge_maps(a, other@).dom(),
                            );
                            assert(self@ == merge_maps(a, other.view_upto(i as int)));
                        }
                        return false;
                    },
                    Probe::Found(j) => {
                        proof {
                            assert(self.first_stop(n, h, j as int));
                            self.lemma_stop_slot(n, h);
                            self.lemma_first_stop_unique(n, h, j as int, self.stop_slot(n, h));
                            assert(self@[self.name_at(j as int)] == self.stats_at(j as int));
                            assert(stats_of(self@, n) == stats_of(a, n));
                            assert(stats_of(self@, n) == self.stats_at(j as int));
                            assert(e.stats() == other.stats_at(i as int));
                        }
                        let d = &self.entries[j];
                        if (d.count as u64) + (e.count as u64) > 0xffff_ffffu64 {
                            proof {
                                assert(self@ == merge_maps(a, other.view_upto(i as int)));
                            }
                            return false;
                        }
                        let total = (d.sum as i128) + (e.sum as i128);
                        if total < (i64::MIN as i128) || total > (i64::MAX as i128) {
                            proof {
                                assert(self@ == merge_maps(a, other.view_upto(i as int)));
                            }
                            return false;
                        }
                    },
                    Probe::Vacant(j) => {
                        proof {
                            assert(!self.occupied(j as int));
                            assert(self.first_stop(n, h, j as int));
                            self.lemma_stop_slot(n, h);
                            self.lemma_first_stop_unique(n, h, j as int, self.stop_slot(n, h));
                        }
                    },
                }
                self.merge_entry(e, h);
                proof {
                    assert(other.view_upto(i as int + 1) == b.insert(n, other.stats_at(i as int)));
                    let t = target_slot(t0.slots(), n, h);
                    assert(self.name_at(t) =~= n);
                    assert forall|x: int, y: int|
                        0 <= x < 4096 && 0 <= y < 4096 && self.occupied(x) && other.occupied(y)
                            && #[trigger] self.name_at(x) == #[trigger] other.name_at(y) implies self.hashes@[x]
                            == other.hashes@[y] by {
                        if x == t {
                            if y != i as int {
                                assert(other.name_at(y) != other.name_at(i as int));
                            }
                        } else {
                            assert(self.entries@[x] == t0.entries@[x]);
                            assert(t0.name_at(x) == self.name_at(x));
                        }
                    }
                    if keyed {
                        assert forall|x: int| 0 <= x < 4096 && #[trigger] self.occupied(x) implies self.hashes@[x]
                            == slot_hash(self.name_at(x)) by {
                            if x != t {
                                assert(self.entries@[x] == t0.entries@[x]);
                                assert(t0.name_at(x) == self.name_at(x));
                                assert(t0.occupied(x));
                            }
                        }
                    }
                }
            }
            i = i + 1;
        }
        proof {
            self.lemma_view_bounded();
            self.lemma_view();
        }
        true
    }

    /// Merges every station of `other` into this table.
    pub fn merge_table(&mut self, other: &Table)
        requires
            old(self).wf(),
            other.wf(),
            old(self).hashes_agree(other),
            mergeable(old(self)@, other@),
        ensures
            final(self).wf(),
            final(self).hashes_agree(other),
            old(self).fnv_keyed() && other.fnv_keyed() ==> final(self).fnv_keyed(),
            final(self)@ == merge_maps(old(self)@, other@),
    {
        self.try_merge_table(other);
    }
}

/// `t2` is table `t1` after merging in the statistics of entry `e`, stored
/// with hash `h` (0 standing for 1): it keeps the invariant, its view gains
/// the statistics, and only the target slot of the station changes.
pub open spec fn entry_merged(t1: Table, t2: Table, e: Entry, h: u32) -> bool {
    let n = e.name_view();
    let i = target_slot(t1.slots(), n, h);
    &&& t2.wf()
    &&& t2@ == add_stats(t1@, n, e.stats())
    &&& 0 <= i < SLOTS
    &&& t2.slots() == t1.slots().update(i, (nonzero_hash(h), n, combine(stats_of(t1@, n), e.stats())))
}

/// Merging two entries into a table, in either order, gives the same
/// stations with the same statistics; for two entries of one station stored
/// with one hash, it gives the same table slot for slot.
pub proof fn lemma_merge_entries_commute(
    t: Table,
    a1: Table,
    a2: Table,
    b1: Table,
    b2: Table,
    e1: Entry,
    h1: u32,
    e2: Entry,
    h2: u32,
)
    requires
        t.wf(),
        entry_merged(t, a1, e1, h1),
        entry_merged(a1, a2, e2, h2),
        entry_merged(t, b1, e2, h2),
        entry_merged(b1, b2, e1, h1),
    ensures
        a2@ == b2@,
        e1.name_view() == e2.name_view() && nonzero_hash(h1) == nonzero_hash(h2) ==> a2.hashes@
            == b2.hashes@ && a2.entries@ == b2.entries@,
{
    lemma_add_stats_commute(t@, e1.name_view(), e1.stats(), e2.name_view(), e2.stats());
    if e1.name_view() == e2.name_view() && nonzero_hash(h1) == nonzero_hash(h2) {
        let n = e1.name_view();
        let hz = nonzero_hash(h1);
        let m = t.slots();
        let i = target_slot(m, n, h1);
        assert(target_slot(m, n, h2) == i);
        let st = stats_of(t@, n);
        assert(a1.slots()[i] == (hz, n, combine(st, e1.stats())));
        assert(a1.occupied(i) && a1.name_at(i) == n);
        a1.lemma_target_slot(n, h2, i);
        assert(b1.slots()[i] == (hz, n, combine(st, e2.stats())));
        assert(b1.occupied(i) && b1.name_at(i) == n);
        b1.lemma_target_slot(n, h1, i);
        assert(a1@.contains_key(n));
        assert(b1@.contains_key(n));
        lemma_combine_assoc(st, e1.stats(), e2.stats());
        lemma_combine_assoc(st, e2.stats(), e1.stats());
        lemma_combine_comm(e1.stats(), e2.stats());
        assert(a2.slots() =~= m.update(i, (hz, n, combine(combine(st, e1.stats()), e2.stats()))));
        assert(b2.slots() =~= m.update(i, (hz, n, combine(combine(st, e2.stats()), e1.stats()))));
        Table::lemma_slots_determine(&a2, &b2);
    }
}

/// Two tables can be merged into one: together they hold at most `SLOTS`
/// stations, and every combined count and sum fits its field.
pub open spec fn mergeable(a: Map<Seq<u8>, Stats>, b: Map<Seq<u8>, Stats>) -> bool {
    &&& merge_maps(a, b).dom().len() <= SLOTS
    &&& forall|n: Seq<u8>|
        #[trigger] merge_maps(a, b).contains_key(n) ==> merge_maps(a, b)[n].count <= u32::MAX && i64::MIN
            <= merge_maps(a, b)[n].sum <= i64::MAX
}

/// Which tables can be merged: exactly those that together hold at most
/// `SLOTS` stations, where for every station the counts of the two add up to
/// at most `u32::MAX` and the sums add up to an `i64`.
pub proof fn lemma_mergeable(a: Map<Seq<u8>, Stats>, b: Map<Seq<u8>, Stats>)
    ensures
        mergeable(a, b) <==> ({
            &&& (a.dom() + b.dom()).len() <= SLOTS
            &&& forall|n: Seq<u8>|
                #[trigger] (a.dom() + b.dom()).contains(n) ==> stats_of(a, n).count + stats_of(b, n).count
                    <= u32::MAX && i64::MIN <= stats_of(a, n).sum + stats_of(b, n).sum <= i64::MAX
        }),
{
    lemma_merge_dom(a, b);
}

impl View for Table {
    type V = Map<Seq<u8>, Stats>;

    /// The stations of the table with their statistics.
    open spec fn view(&self) -> Map<Seq<u8>, Stats> {
        self.view_upto(4096)
    }
}

} // verus!
