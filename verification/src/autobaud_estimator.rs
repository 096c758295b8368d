//! Integer core of the baud-rate estimator for the PIO edge-timing autobaud engine.
//!
//! # What a sample is
//!
//! The PIO program waits for a falling edge on the UART RX line, then counts loop
//! iterations until the rising edge. Each loop iteration is two PIO clocks, and
//! the counter runs *down* from `0xFFFF_FFFF`, so the raw FIFO word `raw` encodes
//! a low-pulse width of `(0xFFFF_FFFF - raw) * 2` PIO clocks: see
//! [`raw_to_cycles`]. On an idle-high UART line, the shortest low pulse is a
//! single `0` bit, so the minimum low-pulse width across many samples is one bit
//! period, and `baud = clock / bit_period`.
//!
//! # What is kept
//!
//! Each converted sample is binned in a [`FrequencyTable`] keyed by exact cycle
//! count. A cycle count seen often enough among all samples is treated as signal
//! (not line noise). The smallest such value is taken as the one-bit period;
//! samples within +10% of it are summed up to smooth sub-cycle jitter. Whether a
//! value is frequent and whether it is close to the minimum are judged by the
//! caller, on the numbers that [`BaudEstimator::observe`] and
//! [`BaudEstimator::classify`] give, and so is the estimate that follows from the
//! sums.
//!
//! # Quirks
//!
//! * `raw == 0xFFFF_FFFF` (or the wrap at `raw == 0x7FFF_FFFF`) maps to a cycle
//!   count of `0`, which the table uses as its empty-slot sentinel, so such samples
//!   are silently dropped. These correspond to degenerate zero/near-zero-width
//!   pulses that carry no baud information anyway.
//! * The sum of bit times is a 32-bit accumulator.

use vstd::prelude::*;

verus! {

/// Size of the open-addressing frequency table.
pub const HASH_TBL_SIZE: usize = 500;

/// The low-pulse width that a raw word encodes, modulo 2^32.
pub open spec fn cycles_of(raw: u32) -> u32 {
    (((0xFFFF_FFFF - raw) * 2) % 0x1_0000_0000) as u32
}

/// Convert a raw edge-timer FIFO word to a low-pulse width in PIO clocks.
///
/// The PIO counter runs down from `0xFFFF_FFFF`, decrementing once per two-clock
/// loop iteration, so `(0xFFFF_FFFF - raw) * 2` is the elapsed clocks. The
/// multiply is intentionally wrapping.
pub fn raw_to_cycles(raw: u32) -> (r: u32)
    ensures
        r == cycles_of(raw),
{
    (u32::MAX - raw).wrapping_mul(2)
}

/// One open-addressing hash-table slot. `key == 0` marks an empty slot, so a
/// cycle count of exactly zero is never stored.
#[derive(Clone, Copy)]
struct Entry {
    key: u32,
    count: u32,
}

/// Counts how often each cycle count occurred.
pub struct FrequencyTable {
    slots: Vec<Entry>,
}

/// One round of the integer hash.
pub open spec fn mix(x: u32) -> u32 {
    vstd::wrapping::u32_specs::wrapping_mul((x >> 16) ^ x, 0x45d9f3b)
}

/// The slot at which the search for `x` starts.
pub open spec fn home_slot(x: u32) -> int {
    let y = mix(mix(x));
    ((y >> 16) ^ y) as int % HASH_TBL_SIZE as int
}

/// The slot `d` steps after slot `from`, round the end of the table.
spec fn step_from(from: int, d: int) -> int {
    (from + d) % HASH_TBL_SIZE as int
}

/// Slot `i` can be found from the home slot of its key, `d` steps on.
spec fn reached(slots: Seq<Entry>, i: int, d: int) -> bool {
    &&& 0 <= d < HASH_TBL_SIZE
    &&& step_from(home_slot(slots[i].key), d) == i
    &&& forall|e: int|
        0 <= e < d ==> slots[#[trigger] step_from(home_slot(slots[i].key), e)].key != 0
}

/// Some slot holds `key`.
spec fn stored(slots: Seq<Entry>, key: u32) -> bool {
    exists|i: int| 0 <= i < slots.len() && (#[trigger] slots[i]).key == key
}

/// The slot that holds `key`.
spec fn slot_of(slots: Seq<Entry>, key: u32) -> int {
    choose|i: int| 0 <= i < slots.len() && (#[trigger] slots[i]).key == key
}

impl View for FrequencyTable {
    type V = Map<u32, u32>;

    closed spec fn view(&self) -> Map<u32, u32> {
        Map::new(
            |key: u32| key != 0 && stored(self.slots@, key),
            |key: u32| self.slots@[slot_of(self.slots@, key)].count,
        )
    }
}

/// One step further is the next slot.
proof fn lemma_step(from: int, d: int)
    requires
        0 <= from,
        0 <= d,
    ensures
        0 <= step_from(from, d) < HASH_TBL_SIZE,
        step_from(from, d + 1) == (step_from(from, d) + 1) % HASH_TBL_SIZE as int,
{
}

/// Follow the slots from the home slot of `key` to the first that is empty or holds
/// the key, given that the slot `end` steps on is one.
fn walk(slots: &Vec<Entry>, key: u32, Ghost(end): Ghost<int>) -> (r: (usize, Ghost<int>))
    requires
        slots@.len() == HASH_TBL_SIZE,
        0 <= end < HASH_TBL_SIZE,
        slots@[step_from(home_slot(key), end)].key == 0 || slots@[step_from(
            home_slot(key),
            end,
        )].key == key,
    ensures
        r.0 < HASH_TBL_SIZE,
        0 <= r.1@ < HASH_TBL_SIZE,
        r.0 == step_from(home_slot(key), r.1@),
        slots@[r.0 as int].key == key || slots@[r.0 as int].key == 0,
        forall|e: int|
            0 <= e < r.1@ ==> slots@[#[trigger] step_from(home_slot(key), e)].key != 0
                && slots@[step_from(home_slot(key), e)].key != key,
{
    let ghost h = home_slot(key);
    let ghost mut d: int = 0;
    let mut idx: usize = FrequencyTable::hash(key);
    while slots[idx].key != 0 && slots[idx].key != key
        invariant
            slots@.len() == HASH_TBL_SIZE,
            0 <= h,
            0 <= d <= end < HASH_TBL_SIZE,
            idx < HASH_TBL_SIZE,
            idx == step_from(h, d),
            slots@[step_from(h, end)].key == 0 || slots@[step_from(h, end)].key == key,
            forall|e: int|
                0 <= e < d ==> slots@[#[trigger] step_from(h, e)].key != 0 && slots@[step_from(
                    h,
                    e,
                )].key != key,
        decreases end - d,
    {
        proof {
            lemma_step(h, d);
            d = d + 1;
        }
        idx = (idx + 1) % HASH_TBL_SIZE;
    }
    (idx, Ghost(d))
}

impl FrequencyTable {
    /// Every key stands in one slot, which the search from its home slot finds.
    pub closed spec fn wf(&self) -> bool {
        &&& self.slots@.len() == HASH_TBL_SIZE
        &&& forall|i: int|
            0 <= i < HASH_TBL_SIZE && (#[trigger] self.slots@[i]).key != 0 ==> exists|d: int|
                reached(self.slots@, i, d)
        &&& forall|i: int, j: int|
            0 <= i < HASH_TBL_SIZE && 0 <= j < HASH_TBL_SIZE && i != j && (
            #[trigger] self.slots@[i]).key != 0 ==> self.slots@[i].key != (
            #[trigger] self.slots@[j]).key
    }

    /// The search for `key` ends: it is there, or there is a slot left for it.
    pub open spec fn searchable(&self, key: u32) -> bool {
        self@.dom().len() < HASH_TBL_SIZE || self@.contains_key(key)
    }

    /// An empty table.
    pub fn new() -> (r: FrequencyTable)
        ensures
            r.wf(),
            r@ == Map::<u32, u32>::empty(),
    {
        let mut slots: Vec<Entry> = Vec::new();
        let mut i: usize = 0;
        while i < HASH_TBL_SIZE
            invariant
                i <= HASH_TBL_SIZE,
                slots@.len() == i,
                forall|k: int| 0 <= k < i ==> (#[trigger] slots@[k]).key == 0,
            decreases HASH_TBL_SIZE - i,
        {
            slots.push(Entry { key: 0, count: 0 });
            i = i + 1;
        }
        let r = FrequencyTable { slots };
        assert(r@ =~= Map::<u32, u32>::empty());
        r
    }

    /// Integer hash of `x` into `[0, HASH_TBL_SIZE)`.
    fn hash(x: u32) -> (r: usize)
        ensures
            r == home_slot(x),
            r < HASH_TBL_SIZE,
    {
        let a: u32 = ((x >> 16) ^ x).wrapping_mul(0x45d9f3b);
        let b: u32 = ((a >> 16) ^ a).wrapping_mul(0x45d9f3b);
        let c: u32 = (b >> 16) ^ b;
        (c as usize) % HASH_TBL_SIZE
    }

    /// A table with fewer keys than slots has an empty slot.
    proof fn lemma_empty_slot(&self) -> (i: int)
        requires
            self.wf(),
            self@.dom().len() < HASH_TBL_SIZE,
        ensures
            0 <= i < HASH_TBL_SIZE,
            self.slots@[i].key == 0,
    {
        let slots = self.slots@;
        if forall|i: int| 0 <= i < HASH_TBL_SIZE ==> (#[trigger] slots[i]).key != 0 {
            let keys = slots.map_values(|e: Entry| e.key);
            assert forall|i: int, j: int|
                0 <= i < keys.len() && 0 <= j < keys.len() && i != j implies keys[i]
                != keys[j] by {
                assert(slots[i].key != slots[j].key);
            }
            assert(keys.no_duplicates());
            keys.unique_seq_to_set();
            assert forall|k: u32| self@.dom().contains(k) <==> keys.to_set().contains(k) by {
                if keys.contains(k) {
                    let i = choose|i: int| 0 <= i < keys.len() && keys[i] == k;
                    assert(slots[i].key == k);
                }
                if stored(slots, k) {
                    let i = choose|i: int| 0 <= i < slots.len() && (#[trigger] slots[i]).key == k;
                    assert(keys[i] == k);
                }
            }
            assert(self@.dom() =~= keys.to_set());
        }
        choose|i: int| 0 <= i < HASH_TBL_SIZE && (#[trigger] slots[i]).key == 0
    }

    /// A table with an empty slot has fewer keys than slots.
    proof fn lemma_room(&self, at: int)
        requires
            self.wf(),
            0 <= at < HASH_TBL_SIZE,
            self.slots@[at].key == 0,
        ensures
            self@.dom().len() < HASH_TBL_SIZE,
    {
        let slots = self.slots@;
        let keys = slots.map_values(|e: Entry| e.key);
        keys.lemma_cardinality_of_set();
        assert(keys[at] == 0);
        assert(keys.to_set().contains(0));
        assert forall|k: u32| self@.dom().contains(k) <==> keys.to_set().remove(0).contains(k) by {
            if k != 0 && keys.contains(k) {
                let i = choose|i: int| 0 <= i < keys.len() && keys[i] == k;
                assert(slots[i].key == k);
            }
            if k != 0 && stored(slots, k) {
                let i = slot_of(slots, k);
                assert(keys[i] == k);
            }
        }
        assert(self@.dom() =~= keys.to_set().remove(0));
    }

    /// The search for `key` meets an empty slot or the key after some steps.
    proof fn lemma_search_ends(&self, key: u32) -> (d: int)
        requires
            self.wf(),
            self.searchable(key),
        ensures
            0 <= d < HASH_TBL_SIZE,
            self.slots@[step_from(home_slot(key), d)].key == 0
                || self.slots@[step_from(home_slot(key), d)].key == key,
    {
        let slots = self.slots@;
        if self@.contains_key(key) {
            let i = slot_of(slots, key);
            assert(slots[i].key == key);
            choose|d: int| reached(slots, i, d)
        } else {
            let i = self.lemma_empty_slot();
            let h = home_slot(key);
            let d = if i >= h {
                i - h
            } else {
                i - h + HASH_TBL_SIZE
            };
            assert(step_from(h, d) == i);
            d
        }
    }

    /// The slot that holds `key`, or the empty slot where the search for it ends, with
    /// how many steps it is from the home slot.
    fn find(&self, key: u32) -> (r: (usize, Ghost<int>))
        requires
            self.wf(),
            self.searchable(key),
        ensures
            r.0 < HASH_TBL_SIZE,
            0 <= r.1@ < HASH_TBL_SIZE,
            r.0 == step_from(home_slot(key), r.1@),
            self.slots@[r.0 as int].key == key || self.slots@[r.0 as int].key == 0,
            forall|e: int|
                0 <= e < r.1@ ==> self.slots@[#[trigger] step_from(home_slot(key), e)].key != 0,
            self.slots@[r.0 as int].key != key ==> !stored(self.slots@, key),
    {
        let ghost end = self.lemma_search_ends(key);
        let ghost h = home_slot(key);
        let (idx, Ghost(d)) = walk(&self.slots, key, Ghost(end));
        proof {
            if self.slots@[idx as int].key != key && stored(self.slots@, key) {
                let i = slot_of(self.slots@, key);
                assert(self.slots@[i].key == key);
                let there = choose|there: int| reached(self.slots@, i, there);
                if there < d {
                    assert(self.slots@[step_from(h, there)].key != key);
                } else if there > d {
                    assert(self.slots@[step_from(h, d)].key != 0);
                }
                assert(false);
            }
        }
        (idx, Ghost(d))
    }

    /// Increment the occurrence count for `key`. Key 0 is not counted.
    pub fn insert(&mut self, key: u32)
        requires
            old(self).wf(),
            old(self).searchable(key),
            old(self)@.contains_key(key) ==> old(self)@[key] < u32::MAX,
        ensures
            final(self).wf(),
            final(self)@ == (if key == 0 {
                old(self)@
            } else if old(self)@.contains_key(key) {
                old(self)@.insert(key, (old(self)@[key] + 1) as u32)
            } else {
                old(self)@.insert(key, 1)
            }),
    {
        let (idx, Ghost(d)) = self.find(key);
        let ghost before = self.slots@;
        if self.slots[idx].key != 0 {
            proof {
                let i = slot_of(before, key);
                assert(before[idx as int].key == key);
                assert(i == idx);
            }
            let count: u32 = self.slots[idx].count;
            self.slots.set(idx, Entry { key, count: count + 1 });
        } else {
            self.slots.set(idx, Entry { key, count: 1 });
        }
        proof {
            let after = self.slots@;
            let at = idx as int;
            assert forall|i: int| 0 <= i < HASH_TBL_SIZE && (
            #[trigger] after[i]).key != 0 implies exists|e: int| reached(after, i, e) by {
                if i == at {
                    assert(reached(after, i, d)) by {
                        assert forall|e: int| 0 <= e < d implies after[#[trigger] step_from(
                            home_slot(after[i].key),
                            e,
                        )].key != 0 by {
                            assert(before[step_from(home_slot(key), e)].key != 0);
                        }
                    }
                } else {
                    assert(before[i].key != 0);
                    let e = choose|e: int| reached(before, i, e);
                    assert(reached(after, i, e)) by {
                        assert forall|f: int| 0 <= f < e implies after[#[trigger] step_from(
                            home_slot(after[i].key),
                            f,
                        )].key != 0 by {
                            let s = step_from(home_slot(before[i].key), f);
                            assert(before[s].key != 0);
                        }
                    }
                }
            }
            assert forall|i: int, j: int|
                0 <= i < HASH_TBL_SIZE && 0 <= j < HASH_TBL_SIZE && i != j && (
                #[trigger] after[i]).key != 0 implies after[i].key != (
            #[trigger] after[j]).key by {
                if i == at {
                    assert(after[j] == before[j]);
                    if before[at].key == 0 {
                        assert(!stored(before, key));
                    } else {
                        assert(before[at].key != before[j].key);
                    }
                } else if j == at {
                    assert(after[i] == before[i]);
                    if before[at].key == 0 {
                        assert(!stored(before, key) || key == 0);
                    } else {
                        assert(before[i].key != before[at].key);
                    }
                } else {
                    assert(before[i].key != before[j].key);
                }
            }
        }
        assert(self.wf());
        assert(self@ =~= if key == 0 {
            old(self)@
        } else if old(self)@.contains_key(key) {
            old(self)@.insert(key, (old(self)@[key] + 1) as u32)
        } else {
            old(self)@.insert(key, 1)
        }) by {
            Self::lemma_view_update(*old(self), *self, idx as int, key);
        }
    }

    /// What writing `key` into one slot does to the counts.
    proof fn lemma_view_update(before: FrequencyTable, after: FrequencyTable, at: int, key: u32)
        requires
            before.wf(),
            after.wf(),
            0 <= at < HASH_TBL_SIZE,
            before.slots@[at].key == 0 || before.slots@[at].key == key,
            after.slots@ == before.slots@.update(at, after.slots@[at]),
            after.slots@[at].key == key,
            before.slots@[at].key != key ==> !stored(before.slots@, key),
        ensures
            key == 0 ==> after@ == before@,
            key != 0 ==> after@ == before@.insert(key, after.slots@[at].count),
            key != 0 ==> before@.contains_key(key) == (before.slots@[at].key == key),
            before@.contains_key(key) ==> before@[key] == before.slots@[at].count,
    {
        let old_slots = before.slots@;
        let new_slots = after.slots@;
        assert forall|k: u32| k != 0 && k != key implies stored(old_slots, k) == stored(
            new_slots,
            k,
        ) && (stored(old_slots, k) ==> slot_of(old_slots, k) == slot_of(new_slots, k)
            && slot_of(old_slots, k) != at) by {
            if stored(old_slots, k) {
                let i = slot_of(old_slots, k);
                assert(old_slots[i].key == k);
                assert(i != at);
                assert(new_slots[i].key == k);
                let j = slot_of(new_slots, k);
                assert(new_slots[j].key == k);
                assert(i == j);
            }
            if stored(new_slots, k) {
                let i = slot_of(new_slots, k);
                assert(new_slots[i].key == k);
                assert(old_slots[i].key == k);
            }
        }
        if key != 0 {
            assert(new_slots[at].key == key);
            let j = slot_of(new_slots, key);
            assert(new_slots[j].key == key);
            assert(j == at);
            if stored(old_slots, key) {
                let i = slot_of(old_slots, key);
                assert(old_slots[i].key == key);
                assert(old_slots[at].key == key);
                assert(i == at);
            }
            if old_slots[at].key == key {
                assert(stored(old_slots, key));
            }
            assert(after@ =~= before@.insert(key, new_slots[at].count));
        } else {
            assert(after@ =~= before@);
        }
    }

    /// Occurrence count of `key`, or 0 if absent.
    pub fn get_count(&self, key: u32) -> (r: u32)
        requires
            self.wf(),
            self.searchable(key),
        ensures
            r == (if self@.contains_key(key) {
                self@[key]
            } else {
                0
            }),
    {
        let (idx, Ghost(_d)) = self.find(key);
        if self.slots[idx].key != 0 {
            proof {
                let i = slot_of(self.slots@, key);
                assert(self.slots@[idx as int].key == key);
                assert(self.slots@[i].key == key);
                assert(i == idx);
            }
            self.slots[idx].count
        } else {
            0
        }
    }

    /// A width of zero is never stored, and only so many widths are as there are slots.
    pub proof fn zero_is_never_stored(&self)
        requires
            self.wf(),
        ensures
            !self@.contains_key(0),
            self@.dom().finite(),
            self@.dom().len() <= HASH_TBL_SIZE,
    {
        let slots = self.slots@;
        let keys = slots.map_values(|e: Entry| e.key);
        keys.lemma_cardinality_of_set();
        assert forall|k: u32| self@.dom().contains(k) <==> k != 0 && keys.to_set().contains(k) by {
            if k != 0 && keys.contains(k) {
                let i = choose|i: int| 0 <= i < keys.len() && keys[i] == k;
                assert(slots[i].key == k);
            }
            if k != 0 && stored(slots, k) {
                let i = slot_of(slots, k);
                assert(keys[i] == k);
            }
        }
        assert(self@.dom() =~= keys.to_set().remove(0));
    }

    /// Whether there is a slot for `key`.
    pub fn is_searchable(&self, key: u32) -> (r: bool)
        requires
            self.wf(),
        ensures
            r == self.searchable(key),
    {
        let mut i: usize = 0;
        while i < HASH_TBL_SIZE
            invariant
                self.wf(),
                i <= HASH_TBL_SIZE,
                self.slots@.len() == HASH_TBL_SIZE,
                forall|k: int|
                    0 <= k < i ==> (#[trigger] self.slots@[k]).key != 0 && self.slots@[k].key
                        != key,
            decreases HASH_TBL_SIZE - i,
        {
            if self.slots[i].key == 0 {
                proof {
                    self.lemma_room(i as int);
                }
                return true;
            }
            if self.slots[i].key == key {
                assert(stored(self.slots@, key));
                return true;
            }
            i = i + 1;
        }
        proof {
            if self@.dom().len() < HASH_TBL_SIZE {
                let _ = self.lemma_empty_slot();
            }
            if stored(self.slots@, key) {
                let at = slot_of(self.slots@, key);
                assert(self.slots@[at].key == key);
            }
        }
        false
    }
}

/// One sample, with how often its value and how many samples there were so far.
#[derive(Debug, Clone, Copy, PartialEq, Eq, Structural)]
pub struct Sample {
    /// Low-pulse width in PIO cycles.
    pub cycles: u32,
    /// Occurrences of this width, this one included; 0 for a width of 0.
    pub count: u32,
    /// Samples so far, this one included.
    pub total: u32,
}

/// What a sample is, given whether its value is frequent.
#[derive(Debug, Clone, Copy, PartialEq, Eq, Structural)]
pub enum SampleClass {
    /// Too rare to be part of the signal.
    Noise,
    /// The shortest signal so far; the one-bit accumulators start over.
    NewMinimum,
    /// Not shorter than the shortest signal.
    Candidate {
        /// By how much it is longer.
        excess: u32,
        /// The shortest signal.
        min_cycles: u32,
    },
}

/// The accumulated one-bit periods.
#[derive(Debug, Clone, Copy, PartialEq, Eq, Structural)]
pub struct BitTimes {
    /// Sum of the one-bit periods.
    pub sum: u32,
    /// How many there are.
    pub count: u32,
    /// How many of them are implausibly short.
    pub outliers: u32,
    /// Samples so far.
    pub total: u32,
}

/// Streaming estimator state: feed raw edge-timer samples with
/// [`observe`](Self::observe), then [`classify`](Self::classify) each, then
/// [`one_bit`](Self::one_bit) those that are one bit long.
pub struct BaudEstimator {
    /// PIO clock frequency the samples were timed against, in Hz.
    clock_hz: u32,
    table: FrequencyTable,
    /// Shortest bit duration seen so far, in PIO cycles.
    min_cycles: u32,
    /// Longest pulse seen so far, in PIO cycles.
    max_cycles: u32,
    /// Total samples processed.
    total: u32,
    /// Running sum of one-bit-period samples.
    bit_time_sum: u32,
    /// Count of one-bit-period samples.
    bit_time_count: u32,
    /// One-bit samples that are implausibly short (< 1/9 of the longest pulse).
    outlier_count: u32,
}

/// The contents of a [`BaudEstimator`].
#[verifier::ext_equal]
pub struct EstimatorSpec {
    /// PIO clock frequency, in Hz.
    pub clock_hz: u32,
    /// How often each width occurred.
    pub counts: Map<u32, u32>,
    /// Shortest signal so far.
    pub min_cycles: u32,
    /// Longest pulse so far.
    pub max_cycles: u32,
    /// Samples so far.
    pub total: u32,
    /// The accumulated one-bit periods.
    pub bit_time_sum: u32,
    /// How many one-bit periods there are.
    pub bit_time_count: u32,
    /// How many of them are implausibly short.
    pub outlier_count: u32,
}

impl EstimatorSpec {
    /// An estimator that has seen nothing.
    pub open spec fn fresh(clock_hz: u32) -> EstimatorSpec {
        EstimatorSpec {
            clock_hz,
            counts: Map::empty(),
            min_cycles: u32::MAX,
            max_cycles: 0,
            total: 0,
            bit_time_sum: 0,
            bit_time_count: 0,
            outlier_count: 0,
        }
    }

    /// The estimator without what it has seen.
    pub open spec fn cleared(self) -> EstimatorSpec {
        EstimatorSpec::fresh(self.clock_hz)
    }

    /// The estimator after one raw word, and the one-bit periods if the word is one, where
    /// `frequent` judges a count among all samples, and `close` an excess over the
    /// minimum.
    pub open spec fn pushed(
        self,
        raw: u32,
        frequent: spec_fn(u32, u32) -> bool,
        close: spec_fn(u32, u32) -> bool,
    ) -> (EstimatorSpec, Option<BitTimes>) {
        let cycles = cycles_of(raw);
        let seen = self.observed(cycles);
        let signal = frequent(seen.count(cycles), seen.total);
        let sorted = seen.classified(cycles, signal);
        match seen.class(cycles, signal) {
            SampleClass::Candidate { excess, min_cycles } => if close(excess, min_cycles) {
                let after = sorted.with_bit(cycles);
                (
                    after,
                    Some(
                        BitTimes {
                            sum: after.bit_time_sum,
                            count: after.bit_time_count,
                            outliers: after.outlier_count,
                            total: after.total,
                        },
                    ),
                )
            } else {
                (sorted, None)
            },
            _ => (sorted, None),
        }
    }

    /// What each of the raw words gives, in order.
    pub open spec fn run_over(
        self,
        raws: Seq<u32>,
        frequent: spec_fn(u32, u32) -> bool,
        close: spec_fn(u32, u32) -> bool,
    ) -> Seq<Option<BitTimes>>
        decreases raws.len(),
    {
        if raws.len() == 0 {
            Seq::empty()
        } else {
            let (after, bits) = self.pushed(raws[0], frequent, close);
            seq![bits] + after.run_over(raws.skip(1), frequent, close)
        }
    }

    /// How often `cycles` occurred.
    pub open spec fn count(self, cycles: u32) -> u32 {
        if self.counts.contains_key(cycles) {
            self.counts[cycles]
        } else {
            0
        }
    }

    /// The table has a slot for `cycles`: one that is empty, or its own.
    pub open spec fn has_slot(self, cycles: u32) -> bool {
        self.counts.dom().len() < HASH_TBL_SIZE || self.counts.contains_key(cycles)
    }

    /// There is room for one more sample of `cycles`.
    pub open spec fn accepts(self, cycles: u32) -> bool {
        self.total < u32::MAX && self.has_slot(cycles)
    }

    /// The one-bit accumulators can take a sample of `cycles`.
    pub open spec fn accepts_bit(self, cycles: u32) -> bool {
        self.bit_time_sum + cycles <= u32::MAX && self.bit_time_count < u32::MAX
    }

    /// The estimator after one more sample. A width of 0 is not counted.
    pub open spec fn observed(self, cycles: u32) -> EstimatorSpec {
        EstimatorSpec {
            counts: if cycles == 0 {
                self.counts
            } else {
                self.counts.insert(cycles, (self.count(cycles) + 1) as u32)
            },
            total: (self.total + 1) as u32,
            max_cycles: if cycles > self.max_cycles {
                cycles
            } else {
                self.max_cycles
            },
            ..self
        }
    }

    /// What a sample is.
    pub open spec fn class(self, cycles: u32, frequent: bool) -> SampleClass {
        if !frequent {
            SampleClass::Noise
        } else if cycles < self.min_cycles {
            SampleClass::NewMinimum
        } else {
            SampleClass::Candidate {
                excess: (cycles - self.min_cycles) as u32,
                min_cycles: self.min_cycles,
            }
        }
    }

    /// The estimator after a sample was classified.
    pub open spec fn classified(self, cycles: u32, frequent: bool) -> EstimatorSpec {
        if self.class(cycles, frequent) == SampleClass::NewMinimum {
            EstimatorSpec {
                min_cycles: cycles,
                bit_time_sum: 0,
                bit_time_count: 0,
                outlier_count: 0,
                ..self
            }
        } else {
            self
        }
    }

    /// The estimator after a one-bit period was added. One below a ninth of the
    /// longest pulse is implausible.
    pub open spec fn with_bit(self, cycles: u32) -> EstimatorSpec {
        EstimatorSpec {
            bit_time_sum: (self.bit_time_sum + cycles) as u32,
            bit_time_count: (self.bit_time_count + 1) as u32,
            outlier_count: if cycles < self.max_cycles / 9 {
                (self.outlier_count + 1) as u32
            } else {
                self.outlier_count
            },
            ..self
        }
    }
}

impl View for BaudEstimator {
    type V = EstimatorSpec;

    closed spec fn view(&self) -> EstimatorSpec {
        EstimatorSpec {
            clock_hz: self.clock_hz,
            counts: self.table@,
            min_cycles: self.min_cycles,
            max_cycles: self.max_cycles,
            total: self.total,
            bit_time_sum: self.bit_time_sum,
            bit_time_count: self.bit_time_count,
            outlier_count: self.outlier_count,
        }
    }
}

impl BaudEstimator {
    /// The table is well-formed, no value occurred more often than there were
    /// samples, and the outliers are some of the one-bit periods.
    pub closed spec fn wf(&self) -> bool {
        &&& self.table.wf()
        &&& forall|cycles: u32| #[trigger]
            self.table@.contains_key(cycles) ==> self.table@[cycles] <= self.total
        &&& self.outlier_count <= self.bit_time_count
    }

    /// A width of zero is never counted.
    pub proof fn zero_is_never_counted(&self)
        requires
            self.wf(),
        ensures
            !self@.counts.contains_key(0),
            self@.count(0) == 0,
            self@.counts.dom().finite(),
    {
        self.table.zero_is_never_stored();
    }

    /// Create an estimator for samples timed against a `clock_hz` PIO clock.
    pub fn new(clock_hz: u32) -> (r: BaudEstimator)
        ensures
            r.wf(),
            r@ == EstimatorSpec::fresh(clock_hz),
    {
        BaudEstimator {
            clock_hz,
            table: FrequencyTable::new(),
            min_cycles: u32::MAX,
            max_cycles: 0,
            total: 0,
            bit_time_sum: 0,
            bit_time_count: 0,
            outlier_count: 0,
        }
    }

    /// Clear all accumulated state, as if freshly constructed. Called between
    /// autobaud sessions.
    pub fn reset(&mut self)
        ensures
            final(self).wf(),
            final(self)@ == old(self)@.cleared(),
    {
        let clock_hz: u32 = self.clock_hz;
        *self = BaudEstimator::new(clock_hz);
    }

    /// PIO clock frequency the samples are timed against, in Hz.
    pub fn clock_hz(&self) -> (r: u32)
        ensures
            r == self@.clock_hz,
    {
        self.clock_hz
    }

    /// Occurrence count of `cycles`.
    pub fn get_count(&self, cycles: u32) -> (r: u32)
        requires
            self.wf(),
            self@.has_slot(cycles),
        ensures
            r == self@.count(cycles),
    {
        self.table.get_count(cycles)
    }

    /// Whether there is room for the sample `raw`.
    pub fn accepts(&self, raw: u32) -> (r: bool)
        requires
            self.wf(),
        ensures
            r == self@.accepts(cycles_of(raw)),
    {
        let cycles: u32 = raw_to_cycles(raw);
        self.total < u32::MAX && self.table.is_searchable(cycles)
    }

    /// Count one raw edge-timer sample.
    pub fn observe(&mut self, raw: u32) -> (r: Sample)
        requires
            old(self).wf(),
            old(self)@.accepts(cycles_of(raw)),
        ensures
            final(self).wf(),
            final(self)@ == old(self)@.observed(cycles_of(raw)),
            r.cycles == cycles_of(raw),
            r.count == final(self)@.count(r.cycles),
            r.total == final(self)@.total,
    {
        let cycles: u32 = raw_to_cycles(raw);
        proof {
            if cycles == 0 {
                assert(!self.table@.contains_key(0));
            }
        }
        self.table.insert(cycles);
        self.total = self.total + 1;
        if cycles > self.max_cycles {
            self.max_cycles = cycles;
        }
        assert(self@ =~= old(self)@.observed(cycles));
        let count: u32 = self.table.get_count(cycles);
        Sample { cycles, count, total: self.total }
    }

    /// Decide what a sample is, given whether its value is `frequent` among all
    /// samples. A new minimum resets the one-bit accumulators.
    pub fn classify(&mut self, cycles: u32, frequent: bool) -> (r: SampleClass)
        requires
            old(self).wf(),
        ensures
            final(self).wf(),
            r == old(self)@.class(cycles, frequent),
            final(self)@ == old(self)@.classified(cycles, frequent),
    {
        if !frequent {
            return SampleClass::Noise;
        }
        if cycles < self.min_cycles {
            self.min_cycles = cycles;
            self.bit_time_sum = 0;
            self.bit_time_count = 0;
            self.outlier_count = 0;
            return SampleClass::NewMinimum;
        }
        SampleClass::Candidate { excess: cycles - self.min_cycles, min_cycles: self.min_cycles }
    }

    /// Whether the one-bit accumulators can take a sample of `cycles`.
    pub fn accepts_bit(&self, cycles: u32) -> (r: bool)
        ensures
            r == self@.accepts_bit(cycles),
    {
        self.bit_time_sum <= u32::MAX - cycles && self.bit_time_count < u32::MAX
    }

    /// Add a candidate that is close enough to the minimum to be one bit long.
    pub fn one_bit(&mut self, cycles: u32) -> (r: BitTimes)
        requires
            old(self).wf(),
            old(self)@.accepts_bit(cycles),
        ensures
            final(self).wf(),
            final(self)@ == old(self)@.with_bit(cycles),
            r.sum == final(self)@.bit_time_sum,
            r.count == final(self)@.bit_time_count,
            r.outliers == final(self)@.outlier_count,
            r.total == final(self)@.total,
            r.outliers <= r.count,
    {
        self.bit_time_sum = self.bit_time_sum + cycles;
        self.bit_time_count = self.bit_time_count + 1;
        if cycles < self.max_cycles / 9 {
            self.outlier_count = self.outlier_count + 1;
        }
        BitTimes {
            sum: self.bit_time_sum,
            count: self.bit_time_count,
            outliers: self.outlier_count,
            total: self.total,
        }
    }
}

/// Two raw words stand for a pulse of width zero, and such a pulse is counted nowhere.
pub proof fn zero_width_pulses_are_dropped(before: EstimatorSpec, raw: u32)
    ensures
        cycles_of(raw) == 0 <==> raw == 0xFFFF_FFFF || raw == 0x7FFF_FFFF,
        cycles_of(raw) == 0 ==> before.observed(cycles_of(raw)).counts == before.counts,
{
}

/// How often `cycles` occurs among `samples`.
pub open spec fn occurrences(samples: Seq<u32>, cycles: u32) -> nat
    decreases samples.len(),
{
    if samples.len() == 0 {
        0
    } else {
        occurrences(samples.drop_last(), cycles) + if samples.last() == cycles {
            1nat
        } else {
            0nat
        }
    }
}

/// A new estimator after all of `samples`.
pub open spec fn after_samples(clock_hz: u32, samples: Seq<u32>) -> EstimatorSpec
    decreases samples.len(),
{
    if samples.len() == 0 {
        EstimatorSpec::fresh(clock_hz)
    } else {
        after_samples(clock_hz, samples.drop_last()).observed(samples.last())
    }
}

/// The estimator counts every sample, each width as often as it occurred, but for a
/// width of zero, which is never stored, and knows the longest.
pub proof fn counts_are_occurrences(clock_hz: u32, samples: Seq<u32>, cycles: u32)
    requires
        samples.len() <= u32::MAX,
    ensures
        ({
            let after = after_samples(clock_hz, samples);
            &&& after.total == samples.len()
            &&& occurrences(samples, cycles) <= samples.len()
            &&& cycles != 0 ==> after.count(cycles) == occurrences(samples, cycles)
            &&& after.count(0) == 0 && !after.counts.contains_key(0)
            &&& samples.contains(cycles) ==> cycles <= after.max_cycles
        }),
    decreases samples.len(),
{
    if samples.len() > 0 {
        let shorter = samples.drop_last();
        counts_are_occurrences(clock_hz, shorter, cycles);
        if samples.contains(cycles) && samples.last() != cycles {
            let i = choose|i: int| 0 <= i < samples.len() && samples[i] == cycles;
            assert(shorter[i] == cycles);
        }
    }
}

/// Halving a width and counting down from the top, as the edge timer does, is read
/// back as the width rounded down to an even number.
pub proof fn widths_read_back(cycles: u32)
    ensures
        cycles_of((0xFFFF_FFFF - cycles / 2) as u32) == cycles - cycles % 2,
{
}

/// Whatever an estimator has seen, after a reset it has counted nothing, and every later
/// sequence of raw words gives what it gives a new estimator with the same clock,
/// however frequency and closeness are judged.
pub proof fn reset_is_like_new(
    before: EstimatorSpec,
    raws: Seq<u32>,
    frequent: spec_fn(u32, u32) -> bool,
    close: spec_fn(u32, u32) -> bool,
)
    ensures
        before.cleared().run_over(raws, frequent, close) == EstimatorSpec::fresh(
            before.clock_hz,
        ).run_over(raws, frequent, close),
        forall|cycles: u32| #[trigger] before.cleared().count(cycles) == 0,
        forall|cycles: u32| #[trigger] before.cleared().accepts(cycles),
{
}

/// A raw word counts down from the top, one for every two clocks of the pulse: the width
/// and twice the word make up the same number, modulo 2^32, for every word.
pub proof fn words_count_down(raw: u32)
    ensures
        (cycles_of(raw) + 2 * raw + 2) % 0x1_0000_0000 == 0,
        cycles_of(raw) % 2 == 0,
{
}

/// A one-bit period is added to the sum and counted, and counts as an outlier exactly
/// when nine of it, and nine cycles, are no longer than the longest pulse. So none is an
/// outlier when the longest pulse is at most nine times as long, as the start bit and
/// the eight zeros of a frame are. Nothing else changes.
pub proof fn short_bits_are_outliers(before: EstimatorSpec, cycles: u32)
    requires
        before.accepts_bit(cycles),
        before.outlier_count <= before.bit_time_count,
    ensures
        ({
            let after = before.with_bit(cycles);
            &&& after.bit_time_sum == before.bit_time_sum + cycles
            &&& after.bit_time_count == before.bit_time_count + 1
            &&& 9 * (cycles + 1) <= before.max_cycles ==> after.outlier_count
                == before.outlier_count + 1
            &&& 9 * (cycles + 1) > before.max_cycles ==> after.outlier_count
                == before.outlier_count
            &&& before.max_cycles <= 9 * cycles ==> after.outlier_count == before.outlier_count
            &&& after.outlier_count <= after.bit_time_count
            &&& after.clock_hz == before.clock_hz && after.counts == before.counts
            &&& after.min_cycles == before.min_cycles && after.max_cycles == before.max_cycles
            &&& after.total == before.total
        }),
{
}

/// Only a frequent sample moves the shortest signal, and only down, to its own width; that
/// clears what was added up. Every other frequent sample is a candidate, by as much as
/// it is longer than the shortest signal. A rare sample is noise and changes nothing.
pub proof fn shortest_signal_is_kept(before: EstimatorSpec, cycles: u32, frequent: bool)
    ensures
        ({
            let class = before.class(cycles, frequent);
            let after = before.classified(cycles, frequent);
            &&& !frequent ==> class == SampleClass::Noise && after == before
            &&& frequent && cycles < before.min_cycles ==> {
                &&& class == SampleClass::NewMinimum
                &&& after.min_cycles == cycles
                &&& after.bit_time_sum == 0 && after.bit_time_count == 0 && after.outlier_count == 0
            }
            &&& frequent && cycles >= before.min_cycles ==> {
                &&& class matches SampleClass::Candidate { excess, min_cycles } && excess
                    + min_cycles == cycles && min_cycles == before.min_cycles
                &&& after == before
            }
            &&& after.clock_hz == before.clock_hz && after.counts == before.counts
            &&& after.max_cycles == before.max_cycles && after.total == before.total
        }),
{
}

/// A sample is counted once, in all and under its width, and moves only the longest pulse.
pub proof fn samples_count_once(before: EstimatorSpec, cycles: u32, other: u32)
    requires
        before.total < u32::MAX,
        before.count(cycles) < u32::MAX,
    ensures
        ({
            let after = before.observed(cycles);
            &&& after.total == before.total + 1
            &&& cycles != 0 ==> after.count(cycles) == before.count(cycles) + 1
            &&& other != cycles ==> after.count(other) == before.count(other)
            &&& after.max_cycles >= cycles && after.max_cycles >= before.max_cycles
            &&& after.max_cycles == cycles || after.max_cycles == before.max_cycles
            &&& after.min_cycles == before.min_cycles && after.clock_hz == before.clock_hz
            &&& after.bit_time_sum == before.bit_time_sum
            &&& after.bit_time_count == before.bit_time_count
            &&& after.outlier_count == before.outlier_count
        }),
{
}

/// A new estimator after all of the raw words.
pub open spec fn after_words(
    clock_hz: u32,
    raws: Seq<u32>,
    frequent: spec_fn(u32, u32) -> bool,
    close: spec_fn(u32, u32) -> bool,
) -> EstimatorSpec
    decreases raws.len(),
{
    if raws.len() == 0 {
        EstimatorSpec::fresh(clock_hz)
    } else {
        after_words(clock_hz, raws.drop_last(), frequent, close).pushed(
            raws.last(),
            frequent,
            close,
        ).0
    }
}

/// The one-bit periods since the shortest signal was last moved, each with the longest
/// pulse when it was added.
pub open spec fn bits_since(
    clock_hz: u32,
    raws: Seq<u32>,
    frequent: spec_fn(u32, u32) -> bool,
    close: spec_fn(u32, u32) -> bool,
) -> Seq<(u32, u32)>
    decreases raws.len(),
{
    if raws.len() == 0 {
        Seq::empty()
    } else {
        let earlier = bits_since(clock_hz, raws.drop_last(), frequent, close);
        let before = after_words(clock_hz, raws.drop_last(), frequent, close);
        let (after, bits) = before.pushed(raws.last(), frequent, close);
        if after.min_cycles != before.min_cycles {
            Seq::empty()
        } else if bits is Some {
            earlier.push((cycles_of(raws.last()), after.max_cycles))
        } else {
            earlier
        }
    }
}

/// How many of the periods are shorter than a ninth of the longest pulse of their time.
pub open spec fn short_ones(bits: Seq<(u32, u32)>) -> nat
    decreases bits.len(),
{
    if bits.len() == 0 {
        0
    } else {
        short_ones(bits.drop_last()) + if 9 * (bits.last().0 + 1) <= bits.last().1 {
            1nat
        } else {
            0nat
        }
    }
}

/// However samples are judged, a run of raw words leaves these numbers: as many one-bit
/// periods as were added since the shortest signal was last moved, and as many outliers
/// as there are among them that are shorter than a ninth of the longest pulse of their
/// time. There is an outlier only if the longest pulse is more than nine times as long
/// as the shortest signal. The longest pulse is that of a sample.
pub proof fn outliers_need_long_pulses(
    clock_hz: u32,
    raws: Seq<u32>,
    frequent: spec_fn(u32, u32) -> bool,
    close: spec_fn(u32, u32) -> bool,
)
    requires
        raws.len() <= u32::MAX,
    ensures
        ({
            let after = after_words(clock_hz, raws, frequent, close);
            let bits = bits_since(clock_hz, raws, frequent, close);
            &&& after.total == raws.len()
            &&& after.bit_time_count == bits.len() <= raws.len()
            &&& after.outlier_count == short_ones(bits) <= bits.len()
            &&& after.outlier_count > 0 ==> after.max_cycles >= 9 * (after.min_cycles + 1)
            &&& after.max_cycles <= 9 * after.min_cycles ==> after.outlier_count == 0
            &&& forall|i: int| 0 <= i < bits.len() ==> (#[trigger] bits[i]).0 >= after.min_cycles
            &&& forall|i: int|
                0 <= i < raws.len() ==> cycles_of(#[trigger] raws[i]) <= after.max_cycles
            &&& after.max_cycles == 0 || exists|i: int|
                0 <= i < raws.len() && cycles_of(#[trigger] raws[i]) == after.max_cycles
        }),
    decreases raws.len(),
{
    if raws.len() > 0 {
        let shorter = raws.drop_last();
        outliers_need_long_pulses(clock_hz, shorter, frequent, close);
        let before = after_words(clock_hz, shorter, frequent, close);
        let earlier = bits_since(clock_hz, shorter, frequent, close);
        let cycles = cycles_of(raws.last());
        let (after, step) = before.pushed(raws.last(), frequent, close);
        let bits = bits_since(clock_hz, raws, frequent, close);
        assert forall|i: int| 0 <= i < raws.len() implies cycles_of(#[trigger] raws[i])
            <= after.max_cycles by {
            if i < shorter.len() {
                assert(shorter[i] == raws[i]);
            }
        }
        if after.max_cycles != 0 {
            if after.max_cycles == before.max_cycles {
                let i = choose|i: int|
                    0 <= i < shorter.len() && cycles_of(#[trigger] shorter[i]) == before.max_cycles;
                assert(raws[i] == shorter[i]);
            } else {
                assert(cycles_of(raws[raws.len() - 1]) == after.max_cycles);
            }
        }
        if after.min_cycles == before.min_cycles && step is Some {
            assert(bits.drop_last() =~= earlier);
            assert forall|i: int| 0 <= i < bits.len() implies (#[trigger] bits[i]).0
                >= after.min_cycles by {
                if i < earlier.len() {
                    assert(bits[i] == earlier[i]);
                }
            }
        }
    }
}

/// A new estimator has counted and added up nothing, and takes the first frequent sample
/// for its shortest signal.
pub proof fn new_estimators_know_nothing(clock_hz: u32, cycles: u32)
    ensures
        ({
            let fresh = EstimatorSpec::fresh(clock_hz);
            &&& fresh.clock_hz == clock_hz
            &&& fresh.total == 0 && fresh.max_cycles == 0
            &&& fresh.bit_time_sum == 0 && fresh.bit_time_count == 0 && fresh.outlier_count == 0
            &&& fresh.count(cycles) == 0
            &&& cycles < u32::MAX ==> fresh.class(cycles, true) == SampleClass::NewMinimum
        }),
{
}

/// A width can be counted while fewer than five hundred others are, and always once it was.
pub proof fn five_hundred_widths_are_told_apart(before: EstimatorSpec, cycles: u32)
    ensures
        before.has_slot(cycles) <==> before.counts.dom().len() < 500 || before.counts.dom().contains(
            cycles,
        ),
        before.accepts(cycles) <==> before.has_slot(cycles) && before.total < 0xFFFF_FFFF,
        before.accepts_bit(cycles) <==> before.bit_time_sum + cycles < 0x1_0000_0000
            && before.bit_time_count < 0xFFFF_FFFF,
{
}

} // verus!
