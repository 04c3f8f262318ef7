//! The heterogeneous engine: values appended to an arena of chunks, never
//! moved and never reused piecewise.
//!
//! Each value takes the next cell at the end of the last chunk, or the first
//! cell of a new chunk twice as large (as far as `usize` allows) when the last
//! one is full. A chunk is made with its full capacity and never reallocates,
//! so a stored value stays where it was put. Removing an entry drops its value
//! but leaves its cell spent: no later insertion takes it, and the arena only
//! shrinks when the whole map is cleared.
use crate::blocks::{
    capacities_of, cells_of, grown, lemma_capacities_of_update, lemma_cells_of_update, next_capacity, Block, Slot,
};
use crate::index::{take_entry, take_first};
use crate::prelude::{UnpinnedPineMap, UnpinnedPineMapEmplace};
use crate::teardown::{aggregate, errors_of, failures_of, finalizes_all, TeardownFailure};
use std::collections::BTreeMap;
use vstd::laws_cmp::obeys_cmp;
use vstd::prelude::*;

verus! {

/// The number of cells in `cells`, spent or live.
pub open spec fn total<V>(cells: Seq<Seq<Option<V>>>) -> nat
    decreases cells.len(),
{
    if cells.len() == 0 {
        0
    } else {
        total(cells.drop_last()) + cells.last().len()
    }
}

proof fn lemma_total_update<V>(cells: Seq<Seq<Option<V>>>, i: int, cell: Seq<Option<V>>)
    requires
        0 <= i < cells.len(),
    ensures
        total(cells.update(i, cell)) + cells[i].len() == total(cells) + cell.len(),
    decreases cells.len(),
{
    let updated = cells.update(i, cell);
    if i < cells.len() - 1 {
        assert(updated.drop_last() =~= cells.drop_last().update(i, cell));
        lemma_total_update(cells.drop_last(), i, cell);
    } else {
        assert(updated.drop_last() =~= cells.drop_last());
    }
}

/// The state of a [`PressedPineMap`] as mathematics: the index, the state of
/// every cell of every chunk (`None` once its entry has been removed), the
/// capacity of each chunk and the capacity of the first.
#[verifier::reject_recursive_types(K)]
pub struct ArenaModel<K, V> {
    pub addresses: Map<K, Slot>,
    pub cells: Seq<Seq<Option<V>>>,
    pub capacities: Seq<usize>,
    pub first_capacity: usize,
}

impl<K, V> ArenaModel<K, V> {
    pub open spec fn in_bounds(self, s: Slot) -> bool {
        s.block < self.cells.len() && s.offset < self.cells[s.block as int].len()
    }

    pub open spec fn cell(self, s: Slot) -> Option<V> {
        self.cells[s.block as int][s.offset as int]
    }

    /// The live entries: each key with the value in its cell.
    pub open spec fn entries(self) -> Map<K, V> {
        Map::new(|k: K| self.addresses.contains_key(k), |k: K| self.cell(self.addresses[k])->Some_0)
    }

    /// How many cells the arena has handed out since it was last cleared.
    pub open spec fn usage(self) -> nat {
        total(self.cells)
    }

    pub open spec fn wf(self) -> bool {
        &&& self.first_capacity >= 1
        &&& 1 <= self.cells.len() <= usize::MAX
        &&& self.capacities.len() == self.cells.len()
        &&& self.capacities[0] == self.first_capacity
        &&& forall|i: int| 0 < i < self.capacities.len() ==> #[trigger] self.capacities[i] == grown(self.capacities[i - 1])
        &&& forall|i: int| 0 <= i < self.cells.len() ==> #[trigger] self.cells[i].len() <= self.capacities[i]
        &&& self.addresses.dom().finite()
        &&& forall|k: K| #[trigger] self.addresses.contains_key(k) ==> {
            &&& self.in_bounds(self.addresses[k])
            &&& self.cell(self.addresses[k]) is Some
        }
        &&& forall|k1: K, k2: K|
            #[trigger] self.addresses.contains_key(k1) && #[trigger] self.addresses.contains_key(k2) && k1 != k2
                ==> self.addresses[k1] != self.addresses[k2]
    }

    /// Where the next value goes: the end of the last chunk, else the start of
    /// a new one. It is never a cell that the arena has handed out.
    pub open spec fn next_slot(self) -> Slot {
        if self.cells.last().len() < self.capacities.last() {
            Slot { block: (self.cells.len() - 1) as usize, offset: self.cells.last().len() as usize }
        } else {
            Slot { block: self.cells.len() as usize, offset: 0 }
        }
    }

    /// The state after `value` is stored for `key` at [`Self::next_slot`].
    pub open spec fn place(self, key: K, value: V) -> Self {
        let s = self.next_slot();
        if self.cells.last().len() < self.capacities.last() {
            ArenaModel {
                addresses: self.addresses.insert(key, s),
                cells: self.cells.update(s.block as int, self.cells[s.block as int].push(Some(value))),
                capacities: self.capacities,
                first_capacity: self.first_capacity,
            }
        } else {
            ArenaModel {
                addresses: self.addresses.insert(key, s),
                cells: self.cells.push(seq![Some(value)]),
                capacities: self.capacities.push(grown(self.capacities.last())),
                first_capacity: self.first_capacity,
            }
        }
    }

    /// The state after the entry of `key` is removed: its value is dropped and
    /// its cell is spent.
    pub open spec fn evict(self, key: K) -> Self {
        let s = self.addresses[key];
        ArenaModel {
            addresses: self.addresses.remove(key),
            cells: self.cells.update(s.block as int, self.cells[s.block as int].update(s.offset as int, None)),
            capacities: self.capacities,
            first_capacity: self.first_capacity,
        }
    }

    /// The state after the value of the live entry of `key` is replaced in its
    /// cell.
    pub open spec fn overwrite(self, key: K, value: V) -> Self {
        let s = self.addresses[key];
        ArenaModel {
            addresses: self.addresses,
            cells: self.cells.update(s.block as int, self.cells[s.block as int].update(s.offset as int, Some(value))),
            capacities: self.capacities,
            first_capacity: self.first_capacity,
        }
    }

    /// The state after a clear: one empty chunk of the first capacity.
    pub open spec fn reset(self) -> Self {
        ArenaModel {
            addresses: Map::empty(),
            cells: seq![Seq::empty()],
            capacities: seq![self.first_capacity],
            first_capacity: self.first_capacity,
        }
    }
}

impl<K, V> ArenaModel<K, V> {
    proof fn lemma_next_slot_fresh(self)
        requires
            self.wf(),
        ensures
            !self.in_bounds(self.next_slot()),
            forall|k: K| #[trigger] self.addresses.contains_key(k) ==> self.addresses[k] != self.next_slot(),
    {
        assert forall|k: K| #[trigger] self.addresses.contains_key(k) implies self.addresses[k] != self.next_slot() by {
            assert(self.in_bounds(self.addresses[k]));
        }
    }

    proof fn lemma_place(self, key: K, value: V)
        requires
            self.wf(),
            !self.addresses.contains_key(key),
            self.next_slot().block < usize::MAX,
        ensures
            self.place(key, value).wf(),
            self.place(key, value).entries() == self.entries().insert(key, value),
            self.place(key, value).addresses == self.addresses.insert(key, self.next_slot()),
            self.place(key, value).usage() == self.usage() + 1,
            forall|s: Slot| self.in_bounds(s) ==> #[trigger] self.place(key, value).in_bounds(s),
    {
        let s = self.next_slot();
        let m = self.place(key, value);
        self.lemma_next_slot_fresh();
        if self.cells.last().len() < self.capacities.last() {
            lemma_total_update(self.cells, self.cells.len() - 1, self.cells.last().push(Some(value)));
        } else {
            assert forall|i: int| 0 < i < m.capacities.len() implies #[trigger] m.capacities[i] == grown(m.capacities[i - 1]) by {
                if i < self.capacities.len() {
                    assert(self.capacities[i] == grown(self.capacities[i - 1]));
                }
            }
            self.lemma_capacities_positive(self.capacities.len() - 1);
            assert(m.cells.drop_last() =~= self.cells);
        }
        assert forall|k: K| #[trigger] m.addresses.contains_key(k) && k != key implies m.addresses[k] == self.addresses[k] && m.in_bounds(self.addresses[k]) && m.cell(self.addresses[k]) == self.cell(self.addresses[k]) by {
            assert(self.addresses.contains_key(k));
            assert(self.in_bounds(self.addresses[k]));
        }
        assert forall|i: int| 0 <= i < m.cells.len() implies #[trigger] m.cells[i].len() <= m.capacities[i] by {
            if i < self.cells.len() {
                assert(self.cells[i].len() <= self.capacities[i]);
            }
        }
        assert(m.entries() =~= self.entries().insert(key, value));
    }

    proof fn lemma_capacities_positive(self, i: int)
        requires
            self.first_capacity >= 1,
            self.capacities.len() >= 1,
            self.capacities[0] == self.first_capacity,
            forall|j: int| 0 < j < self.capacities.len() ==> #[trigger] self.capacities[j] == grown(self.capacities[j - 1]),
            0 <= i < self.capacities.len(),
        ensures
            self.capacities[i] >= 1,
        decreases i,
    {
        if i > 0 {
            self.lemma_capacities_positive(i - 1);
            assert(self.capacities[i] == grown(self.capacities[i - 1]));
        }
    }

    proof fn lemma_evict(self, key: K)
        requires
            self.wf(),
            self.addresses.contains_key(key),
        ensures
            self.evict(key).wf(),
            self.evict(key).entries() == self.entries().remove(key),
            self.evict(key).addresses == self.addresses.remove(key),
            self.evict(key).usage() == self.usage(),
            self.cell(self.addresses[key]) == Some(self.entries()[key]),
            forall|s: Slot| self.in_bounds(s) <==> #[trigger] self.evict(key).in_bounds(s),
    {
        let s = self.addresses[key];
        let m = self.evict(key);
        assert(self.in_bounds(s));
        lemma_total_update(self.cells, s.block as int, self.cells[s.block as int].update(s.offset as int, None));
        assert forall|k: K| #[trigger] m.addresses.contains_key(k) implies m.in_bounds(m.addresses[k]) && m.cell(m.addresses[k]) == self.cell(self.addresses[k]) by {
            assert(self.addresses.contains_key(k) && self.addresses.contains_key(key));
            assert(self.in_bounds(self.addresses[k]));
        }
        assert forall|i: int| 0 <= i < m.cells.len() implies #[trigger] m.cells[i].len() <= m.capacities[i] by {
            assert(self.cells[i].len() <= self.capacities[i]);
        }
        assert(m.entries() =~= self.entries().remove(key));
    }

    proof fn lemma_overwrite(self, key: K, value: V)
        requires
            self.wf(),
            self.addresses.contains_key(key),
        ensures
            self.overwrite(key, value).wf(),
            self.overwrite(key, value).entries() == self.entries().insert(key, value),
    {
        let s = self.addresses[key];
        let m = self.overwrite(key, value);
        assert(self.in_bounds(s));
        assert forall|k: K| #[trigger] m.addresses.contains_key(k) && k != key implies m.cell(m.addresses[k]) == self.cell(self.addresses[k]) by {
            assert(self.addresses.contains_key(k) && self.addresses.contains_key(key));
            assert(self.in_bounds(self.addresses[k]));
        }
        assert forall|i: int| 0 <= i < m.cells.len() implies #[trigger] m.cells[i].len() <= m.capacities[i] by {
            assert(self.cells[i].len() <= self.capacities[i]);
        }
        assert(m.entries() =~= self.entries().insert(key, value));
    }

    proof fn lemma_reset(self)
        requires
            self.first_capacity >= 1,
        ensures
            self.reset().wf(),
            self.reset().entries() == Map::<K, V>::empty(),
            self.reset().usage() == 0,
    {
        assert(self.reset().entries() =~= Map::<K, V>::empty());
        assert(self.reset().cells.drop_last() =~= Seq::<Seq<Option<V>>>::empty());
        assert(total(Seq::<Seq<Option<V>>>::empty()) == 0);
    }
}

/// A map that appends its values to an arena of chunks and reclaims the arena
/// only as a whole, on clear.
pub struct PressedPineMap<K, V> {
    addresses: BTreeMap<K, Slot>,
    chunks: Vec<Block<V>>,
    first_capacity: usize,
}

impl<K, V> View for PressedPineMap<K, V> {
    type V = ArenaModel<K, V>;

    closed spec fn view(&self) -> ArenaModel<K, V> {
        ArenaModel {
            addresses: self.addresses@,
            cells: cells_of(self.chunks@),
            capacities: capacities_of(self.chunks@),
            first_capacity: self.first_capacity,
        }
    }
}

impl<K: Ord, V> PressedPineMap<K, V> {
    /// An empty map whose first chunk holds one value.
    pub fn new() -> (map: Self)
        requires
            obeys_cmp::<K>(),
        ensures
            map.wf(),
            map.entries() == Map::<K, V>::empty(),
            map@.usage() == 0,
            map@.first_capacity == 1,
    {
        Self::with_capacity(1)
    }

    /// An empty map whose first chunk holds `capacity` values (at least one).
    pub fn with_capacity(capacity: usize) -> (map: Self)
        requires
            obeys_cmp::<K>(),
        ensures
            map.wf(),
            map.entries() == Map::<K, V>::empty(),
            map@.usage() == 0,
            map@.first_capacity == if capacity == 0 { 1 } else { capacity },
            map@ == map@.reset(),
    {
        let first_capacity = if capacity == 0 { 1 } else { capacity };
        let mut chunks: Vec<Block<V>> = Vec::new();
        chunks.push(Block { cells: Vec::with_capacity(first_capacity), capacity: first_capacity });
        let map = PressedPineMap { addresses: BTreeMap::new(), chunks, first_capacity };
        assert(map@.cells =~= seq![Seq::<Option<V>>::empty()]);
        assert(map@.capacities =~= seq![first_capacity]);
        proof { map@.lemma_reset(); }
        map
    }

    /// The address of the value stored under `key`, if any.
    pub fn locate(&self, key: &K) -> (result: Option<Slot>)
        requires
            self.wf(),
        ensures
            match result {
                Some(s) => self@.addresses.contains_key(*key) && s == self@.addresses[*key],
                None => !self@.addresses.contains_key(*key),
            },
    {
        match self.addresses.get(key) {
            Some(s) => Some(*s),
            None => None,
        }
    }

    /// The number of chunks.
    pub fn chunk_count(&self) -> (n: usize)
        ensures
            n == self@.cells.len(),
    {
        self.chunks.len()
    }

    /// The number of cells that chunk `chunk` has handed out, spent or live.
    pub fn chunk_len(&self, chunk: usize) -> (n: usize)
        requires
            chunk < self@.cells.len(),
        ensures
            n == self@.cells[chunk as int].len(),
    {
        self.chunks[chunk].cells.len()
    }

    /// The capacity of chunk `chunk`.
    pub fn chunk_capacity(&self, chunk: usize) -> (capacity: usize)
        requires
            chunk < self@.cells.len(),
        ensures
            capacity == self@.capacities[chunk as int],
    {
        self.chunks[chunk].capacity
    }

    /// The address that the next inserted value will occupy.
    pub fn next_slot(&self) -> (s: Slot)
        requires
            self.wf(),
        ensures
            s == self@.next_slot(),
    {
        let last = self.chunks.len() - 1;
        let len = self.chunks[last].cells.len();
        if len < self.chunks[last].capacity {
            Slot { block: last, offset: len }
        } else {
            Slot { block: self.chunks.len(), offset: 0 }
        }
    }

    /// Stores `value` for `key` at the next slot; the second phase of an
    /// insertion whose occupancy check and construction have passed.
    fn commit(&mut self, key: K, value: V) -> (r: &V)
        requires
            old(self).wf(),
            !old(self)@.addresses.contains_key(key),
        ensures
            final(self).wf(),
            final(self)@ == old(self)@.place(key, value),
            *r == value,
    {
        let ghost m = self@;
        let ghost v = value;
        let s = self.next_slot();
        if s.block < self.chunks.len() {
            self.chunks[s.block].cells.push(Some(value));
        } else {
            let capacity = next_capacity(self.chunks[self.chunks.len() - 1].capacity);
            let mut cells: Vec<Option<V>> = Vec::with_capacity(capacity);
            cells.push(Some(value));
            self.chunks.push(Block { cells, capacity });
            // A `Vec`'s length fits in a `usize`, so the new chunk's index does too.
            let _count = self.chunks.len();
        }
        self.addresses.insert(key, s);
        proof {
            m.lemma_place(key, v);
            let p = m.place(key, v);
            assert(self@.cells =~= p.cells);
            assert(self@.capacities =~= p.capacities);
            assert(self@ == p);
            assert(self@.in_bounds(s));
        }
        match &self.chunks[s.block].cells[s.offset] {
            Some(r) => r,
            None => unreached(),
        }
    }
}

impl<K: Ord, V> UnpinnedPineMap<K, V> for PressedPineMap<K, V> {
    type Address = Slot;

    open spec fn wf(&self) -> bool {
        &&& obeys_cmp::<K>()
        &&& self@.wf()
    }

    open spec fn entries(&self) -> Map<K, V> {
        self@.entries()
    }

    open spec fn addresses(&self) -> Map<K, Slot> {
        self@.addresses
    }

    open spec fn reserved(&self) -> Slot {
        self@.next_slot()
    }

    fn get(&self, key: &K) -> (result: Option<&V>) {
        match self.addresses.get(key) {
            Some(s) => {
                let s = *s;
                proof {
                    assert(self@.addresses.contains_key(*key));
                    assert(self@.in_bounds(s));
                }
                match &self.chunks[s.block].cells[s.offset] {
                    Some(v) => Some(v),
                    None => unreached(),
                }
            },
            None => None,
        }
    }

    fn get_mut(&mut self, key: &K) -> (result: Option<&mut V>)
        ensures
            match result {
                Some(v) => final(self)@ == old(self)@.overwrite(*key, *final(v)),
                None => final(self)@ == old(self)@,
            },
    {
        broadcast use {lemma_cells_of_update, lemma_capacities_of_update};

        let ghost m = self@;
        match self.addresses.get(key) {
            Some(s) => {
                let s = *s;
                proof {
                    assert(m.addresses.contains_key(*key));
                    assert(m.in_bounds(s));
                }
                let chunk = &mut self.chunks[s.block];
                let cell = &mut chunk.cells[s.offset];
                match cell {
                    Some(v) => {
                        proof {
                            m.lemma_overwrite(*key, *final(v));
                        }
                        Some(v)
                    },
                    None => unreached(),
                }
            },
            None => None,
        }
    }

    fn try_insert_with<F: FnOnce(&K) -> Result<V, E>, E>(&mut self, key: K, value_factory: F) -> (result: Result<Result<&V, (K, F)>, E>)
        ensures
            !old(self).entries().contains_key(key) ==> match result {
                Ok(Ok(v)) => final(self)@ == old(self)@.place(key, *v),
                _ => *final(self) == *old(self),
            },
    {
        if self.addresses.contains_key(&key) {
            return Ok(Err((key, value_factory)));
        }
        match value_factory(&key) {
            Ok(value) => {
                proof {
                    old(self)@.lemma_next_slot_fresh();
                }
                Ok(Ok(self.commit(key, value)))
            },
            Err(e) => Err(e),
        }
    }

    fn clear(&mut self)
        ensures
            final(self)@ == old(self)@.reset(),
    {
        proof { old(self)@.lemma_reset(); }
        self.addresses.clear();
        let mut chunks: Vec<Block<V>> = Vec::new();
        chunks.push(Block { cells: Vec::with_capacity(self.first_capacity), capacity: self.first_capacity });
        self.chunks = chunks;
        proof {
            assert(self@.cells =~= old(self)@.reset().cells);
            assert(self@.capacities =~= old(self)@.reset().capacities);
        }
    }

    fn clear_with<FK: Fn(K) -> Result<(), E>, FV: Fn(V) -> Result<(), E>, E>(&mut self, finalize_key: FK, finalize_value: FV) -> (result: Result<(), TeardownFailure<E>>)
        ensures
            final(self)@ == old(self)@.reset(),
    {
        let ghost m = self@;
        let ghost entries = m.entries();
        let mut addresses: BTreeMap<K, Slot> = BTreeMap::new();
        std::mem::swap(&mut addresses, &mut self.addresses);
        let mut chunks: Vec<Block<V>> = Vec::new();
        chunks.push(Block { cells: Vec::with_capacity(self.first_capacity), capacity: self.first_capacity });
        std::mem::swap(&mut chunks, &mut self.chunks);
        proof {
            m.lemma_reset();
            assert(self@.cells =~= m.reset().cells);
            assert(self@.capacities =~= m.reset().capacities);
        }
        proof {
            assert(entries == old(self).entries());
            assert forall|k: K| #[trigger] entries.contains_key(k) implies finalize_key.requires((k,)) && finalize_value.requires((entries[k],)) by {
                assert(old(self).entries().contains_key(k));
            }
        }
        let mut failures: Vec<E> = Vec::new();
        let ghost mut order: Seq<K> = Seq::empty();
        let ghost mut outcomes: Seq<Result<(), E>> = Seq::empty();
        loop
            invariant
                obeys_cmp::<K>(),
                m.wf(),
                entries == m.entries(),
                self.wf(),
                self@ == m.reset(),
                forall|k: K| #[trigger] entries.contains_key(k) ==> finalize_key.requires((k,)) && finalize_value.requires((entries[k],)),
                addresses@.dom().finite(),
                forall|k: K| #[trigger] addresses@.contains_key(k) ==> {
                    &&& m.addresses.contains_key(k)
                    &&& addresses@[k] == m.addresses[k]
                    &&& cells_of(chunks@)[m.addresses[k].block as int][m.addresses[k].offset as int] == m.cell(m.addresses[k])
                },
                cells_of(chunks@).len() == m.cells.len(),
                forall|i: int| 0 <= i < m.cells.len() ==> #[trigger] cells_of(chunks@)[i].len() == m.cells[i].len(),
                order.no_duplicates(),
                forall|i: int| 0 <= i < order.len() ==> !addresses@.contains_key(#[trigger] order[i]) && m.addresses.contains_key(order[i]),
                forall|k: K| #[trigger] m.addresses.contains_key(k) ==> addresses@.contains_key(k) || order.contains(k),
                outcomes.len() == 2 * order.len(),
                forall|i: int| 0 <= i < order.len() ==> {
                    &&& finalize_key.ensures((#[trigger] order[i],), outcomes[2 * i])
                    &&& finalize_value.ensures((entries[order[i]],), outcomes[2 * i + 1])
                },
                failures@ == errors_of(outcomes),
            ensures
                addresses@ == Map::<K, Slot>::empty(),
            decreases addresses@.len(),
        {
            let ghost before = addresses@;
            match take_first(&mut addresses) {
                None => break,
                Some((k, s)) => {
                    proof {
                        assert(m.addresses.contains_key(k));
                        assert(m.in_bounds(s));
                        assert(m.cell(s) == Some(entries[k]));
                        assert(addresses@.len() < before.len());
                    }
                    let ghost chunks_before = cells_of(chunks@);
                    let taken = chunks[s.block].cells[s.offset].take();
                    proof {
                        assert forall|k2: K| #[trigger] addresses@.contains_key(k2) implies cells_of(chunks@)[m.addresses[k2].block as int][m.addresses[k2].offset as int] == m.cell(m.addresses[k2]) by {
                            assert(before.contains_key(k2));
                            assert(m.addresses.contains_key(k2) && k2 != k);
                            assert(m.addresses[k2] != s);
                            assert(chunks_before[m.addresses[k2].block as int][m.addresses[k2].offset as int] == m.cell(m.addresses[k2]));
                        }
                        assert forall|i: int| 0 <= i < m.cells.len() implies #[trigger] cells_of(chunks@)[i].len() == m.cells[i].len() by {
                            assert(chunks_before[i].len() == m.cells[i].len());
                        }
                    }
                    match taken {
                        Some(v) => {
                            proof {
                                assert(entries.contains_key(k));
                            }
                            let key_outcome = finalize_key(k);
                            let value_outcome = finalize_value(v);
                            proof {
                                let old_outcomes = outcomes;
                                let old_order = order;
                                order = order.push(k);
                                outcomes = outcomes.push(key_outcome).push(value_outcome);
                                assert(outcomes.drop_last() =~= old_outcomes.push(key_outcome));
                                assert(old_outcomes.push(key_outcome).drop_last() =~= old_outcomes);
                                assert forall|i: int| 0 <= i < order.len() implies {
                                    &&& finalize_key.ensures((#[trigger] order[i],), outcomes[2 * i])
                                    &&& finalize_value.ensures((entries[order[i]],), outcomes[2 * i + 1])
                                } by {
                                    if i < order.len() - 1 {
                                        assert(order[i] == old_order[i]);
                                        assert(outcomes[2 * i] == old_outcomes[2 * i]);
                                        assert(outcomes[2 * i + 1] == old_outcomes[2 * i + 1]);
                                    }
                                }
                                assert forall|k2: K| #[trigger] m.addresses.contains_key(k2) implies addresses@.contains_key(k2) || order.contains(k2) by {
                                    if !addresses@.contains_key(k2) && k2 != k {
                                        assert(before.contains_key(k2) ==> addresses@.contains_key(k2));
                                        assert(before.contains_key(k2) || old_order.contains(k2));
                                        let j = choose|j: int| 0 <= j < old_order.len() && old_order[j] == k2;
                                        assert(order[j] == k2);
                                    } else if k2 == k {
                                        assert(order[order.len() - 1] == k);
                                    }
                                }
                                assert forall|i: int| 0 <= i < order.len() implies !addresses@.contains_key(#[trigger] order[i]) && m.addresses.contains_key(order[i]) by {
                                    if i < order.len() - 1 {
                                        assert(!before.contains_key(order[i]));
                                    }
                                }
                                assert forall|i: int, j: int| 0 <= i < j < order.len() implies order[i] != order[j] by {
                                    if j == order.len() - 1 {
                                        assert(!before.contains_key(order[i]));
                                    }
                                }
                            }
                            let ghost halfway = outcomes.drop_last();
                            match key_outcome {
                                Ok(()) => {},
                                Err(e) => {
                                    failures.push(e);
                                },
                            }
                            assert(failures@ =~= errors_of(halfway));
                            match value_outcome {
                                Ok(()) => {},
                                Err(e) => {
                                    failures.push(e);
                                },
                            }
                            assert(failures@ =~= errors_of(outcomes));
                        },
                        None => unreached(),
                    }
                },
            }
        }
        proof {
            assert(order.to_set() =~= entries.dom()) by {
                assert forall|k: K| entries.dom().contains(k) implies order.to_set().contains(k) by {
                    assert(m.addresses.contains_key(k));
                    assert(!addresses@.contains_key(k));
                }
            }
            assert(finalizes_all(entries, finalize_key, finalize_value, order, outcomes));
        }
        let result = aggregate(failures);
        proof {
            assert(finalizes_all(old(self).entries(), finalize_key, finalize_value, order, outcomes));
            assert(failures_of(result) == errors_of(outcomes));
        }
        result
    }

    fn remove_pair(&mut self, key: &K) -> (result: Option<(K, V)>)
        ensures
            match result {
                Some(_) => final(self)@ == old(self)@.evict(*key),
                None => final(self)@ == old(self)@,
            },
            final(self)@.usage() == old(self)@.usage(),
    {
        let ghost m = self@;
        match take_entry(&mut self.addresses, key) {
            None => None,
            Some((k, s)) => {
                proof {
                    m.lemma_evict(*key);
                    assert(m.in_bounds(s));
                }
                let taken = self.chunks[s.block].cells[s.offset].take();
                proof {
                    let e = m.evict(*key);
                    assert(self@.cells =~= e.cells);
                    assert(self@.capacities =~= e.capacities);
                }
                match taken {
                    Some(v) => Some((k, v)),
                    None => unreached(),
                }
            },
        }
    }

    fn remove_value(&mut self, key: &K) -> (result: Option<V>)
        ensures
            final(self)@.usage() == old(self)@.usage(),
    {
        match self.remove_pair(key) {
            Some((_, v)) => Some(v),
            None => None,
        }
    }

    fn remove_key(&mut self, key: &K) -> (result: Option<K>)
        ensures
            final(self)@.usage() == old(self)@.usage(),
    {
        match self.remove_pair(key) {
            Some((k, _)) => Some(k),
            None => None,
        }
    }

    fn drop_entry(&mut self, key: &K) -> (removed: bool)
        ensures
            final(self)@.usage() == old(self)@.usage(),
    {
        self.remove_key(key).is_some()
    }
}

impl<K: Ord, V> UnpinnedPineMapEmplace<K, V> for PressedPineMap<K, V> {
    fn try_emplace_with<F: FnOnce(&K, Slot) -> Result<V, E>, E>(&mut self, key: K, value_factory: F) -> (result: Result<Result<&V, (K, F)>, E>)
        ensures
            !old(self).entries().contains_key(key) ==> match result {
                Ok(Ok(v)) => final(self)@ == old(self)@.place(key, *v),
                _ => true,
            },
    {
        if self.addresses.contains_key(&key) {
            return Ok(Err((key, value_factory)));
        }
        let slot = self.next_slot();
        match value_factory(&key, slot) {
            Ok(value) => {
                proof {
                    old(self)@.lemma_next_slot_fresh();
                }
                Ok(Ok(self.commit(key, value)))
            },
            Err(e) => Err(e),
        }
    }
}

/// Inserting or removing one entry leaves the address and the value of every
/// other live entry as they were.
pub proof fn lemma_address_stable<K, V>(m: ArenaModel<K, V>, live: K, key: K, value: V)
    requires
        m.wf(),
        m.addresses.contains_key(live),
        key != live,
    ensures
        !m.addresses.contains_key(key) && m.next_slot().block < usize::MAX ==> {
            &&& m.place(key, value).addresses[live] == m.addresses[live]
            &&& m.place(key, value).entries()[live] == m.entries()[live]
        },
        m.addresses.contains_key(key) ==> {
            &&& m.evict(key).addresses[live] == m.addresses[live]
            &&& m.evict(key).entries()[live] == m.entries()[live]
        },
{
    if !m.addresses.contains_key(key) && m.next_slot().block < usize::MAX {
        m.lemma_place(key, value);
    }
    if m.addresses.contains_key(key) {
        m.lemma_evict(key);
    }
}

/// A cell that the arena has handed out is never handed out again before the
/// map is cleared: the next insertion, whatever its key, goes to a cell outside
/// every one handed out so far, and insertions, removals and changes in place
/// keep every handed-out cell handed out. Usage grows by one with each
/// insertion and stays the same with each removal or change.
pub proof fn lemma_spent_cell_never_reused<K, V>(m: ArenaModel<K, V>, spent: Slot, key: K, value: V)
    requires
        m.wf(),
        m.in_bounds(spent),
    ensures
        m.next_slot() != spent,
        !m.addresses.contains_key(key) ==> {
            &&& m.place(key, value).addresses[key] != spent
            &&& m.place(key, value).in_bounds(spent)
            &&& m.place(key, value).usage() == m.usage() + 1
        },
        m.addresses.contains_key(key) ==> {
            &&& m.evict(key).in_bounds(spent)
            &&& m.evict(key).usage() == m.usage()
            &&& m.overwrite(key, value).in_bounds(spent)
            &&& m.overwrite(key, value).usage() == m.usage()
        },
{
    m.lemma_next_slot_fresh();
    if !m.addresses.contains_key(key) {
        let p = m.place(key, value);
        if m.cells.last().len() < m.capacities.last() {
            lemma_total_update(m.cells, m.cells.len() - 1, m.cells.last().push(Some(value)));
        } else {
            assert(p.cells.drop_last() =~= m.cells);
        }
    }
    if m.addresses.contains_key(key) {
        m.lemma_evict(key);
        let s = m.addresses[key];
        assert(m.in_bounds(s));
        lemma_total_update(m.cells, s.block as int, m.cells[s.block as int].update(s.offset as int, Some(value)));
    }
}

} // verus!
