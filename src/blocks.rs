//! The homogeneous engine: values of one type in blocks that never move.
//!
//! Block `i + 1` holds twice as many cells as block `i` (as far as `usize`
//! allows). A new value goes to the most recently freed cell if there is one,
//! else to the end of the last block, else to the start of a new block. A
//! value's address, its [`Slot`], stays the same for as long as its entry
//! lives.
use crate::index::{take_entry, take_first};
use crate::prelude::{UnpinnedPineMap, UnpinnedPineMapEmplace};
use crate::teardown::{aggregate, errors_of, failures_of, finalizes_all, TeardownFailure};
use std::collections::BTreeMap;
use vstd::laws_cmp::obeys_cmp;
use vstd::prelude::*;

verus! {

/// The address of a cell: a block, and a position in it.
#[derive(Clone, Copy, Debug, PartialEq, Eq, Structural)]
pub struct Slot {
    pub block: usize,
    pub offset: usize,
}

/// The capacity of the block that follows one of `capacity` cells.
pub open spec fn grown(capacity: usize) -> usize {
    if capacity <= usize::MAX / 2 {
        (2 * capacity) as usize
    } else {
        capacity
    }
}

pub(crate) fn next_capacity(capacity: usize) -> (r: usize)
    ensures
        r == grown(capacity),
{
    if capacity <= usize::MAX / 2 {
        2 * capacity
    } else {
        capacity
    }
}

/// The state of a [`PineMap`] as mathematics: the index, the state of every
/// cell of every block (`None` for a free cell), the capacity of each block,
/// the hole list (the last hole is reused first) and the capacity of the first
/// block.
#[verifier::reject_recursive_types(K)]
pub struct BlockModel<K, V> {
    pub addresses: Map<K, Slot>,
    pub cells: Seq<Seq<Option<V>>>,
    pub capacities: Seq<usize>,
    pub holes: Seq<Slot>,
    pub first_capacity: usize,
}

impl<K, V> BlockModel<K, V> {
    pub open spec fn in_bounds(self, s: Slot) -> bool {
        s.block < self.cells.len() && s.offset < self.cells[s.block as int].len()
    }

    pub open spec fn cell(self, s: Slot) -> Option<V> {
        self.cells[s.block as int][s.offset as int]
    }

    /// The live entries: each key with the value in its cell.
    pub open spec fn entries(self) -> Map<K, V> {
        Map::new(|k: K| self.addresses.contains_key(k), |k: K| self.cell(self.addresses[k])->Some_0)
    }

    pub open spec fn wf(self) -> bool {
        &&& self.first_capacity >= 1
        &&& 1 <= self.cells.len() <= usize::MAX
        &&& self.capacities.len() == self.cells.len()
        &&& self.capacities[0] == self.first_capacity
        &&& forall|i: int| 0 < i < self.capacities.len() ==> #[trigger] self.capacities[i] == grown(self.capacities[i - 1])
        &&& forall|i: int| 0 <= i < self.cells.len() ==> #[trigger] self.cells[i].len() <= self.capacities[i]
        &&& self.addresses.dom().finite()
        &&& forall|k: K| #[trigger] self.addresses.contains_key(k) ==> {
            &&& self.in_bounds(self.addresses[k])
            &&& self.cell(self.addresses[k]) is Some
        }
        &&& forall|k1: K, k2: K|
            #[trigger] self.addresses.contains_key(k1) && #[trigger] self.addresses.contains_key(k2) && k1 != k2
                ==> self.addresses[k1] != self.addresses[k2]
        &&& forall|i: int| 0 <= i < self.holes.len() ==> {
            &&& self.in_bounds(#[trigger] self.holes[i])
            &&& self.cell(self.holes[i]) is None
        }
        &&& self.holes.no_duplicates()
    }

    /// Where the next value goes: the last hole, else the end of the last
    /// block, else the start of a new block.
    pub open spec fn next_slot(self) -> Slot {
        if self.holes.len() > 0 {
            self.holes.last()
        } else if self.cells.last().len() < self.capacities.last() {
            Slot { block: (self.cells.len() - 1) as usize, offset: self.cells.last().len() as usize }
        } else {
            Slot { block: self.cells.len() as usize, offset: 0 }
        }
    }

    /// The state after `value` is stored for `key` at [`Self::next_slot`].
    pub open spec fn place(self, key: K, value: V) -> Self {
        let s = self.next_slot();
        if self.holes.len() > 0 {
            BlockModel {
                addresses: self.addresses.insert(key, s),
                cells: self.cells.update(s.block as int, self.cells[s.block as int].update(s.offset as int, Some(value))),
                capacities: self.capacities,
                holes: self.holes.drop_last(),
                first_capacity: self.first_capacity,
            }
        } else if self.cells.last().len() < self.capacities.last() {
            BlockModel {
                addresses: self.addresses.insert(key, s),
                cells: self.cells.update(s.block as int, self.cells[s.block as int].push(Some(value))),
                capacities: self.capacities,
                holes: self.holes,
                first_capacity: self.first_capacity,
            }
        } else {
            BlockModel {
                addresses: self.addresses.insert(key, s),
                cells: self.cells.push(seq![Some(value)]),
                capacities: self.capacities.push(grown(self.capacities.last())),
                holes: self.holes,
                first_capacity: self.first_capacity,
            }
        }
    }

    /// The state after the entry of `key` is removed: its cell is freed and
    /// becomes the last hole.
    pub open spec fn evict(self, key: K) -> Self {
        let s = self.addresses[key];
        BlockModel {
            addresses: self.addresses.remove(key),
            cells: self.cells.update(s.block as int, self.cells[s.block as int].update(s.offset as int, None)),
            capacities: self.capacities,
            holes: self.holes.push(s),
            first_capacity: self.first_capacity,
        }
    }

    /// The state after the value of the live entry of `key` is replaced in its
    /// cell.
    pub open spec fn overwrite(self, key: K, value: V) -> Self {
        let s = self.addresses[key];
        BlockModel {
            addresses: self.addresses,
            cells: self.cells.update(s.block as int, self.cells[s.block as int].update(s.offset as int, Some(value))),
            capacities: self.capacities,
            holes: self.holes,
            first_capacity: self.first_capacity,
        }
    }

    /// The state after a clear: one empty block of the first capacity, no holes.
    pub open spec fn reset(self) -> Self {
        BlockModel {
            addresses: Map::empty(),
            cells: seq![Seq::empty()],
            capacities: seq![self.first_capacity],
            holes: Seq::empty(),
            first_capacity: self.first_capacity,
        }
    }
}

impl<K, V> BlockModel<K, V> {
    proof fn lemma_place(self, key: K, value: V)
        requires
            self.wf(),
            !self.addresses.contains_key(key),
            self.next_slot().block < usize::MAX,
        ensures
            self.place(key, value).wf(),
            self.place(key, value).entries() == self.entries().insert(key, value),
            self.place(key, value).addresses == self.addresses.insert(key, self.next_slot()),
    {
        if self.holes.len() > 0 {
            self.lemma_place_in_hole(key, value);
        } else if self.cells.last().len() < self.capacities.last() {
            self.lemma_place_at_end(key, value);
        } else {
            self.lemma_place_in_new_block(key, value);
        }
    }

    proof fn lemma_place_in_hole(self, key: K, value: V)
        requires
            self.wf(),
            !self.addresses.contains_key(key),
            self.holes.len() > 0,
        ensures
            self.place(key, value).wf(),
            self.place(key, value).entries() == self.entries().insert(key, value),
            self.place(key, value).addresses == self.addresses.insert(key, self.next_slot()),
    {
        let s = self.next_slot();
        let m = self.place(key, value);
        assert(self.in_bounds(self.holes[self.holes.len() - 1]));
        assert(self.cell(self.holes[self.holes.len() - 1]) is None);
        assert forall|i: int| 0 <= i < m.holes.len() implies m.in_bounds(#[trigger] m.holes[i]) && m.cell(m.holes[i]) is None by {
            assert(m.holes[i] == self.holes[i]);
            assert(self.in_bounds(self.holes[i]));
            assert(self.holes[i] != s);
        }
        assert forall|k: K| #[trigger] m.addresses.contains_key(k) && k != key implies m.addresses[k] == self.addresses[k] && self.addresses[k] != s && m.cell(self.addresses[k]) == self.cell(self.addresses[k]) by {
            assert(self.addresses.contains_key(k));
            assert(self.in_bounds(self.addresses[k]));
        }
        assert forall|i: int| 0 <= i < m.cells.len() implies #[trigger] m.cells[i].len() <= m.capacities[i] by {
            assert(self.cells[i].len() <= self.capacities[i]);
        }
        assert(m.entries() =~= self.entries().insert(key, value));
    }

    proof fn lemma_place_at_end(self, key: K, value: V)
        requires
            self.wf(),
            !self.addresses.contains_key(key),
            self.holes.len() == 0,
            self.cells.last().len() < self.capacities.last(),
        ensures
            self.place(key, value).wf(),
            self.place(key, value).entries() == self.entries().insert(key, value),
            self.place(key, value).addresses == self.addresses.insert(key, self.next_slot()),
    {
        let s = self.next_slot();
        let m = self.place(key, value);
        assert forall|k: K| #[trigger] m.addresses.contains_key(k) && k != key implies m.addresses[k] == self.addresses[k] && self.addresses[k] != s && m.in_bounds(self.addresses[k]) && m.cell(self.addresses[k]) == self.cell(self.addresses[k]) by {
            assert(self.addresses.contains_key(k));
            assert(self.in_bounds(self.addresses[k]));
        }
        assert forall|i: int| 0 <= i < m.cells.len() implies #[trigger] m.cells[i].len() <= m.capacities[i] by {
            assert(self.cells[i].len() <= self.capacities[i]);
        }
        assert(m.entries() =~= self.entries().insert(key, value));
    }

    proof fn lemma_place_in_new_block(self, key: K, value: V)
        requires
            self.wf(),
            !self.addresses.contains_key(key),
            self.holes.len() == 0,
            self.cells.last().len() >= self.capacities.last(),
            self.cells.len() < usize::MAX,
        ensures
            self.place(key, value).wf(),
            self.place(key, value).entries() == self.entries().insert(key, value),
            self.place(key, value).addresses == self.addresses.insert(key, self.next_slot()),
    {
        let s = self.next_slot();
        let m = self.place(key, value);
        assert forall|i: int| 0 < i < m.capacities.len() implies #[trigger] m.capacities[i] == grown(m.capacities[i - 1]) by {
            if i < self.capacities.len() {
                assert(self.capacities[i] == grown(self.capacities[i - 1]));
            }
        }
        self.lemma_capacities_positive(self.capacities.len() - 1);
        assert forall|k: K| #[trigger] m.addresses.contains_key(k) && k != key implies m.addresses[k] == self.addresses[k] && self.addresses[k] != s && m.in_bounds(self.addresses[k]) && m.cell(self.addresses[k]) == self.cell(self.addresses[k]) by {
            assert(self.addresses.contains_key(k));
            assert(self.in_bounds(self.addresses[k]));
        }
        assert forall|i: int| 0 <= i < m.cells.len() implies #[trigger] m.cells[i].len() <= m.capacities[i] by {
            if i < self.cells.len() {
                assert(self.cells[i].len() <= self.capacities[i]);
            }
        }
        assert(m.entries() =~= self.entries().insert(key, value));
    }

    proof fn lemma_next_slot_free(self)
        requires
            self.wf(),
        ensures
            forall|k: K| #[trigger] self.addresses.contains_key(k) ==> self.addresses[k] != self.next_slot(),
    {
        assert forall|k: K| #[trigger] self.addresses.contains_key(k) implies self.addresses[k] != self.next_slot() by {
            assert(self.in_bounds(self.addresses[k]));
            if self.holes.len() > 0 {
                assert(self.cell(self.holes[self.holes.len() - 1]) is None);
            }
        }
    }

    proof fn lemma_capacities_positive(self, i: int)
        requires
            self.first_capacity >= 1,
            self.capacities.len() >= 1,
            self.capacities[0] == self.first_capacity,
            forall|j: int| 0 < j < self.capacities.len() ==> #[trigger] self.capacities[j] == grown(self.capacities[j - 1]),
            0 <= i < self.capacities.len(),
        ensures
            self.capacities[i] >= 1,
        decreases i,
    {
        if i > 0 {
            self.lemma_capacities_positive(i - 1);
            assert(self.capacities[i] == grown(self.capacities[i - 1]));
        }
    }

    proof fn lemma_evict(self, key: K)
        requires
            self.wf(),
            self.addresses.contains_key(key),
        ensures
            self.evict(key).wf(),
            self.evict(key).entries() == self.entries().remove(key),
            self.evict(key).addresses == self.addresses.remove(key),
            self.cell(self.addresses[key]) == Some(self.entries()[key]),
    {
        let s = self.addresses[key];
        let m = self.evict(key);
        assert(self.in_bounds(s));
        assert forall|k: K| #[trigger] m.addresses.contains_key(k) implies m.in_bounds(m.addresses[k]) && m.cell(m.addresses[k]) is Some by {
            assert(self.addresses.contains_key(k) && self.addresses.contains_key(key));
            assert(self.in_bounds(self.addresses[k]));
        }
        assert forall|i: int| 0 <= i < m.holes.len() implies m.in_bounds(#[trigger] m.holes[i]) && m.cell(m.holes[i]) is None by {
            if i < self.holes.len() {
                assert(self.in_bounds(self.holes[i]));
            }
        }
        assert forall|i: int| 0 <= i < self.holes.len() implies #[trigger] self.holes[i] != s by {
            assert(self.cell(self.holes[i]) is None);
        }
        assert(m.holes.no_duplicates());
        assert forall|i: int| 0 <= i < m.cells.len() implies #[trigger] m.cells[i].len() <= m.capacities[i] by {
            assert(self.cells[i].len() <= self.capacities[i]);
        }
        assert(m.entries() =~= self.entries().remove(key)) by {
            assert forall|k: K| #[trigger] m.addresses.contains_key(k) implies m.cell(m.addresses[k]) == self.cell(self.addresses[k]) by {
                assert(self.addresses.contains_key(k) && self.addresses.contains_key(key));
                assert(self.in_bounds(self.addresses[k]));
            }
        }
    }

    proof fn lemma_overwrite(self, key: K, value: V)
        requires
            self.wf(),
            self.addresses.contains_key(key),
        ensures
            self.overwrite(key, value).wf(),
            self.overwrite(key, value).entries() == self.entries().insert(key, value),
    {
        let s = self.addresses[key];
        let m = self.overwrite(key, value);
        assert(self.in_bounds(s));
        assert forall|k: K| #[trigger] m.addresses.contains_key(k) && k != key implies m.cell(m.addresses[k]) == self.cell(self.addresses[k]) by {
            assert(self.addresses.contains_key(k) && self.addresses.contains_key(key));
            assert(self.in_bounds(self.addresses[k]));
        }
        assert forall|i: int| 0 <= i < m.holes.len() implies m.in_bounds(#[trigger] m.holes[i]) && m.cell(m.holes[i]) is None by {
            assert(self.in_bounds(self.holes[i]));
            assert(self.cell(self.holes[i]) is None);
        }
        assert forall|i: int| 0 <= i < m.cells.len() implies #[trigger] m.cells[i].len() <= m.capacities[i] by {
            assert(self.cells[i].len() <= self.capacities[i]);
        }
        assert(m.entries() =~= self.entries().insert(key, value));
    }

    proof fn lemma_reset(self)
        requires
            self.first_capacity >= 1,
        ensures
            self.reset().wf(),
            self.reset().entries() == Map::<K, V>::empty(),
    {
        assert(self.reset().entries() =~= Map::<K, V>::empty());
    }
}

/// A block of cells, made with its full capacity so that it never reallocates.
pub(crate) struct Block<V> {
    pub(crate) cells: Vec<Option<V>>,
    pub(crate) capacity: usize,
}

/// A map whose values of one type sit in blocks that never move, reusing the
/// cells of removed entries.
pub struct PineMap<K, V> {
    addresses: BTreeMap<K, Slot>,
    blocks: Vec<Block<V>>,
    holes: Vec<Slot>,
    first_capacity: usize,
}

/// The cell states of a list of blocks.
pub(crate) open spec fn cells_of<V>(blocks: Seq<Block<V>>) -> Seq<Seq<Option<V>>> {
    blocks.map_values(|b: Block<V>| b.cells@)
}

/// The capacities of a list of blocks.
pub(crate) open spec fn capacities_of<V>(blocks: Seq<Block<V>>) -> Seq<usize> {
    blocks.map_values(|b: Block<V>| b.capacity)
}

pub(crate) broadcast proof fn lemma_cells_of_update<V>(blocks: Seq<Block<V>>, i: int, block: Block<V>)
    requires
        0 <= i < blocks.len(),
    ensures
        #[trigger] cells_of(blocks.update(i, block)) == cells_of(blocks).update(i, block.cells@),
{
    assert(cells_of(blocks.update(i, block)) =~= cells_of(blocks).update(i, block.cells@));
}

pub(crate) broadcast proof fn lemma_capacities_of_update<V>(blocks: Seq<Block<V>>, i: int, block: Block<V>)
    requires
        0 <= i < blocks.len(),
        block.capacity == blocks[i].capacity,
    ensures
        #[trigger] capacities_of(blocks.update(i, block)) == capacities_of(blocks),
{
    assert(capacities_of(blocks.update(i, block)) =~= capacities_of(blocks));
}

impl<K, V> View for PineMap<K, V> {
    type V = BlockModel<K, V>;

    closed spec fn view(&self) -> BlockModel<K, V> {
        BlockModel {
            addresses: self.addresses@,
            cells: cells_of(self.blocks@),
            capacities: capacities_of(self.blocks@),
            holes: self.holes@,
            first_capacity: self.first_capacity,
        }
    }
}

impl<K: Ord, V> PineMap<K, V> {
    /// An empty map whose first block holds one value.
    pub fn new() -> (map: Self)
        requires
            obeys_cmp::<K>(),
        ensures
            map.wf(),
            map.entries() == Map::<K, V>::empty(),
            map@.first_capacity == 1,
    {
        Self::with_capacity(1)
    }

    /// An empty map whose first block holds `capacity` values (at least one),
    /// so that that many live entries are stored contiguously.
    pub fn with_capacity(capacity: usize) -> (map: Self)
        requires
            obeys_cmp::<K>(),
        ensures
            map.wf(),
            map.entries() == Map::<K, V>::empty(),
            map@.first_capacity == if capacity == 0 { 1 } else { capacity },
            map@ == map@.reset(),
    {
        let first_capacity = if capacity == 0 { 1 } else { capacity };
        let mut blocks: Vec<Block<V>> = Vec::new();
        blocks.push(Block { cells: Vec::with_capacity(first_capacity), capacity: first_capacity });
        let map = PineMap { addresses: BTreeMap::new(), blocks, holes: Vec::new(), first_capacity };
        assert(map@.cells =~= seq![Seq::<Option<V>>::empty()]);
        assert(map@.capacities =~= seq![first_capacity]);
        assert(map@.entries() =~= Map::<K, V>::empty());
        proof { map@.lemma_reset(); }
        map
    }

    /// The address of the value stored under `key`, if any.
    pub fn locate(&self, key: &K) -> (result: Option<Slot>)
        requires
            self.wf(),
        ensures
            match result {
                Some(s) => self@.addresses.contains_key(*key) && s == self@.addresses[*key],
                None => !self@.addresses.contains_key(*key),
            },
    {
        match self.addresses.get(key) {
            Some(s) => Some(*s),
            None => None,
        }
    }

    /// The number of blocks.
    pub fn block_count(&self) -> (n: usize)
        ensures
            n == self@.cells.len(),
    {
        self.blocks.len()
    }

    /// The capacity of block `block`.
    pub fn block_capacity(&self, block: usize) -> (capacity: usize)
        requires
            block < self@.cells.len(),
        ensures
            capacity == self@.capacities[block as int],
    {
        self.blocks[block].capacity
    }

    /// The number of freed cells waiting to be reused.
    pub fn hole_count(&self) -> (n: usize)
        ensures
            n == self@.holes.len(),
    {
        self.holes.len()
    }

    /// The address that the next inserted value will occupy.
    pub fn next_slot(&self) -> (s: Slot)
        requires
            self.wf(),
        ensures
            s == self@.next_slot(),
    {
        let n = self.holes.len();
        if n > 0 {
            self.holes[n - 1]
        } else {
            let last = self.blocks.len() - 1;
            let len = self.blocks[last].cells.len();
            if len < self.blocks[last].capacity {
                Slot { block: last, offset: len }
            } else {
                Slot { block: self.blocks.len(), offset: 0 }
            }
        }
    }

    /// Stores `value` for `key` at the next slot; the second phase of an
    /// insertion whose occupancy check and construction have passed.
    fn commit(&mut self, key: K, value: V) -> (r: &V)
        requires
            old(self).wf(),
            !old(self)@.addresses.contains_key(key),
        ensures
            final(self).wf(),
            final(self)@ == old(self)@.place(key, value),
            *r == value,
    {
        let ghost m = self@;
        let ghost v = value;
        let s = self.next_slot();
        if self.holes.len() > 0 {
            self.holes.pop();
            self.blocks[s.block].cells[s.offset] = Some(value);
        } else if s.block < self.blocks.len() {
            self.blocks[s.block].cells.push(Some(value));
        } else {
            let capacity = next_capacity(self.blocks[self.blocks.len() - 1].capacity);
            let mut cells: Vec<Option<V>> = Vec::with_capacity(capacity);
            cells.push(Some(value));
            self.blocks.push(Block { cells, capacity });
            // A `Vec`'s length fits in a `usize`, so the new block's index does too.
            let _count = self.blocks.len();
        }
        self.addresses.insert(key, s);
        proof {
            m.lemma_place(key, v);
            let p = m.place(key, v);
            assert(self@.cells =~= p.cells);
            assert(self@.capacities =~= p.capacities);
            assert(self@.holes =~= p.holes);
            assert(self@ == p);
            assert(self@.in_bounds(s));
        }
        match &self.blocks[s.block].cells[s.offset] {
            Some(r) => r,
            None => unreached(),
        }
    }
}

impl<K: Ord, V> UnpinnedPineMap<K, V> for PineMap<K, V> {
    type Address = Slot;

    open spec fn wf(&self) -> bool {
        &&& obeys_cmp::<K>()
        &&& self@.wf()
    }

    open spec fn entries(&self) -> Map<K, V> {
        self@.entries()
    }

    open spec fn addresses(&self) -> Map<K, Slot> {
        self@.addresses
    }

    open spec fn reserved(&self) -> Slot {
        self@.next_slot()
    }

    fn get(&self, key: &K) -> (result: Option<&V>) {
        match self.addresses.get(key) {
            Some(s) => {
                let s = *s;
                proof {
                    assert(self@.addresses.contains_key(*key));
                    assert(self@.in_bounds(s));
                }
                match &self.blocks[s.block].cells[s.offset] {
                    Some(v) => Some(v),
                    None => unreached(),
                }
            },
            None => None,
        }
    }

    fn get_mut(&mut self, key: &K) -> (result: Option<&mut V>)
        ensures
            match result {
                Some(v) => final(self)@ == old(self)@.overwrite(*key, *final(v)),
                None => final(self)@ == old(self)@,
            },
    {
        broadcast use {lemma_cells_of_update, lemma_capacities_of_update};

        let ghost m = self@;
        match self.addresses.get(key) {
            Some(s) => {
                let s = *s;
                proof {
                    assert(m.addresses.contains_key(*key));
                    assert(m.in_bounds(s));
                }
                let block = &mut self.blocks[s.block];
                let cell = &mut block.cells[s.offset];
                match cell {
                    Some(v) => {
                        proof {
                            m.lemma_overwrite(*key, *final(v));
                        }
                        Some(v)
                    },
                    None => unreached(),
                }
            },
            None => None,
        }
    }

    fn try_insert_with<F: FnOnce(&K) -> Result<V, E>, E>(&mut self, key: K, value_factory: F) -> (result: Result<Result<&V, (K, F)>, E>)
        ensures
            !old(self).entries().contains_key(key) ==> match result {
                Ok(Ok(v)) => final(self)@ == old(self)@.place(key, *v),
                _ => *final(self) == *old(self),
            },
    {
        if self.addresses.contains_key(&key) {
            return Ok(Err((key, value_factory)));
        }
        match value_factory(&key) {
            Ok(value) => {
                proof {
                    old(self)@.lemma_next_slot_free();
                }
                Ok(Ok(self.commit(key, value)))
            },
            Err(e) => Err(e),
        }
    }

    fn clear(&mut self)
        ensures
            final(self)@ == old(self)@.reset(),
    {
        proof { old(self)@.lemma_reset(); }
        self.addresses.clear();
        self.holes.clear();
        let mut blocks: Vec<Block<V>> = Vec::new();
        blocks.push(Block { cells: Vec::with_capacity(self.first_capacity), capacity: self.first_capacity });
        self.blocks = blocks;
        proof {
            assert(self@.cells =~= old(self)@.reset().cells);
            assert(self@.capacities =~= old(self)@.reset().capacities);
            assert(self@.holes =~= old(self)@.reset().holes);
        }
    }

    fn clear_with<FK: Fn(K) -> Result<(), E>, FV: Fn(V) -> Result<(), E>, E>(&mut self, finalize_key: FK, finalize_value: FV) -> (result: Result<(), TeardownFailure<E>>)
        ensures
            final(self)@ == old(self)@.reset(),
    {
        let ghost m = self@;
        let ghost entries = m.entries();
        let mut addresses: BTreeMap<K, Slot> = BTreeMap::new();
        std::mem::swap(&mut addresses, &mut self.addresses);
        let mut blocks: Vec<Block<V>> = Vec::new();
        blocks.push(Block { cells: Vec::with_capacity(self.first_capacity), capacity: self.first_capacity });
        std::mem::swap(&mut blocks, &mut self.blocks);
        self.holes.clear();
        proof {
            m.lemma_reset();
            assert(self@.cells =~= m.reset().cells);
            assert(self@.capacities =~= m.reset().capacities);
            assert(self@.holes =~= m.reset().holes);
        }
        proof {
            assert(entries == old(self).entries());
            assert forall|k: K| #[trigger] entries.contains_key(k) implies finalize_key.requires((k,)) && finalize_value.requires((entries[k],)) by {
                assert(old(self).entries().contains_key(k));
            }
        }
        let mut failures: Vec<E> = Vec::new();
        let ghost mut order: Seq<K> = Seq::empty();
        let ghost mut outcomes: Seq<Result<(), E>> = Seq::empty();
        loop
            invariant
                obeys_cmp::<K>(),
                m.wf(),
                entries == m.entries(),
                self.wf(),
                self@ == m.reset(),
                forall|k: K| #[trigger] entries.contains_key(k) ==> finalize_key.requires((k,)) && finalize_value.requires((entries[k],)),
                addresses@.dom().finite(),
                forall|k: K| #[trigger] addresses@.contains_key(k) ==> {
                    &&& m.addresses.contains_key(k)
                    &&& addresses@[k] == m.addresses[k]
                    &&& cells_of(blocks@)[m.addresses[k].block as int][m.addresses[k].offset as int] == m.cell(m.addresses[k])
                },
                cells_of(blocks@).len() == m.cells.len(),
                forall|i: int| 0 <= i < m.cells.len() ==> #[trigger] cells_of(blocks@)[i].len() == m.cells[i].len(),
                order.no_duplicates(),
                forall|i: int| 0 <= i < order.len() ==> !addresses@.contains_key(#[trigger] order[i]) && m.addresses.contains_key(order[i]),
                forall|k: K| #[trigger] m.addresses.contains_key(k) ==> addresses@.contains_key(k) || order.contains(k),
                outcomes.len() == 2 * order.len(),
                forall|i: int| 0 <= i < order.len() ==> {
                    &&& finalize_key.ensures((#[trigger] order[i],), outcomes[2 * i])
                    &&& finalize_value.ensures((entries[order[i]],), outcomes[2 * i + 1])
                },
                failures@ == errors_of(outcomes),
            ensures
                addresses@ == Map::<K, Slot>::empty(),
            decreases addresses@.len(),
        {
            let ghost before = addresses@;
            match take_first(&mut addresses) {
                None => break,
                Some((k, s)) => {
                    proof {
                        assert(m.addresses.contains_key(k));
                        assert(m.in_bounds(s));
                        assert(m.cell(s) == Some(entries[k]));
                        assert(addresses@.len() < before.len());
                    }
                    let ghost blocks_before = cells_of(blocks@);
                    let taken = blocks[s.block].cells[s.offset].take();
                    proof {
                        assert forall|k2: K| #[trigger] addresses@.contains_key(k2) implies cells_of(blocks@)[m.addresses[k2].block as int][m.addresses[k2].offset as int] == m.cell(m.addresses[k2]) by {
                            assert(before.contains_key(k2));
                            assert(m.addresses.contains_key(k2) && k2 != k);
                            assert(m.addresses[k2] != s);
                            assert(blocks_before[m.addresses[k2].block as int][m.addresses[k2].offset as int] == m.cell(m.addresses[k2]));
                        }
                        assert forall|i: int| 0 <= i < m.cells.len() implies #[trigger] cells_of(blocks@)[i].len() == m.cells[i].len() by {
                            assert(blocks_before[i].len() == m.cells[i].len());
                        }
                    }
                    match taken {
                        Some(v) => {
                            proof {
                                assert(entries.contains_key(k));
                            }
                            let key_outcome = finalize_key(k);
                            let value_outcome = finalize_value(v);
                            proof {
                                let old_outcomes = outcomes;
                                let old_order = order;
                                order = order.push(k);
                                outcomes = outcomes.push(key_outcome).push(value_outcome);
                                assert(outcomes.drop_last() =~= old_outcomes.push(key_outcome));
                                assert(old_outcomes.push(key_outcome).drop_last() =~= old_outcomes);
                                assert forall|i: int| 0 <= i < order.len() implies {
                                    &&& finalize_key.ensures((#[trigger] order[i],), outcomes[2 * i])
                                    &&& finalize_value.ensures((entries[order[i]],), outcomes[2 * i + 1])
                                } by {
                                    if i < order.len() - 1 {
                                        assert(order[i] == old_order[i]);
                                        assert(outcomes[2 * i] == old_outcomes[2 * i]);
                                        assert(outcomes[2 * i + 1] == old_outcomes[2 * i + 1]);
                                    }
                                }
                                assert forall|k2: K| #[trigger] m.addresses.contains_key(k2) implies addresses@.contains_key(k2) || order.contains(k2) by {
                                    if !addresses@.contains_key(k2) && k2 != k {
                                        assert(before.contains_key(k2) ==> addresses@.contains_key(k2));
                                        assert(before.contains_key(k2) || old_order.contains(k2));
                                        let j = choose|j: int| 0 <= j < old_order.len() && old_order[j] == k2;
                                        assert(order[j] == k2);
                                    } else if k2 == k {
                                        assert(order[order.len() - 1] == k);
                                    }
                                }
                                assert forall|i: int| 0 <= i < order.len() implies !addresses@.contains_key(#[trigger] order[i]) && m.addresses.contains_key(order[i]) by {
                                    if i < order.len() - 1 {
                                        assert(!before.contains_key(order[i]));
                                    }
                                }
                                assert forall|i: int, j: int| 0 <= i < j < order.len() implies order[i] != order[j] by {
                                    if j == order.len() - 1 {
                                        assert(!before.contains_key(order[i]));
                                    }
                                }
                            }
                            let ghost halfway = outcomes.drop_last();
                            match key_outcome {
                                Ok(()) => {},
                                Err(e) => {
                                    failures.push(e);
                                },
                            }
                            assert(failures@ =~= errors_of(halfway));
                            match value_outcome {
                                Ok(()) => {},
                                Err(e) => {
                                    failures.push(e);
                                },
                            }
                            assert(failures@ =~= errors_of(outcomes));
                        },
                        None => unreached(),
                    }
                },
            }
        }
        proof {
            assert(order.to_set() =~= entries.dom()) by {
                assert forall|k: K| entries.dom().contains(k) implies order.to_set().contains(k) by {
                    assert(m.addresses.contains_key(k));
                    assert(!addresses@.contains_key(k));
                }
            }
            assert(finalizes_all(entries, finalize_key, finalize_value, order, outcomes));
        }
        let result = aggregate(failures);
        proof {
            assert(finalizes_all(old(self).entries(), finalize_key, finalize_value, order, outcomes));
            assert(failures_of(result) == errors_of(outcomes));
        }
        result
    }

    fn remove_pair(&mut self, key: &K) -> (result: Option<(K, V)>)
        ensures
            match result {
                Some(_) => final(self)@ == old(self)@.evict(*key),
                None => final(self)@ == old(self)@,
            },
    {
        let ghost m = self@;
        match take_entry(&mut self.addresses, key) {
            None => None,
            Some((k, s)) => {
                proof {
                    m.lemma_evict(*key);
                    assert(m.in_bounds(s));
                }
                let taken = self.blocks[s.block].cells[s.offset].take();
                self.holes.push(s);
                proof {
                    let e = m.evict(*key);
                    assert(self@.cells =~= e.cells);
                    assert(self@.capacities =~= e.capacities);
                    assert(self@.holes =~= e.holes);
                }
                match taken {
                    Some(v) => Some((k, v)),
                    None => unreached(),
                }
            },
        }
    }
}

impl<K: Ord, V> UnpinnedPineMapEmplace<K, V> for PineMap<K, V> {
    fn try_emplace_with<F: FnOnce(&K, Slot) -> Result<V, E>, E>(&mut self, key: K, value_factory: F) -> (result: Result<Result<&V, (K, F)>, E>)
        ensures
            !old(self).entries().contains_key(key) ==> match result {
                Ok(Ok(v)) => final(self)@ == old(self)@.place(key, *v),
                _ => true,
            },
    {
        if self.addresses.contains_key(&key) {
            return Ok(Err((key, value_factory)));
        }
        let slot = self.next_slot();
        match value_factory(&key, slot) {
            Ok(value) => {
                proof {
                    old(self)@.lemma_next_slot_free();
                }
                Ok(Ok(self.commit(key, value)))
            },
            Err(e) => Err(e),
        }
    }
}


/// Inserting or removing one entry leaves the address and the value of every
/// other live entry as they were.
pub proof fn lemma_address_stable<K, V>(m: BlockModel<K, V>, live: K, key: K, value: V)
    requires
        m.wf(),
        m.addresses.contains_key(live),
        key != live,
    ensures
        !m.addresses.contains_key(key) && m.next_slot().block < usize::MAX ==> {
            &&& m.place(key, value).addresses[live] == m.addresses[live]
            &&& m.place(key, value).entries()[live] == m.entries()[live]
        },
        m.addresses.contains_key(key) ==> {
            &&& m.evict(key).addresses[live] == m.addresses[live]
            &&& m.evict(key).entries()[live] == m.entries()[live]
        },
{
    if !m.addresses.contains_key(key) && m.next_slot().block < usize::MAX {
        m.lemma_place(key, value);
    }
    if m.addresses.contains_key(key) {
        m.lemma_evict(key);
    }
}

/// After the entry of `removed` is dropped, the next insertion, for any key
/// that is then absent, takes the freed cell, and that cell then holds exactly
/// the new value.
pub proof fn lemma_freed_cell_reused<K, V>(m: BlockModel<K, V>, removed: K, key: K, value: V)
    requires
        m.wf(),
        m.addresses.contains_key(removed),
        !m.evict(removed).addresses.contains_key(key),
    ensures
        m.evict(removed).next_slot() == m.addresses[removed],
        m.evict(removed).place(key, value).addresses[key] == m.addresses[removed],
        m.evict(removed).place(key, value).cell(m.addresses[removed]) == Some(value),
        m.evict(removed).place(key, value).entries()[key] == value,
        m.evict(removed).place(key, value).wf(),
{
    m.lemma_evict(removed);
    let e = m.evict(removed);
    assert(e.holes.last() == m.addresses[removed]);
    assert(m.in_bounds(m.addresses[removed]));
    e.lemma_place(key, value);
}

/// An insertion for a key that is live is refused, and a key that was just
/// inserted is live with its value.
pub proof fn lemma_one_entry_per_key<K, V>(m: BlockModel<K, V>, key: K, value: V)
    requires
        m.wf(),
        !m.addresses.contains_key(key),
        m.next_slot().block < usize::MAX,
    ensures
        m.place(key, value).entries().contains_key(key),
        m.place(key, value).entries()[key] == value,
        forall|other: K| #[trigger] m.place(key, value).addresses.contains_key(other) && other != key
            ==> m.place(key, value).addresses[other] != m.place(key, value).addresses[key],
{
    m.lemma_place(key, value);
}

} // verus!
