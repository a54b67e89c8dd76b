//! Process heaps: the blocks a process owns, addressed by word.
//!
//! A heap keeps its blocks in numbered slots. The block in slot `s` spans the
//! addresses from `(s + 1) * BLOCK_BYTES` on, so the zero word, the null
//! reference, never names an object, and an object keeps its address for as
//! long as it lives. A slot is vacant until a block is acquired for it and
//! again once a collection has found its block free.

use vstd::prelude::*;
use crate::allocator::{BlockPool, PoolView};
use crate::block::{Block, BlockLayout, BLOCK_WORDS};
use crate::class::ClassId;
use crate::errors::RuntimeError;
use crate::object::{Object, ObjectValue, ObjectView, HEADER_WORDS};
use crate::tagged_pointer::{TaggedPointer, Value};

verus! {

/// Bytes per word.
pub const WORD_BYTES: u64 = 8;

/// Bytes per block.
pub const BLOCK_BYTES: u64 = 32768;

/// The most blocks any heap may own.
pub const MAX_HEAP_BLOCKS: usize = 0x10_0000;

/// The slot of the block that spans `address`.
pub open spec fn slot_of(address: u64) -> int {
    address as int / BLOCK_BYTES as int - 1
}

/// The word of its block that `address` names.
pub open spec fn offset_of(address: u64) -> int {
    (address as int % BLOCK_BYTES as int) / WORD_BYTES as int
}

/// The address of word `offset` of the block in slot `slot`.
pub open spec fn address_of(slot: int, offset: int) -> int {
    (slot + 1) * BLOCK_BYTES + offset * WORD_BYTES
}

/// The number of slots that hold a block.
pub open spec fn owned(slots: Seq<Option<Block>>) -> nat
    decreases slots.len(),
{
    if slots.len() == 0 {
        0
    } else {
        owned(slots.drop_last()) + if slots.last() is Some {
            1nat
        } else {
            0nat
        }
    }
}

/// Where a heap stands with allocation: the layouts of its blocks, by slot,
/// and its budget.
pub struct HeapLayout {
    pub blocks: Seq<Option<BlockLayout>>,
    pub budget: nat,
}

impl HeapLayout {
    /// Whether the block in slot `s` has room for an object of `size`
    /// words.
    pub open spec fn room_in(self, s: int, size: int) -> bool {
        0 <= s < self.blocks.len() && self.blocks[s] is Some && self.blocks[s]->0.has_room(size)
    }

    /// Whether some block has room for an object of `size` words.
    pub open spec fn has_room(self, size: int) -> bool {
        exists|s: int| self.room_in(s, size)
    }

    /// Whether `s` is the first slot whose block has room.
    pub open spec fn is_first_room(self, s: int, size: int) -> bool {
        &&& self.room_in(s, size)
        &&& forall|t: int| 0 <= t < s ==> !self.room_in(t, size)
    }

    /// The first slot whose block has room.
    pub open spec fn first_room(self, size: int) -> int {
        choose|s: int| self.is_first_room(s, size)
    }

    /// Whether slot `s` holds no block.
    pub open spec fn vacant(self, s: int) -> bool {
        0 <= s < self.blocks.len() && self.blocks[s] is None
    }

    /// Whether the heap may own one more block.
    pub open spec fn can_grow(self) -> bool {
        self.blocks.len() < self.budget || exists|s: int| self.vacant(s)
    }

    /// Whether `v` is the first vacant slot, or the slot behind the last
    /// when none is vacant.
    pub open spec fn is_first_vacant(self, v: int) -> bool {
        &&& 0 <= v <= self.blocks.len()
        &&& v < self.blocks.len() ==> self.vacant(v)
        &&& forall|t: int| 0 <= t < v ==> !self.vacant(t)
    }

    /// The slot that takes the next block.
    pub open spec fn first_vacant(self) -> int {
        choose|v: int| self.is_first_vacant(v)
    }

    /// The layout with `block` put into slot `v`.
    pub open spec fn with_block(self, v: int, block: BlockLayout) -> HeapLayout {
        HeapLayout {
            blocks: if v < self.blocks.len() {
                self.blocks.update(v, Some(block))
            } else {
                self.blocks.push(Some(block))
            },
            budget: self.budget,
        }
    }

    /// Slot and word where a new object of `size` words goes: into the
    /// first block that has room, at the lowest place that takes it; and
    /// when no block has room, to the first word of a new block in the
    /// first vacant slot.
    pub open spec fn placement(self, size: int) -> (int, int) {
        if self.has_room(size) {
            (self.first_room(size), self.blocks[self.first_room(size)]->0.first_fit(size))
        } else {
            (self.first_vacant(), 0)
        }
    }

    /// Heap and pool after an object of `size` words was allocated; `None`
    /// when no block has room and the heap cannot grow or the pool cannot
    /// supply a block.
    pub open spec fn after_allocate(self, size: int, pool: PoolView) -> Option<
        (HeapLayout, PoolView),
    > {
        if self.has_room(size) {
            let s = self.first_room(size);
            Some((self.with_block(s, self.blocks[s]->0.after_allocate(size)), pool))
        } else if self.can_grow() && pool.can_supply() {
            Some(
                (
                    self.with_block(self.first_vacant(), BlockLayout::fresh().after_allocate(size)),
                    BlockPool::after_acquire(pool),
                ),
            )
        } else {
            None
        }
    }

    /// Heap and pool after objects of the given sizes were allocated one
    /// after another, up to the first that could not be, and the number of
    /// objects allocated.
    pub open spec fn progress(self, pool: PoolView, sizes: Seq<int>) -> (HeapLayout, PoolView, nat)
        decreases sizes.len(),
    {
        if sizes.len() == 0 {
            (self, pool, 0)
        } else {
            match self.after_allocate(sizes[0], pool) {
                None => (self, pool, 0),
                Some((layout, supply)) => {
                    let rest = layout.progress(supply, sizes.subrange(1, sizes.len() as int));
                    (rest.0, rest.1, rest.2 + 1)
                },
            }
        }
    }

    /// There is one first slot whose block has room.
    pub proof fn lemma_first_room(self, s: int, size: int)
        requires
            self.is_first_room(s, size),
        ensures
            self.first_room(size) == s,
            self.has_room(size),
    {
        let found = self.first_room(size);
        assert(self.is_first_room(found, size));
        if found < s {
            assert(!self.room_in(found, size));
        }
        if s < found {
            assert(!self.room_in(s, size));
        }
    }

    /// There is one slot that takes the next block.
    pub proof fn lemma_first_vacant(self, v: int)
        requires
            self.is_first_vacant(v),
        ensures
            self.first_vacant() == v,
    {
        let found = self.first_vacant();
        assert(self.is_first_vacant(found));
        if found < v {
            assert(!self.vacant(found));
        }
        if v < found {
            assert(!self.vacant(v));
        }
    }
}

/// The blocks of one process.
pub struct Heap {
    pub(crate) slots: Vec<Option<Block>>,
    pub(crate) budget: usize,
}

impl Heap {
    pub open(crate) spec fn spec_slots(&self) -> Seq<Option<Block>> {
        self.slots@
    }

    /// The most blocks this heap may own.
    pub open(crate) spec fn spec_budget(&self) -> nat {
        self.budget as nat
    }

    /// The cell that `address` names.
    pub open(crate) spec fn cell_at(&self, address: u64) -> Option<Object> {
        let s = slot_of(address);
        let o = offset_of(address);
        if address % WORD_BYTES == 0 && 0 <= s < self.slots@.len() && self.slots@[s] is Some && o
            < self.slots@[s]->0.cells@.len() {
            self.slots@[s]->0.cells@[o]
        } else {
            None
        }
    }

    /// Whether an object lives at `address`.
    pub open spec fn contains(&self, address: u64) -> bool {
        self.cell_at(address) is Some
    }

    /// The objects of the heap, by address.
    pub open spec fn view(&self) -> Map<u64, ObjectView> {
        Map::new(|a: u64| self.contains(a), |a: u64| self.cell_at(a)->0@)
    }

    /// The heap is within its budget and every block has a sound layout.
    pub open(crate) spec fn layout_wf(&self) -> bool {
        &&& self.slots@.len() <= self.budget <= MAX_HEAP_BLOCKS
        &&& forall|s: int|
            0 <= s < self.slots@.len() && (#[trigger] self.slots@[s]) is Some
                ==> self.slots@[s]->0.layout_wf()
    }

    /// The invariant between collections: the heap is within its budget and
    /// every block is well formed.
    pub open(crate) spec fn wf(&self) -> bool {
        &&& self.slots@.len() <= self.budget <= MAX_HEAP_BLOCKS
        &&& forall|s: int|
            0 <= s < self.slots@.len() && (#[trigger] self.slots@[s]) is Some
                ==> self.slots@[s]->0.wf()
    }

    /// Where the heap stands with allocation.
    pub open(crate) spec fn layout(&self) -> HeapLayout {
        HeapLayout {
            blocks: Seq::new(
                self.slots@.len(),
                |s: int|
                    match self.slots@[s] {
                        Some(block) => Some(block.layout()),
                        None => None,
                    },
            ),
            budget: self.budget as nat,
        }
    }

    /// Whether some block of the heap has room for an object of `size`
    /// words.
    #[verifier::inline]
    pub open spec fn has_room(&self, size: int) -> bool {
        self.layout().has_room(size)
    }

    /// Whether the block in slot `s` has room for an object of `size`
    /// words.
    #[verifier::inline]
    pub open spec fn room_in(&self, s: int, size: int) -> bool {
        self.layout().room_in(s, size)
    }

    /// Whether slot `s` holds no block.
    #[verifier::inline]
    pub open spec fn vacant(&self, s: int) -> bool {
        self.layout().vacant(s)
    }

    /// Whether the heap may own one more block.
    #[verifier::inline]
    pub open spec fn can_grow(&self) -> bool {
        self.layout().can_grow()
    }

    /// What a word resolves to when it is used to reach into the heap: the
    /// address of a live object, `TypeMismatch` for an immediate, and
    /// `GCInvariantViolation` for a reference that names no object.
    pub open spec fn resolve(&self, pointer: TaggedPointer) -> Result<u64, RuntimeError> {
        match pointer.value() {
            Value::Immediate(_) => Err(RuntimeError::TypeMismatch),
            Value::Reference(address) => if self.contains(address) {
                Ok(address)
            } else {
                Err(RuntimeError::GCInvariantViolation)
            },
        }
    }

    /// The view holds the objects that the heap contains, and no other.
    pub proof fn lemma_view(&self, a: u64)
        ensures
            self@.dom().contains(a) <==> self.contains(a),
    {
    }

    /// The zero word names no object.
    pub proof fn lemma_null_absent(&self)
        ensures
            !self.contains(0),
    {
    }

    /// An address names the word it was made for.
    pub(crate) proof fn lemma_address(s: int, o: int)
        requires
            0 <= s < MAX_HEAP_BLOCKS,
            0 <= o < BLOCK_WORDS,
        ensures
            0 < address_of(s, o) <= u64::MAX,
            address_of(s, o) % 8 == 0,
            slot_of(address_of(s, o) as u64) == s,
            offset_of(address_of(s, o) as u64) == o,
    {
    }

    /// Two aligned addresses that name the same word are equal.
    pub(crate) proof fn lemma_address_unique(a: u64, b: u64)
        requires
            a % 8 == 0,
            b % 8 == 0,
            slot_of(a) == slot_of(b),
            offset_of(a) == offset_of(b),
        ensures
            a == b,
    {
    }

    /// The budget of a heap made with `budget`: no more than
    /// `MAX_HEAP_BLOCKS`.
    pub open spec fn new_budget(budget: usize) -> nat {
        if budget <= MAX_HEAP_BLOCKS {
            budget as nat
        } else {
            MAX_HEAP_BLOCKS as nat
        }
    }

    /// An empty heap that may own up to `budget` blocks, and never more than
    /// `MAX_HEAP_BLOCKS`.
    pub fn new(budget: usize) -> (heap: Heap)
        ensures
            heap.wf(),
            heap@ == Map::<u64, ObjectView>::empty(),
            heap.spec_slots().len() == 0,
            heap.spec_budget() == Heap::new_budget(budget),
    {
        let budget = if budget <= MAX_HEAP_BLOCKS {
            budget
        } else {
            MAX_HEAP_BLOCKS
        };
        let heap = Heap { slots: Vec::new(), budget };
        assert(heap@ =~= Map::<u64, ObjectView>::empty());
        heap
    }

    /// The most blocks this heap may own.
    pub fn budget(&self) -> (n: usize)
        ensures
            n == self.spec_budget(),
    {
        self.budget
    }

    /// Finds the slot and the word that `address` names, if an object lives
    /// there.
    pub(crate) fn locate(&self, address: u64) -> (r: Option<(usize, usize)>)
        requires
            self.layout_wf(),
        ensures
            r is Some <==> self.contains(address),
            r matches Some((s, o)) ==> {
                &&& s == slot_of(address)
                &&& o == offset_of(address)
                &&& s < self.slots@.len()
                &&& o < BLOCK_WORDS
                &&& self.slots@[s as int] is Some
                &&& self.slots@[s as int]->0.cells@[o as int] is Some
                &&& self.slots@[s as int]->0.cells@[o as int] == self.cell_at(address)
                &&& address == address_of(s as int, o as int)
            },
    {
        if address % WORD_BYTES != 0 || address < BLOCK_BYTES {
            return None;
        }
        let number: u64 = address / BLOCK_BYTES - 1;
        if number >= self.slots.len() as u64 {
            return None;
        }
        let s: usize = number as usize;
        let o: usize = ((address % BLOCK_BYTES) / WORD_BYTES) as usize;
        match &self.slots[s] {
            Some(block) => {
                if block.cells[o].is_some() {
                    Some((s, o))
                } else {
                    None
                }
            },
            None => None,
        }
    }

    /// The object a word refers to. Fails with `TypeMismatch` when the word
    /// is an immediate and with `GCInvariantViolation` when it refers to no
    /// object.
    pub fn object(&self, pointer: TaggedPointer) -> (r: Result<&Object, RuntimeError>)
        requires
            self.wf(),
        ensures
            r is Ok <==> self.resolve(pointer) is Ok,
            r matches Ok(object) ==> object@ == self@[self.resolve(pointer)->Ok_0] && object.wf(),
            r matches Err(e) ==> self.resolve(pointer) == Err::<u64, RuntimeError>(e),
    {
        let address = match pointer.decode() {
            Value::Immediate(_) => {
                return Err(RuntimeError::TypeMismatch);
            },
            Value::Reference(address) => address,
        };
        match self.locate(address) {
            Some((s, o)) => {
                match &self.slots[s] {
                    Some(block) => match block.get(o) {
                        Some(object) => Ok(object),
                        None => Err(RuntimeError::GCInvariantViolation),
                    },
                    None => Err(RuntimeError::GCInvariantViolation),
                }
            },
            None => Err(RuntimeError::GCInvariantViolation),
        }
    }

    /// Reads a field of the object a word refers to. Fails as `object` does,
    /// and with `FieldIndex` when `index` is not below the field count.
    pub fn field(&self, pointer: TaggedPointer, index: usize) -> (r: Result<
        TaggedPointer,
        RuntimeError,
    >)
        requires
            self.wf(),
        ensures
            r == match self.resolve(pointer) {
                Err(e) => Err::<TaggedPointer, RuntimeError>(e),
                Ok(address) => if index < self@[address].fields.len() {
                    Ok::<TaggedPointer, RuntimeError>(self@[address].fields[index as int])
                } else {
                    Err::<TaggedPointer, RuntimeError>(RuntimeError::FieldIndex)
                },
            },
    {
        match self.object(pointer) {
            Ok(object) => object.field(index),
            Err(e) => Err(e),
        }
    }

    /// Writes a field of the object a word refers to. Fails as `field` does,
    /// and then changes nothing.
    pub fn set_field(&mut self, pointer: TaggedPointer, index: usize, word: TaggedPointer) -> (r:
        Result<(), RuntimeError>)
        requires
            old(self).wf(),
        ensures
            final(self).wf(),
            final(self).spec_budget() == old(self).spec_budget(),
            final(self).layout() == old(self).layout(),
            forall|a: u64|
                #![trigger final(self).contains(a)]
                #![trigger old(self).contains(a)]
                final(self).contains(a) <==> old(self).contains(a),
            match old(self).resolve(pointer) {
                Err(e) => r == Err::<(), RuntimeError>(e) && final(self)@ == old(self)@,
                Ok(address) => if index < old(self)@[address].fields.len() {
                    &&& r is Ok
                    &&& final(self)@ == old(self)@.insert(
                        address,
                        ObjectView {
                            header: old(self)@[address].header,
                            fields: old(self)@[address].fields.update(index as int, word),
                            value: old(self)@[address].value,
                        },
                    )
                } else {
                    &&& r == Err::<(), RuntimeError>(RuntimeError::FieldIndex)
                    &&& final(self)@ == old(self)@
                },
            },
    {
        let address = match pointer.decode() {
            Value::Immediate(_) => {
                return Err(RuntimeError::TypeMismatch);
            },
            Value::Reference(address) => address,
        };
        let (s, o) = match self.locate(address) {
            Some(place) => place,
            None => {
                return Err(RuntimeError::GCInvariantViolation);
            },
        };
        let count = match &self.slots[s] {
            Some(block) => match block.get(o) {
                Some(object) => object.field_count(),
                None => 0,
            },
            None => 0,
        };
        if index >= count {
            return Err(RuntimeError::FieldIndex);
        }
        let ghost before = *self;
        match &mut self.slots[s] {
            Some(block) => {
                block.set_field(o, index, word);
            },
            None => {},
        }
        proof {
            before.lemma_cell_changed(*self, s as int, o as int);
            assert forall|a: u64|
                #![trigger self.contains(a)]
                #![trigger before.contains(a)]
                self.contains(a) <==> before.contains(a) by {
                if a != address {
                    assert(self.cell_at(a) == before.cell_at(a));
                }
            }
            assert(self.layout().blocks =~= before.layout().blocks);
            assert(self@ =~= before@.insert(
                address,
                ObjectView {
                    header: before@[address].header,
                    fields: before@[address].fields.update(index as int, word),
                    value: before@[address].value,
                },
            ));
        }
        Ok(())
    }

    /// Attaches a payload to the object a word refers to, replacing any
    /// earlier one. Fails as `object` does, and then changes nothing.
    pub fn set_value(&mut self, pointer: TaggedPointer, value: ObjectValue) -> (r: Result<
        (),
        RuntimeError,
    >)
        requires
            old(self).wf(),
        ensures
            final(self).wf(),
            final(self).spec_budget() == old(self).spec_budget(),
            final(self).layout() == old(self).layout(),
            forall|a: u64|
                #![trigger final(self).contains(a)]
                #![trigger old(self).contains(a)]
                final(self).contains(a) <==> old(self).contains(a),
            match old(self).resolve(pointer) {
                Err(e) => r == Err::<(), RuntimeError>(e) && final(self)@ == old(self)@,
                Ok(address) => {
                    &&& r is Ok
                    &&& final(self)@ == old(self)@.insert(
                        address,
                        ObjectView {
                            header: old(self)@[address].header,
                            fields: old(self)@[address].fields,
                            value: Some(value@),
                        },
                    )
                },
            },
    {
        let address = match pointer.decode() {
            Value::Immediate(_) => {
                return Err(RuntimeError::TypeMismatch);
            },
            Value::Reference(address) => address,
        };
        let (s, o) = match self.locate(address) {
            Some(place) => place,
            None => {
                return Err(RuntimeError::GCInvariantViolation);
            },
        };
        let ghost before = *self;
        match &mut self.slots[s] {
            Some(block) => {
                block.set_value(o, value);
            },
            None => {},
        }
        proof {
            before.lemma_cell_changed(*self, s as int, o as int);
            assert forall|a: u64|
                #![trigger self.contains(a)]
                #![trigger before.contains(a)]
                self.contains(a) <==> before.contains(a) by {
                if a != address {
                    assert(self.cell_at(a) == before.cell_at(a));
                }
            }
            assert(self.layout().blocks =~= before.layout().blocks);
            assert(self@ =~= before@.insert(
                address,
                ObjectView {
                    header: before@[address].header,
                    fields: before@[address].fields,
                    value: Some(value@),
                },
            ));
        }
        Ok(())
    }

    /// Sets or clears the pin flag of the object a word refers to. Objects
    /// never move, so the flag has no effect on collection. Fails as
    /// `object` does, and then changes nothing.
    pub fn set_pinned(&mut self, pointer: TaggedPointer, pinned: bool) -> (r: Result<
        (),
        RuntimeError,
    >)
        requires
            old(self).wf(),
        ensures
            final(self).wf(),
            final(self).spec_budget() == old(self).spec_budget(),
            final(self).layout() == old(self).layout(),
            forall|a: u64|
                #![trigger final(self).contains(a)]
                #![trigger old(self).contains(a)]
                final(self).contains(a) <==> old(self).contains(a),
            match old(self).resolve(pointer) {
                Err(e) => r == Err::<(), RuntimeError>(e) && final(self)@ == old(self)@,
                Ok(address) => {
                    &&& r is Ok
                    &&& final(self)@ == old(self)@.insert(
                        address,
                        ObjectView {
                            header: crate::object::ObjectHeader {
                                class: old(self)@[address].header.class,
                                marked: false,
                                pinned,
                            },
                            fields: old(self)@[address].fields,
                            value: old(self)@[address].value,
                        },
                    )
                },
            },
    {
        let address = match pointer.decode() {
            Value::Immediate(_) => {
                return Err(RuntimeError::TypeMismatch);
            },
            Value::Reference(address) => address,
        };
        let (s, o) = match self.locate(address) {
            Some(place) => place,
            None => {
                return Err(RuntimeError::GCInvariantViolation);
            },
        };
        let ghost before = *self;
        match &mut self.slots[s] {
            Some(block) => {
                block.set_pinned(o, pinned);
            },
            None => {},
        }
        proof {
            before.lemma_cell_changed(*self, s as int, o as int);
            assert forall|a: u64|
                #![trigger self.contains(a)]
                #![trigger before.contains(a)]
                self.contains(a) <==> before.contains(a) by {
                if a != address {
                    assert(self.cell_at(a) == before.cell_at(a));
                }
            }
            assert(self.layout().blocks =~= before.layout().blocks);
            assert(self@ =~= before@.insert(
                address,
                ObjectView {
                    header: crate::object::ObjectHeader {
                        class: before@[address].header.class,
                        marked: false,
                        pinned,
                    },
                    fields: before@[address].fields,
                    value: before@[address].value,
                },
            ));
        }
        Ok(())
    }

    /// When one cell of one block changes, the cell at every other address
    /// stays as it was.
    pub(crate) proof fn lemma_cell_changed(&self, after: Heap, s: int, o: int)
        requires
            0 <= s < self.slots@.len(),
            0 <= o < BLOCK_WORDS,
            self.slots@.len() <= MAX_HEAP_BLOCKS,
            after.slots@.len() == self.slots@.len(),
            self.slots@[s] is Some,
            after.slots@[s] is Some,
            self.slots@[s]->0.cells@.len() == BLOCK_WORDS,
            after.slots@[s]->0.cells@.len() == BLOCK_WORDS,
            forall|t: int| 0 <= t < self.slots@.len() && t != s ==> after.slots@[t] == self.slots@[t],
            forall|j: int|
                0 <= j < BLOCK_WORDS && j != o ==> after.slots@[s]->0.cells@[j]
                    == self.slots@[s]->0.cells@[j],
        ensures
            forall|a: u64| a != address_of(s, o) ==> #[trigger] after.cell_at(a) == self.cell_at(a),
            after.cell_at(address_of(s, o) as u64) == after.slots@[s]->0.cells@[o],
            self.cell_at(address_of(s, o) as u64) == self.slots@[s]->0.cells@[o],
    {
        Heap::lemma_address(s, o);
        assert forall|a: u64| a != address_of(s, o) implies #[trigger] after.cell_at(a)
            == self.cell_at(a) by {
            if a % 8 == 0 && slot_of(a) == s && offset_of(a) == o {
                Heap::lemma_address_unique(a, address_of(s, o) as u64);
            }
        }
    }
}


impl Heap {
    /// When a block that holds one object at its first word is put into a
    /// slot that held none, the heap gains that object and nothing else.
    pub(crate) proof fn lemma_block_installed(&self, after: Heap, v: int, block: Block)
        requires
            0 <= v <= self.slots@.len(),
            v < MAX_HEAP_BLOCKS,
            v < self.slots@.len() ==> self.slots@[v] is None && after.slots@ == self.slots@.update(
                v,
                Some(block),
            ),
            v == self.slots@.len() ==> after.slots@ == self.slots@.push(Some(block)),
            block.cells@.len() == BLOCK_WORDS,
            forall|j: int| 0 < j < BLOCK_WORDS ==> (#[trigger] block.cells@[j]) is None,
        ensures
            forall|a: u64| a != address_of(v, 0) ==> #[trigger] after.cell_at(a) == self.cell_at(a),
            after.cell_at(address_of(v, 0) as u64) == block.cells@[0],
            self.cell_at(address_of(v, 0) as u64) is None,
    {
        Heap::lemma_address(v, 0);
        assert forall|a: u64| a != address_of(v, 0) implies #[trigger] after.cell_at(a)
            == self.cell_at(a) by {
            if a % 8 == 0 && slot_of(a) == v {
                if offset_of(a) == 0 {
                    Heap::lemma_address_unique(a, address_of(v, 0) as u64);
                } else {
                    assert(block.cells@[offset_of(a)] is None);
                }
            }
        }
    }

    /// Allocates an instance with `field_count` fields: header written,
    /// fields zeroed, no payload. The object goes where `placement` says; a new
    /// block is acquired from the pool when no block of the heap has room.
    /// Fails with `AllocationFailure`, changing nothing, when there is no
    /// room and the heap is at its budget or the pool cannot supply a block.
    pub fn allocate(&mut self, pool: &mut BlockPool, class: ClassId, field_count: u8) -> (r: Result<
        TaggedPointer,
        RuntimeError,
    >)
        requires
            old(self).wf(),
            old(pool).wf(),
        ensures
            final(self).wf(),
            final(pool).wf(),
            final(self).spec_budget() == old(self).spec_budget(),
            old(self).spec_slots().len() <= final(self).spec_slots().len() <= old(
                self,
            ).spec_slots().len() + 1,
            r is Ok <==> old(self).has_room(HEADER_WORDS + field_count) || (old(self).can_grow()
                && old(pool).can_supply()),
            forall|a: u64| #[trigger] old(self).contains(a) ==> final(self).contains(a),
            r matches Ok(pointer) ==> {
                &&& pointer.target() == Some(pointer@)
                &&& !old(self).contains(pointer@)
                &&& final(self).contains(pointer@)
                &&& final(self)@ == old(self)@.insert(
                    pointer@,
                    ObjectView::fresh(class, field_count as nat),
                )
                &&& pointer@ == address_of(
                    old(self).layout().placement(HEADER_WORDS + field_count).0,
                    old(self).layout().placement(HEADER_WORDS + field_count).1,
                )
                &&& final(pool)@ == if old(self).has_room(HEADER_WORDS + field_count) {
                    old(pool)@
                } else {
                    BlockPool::after_acquire(old(pool)@)
                }
            },
            r matches Err(e) ==> {
                &&& e == RuntimeError::AllocationFailure
                &&& final(self)@ == old(self)@
                &&& final(pool)@ == old(pool)@
            },
            match old(self).layout().after_allocate(HEADER_WORDS + field_count, old(pool)@) {
                Some((layout, supply)) => {
                    &&& r is Ok
                    &&& final(self).layout() == layout
                    &&& final(pool)@ == supply
                },
                None => r is Err && final(self).layout() == old(self).layout(),
            },
    {
        let size: usize = HEADER_WORDS + field_count as usize;
        let ghost before = *self;
        let mut s: usize = 0;
        while s < self.slots.len()
            invariant
                *self == before,
                before == *old(self),
                *pool == *old(pool),
                pool.wf(),
                self.wf(),
                s <= self.slots@.len(),
                size == HEADER_WORDS + field_count,
                forall|t: int| 0 <= t < s ==> !self.room_in(t, size as int),
            decreases self.slots.len() - s,
        {
            let found = match &self.slots[s] {
                Some(block) => block.find_room(size),
                None => None,
            };
            match found {
                Some((o, e)) => {
                    let object = Object::new(class, field_count);
                    match &mut self.slots[s] {
                        Some(block) => {
                            block.place(o, e, object);
                        },
                        None => {},
                    }
                    proof {
                        Heap::lemma_address(s as int, o as int);
                        before.lemma_cell_changed(*self, s as int, o as int);
                        assert(before.slots@[s as int]->0.range_available(o as int, size as int));
                        assert(before.room_in(s as int, size as int));
                        before.layout().lemma_first_room(s as int, size as int);
                        before.slots@[s as int]->0.layout().lemma_first_fit(o as int, size as int);
                        assert(self.layout().blocks =~= before.layout().with_block(
                            s as int,
                            before.slots@[s as int]->0.layout().after_allocate(size as int),
                        ).blocks);
                        assert(self@ =~= before@.insert(
                            address_of(s as int, o as int) as u64,
                            ObjectView::fresh(class, field_count as nat),
                        ));
                        assert forall|a: u64| #[trigger] before.contains(a) implies self.contains(
                            a,
                        ) by {
                            assert(self@.dom().contains(a));
                        }
                        assert(self@.dom().contains(address_of(s as int, o as int) as u64));
                    }
                    let address: u64 = ((s as u64) + 1) * BLOCK_BYTES + (o as u64) * WORD_BYTES;
                    return Ok(TaggedPointer::from_raw(address));
                },
                None => {
                    assert(!self.room_in(s as int, size as int)) by {
                        if self.room_in(s as int, size as int) {
                            let o2 = choose|o2: int|
                                self.slots@[s as int]->0.range_available(o2, size as int);
                            assert(self.slots@[s as int]->0.range_available(o2, size as int));
                        }
                    }
                },
            }
            s += 1;
        }
        assert(!self.has_room(size as int));
        let mut v: usize = 0;
        while v < self.slots.len() && self.slots[v].is_some()
            invariant
                *self == before,
                before == *old(self),
                *pool == *old(pool),
                v <= self.slots@.len(),
                forall|t: int| 0 <= t < v ==> !self.vacant(t),
            decreases self.slots.len() - v,
        {
            v += 1;
        }
        if v == self.slots.len() && self.slots.len() >= self.budget {
            assert(!self.can_grow());
            return Err(RuntimeError::AllocationFailure);
        }
        assert(self.can_grow()) by {
            if v < self.slots@.len() {
                assert(self.vacant(v as int));
            }
        }
        let mut block = match pool.acquire_block() {
            Ok(block) => block,
            Err(e) => {
                return Err(e);
            },
        };
        let object = Object::new(class, field_count);
        proof {
            block.lemma_fresh_has_room(size as int);
        }
        let ghost fresh = block;
        match block.allocate(object) {
            Ok(o) => {
                assert(o == 0) by {
                    if o > 0 {
                        assert(!fresh.range_available(0, size as int));
                    }
                }
            },
            Err(_) => {
                assert(false);
            },
        }
        assert forall|j: int| 0 < j < BLOCK_WORDS implies (#[trigger] block.cells@[j]) is None by {
            assert(fresh.cells@[j] is None);
        }
        if v < self.slots.len() {
            self.slots[v] = Some(block);
        } else {
            self.slots.push(Some(block));
        }
        proof {
            Heap::lemma_address(v as int, 0);
            before.lemma_block_installed(*self, v as int, block);
            before.layout().lemma_first_vacant(v as int);
            fresh.lemma_fresh_layout();
            assert(self.layout().blocks =~= before.layout().with_block(
                v as int,
                BlockLayout::fresh().after_allocate(size as int),
            ).blocks);
            assert(self@ =~= before@.insert(
                address_of(v as int, 0) as u64,
                ObjectView::fresh(class, field_count as nat),
            ));
            assert forall|a: u64| #[trigger] before.contains(a) implies self.contains(a) by {
                assert(self@.dom().contains(a));
            }
            assert(self@.dom().contains(address_of(v as int, 0) as u64));
        }
        let address: u64 = ((v as u64) + 1) * BLOCK_BYTES;
        Ok(TaggedPointer::from_raw(address))
    }

    /// The number of blocks the heap owns.
    pub fn block_count(&self) -> (n: usize)
        requires
            self.wf(),
        ensures
            n == owned(self.spec_slots()),
            n <= self.spec_slots().len(),
    {
        let mut n: usize = 0;
        let mut s: usize = 0;
        while s < self.slots.len()
            invariant
                s <= self.slots@.len(),
                n == owned(self.slots@.subrange(0, s as int)),
                n <= s,
            decreases self.slots.len() - s,
        {
            proof {
                let prefix = self.slots@.subrange(0, s as int);
                let next = self.slots@.subrange(0, s + 1);
                assert(next.drop_last() == prefix);
            }
            if self.slots[s].is_some() {
                n += 1;
            }
            s += 1;
        }
        assert(self.slots@.subrange(0, self.slots@.len() as int) == self.slots@);
        n
    }

    /// Gives every block back to the pool and leaves the heap empty, as when
    /// the process that owns it terminates. Returns the number of blocks
    /// given back.
    pub fn release_all(&mut self, pool: &mut BlockPool) -> (released: usize)
        requires
            old(self).wf(),
            old(pool).wf(),
        ensures
            final(self).wf(),
            final(pool).wf(),
            final(self)@ == Map::<u64, ObjectView>::empty(),
            final(self).spec_slots().len() == 0,
            final(self).spec_budget() == old(self).spec_budget(),
            released == owned(old(self).spec_slots()),
            final(pool)@ == BlockPool::after_release(old(pool)@, released as nat),
    {
        let ghost before = *self;
        let ghost pool0 = pool@;
        let mut released: usize = 0;
        while self.slots.len() > 0
            invariant
                self.wf(),
                pool.wf(),
                self.budget == before.budget,
                self.slots@.len() <= before.slots@.len(),
                released + self.slots@.len() <= before.slots@.len() <= usize::MAX,
                self.slots@ == before.slots@.subrange(0, self.slots@.len() as int),
                released + owned(self.slots@)
                    == owned(before.slots@),
                pool@ == BlockPool::after_release(pool0, released as nat),
            decreases self.slots.len(),
        {
            let ghost slots0 = self.slots@;
            proof {
            }
            let last = self.slots.pop();
            assert(self.slots@ == slots0.drop_last());
            match last {
                Some(Some(block)) => {
                    assert(slots0[slots0.len() - 1] is Some);
                    pool.release_block(block);
                    released += 1;
                },
                _ => {},
            }
        }
        assert(self@ =~= Map::<u64, ObjectView>::empty());
        released
    }
}

} // verus!
