//! Immix blocks: fixed-size regions divided into lines, filled by bump
//! allocation and reclaimed line by line.
//!
//! A block is a run of `BLOCK_WORDS` words. An object occupies consecutive
//! words, starting at the word where its cell is stored. Every line carries a
//! bit that is set exactly while some object overlaps the line. Allocation
//! bumps a cursor through a hole of free lines; when the hole is too small it
//! moves on to the next hole that is large enough.

use vstd::prelude::*;
use crate::object::{Object, ObjectView};
use crate::tagged_pointer::TaggedPointer;

verus! {

/// Words per line.
pub const LINE_WORDS: usize = 16;

/// Lines per block.
pub const LINES_PER_BLOCK: usize = 256;

/// Words per block.
pub const BLOCK_WORDS: usize = 4096;

/// How much of a block is in use.
#[derive(Clone, Copy, Debug, PartialEq, Eq, Structural)]
pub enum BlockState {
    /// No line is in use: the block can go back to the pool.
    Free,
    /// Some lines are in use and some are free: the free ones are
    /// allocation targets.
    Recyclable,
    /// Every line is in use.
    Full,
}

/// A fixed-size allocation region.
pub struct Block {
    pub(crate) cells: Vec<Option<Object>>,
    pub(crate) lines: Vec<bool>,
    pub(crate) marks: Vec<bool>,
    pub(crate) cursor: usize,
    pub(crate) limit: usize,
}

/// Where a block stands with allocation: its line bits and its bump hole.
pub struct BlockLayout {
    /// One bit per line: whether the line is in use.
    pub lines: Seq<bool>,
    /// The first word of the bump hole.
    pub cursor: int,
    /// The word behind the bump hole.
    pub limit: int,
}

impl BlockLayout {
    /// Whether word `w` can be handed out: it lies in the bump hole, or
    /// behind it in a free line.
    pub open spec fn available(self, w: int) -> bool {
        ||| self.cursor <= w < self.limit
        ||| (self.limit <= w < BLOCK_WORDS && !self.lines[w / LINE_WORDS as int])
    }

    /// Whether the `size` words from `offset` on can all be handed out.
    pub open spec fn range_available(self, offset: int, size: int) -> bool {
        &&& self.cursor <= offset
        &&& offset + size <= BLOCK_WORDS
        &&& forall|w: int| offset <= w < offset + size ==> #[trigger] self.available(w)
    }

    /// Whether an object of `size` words can be allocated.
    pub open spec fn has_room(self, size: int) -> bool {
        exists|offset: int| self.range_available(offset, size)
    }

    /// Whether `offset` is the lowest place from which `size` words can be
    /// handed out.
    pub open spec fn fits_first(self, offset: int, size: int) -> bool {
        &&& self.range_available(offset, size)
        &&& forall|lower: int| 0 <= lower < offset ==> !self.range_available(lower, size)
    }

    /// The lowest place from which `size` words can be handed out.
    pub open spec fn first_fit(self, size: int) -> int {
        choose|offset: int| self.fits_first(offset, size)
    }

    /// Whether the hole that begins at `offset` ends before word `end`:
    /// every word between can be handed out and `end` cannot.
    pub open spec fn ends_hole(self, offset: int, end: int) -> bool {
        &&& offset <= end <= BLOCK_WORDS
        &&& forall|w: int| offset <= w < end ==> #[trigger] self.available(w)
        &&& end == BLOCK_WORDS || !self.available(end)
    }

    /// The end of the hole that begins at `offset`.
    pub open spec fn hole_end(self, offset: int) -> int {
        choose|end: int| self.ends_hole(offset, end)
    }

    /// The layout after an object of `size` words was put at `offset`: the
    /// lines it overlaps are in use, and the bump hole is what is left of
    /// the hole behind the object.
    pub open spec fn with_object(self, offset: int, size: int) -> BlockLayout {
        BlockLayout {
            lines: Seq::new(
                LINES_PER_BLOCK as nat,
                |k: int|
                    self.lines[k] || (offset < (k + 1) * LINE_WORDS && k * LINE_WORDS < offset + size),
            ),
            cursor: offset + size,
            limit: self.hole_end(offset),
        }
    }

    /// The layout after an object of `size` words was allocated at the
    /// lowest place that takes it.
    pub open spec fn after_allocate(self, size: int) -> BlockLayout {
        self.with_object(self.first_fit(size), size)
    }

    /// The layout of an empty block: every line free, allocation at the
    /// first word.
    pub open spec fn fresh() -> BlockLayout {
        BlockLayout { lines: Seq::new(LINES_PER_BLOCK as nat, |k: int| false), cursor: 0, limit: 0 }
    }

    /// There is one lowest place from which `size` words can be handed out.
    pub proof fn lemma_first_fit(self, offset: int, size: int)
        requires
            self.fits_first(offset, size),
            0 <= self.cursor,
        ensures
            self.first_fit(size) == offset,
    {
        let found = self.first_fit(size);
        assert(self.fits_first(found, size));
        if found < offset {
            assert(!self.range_available(found, size));
        }
        if offset < found {
            assert(!self.range_available(offset, size));
        }
    }

    /// A hole has one end.
    pub proof fn lemma_hole_end(self, offset: int, end: int)
        requires
            self.ends_hole(offset, end),
        ensures
            self.hole_end(offset) == end,
    {
        let found = self.hole_end(offset);
        assert(self.ends_hole(offset, found));
        if found < end {
            assert(self.available(found));
        }
        if end < found {
            assert(self.available(end));
        }
    }
}

/// Whether an object starts at word `j` and overlaps line `k`.
pub open(crate) spec fn covers(cells: Seq<Option<Object>>, j: int, k: int) -> bool {
    &&& 0 <= j < cells.len()
    &&& cells[j] is Some
    &&& j < (k + 1) * LINE_WORDS
    &&& k * LINE_WORDS < j + cells[j]->0.spec_size()
}

/// Whether a marked object starts at word `j`.
pub open(crate) spec fn is_marked(cells: Seq<Option<Object>>, j: int) -> bool {
    &&& 0 <= j < cells.len()
    &&& cells[j] is Some
    &&& cells[j]->0.spec_header().marked
}

/// Whether some object overlaps line `k`.
pub open(crate) spec fn line_live(cells: Seq<Option<Object>>, k: int) -> bool {
    exists|j: int| covers(cells, j, k)
}

/// Whether some marked object overlaps line `k`.
pub open(crate) spec fn line_marked(cells: Seq<Option<Object>>, k: int) -> bool {
    exists|j: int| covers(cells, j, k) && is_marked(cells, j)
}

/// Every object is well formed and ends inside the block.
pub open(crate) spec fn objects_fit(cells: Seq<Option<Object>>) -> bool {
    forall|j: int|
        0 <= j < cells.len() && (#[trigger] cells[j]) is Some ==> cells[j]->0.wf() && j
            + cells[j]->0.spec_size() <= BLOCK_WORDS
}

/// No two objects share a word.
pub open(crate) spec fn disjoint(cells: Seq<Option<Object>>) -> bool {
    forall|i: int, j: int|
        0 <= i < j < cells.len() && (#[trigger] cells[i]) is Some && (#[trigger] cells[j]) is Some
            ==> i + cells[i]->0.spec_size() <= j
}

/// The number of objects that are not marked.
pub open(crate) spec fn unmarked_count(cells: Seq<Option<Object>>) -> nat
    decreases cells.len(),
{
    if cells.len() == 0 {
        0
    } else {
        unmarked_count(cells.drop_last()) + if cells.last() is Some
            && !cells.last()->0.spec_header().marked {
            1nat
        } else {
            0nat
        }
    }
}

/// Marking one unmarked object lowers the count of unmarked objects by one.
pub(crate) proof fn lemma_unmarked_update(cells: Seq<Option<Object>>, j: int, object: Object)
    requires
        0 <= j < cells.len(),
        cells[j] is Some,
        !cells[j]->0.spec_header().marked,
        object.spec_header().marked,
    ensures
        unmarked_count(cells.update(j, Some(object))) + 1 == unmarked_count(cells),
    decreases cells.len(),
{
    let updated = cells.update(j, Some(object));
    if j == cells.len() - 1 {
        assert(updated.drop_last() == cells.drop_last());
    } else {
        assert(updated.drop_last() == cells.drop_last().update(j, Some(object)));
        lemma_unmarked_update(cells.drop_last(), j, object);
    }
}

impl Block {
    /// One entry per word: the object that starts there, if any.
    pub open(crate) spec fn spec_cells(&self) -> Seq<Option<Object>> {
        self.cells@
    }

    /// One bit per line: whether the line is in use.
    pub open(crate) spec fn spec_lines(&self) -> Seq<bool> {
        self.lines@
    }

    /// The object that starts at word `offset`.
    pub open spec fn object_at(&self, offset: int) -> Option<ObjectView> {
        if 0 <= offset < self.spec_cells().len() && self.spec_cells()[offset] is Some {
            Some(self.spec_cells()[offset]->0@)
        } else {
            None
        }
    }

    /// Sizes, bounds and the bump hole.
    pub open(crate) spec fn layout_wf(&self) -> bool {
        &&& self.cells@.len() == BLOCK_WORDS
        &&& self.lines@.len() == LINES_PER_BLOCK
        &&& self.marks@.len() == LINES_PER_BLOCK
        &&& objects_fit(self.cells@)
        &&& disjoint(self.cells@)
        &&& self.cursor <= self.limit <= BLOCK_WORDS
        &&& self.limit as int % LINE_WORDS as int == 0
        &&& (self.cursor == self.limit || self.limit == BLOCK_WORDS || self.lines@[self.limit as int
            / LINE_WORDS as int])
        &&& forall|j: int|
            0 <= j < BLOCK_WORDS && (#[trigger] self.cells@[j]) is Some ==> j
                + self.cells@[j]->0.spec_size() <= self.cursor || self.limit <= j
        &&& forall|k: int|
            0 <= k < LINES_PER_BLOCK ==> (#[trigger] self.lines@[k] <==> line_live(self.cells@, k))
    }

    /// The invariant between collections: the layout is sound, a line's bit
    /// is set exactly when an object overlaps it, and nothing is marked.
    pub open(crate) spec fn wf(&self) -> bool {
        &&& self.layout_wf()
        &&& forall|j: int| 0 <= j < BLOCK_WORDS ==> !is_marked(self.cells@, j)
        &&& forall|k: int| 0 <= k < LINES_PER_BLOCK ==> !(#[trigger] self.marks@[k])
    }

    /// The invariant while a collection traces: a line's mark is set exactly
    /// when a marked object overlaps it.
    pub open(crate) spec fn gc_wf(&self) -> bool {
        &&& self.layout_wf()
        &&& forall|k: int|
            0 <= k < LINES_PER_BLOCK ==> (#[trigger] self.marks@[k] <==> line_marked(
                self.cells@,
                k,
            ))
    }

    /// Where the block stands with allocation.
    pub open(crate) spec fn layout(&self) -> BlockLayout {
        BlockLayout { lines: self.lines@, cursor: self.cursor as int, limit: self.limit as int }
    }

    /// Whether word `w` can be handed out.
    #[verifier::inline]
    pub open spec fn available(&self, w: int) -> bool {
        self.layout().available(w)
    }

    /// Whether the `size` words from `offset` on can all be handed out.
    #[verifier::inline]
    pub open spec fn range_available(&self, offset: int, size: int) -> bool {
        self.layout().range_available(offset, size)
    }

    /// Whether an object of `size` words can be allocated in this block.
    #[verifier::inline]
    pub open spec fn has_room(&self, size: int) -> bool {
        self.layout().has_room(size)
    }

    /// Whether the block holds no object.
    pub open(crate) spec fn is_empty(&self) -> bool {
        forall|j: int| 0 <= j < self.cells@.len() ==> (#[trigger] self.cells@[j]) is None
    }

    /// Free, recyclable or full, by the lines in use.
    pub open(crate) spec fn spec_state(&self) -> BlockState {
        if forall|k: int| 0 <= k < self.lines@.len() ==> !(#[trigger] self.lines@[k]) {
            BlockState::Free
        } else if forall|k: int| 0 <= k < self.lines@.len() ==> #[trigger] self.lines@[k] {
            BlockState::Full
        } else {
            BlockState::Recyclable
        }
    }

    /// No object touches a word that can be handed out.
    pub(crate) proof fn lemma_available_free(&self, w: int, j: int)
        requires
            self.layout_wf(),
            self.available(w),
            0 <= j < BLOCK_WORDS,
            self.cells@[j] is Some,
        ensures
            !(j <= w < j + self.cells@[j]->0.spec_size()),
    {
        if j <= w < j + self.cells@[j]->0.spec_size() {
            if self.cursor <= w < self.limit {
            } else {
                let k = w / LINE_WORDS as int;
                assert(covers(self.cells@, j, k));
                assert(line_live(self.cells@, k));
                assert(self.lines@[k]);
            }
        }
    }

    /// A block that holds no object has every line free.
    pub(crate) proof fn lemma_empty_is_free(&self)
        requires
            self.layout_wf(),
            self.is_empty(),
        ensures
            self.spec_state() == BlockState::Free,
    {
        assert forall|k: int| 0 <= k < self.lines@.len() implies !(#[trigger] self.lines@[k]) by {
            if self.lines@[k] {
                assert(line_live(self.cells@, k));
                let j = choose|j: int| covers(self.cells@, j, k);
                assert(self.cells@[j] is None);
            }
        }
    }

    /// An empty block: no object, every line free, the whole block one hole.
    pub fn new() -> (block: Block)
        ensures
            block.is_fresh(),
            block.spec_state() == BlockState::Free,
    {
        let mut cells: Vec<Option<Object>> = Vec::new();
        let mut j: usize = 0;
        while j < BLOCK_WORDS
            invariant
                j <= BLOCK_WORDS,
                cells@.len() == j,
                forall|i: int| 0 <= i < j ==> (#[trigger] cells@[i]) is None,
            decreases BLOCK_WORDS - j,
        {
            cells.push(None);
            j += 1;
        }
        let mut lines: Vec<bool> = Vec::new();
        let mut marks: Vec<bool> = Vec::new();
        let mut k: usize = 0;
        while k < LINES_PER_BLOCK
            invariant
                k <= LINES_PER_BLOCK,
                lines@.len() == k,
                marks@.len() == k,
                forall|i: int| 0 <= i < k ==> !(#[trigger] lines@[i]),
                forall|i: int| 0 <= i < k ==> !(#[trigger] marks@[i]),
            decreases LINES_PER_BLOCK - k,
        {
            lines.push(false);
            marks.push(false);
            k += 1;
        }
        let block = Block { cells, lines, marks, cursor: 0, limit: 0 };
        assert forall|k: int| 0 <= k < LINES_PER_BLOCK implies (#[trigger] block.lines@[k]
            <==> line_live(block.cells@, k)) by {
            if line_live(block.cells@, k) {
                let j = choose|j: int| covers(block.cells@, j, k);
                assert(block.cells@[j] is None);
            }
        }
        proof {
            block.lemma_empty_is_free();
        }
        block
    }

    /// The object that starts at word `offset`, if one does.
    pub fn get(&self, offset: usize) -> (r: Option<&Object>)
        requires
            self.wf(),
        ensures
            r is Some <==> self.object_at(offset as int) is Some,
            r matches Some(object) ==> Some(object@) == self.object_at(offset as int)
                && *object == self.spec_cells()[offset as int]->0 && object.wf(),
    {
        if offset < self.cells.len() {
            self.cells[offset].as_ref()
        } else {
            None
        }
    }

    /// Free, recyclable or full.
    pub fn state(&self) -> (state: BlockState)
        requires
            self.wf(),
        ensures
            state == self.spec_state(),
    {
        let mut any_used = false;
        let mut any_free = false;
        let mut k: usize = 0;
        while k < LINES_PER_BLOCK
            invariant
                k <= LINES_PER_BLOCK,
                self.lines@.len() == LINES_PER_BLOCK,
                any_used <==> exists|i: int| 0 <= i < k && #[trigger] self.lines@[i],
                any_free <==> exists|i: int| 0 <= i < k && !(#[trigger] self.lines@[i]),
            decreases LINES_PER_BLOCK - k,
        {
            if self.lines[k] {
                any_used = true;
            } else {
                any_free = true;
            }
            k += 1;
        }
        if !any_used {
            BlockState::Free
        } else if !any_free {
            BlockState::Full
        } else {
            BlockState::Recyclable
        }
    }

    /// The number of lines in use.
    pub fn used_lines(&self) -> (n: usize)
        requires
            self.wf(),
        ensures
            n == self.spec_lines().filter(|b: bool| b).len(),
            n <= LINES_PER_BLOCK,
    {
        let mut n: usize = 0;
        let mut k: usize = 0;
        while k < LINES_PER_BLOCK
            invariant
                k <= LINES_PER_BLOCK,
                self.lines@.len() == LINES_PER_BLOCK,
                n == self.lines@.subrange(0, k as int).filter(|b: bool| b).len(),
                n <= k,
            decreases LINES_PER_BLOCK - k,
        {
            proof {
                let prefix = self.lines@.subrange(0, k as int);
                let next = self.lines@.subrange(0, k + 1);
                assert(next == prefix.push(self.lines@[k as int]));
                assert(next.drop_last() == prefix);
                reveal(Seq::filter);
            }
            if self.lines[k] {
                n += 1;
            }
            k += 1;
        }
        assert(self.lines@.subrange(0, LINES_PER_BLOCK as int) == self.lines@);
        n
    }
}


impl Block {
    /// Finds where an object of `size` words goes: the lowest offset from
    /// which `size` words can be handed out, and the end of the hole around
    /// it.
    pub(crate) fn find_room(&self, size: usize) -> (r: Option<(usize, usize)>)
        requires
            self.layout_wf(),
            0 < size <= BLOCK_WORDS,
        ensures
            r matches Some((o, e)) ==> {
                &&& self.range_available(o as int, size as int)
                &&& forall|o2: int| 0 <= o2 < o ==> !self.range_available(o2, size as int)
                &&& o + size <= e <= BLOCK_WORDS
                &&& self.limit <= e
                &&& e as int % LINE_WORDS as int == 0
                &&& (e == BLOCK_WORDS || self.lines@[e as int / LINE_WORDS as int])
                &&& forall|w: int| o <= w < e ==> #[trigger] self.available(w)
            },
            r is None ==> forall|o2: int| !self.range_available(o2, size as int),
    {
        if self.cursor + size <= self.limit {
            return Some((self.cursor, self.limit));
        }
        let mut line: usize = self.limit / LINE_WORDS;
        proof {
            assert forall|o2: int| 0 <= o2 < line * LINE_WORDS implies !self.range_available(
                o2,
                size as int,
            ) by {
                if self.cursor <= o2 && o2 + size <= BLOCK_WORDS {
                    assert(!self.available(self.limit as int));
                }
            }
        }
        while line < LINES_PER_BLOCK
            invariant
                self.layout_wf(),
                0 < size <= BLOCK_WORDS,
                self.limit <= line * LINE_WORDS,
                line <= LINES_PER_BLOCK,
                forall|o2: int| 0 <= o2 < line * LINE_WORDS ==> !self.range_available(o2, size as int),
            decreases LINES_PER_BLOCK - line,
        {
            if self.lines[line] {
                proof {
                    assert forall|o2: int| 0 <= o2 < (line + 1) * LINE_WORDS
                        implies !self.range_available(o2, size as int) by {
                        if o2 >= line * LINE_WORDS {
                            assert(o2 / LINE_WORDS as int == line);
                            assert(!self.available(o2));
                        }
                    }
                }
                line += 1;
            } else {
                let start: usize = line;
                let mut end: usize = line + 1;
                while end < LINES_PER_BLOCK && !self.lines[end]
                    invariant
                        self.lines@.len() == LINES_PER_BLOCK,
                        start < end <= LINES_PER_BLOCK,
                        forall|k: int| start <= k < end ==> !(#[trigger] self.lines@[k]),
                    decreases LINES_PER_BLOCK - end,
                {
                    end += 1;
                }
                if (end - start) * LINE_WORDS >= size {
                    proof {
                        assert forall|w: int| start * LINE_WORDS <= w < end * LINE_WORDS
                            implies #[trigger] self.available(w) by {
                            let k = w / LINE_WORDS as int;
                            assert(start <= k < end);
                            assert(!self.lines@[k]);
                        }
                    }
                    return Some((start * LINE_WORDS, end * LINE_WORDS));
                }
                proof {
                    assert forall|o2: int| 0 <= o2 < end * LINE_WORDS implies !self.range_available(
                        o2,
                        size as int,
                    ) by {
                        if o2 >= start * LINE_WORDS && o2 + size <= BLOCK_WORDS {
                            let w = (end * LINE_WORDS) as int;
                            assert(o2 <= w < o2 + size);
                            assert(w / LINE_WORDS as int == end);
                            assert(!self.available(w));
                        }
                    }
                }
                line = end;
            }
        }
        None
    }

    /// Stores `object` at word `o` of a hole that ends at `e`, sets the bits
    /// of the lines it overlaps and moves the bump hole behind it.
    pub(crate) fn place(&mut self, o: usize, e: usize, object: Object)
        requires
            old(self).wf(),
            object.wf(),
            !object.spec_header().marked,
            old(self).cursor <= o,
            o + object.spec_size() <= e <= BLOCK_WORDS,
            old(self).limit <= e,
            e as int % LINE_WORDS as int == 0,
            e == BLOCK_WORDS || old(self).lines@[e as int / LINE_WORDS as int],
            forall|w: int| o <= w < e ==> #[trigger] old(self).available(w),
        ensures
            final(self).wf(),
            final(self).spec_cells() == old(self).spec_cells().update(o as int, Some(object)),
            old(self).spec_cells()[o as int] is None,
            final(self).layout() == old(self).layout().with_object(
                o as int,
                object.spec_size() as int,
            ),
    {
        let size = object.size();
        let ghost before = *self;
        let ghost cells0 = self.cells@;
        let ghost cells1 = cells0.update(o as int, Some(object));
        proof {
            assert forall|j: int| 0 <= j < BLOCK_WORDS && (#[trigger] cells0[j]) is Some implies j
                + cells0[j]->0.spec_size() <= o || e <= j by {
                if j < e {
                    if j >= o {
                        assert(before.available(j));
                        before.lemma_available_free(j, j);
                    } else if j + cells0[j]->0.spec_size() > o {
                        assert(before.available(o as int));
                        before.lemma_available_free(o as int, j);
                    }
                }
            }
            assert(cells0[o as int] is None);
        }
        let first: usize = o / LINE_WORDS;
        let last: usize = (o + size - 1) / LINE_WORDS;
        let mut k: usize = first;
        while k <= last
            invariant
                first <= k <= last + 1,
                last < LINES_PER_BLOCK,
                self.lines@.len() == LINES_PER_BLOCK,
                self.cells == before.cells,
                self.marks == before.marks,
                self.cursor == before.cursor,
                self.limit == before.limit,
                forall|i: int|
                    0 <= i < LINES_PER_BLOCK ==> (#[trigger] self.lines@[i] <==> before.lines@[i] || (
                    first <= i < k)),
            decreases last + 1 - k,
        {
            self.lines[k] = true;
            k += 1;
        }
        self.cells[o] = Some(object);
        self.cursor = o + size;
        self.limit = e;
        proof {
            assert(self.cells@ == cells1);
            assert(objects_fit(cells1));
            assert(disjoint(cells1)) by {
                assert forall|i: int, j: int|
                    0 <= i < j < cells1.len() && (#[trigger] cells1[i]) is Some && (
                    #[trigger] cells1[j]) is Some implies i + cells1[i]->0.spec_size() <= j by {
                    if i != o && j != o {
                        assert(cells0[i] is Some && cells0[j] is Some);
                    } else if i == o {
                        assert(cells0[j] is Some);
                    } else {
                        assert(cells0[i] is Some);
                    }
                }
            }
            assert forall|j: int| 0 <= j < BLOCK_WORDS && (#[trigger] self.cells@[j]) is Some implies j
                + self.cells@[j]->0.spec_size() <= self.cursor || self.limit <= j by {
                if j != o {
                    assert(cells0[j] is Some);
                }
            }
            assert forall|i: int| 0 <= i < LINES_PER_BLOCK implies (#[trigger] self.lines@[i]
                <==> line_live(cells1, i)) by {
                if self.lines@[i] {
                    if before.lines@[i] {
                        assert(line_live(cells0, i));
                        let j = choose|j: int| covers(cells0, j, i);
                        assert(covers(cells1, j, i));
                    } else {
                        assert(covers(cells1, o as int, i));
                    }
                }
                if line_live(cells1, i) {
                    let j = choose|j: int| covers(cells1, j, i);
                    if j == o {
                        assert(first <= i <= last);
                    } else {
                        assert(covers(cells0, j, i));
                        assert(line_live(cells0, i));
                    }
                }
            }
            assert forall|j: int| 0 <= j < BLOCK_WORDS implies !is_marked(self.cells@, j) by {
                if j != o {
                    assert(!is_marked(cells0, j));
                }
            }
            assert(before.layout().ends_hole(o as int, e as int));
            before.layout().lemma_hole_end(o as int, e as int);
            assert(self.layout().lines =~= before.layout().with_object(o as int, size as int).lines);
        }
    }

    /// Allocates `object` in the lowest place of the block from which enough
    /// words can be handed out, and says where. When no place is large
    /// enough the block stays as it is and the object comes back.
    pub fn allocate(&mut self, object: Object) -> (r: Result<usize, Object>)
        requires
            old(self).wf(),
            object.wf(),
            !object.spec_header().marked,
        ensures
            final(self).wf(),
            r is Ok <==> old(self).has_room(object.spec_size() as int),
            r matches Ok(o) ==> {
                &&& o == old(self).layout().first_fit(object.spec_size() as int)
                &&& old(self).layout().fits_first(o as int, object.spec_size() as int)
                &&& old(self).spec_cells()[o as int] is None
                &&& final(self).spec_cells() == old(self).spec_cells().update(o as int, Some(object))
                &&& final(self).layout() == old(self).layout().after_allocate(
                    object.spec_size() as int,
                )
            },
            r matches Err(back) ==> back == object && *final(self) == *old(self),
    {
        let size = object.size();
        match self.find_room(size) {
            Some((o, e)) => {
                proof {
                    self.layout().lemma_first_fit(o as int, size as int);
                }
                self.place(o, e, object);
                Ok(o)
            },
            None => Err(object),
        }
    }

    /// Writes a field of the object that starts at word `offset`.
    pub(crate) fn set_field(&mut self, offset: usize, index: usize, word: TaggedPointer)
        requires
            old(self).wf(),
            offset < BLOCK_WORDS,
            old(self).cells@[offset as int] is Some,
            index < old(self).cells@[offset as int]->0.spec_fields().len(),
        ensures
            final(self).wf(),
            final(self).cells@.len() == BLOCK_WORDS,
            final(self).cells@[offset as int] is Some,
            final(self).cells@[offset as int]->0.header == old(self).cells@[offset as int]->0.header,
            final(self).cells@[offset as int]->0.value == old(self).cells@[offset as int]->0.value,
            final(self).cells@[offset as int]->0.fields@ == old(
                self,
            ).cells@[offset as int]->0.fields@.update(index as int, word),
            forall|j: int|
                0 <= j < BLOCK_WORDS && j != offset ==> final(self).cells@[j] == old(self).cells@[j],
            final(self).layout() == old(self).layout(),
    {
        let ghost before = *self;
        match &mut self.cells[offset] {
            Some(object) => {
                object.fields[index] = word;
            },
            None => {},
        }
        proof {
            before.lemma_unmarked_same_sizes(*self);
        }
    }

    /// Attaches a payload to the object that starts at word `offset`.
    pub(crate) fn set_value(&mut self, offset: usize, value: crate::object::ObjectValue)
        requires
            old(self).wf(),
            offset < BLOCK_WORDS,
            old(self).cells@[offset as int] is Some,
        ensures
            final(self).wf(),
            final(self).cells@.len() == BLOCK_WORDS,
            final(self).cells@[offset as int] is Some,
            final(self).cells@[offset as int]->0.header == old(self).cells@[offset as int]->0.header,
            final(self).cells@[offset as int]->0.spec_value() == Some(value@),
            final(self).cells@[offset as int]->0.fields == old(self).cells@[offset as int]->0.fields,
            forall|j: int|
                0 <= j < BLOCK_WORDS && j != offset ==> final(self).cells@[j] == old(self).cells@[j],
            final(self).layout() == old(self).layout(),
    {
        let ghost before = *self;
        match &mut self.cells[offset] {
            Some(object) => {
                object.value = Some(value);
            },
            None => {},
        }
        proof {
            before.lemma_unmarked_same_sizes(*self);
        }
    }

    /// Sets or clears the pin flag of the object that starts at word
    /// `offset`.
    pub(crate) fn set_pinned(&mut self, offset: usize, pinned: bool)
        requires
            old(self).wf(),
            offset < BLOCK_WORDS,
            old(self).cells@[offset as int] is Some,
        ensures
            final(self).wf(),
            final(self).cells@.len() == BLOCK_WORDS,
            final(self).cells@[offset as int] is Some,
            final(self).cells@[offset as int]->0.spec_header() == (crate::object::ObjectHeader {
                class: old(self).cells@[offset as int]->0.spec_header().class,
                marked: false,
                pinned,
            }),
            final(self).cells@[offset as int]->0.value == old(self).cells@[offset as int]->0.value,
            final(self).cells@[offset as int]->0.fields == old(self).cells@[offset as int]->0.fields,
            forall|j: int|
                0 <= j < BLOCK_WORDS && j != offset ==> final(self).cells@[j] == old(self).cells@[j],
            final(self).layout() == old(self).layout(),
    {
        let ghost before = *self;
        assert(!is_marked(self.cells@, offset as int));
        match &mut self.cells[offset] {
            Some(object) => {
                object.header.pinned = pinned;
            },
            None => {},
        }
        proof {
            before.lemma_unmarked_same_sizes(*self);
        }
    }

    /// A block keeps its invariant when objects change without changing
    /// place, size or header mark.
    pub(crate) proof fn lemma_unmarked_same_sizes(&self, after: Block)
        requires
            self.wf(),
            after.cells@.len() == BLOCK_WORDS,
            after.lines == self.lines,
            after.marks == self.marks,
            after.cursor == self.cursor,
            after.limit == self.limit,
            forall|j: int|
                0 <= j < BLOCK_WORDS ==> ((#[trigger] after.cells@[j]) is Some <==> self.cells@[j]
                    is Some),
            forall|j: int|
                0 <= j < BLOCK_WORDS && (#[trigger] after.cells@[j]) is Some ==> {
                    &&& after.cells@[j]->0.spec_size() == self.cells@[j]->0.spec_size()
                    &&& after.cells@[j]->0.spec_header().marked
                        == self.cells@[j]->0.spec_header().marked
                },
        ensures
            after.wf(),
    {
        assert forall|j: int| 0 <= j < BLOCK_WORDS && (#[trigger] after.cells@[j]) is Some implies {
            &&& after.cells@[j]->0.spec_size() == self.cells@[j]->0.spec_size()
            &&& !after.cells@[j]->0.spec_header().marked
        } by {
            assert(!is_marked(self.cells@, j));
        }
        self.lemma_same_sizes(after);
    }

    /// A block keeps its invariant when objects change without changing
    /// place or size and all stay unmarked.
    pub(crate) proof fn lemma_same_sizes(&self, after: Block)
        requires
            self.wf(),
            after.cells@.len() == BLOCK_WORDS,
            after.lines == self.lines,
            after.marks == self.marks,
            after.cursor == self.cursor,
            after.limit == self.limit,
            forall|j: int|
                0 <= j < BLOCK_WORDS ==> ((#[trigger] after.cells@[j]) is Some <==> self.cells@[j]
                    is Some),
            forall|j: int|
                0 <= j < BLOCK_WORDS && (#[trigger] after.cells@[j]) is Some ==> {
                    &&& after.cells@[j]->0.spec_size() == self.cells@[j]->0.spec_size()
                    &&& !after.cells@[j]->0.spec_header().marked
                },
        ensures
            after.wf(),
    {
        let c0 = self.cells@;
        let c1 = after.cells@;
        assert(objects_fit(c1)) by {
            assert forall|j: int| 0 <= j < c1.len() && (#[trigger] c1[j]) is Some implies c1[j]->0.wf()
                && j + c1[j]->0.spec_size() <= BLOCK_WORDS by {
                assert(c0[j] is Some);
            }
        }
        assert(disjoint(c1)) by {
            assert forall|i: int, j: int|
                0 <= i < j < c1.len() && (#[trigger] c1[i]) is Some && (#[trigger] c1[j])
                    is Some implies i + c1[i]->0.spec_size() <= j by {
                assert(c0[i] is Some && c0[j] is Some);
            }
        }
        assert forall|j: int| 0 <= j < BLOCK_WORDS && (#[trigger] after.cells@[j]) is Some implies j
            + after.cells@[j]->0.spec_size() <= after.cursor || after.limit <= j by {
            assert(c0[j] is Some);
        }
        assert forall|k: int| 0 <= k < LINES_PER_BLOCK implies (#[trigger] after.lines@[k]
            <==> line_live(c1, k)) by {
            if self.lines@[k] {
                assert(line_live(c0, k));
                let j = choose|j: int| covers(c0, j, k);
                assert(c1[j] is Some);
                assert(covers(c1, j, k));
            }
            if line_live(c1, k) {
                let j = choose|j: int| covers(c1, j, k);
                assert(c1[j] is Some);
                assert(covers(c0, j, k));
                assert(line_live(c0, k));
            }
        }
    }
}


/// What a sweep leaves of a cell: a marked object stays, with its mark
/// cleared, and anything else goes.
pub open(crate) spec fn swept(cell: Option<Object>) -> Option<Object> {
    match cell {
        Some(object) => if object.spec_header().marked {
            Some(object.with_mark(false))
        } else {
            None
        },
        None => None,
    }
}

/// A cell with the mark of its object, if it has one, cleared.
pub open(crate) spec fn unmarked(cell: Option<Object>) -> Option<Object> {
    match cell {
        Some(object) => Some(object.with_mark(false)),
        None => None,
    }
}

impl Block {
    /// Between collections a block is ready to be traced.
    pub(crate) proof fn lemma_wf_gc_wf(&self)
        requires
            self.wf(),
        ensures
            self.gc_wf(),
    {
        assert forall|k: int| 0 <= k < LINES_PER_BLOCK implies (#[trigger] self.marks@[k]
            <==> line_marked(self.cells@, k)) by {
            if line_marked(self.cells@, k) {
                let j = choose|j: int| covers(self.cells@, j, k) && is_marked(self.cells@, j);
                assert(!is_marked(self.cells@, j));
            }
        }
    }

    /// Marks the object that starts at word `offset` and the lines it
    /// overlaps. Says whether the object was unmarked until now.
    pub(crate) fn mark(&mut self, offset: usize) -> (newly: bool)
        requires
            old(self).gc_wf(),
            offset < BLOCK_WORDS,
            old(self).cells@[offset as int] is Some,
        ensures
            final(self).gc_wf(),
            newly == !is_marked(old(self).cells@, offset as int),
            final(self).cells@ == old(self).cells@.update(
                offset as int,
                Some(old(self).cells@[offset as int]->0.with_mark(true)),
            ),
            final(self).lines == old(self).lines,
            final(self).cursor == old(self).cursor,
            final(self).limit == old(self).limit,
            newly ==> unmarked_count(final(self).cells@) + 1 == unmarked_count(old(self).cells@),
            !newly ==> unmarked_count(final(self).cells@) == unmarked_count(old(self).cells@),
    {
        let ghost before = *self;
        let ghost cells0 = self.cells@;
        let (was_marked, size) = match &self.cells[offset] {
            Some(object) => (object.header.marked, object.size()),
            None => (true, 0),
        };
        if was_marked {
            assert(cells0 == cells0.update(
                offset as int,
                Some(cells0[offset as int]->0.with_mark(true)),
            ));
            return false;
        }
        match &mut self.cells[offset] {
            Some(object) => {
                object.header.marked = true;
            },
            None => {},
        }
        let ghost cells1 = self.cells@;
        assert(cells1 == cells0.update(offset as int, Some(cells0[offset as int]->0.with_mark(true))));
        let first: usize = offset / LINE_WORDS;
        let last: usize = (offset + size - 1) / LINE_WORDS;
        let mut k: usize = first;
        while k <= last
            invariant
                first <= k <= last + 1,
                last < LINES_PER_BLOCK,
                self.marks@.len() == LINES_PER_BLOCK,
                self.cells@ == cells1,
                self.lines == before.lines,
                self.cursor == before.cursor,
                self.limit == before.limit,
                forall|i: int|
                    0 <= i < LINES_PER_BLOCK ==> (#[trigger] self.marks@[i] <==> before.marks@[i] || (
                    first <= i < k)),
            decreases last + 1 - k,
        {
            self.marks[k] = true;
            k += 1;
        }
        proof {
            lemma_unmarked_update(cells0, offset as int, cells0[offset as int]->0.with_mark(true));
            assert(objects_fit(cells1)) by {
                assert forall|j: int| 0 <= j < cells1.len() && (#[trigger] cells1[j])
                    is Some implies cells1[j]->0.wf() && j + cells1[j]->0.spec_size()
                    <= BLOCK_WORDS by {
                    assert(cells0[j] is Some);
                }
            }
            assert(disjoint(cells1)) by {
                assert forall|i: int, j: int|
                    0 <= i < j < cells1.len() && (#[trigger] cells1[i]) is Some && (
                    #[trigger] cells1[j]) is Some implies i + cells1[i]->0.spec_size() <= j by {
                    assert(cells0[i] is Some && cells0[j] is Some);
                }
            }
            assert forall|j: int| 0 <= j < BLOCK_WORDS && (#[trigger] cells1[j]) is Some implies j
                + cells1[j]->0.spec_size() <= self.cursor || self.limit <= j by {
                assert(cells0[j] is Some);
            }
            assert forall|i: int| 0 <= i < LINES_PER_BLOCK implies (#[trigger] self.lines@[i]
                <==> line_live(cells1, i)) by {
                if before.lines@[i] {
                    assert(line_live(cells0, i));
                    let j = choose|j: int| covers(cells0, j, i);
                    assert(covers(cells1, j, i));
                }
                if line_live(cells1, i) {
                    let j = choose|j: int| covers(cells1, j, i);
                    assert(covers(cells0, j, i));
                    assert(line_live(cells0, i));
                }
            }
            assert forall|i: int| 0 <= i < LINES_PER_BLOCK implies (#[trigger] self.marks@[i]
                <==> line_marked(cells1, i)) by {
                if self.marks@[i] {
                    if before.marks@[i] {
                        assert(line_marked(cells0, i));
                        let j = choose|j: int| covers(cells0, j, i) && is_marked(cells0, j);
                        assert(covers(cells1, j, i) && is_marked(cells1, j));
                    } else {
                        assert(covers(cells1, offset as int, i) && is_marked(cells1, offset as int));
                    }
                }
                if line_marked(cells1, i) {
                    let j = choose|j: int| covers(cells1, j, i) && is_marked(cells1, j);
                    if j == offset {
                        assert(first <= i <= last);
                    } else {
                        assert(covers(cells0, j, i) && is_marked(cells0, j));
                        assert(line_marked(cells0, i));
                    }
                }
            }
        }
        true
    }

    /// Ends a collection that succeeded: drops every unmarked object, clears
    /// the marks of the others, makes the line marks the new line bits and
    /// opens the block for allocation from its start. Returns the number of
    /// objects dropped.
    pub(crate) fn sweep(&mut self) -> (dropped: usize)
        requires
            old(self).gc_wf(),
        ensures
            final(self).wf(),
            final(self).cells@.len() == BLOCK_WORDS,
            forall|j: int|
                0 <= j < BLOCK_WORDS ==> #[trigger] final(self).cells@[j] == swept(
                    old(self).cells@[j],
                ),
            forall|k: int|
                0 <= k < LINES_PER_BLOCK ==> (#[trigger] final(self).lines@[k] <==> line_marked(
                    old(self).cells@,
                    k,
                )),
            dropped == unmarked_count(old(self).cells@),
            final(self).cursor == 0,
            final(self).limit == 0,
    {
        let ghost before = *self;
        let ghost cells0 = self.cells@;
        let mut dropped: usize = 0;
        let mut j: usize = 0;
        while j < BLOCK_WORDS
            invariant
                j <= BLOCK_WORDS,
                before.gc_wf(),
                cells0 == before.cells@,
                self.cells@.len() == BLOCK_WORDS,
                self.lines == before.lines,
                self.marks == before.marks,
                forall|i: int| 0 <= i < j ==> #[trigger] self.cells@[i] == swept(cells0[i]),
                forall|i: int| j <= i < BLOCK_WORDS ==> #[trigger] self.cells@[i] == cells0[i],
                dropped == unmarked_count(cells0.subrange(0, j as int)),
                dropped <= j,
            decreases BLOCK_WORDS - j,
        {
            proof {
                assert(cells0.subrange(0, j + 1).drop_last() == cells0.subrange(0, j as int));
            }
            let (present, keep) = match &self.cells[j] {
                Some(object) => (true, object.header.marked),
                None => (false, false),
            };
            if keep {
                match &mut self.cells[j] {
                    Some(object) => {
                        object.header.marked = false;
                    },
                    None => {},
                }
            } else if present {
                self.cells[j] = None;
                dropped += 1;
            }
            j += 1;
        }
        assert(cells0.subrange(0, BLOCK_WORDS as int) == cells0);
        let mut k: usize = 0;
        while k < LINES_PER_BLOCK
            invariant
                k <= LINES_PER_BLOCK,
                before.gc_wf(),
                self.lines@.len() == LINES_PER_BLOCK,
                self.marks@.len() == LINES_PER_BLOCK,
                self.cells@.len() == BLOCK_WORDS,
                forall|i: int| 0 <= i < BLOCK_WORDS ==> #[trigger] self.cells@[i] == swept(cells0[i]),
                forall|i: int| 0 <= i < k ==> #[trigger] self.lines@[i] == before.marks@[i],
                forall|i: int| 0 <= i < k ==> !(#[trigger] self.marks@[i]),
                forall|i: int|
                    k <= i < LINES_PER_BLOCK ==> #[trigger] self.marks@[i] == before.marks@[i],
            decreases LINES_PER_BLOCK - k,
        {
            let bit = self.marks[k];
            self.lines[k] = bit;
            self.marks[k] = false;
            k += 1;
        }
        self.cursor = 0;
        self.limit = 0;
        proof {
            let cells1 = self.cells@;
            assert(objects_fit(cells1)) by {
                assert forall|j: int| 0 <= j < cells1.len() && (#[trigger] cells1[j])
                    is Some implies cells1[j]->0.wf() && j + cells1[j]->0.spec_size()
                    <= BLOCK_WORDS by {
                    assert(cells1[j] == swept(cells0[j]));
                    assert(cells0[j] is Some);
                }
            }
            assert(disjoint(cells1)) by {
                assert forall|i: int, j: int|
                    0 <= i < j < cells1.len() && (#[trigger] cells1[i]) is Some && (
                    #[trigger] cells1[j]) is Some implies i + cells1[i]->0.spec_size() <= j by {
                    assert(cells1[i] == swept(cells0[i]));
                    assert(cells1[j] == swept(cells0[j]));
                    assert(cells0[i] is Some && cells0[j] is Some);
                }
            }
            assert forall|i: int| 0 <= i < LINES_PER_BLOCK implies (#[trigger] self.lines@[i]
                <==> line_live(cells1, i)) by {
                assert(self.lines@[i] == before.marks@[i]);
                if before.marks@[i] {
                    assert(line_marked(cells0, i));
                    let j = choose|j: int| covers(cells0, j, i) && is_marked(cells0, j);
                    assert(cells1[j] == swept(cells0[j]));
                    assert(covers(cells1, j, i));
                }
                if line_live(cells1, i) {
                    let j = choose|j: int| covers(cells1, j, i);
                    assert(cells1[j] == swept(cells0[j]));
                    assert(covers(cells0, j, i) && is_marked(cells0, j));
                    assert(line_marked(cells0, i));
                }
            }
            assert forall|j: int| 0 <= j < BLOCK_WORDS implies !is_marked(cells1, j) by {
                assert(cells1[j] == swept(cells0[j]));
            }
            assert forall|k: int| 0 <= k < LINES_PER_BLOCK implies (#[trigger] self.lines@[k]
                <==> line_marked(cells0, k)) by {
                assert(self.lines@[k] == before.marks@[k]);
            }
        }
        dropped
    }

    /// Ends a collection that was given up: clears every mark and leaves the
    /// objects, the line bits and the bump hole as they were.
    pub(crate) fn unmark(&mut self)
        requires
            old(self).gc_wf(),
        ensures
            final(self).wf(),
            final(self).cells@.len() == BLOCK_WORDS,
            forall|j: int|
                0 <= j < BLOCK_WORDS ==> #[trigger] final(self).cells@[j] == unmarked(
                    old(self).cells@[j],
                ),
            final(self).lines == old(self).lines,
            final(self).cursor == old(self).cursor,
            final(self).limit == old(self).limit,
    {
        let ghost before = *self;
        let ghost cells0 = self.cells@;
        let mut j: usize = 0;
        while j < BLOCK_WORDS
            invariant
                j <= BLOCK_WORDS,
                cells0 == before.cells@,
                self.cells@.len() == BLOCK_WORDS,
                self.lines == before.lines,
                self.marks == before.marks,
                self.cursor == before.cursor,
                self.limit == before.limit,
                forall|i: int| 0 <= i < j ==> #[trigger] self.cells@[i] == unmarked(cells0[i]),
                forall|i: int| j <= i < BLOCK_WORDS ==> #[trigger] self.cells@[i] == cells0[i],
            decreases BLOCK_WORDS - j,
        {
            match &mut self.cells[j] {
                Some(object) => {
                    object.header.marked = false;
                },
                None => {},
            }
            j += 1;
        }
        let mut k: usize = 0;
        while k < LINES_PER_BLOCK
            invariant
                k <= LINES_PER_BLOCK,
                self.marks@.len() == LINES_PER_BLOCK,
                self.cells@.len() == BLOCK_WORDS,
                self.lines == before.lines,
                self.cursor == before.cursor,
                self.limit == before.limit,
                forall|i: int| 0 <= i < BLOCK_WORDS ==> #[trigger] self.cells@[i] == unmarked(cells0[i]),
                forall|i: int| 0 <= i < k ==> !(#[trigger] self.marks@[i]),
            decreases LINES_PER_BLOCK - k,
        {
            self.marks[k] = false;
            k += 1;
        }
        proof {
            let cells1 = self.cells@;
            assert(objects_fit(cells1)) by {
                assert forall|j: int| 0 <= j < cells1.len() && (#[trigger] cells1[j])
                    is Some implies cells1[j]->0.wf() && j + cells1[j]->0.spec_size()
                    <= BLOCK_WORDS by {
                    assert(cells1[j] == unmarked(cells0[j]));
                    assert(cells0[j] is Some);
                }
            }
            assert(disjoint(cells1)) by {
                assert forall|i: int, j: int|
                    0 <= i < j < cells1.len() && (#[trigger] cells1[i]) is Some && (
                    #[trigger] cells1[j]) is Some implies i + cells1[i]->0.spec_size() <= j by {
                    assert(cells1[i] == unmarked(cells0[i]));
                    assert(cells1[j] == unmarked(cells0[j]));
                    assert(cells0[i] is Some && cells0[j] is Some);
                }
            }
            assert forall|j: int| 0 <= j < BLOCK_WORDS && (#[trigger] cells1[j]) is Some implies j
                + cells1[j]->0.spec_size() <= self.cursor || self.limit <= j by {
                assert(cells1[j] == unmarked(cells0[j]));
                assert(cells0[j] is Some);
            }
            assert forall|i: int| 0 <= i < LINES_PER_BLOCK implies (#[trigger] self.lines@[i]
                <==> line_live(cells1, i)) by {
                if before.lines@[i] {
                    assert(line_live(cells0, i));
                    let j = choose|j: int| covers(cells0, j, i);
                    assert(cells1[j] == unmarked(cells0[j]));
                    assert(covers(cells1, j, i));
                }
                if line_live(cells1, i) {
                    let j = choose|j: int| covers(cells1, j, i);
                    assert(cells1[j] == unmarked(cells0[j]));
                    assert(covers(cells0, j, i));
                    assert(line_live(cells0, i));
                }
            }
            assert forall|j: int| 0 <= j < BLOCK_WORDS implies !is_marked(cells1, j) by {
                assert(cells1[j] == unmarked(cells0[j]));
            }
        }
    }
}


impl Block {
    /// Whether the block is as `Block::new` makes it: empty, with allocation
    /// starting at its first word.
    pub open(crate) spec fn is_fresh(&self) -> bool {
        &&& self.wf()
        &&& self.is_empty()
        &&& self.cursor == 0
        &&& self.limit == 0
    }

    /// A fresh block has the layout of an empty block.
    pub(crate) proof fn lemma_fresh_layout(&self)
        requires
            self.is_fresh(),
        ensures
            self.layout() == BlockLayout::fresh(),
    {
        self.lemma_empty_is_free();
        assert(self.layout().lines =~= BlockLayout::fresh().lines);
    }

    /// A fresh block has room for any object.
    pub(crate) proof fn lemma_fresh_has_room(&self, size: int)
        requires
            self.is_fresh(),
            0 < size <= BLOCK_WORDS,
        ensures
            self.range_available(0, size),
            self.has_room(size),
    {
        self.lemma_empty_is_free();
        assert forall|w: int| 0 <= w < size implies #[trigger] self.available(w) by {
            let k = w / LINE_WORDS as int;
            assert(!self.lines@[k]);
        }
        assert(self.range_available(0, size));
    }

    /// Empties the block: drops every object, frees every line and moves
    /// allocation back to the first word.
    pub fn reset(&mut self)
        requires
            old(self).layout_wf(),
        ensures
            final(self).is_fresh(),
    {
        let mut j: usize = 0;
        while j < BLOCK_WORDS
            invariant
                j <= BLOCK_WORDS,
                self.cells@.len() == BLOCK_WORDS,
                self.lines@.len() == LINES_PER_BLOCK,
                self.marks@.len() == LINES_PER_BLOCK,
                forall|i: int| 0 <= i < j ==> (#[trigger] self.cells@[i]) is None,
            decreases BLOCK_WORDS - j,
        {
            self.cells[j] = None;
            j += 1;
        }
        let mut k: usize = 0;
        while k < LINES_PER_BLOCK
            invariant
                k <= LINES_PER_BLOCK,
                self.cells@.len() == BLOCK_WORDS,
                self.lines@.len() == LINES_PER_BLOCK,
                self.marks@.len() == LINES_PER_BLOCK,
                forall|i: int| 0 <= i < BLOCK_WORDS ==> (#[trigger] self.cells@[i]) is None,
                forall|i: int| 0 <= i < k ==> !(#[trigger] self.lines@[i]),
                forall|i: int| 0 <= i < k ==> !(#[trigger] self.marks@[i]),
            decreases LINES_PER_BLOCK - k,
        {
            self.lines[k] = false;
            self.marks[k] = false;
            k += 1;
        }
        self.cursor = 0;
        self.limit = 0;
        proof {
            assert forall|k: int| 0 <= k < LINES_PER_BLOCK implies (#[trigger] self.lines@[k]
                <==> line_live(self.cells@, k)) by {
                if line_live(self.cells@, k) {
                    let j = choose|j: int| covers(self.cells@, j, k);
                    assert(self.cells@[j] is None);
                }
            }
        }
    }
}

} // verus!
