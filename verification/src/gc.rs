//! The collector: marks what a process can reach from its roots and gives
//! the rest back.
//!
//! A collection works on one heap. It traces from the roots with a mark
//! stack, setting the mark of every object it reaches and the marks of the
//! lines the object overlaps. It then sweeps each block: unmarked objects go,
//! the line marks become the line bits, and a block left without a line in
//! use returns to the pool. Objects never move. A collection that comes upon
//! a reference to memory that holds no object changes nothing and reports
//! `GCInvariantViolation`.

use vstd::prelude::*;
use crate::allocator::BlockPool;
use crate::block::{
    covers,
    BlockLayout,
    is_marked,
    line_marked,
    swept,
    unmarked,
    unmarked_count,
    Block,
    BlockState,
    BLOCK_WORDS,
    LINES_PER_BLOCK,
    LINE_WORDS,
};
use crate::errors::RuntimeError;
use crate::heap::{address_of, offset_of, owned, slot_of, Heap, HeapLayout, MAX_HEAP_BLOCKS};
use crate::object::HEADER_WORDS;
use crate::tagged_pointer::{TaggedPointer, Value};

verus! {

/// Whether one of the roots refers to `a`.
pub open spec fn is_root(roots: Seq<TaggedPointer>, a: u64) -> bool {
    exists|i: int| 0 <= i < roots.len() && (#[trigger] roots[i]).target() == Some(a)
}

/// The number of unmarked objects in a sequence of slots.
pub open(crate) spec fn unmarked_total(slots: Seq<Option<Block>>) -> nat
    decreases slots.len(),
{
    if slots.len() == 0 {
        0
    } else {
        unmarked_total(slots.drop_last()) + match slots.last() {
            Some(block) => unmarked_count(block.cells@),
            None => 0nat,
        }
    }
}

/// Marking one object in one block lowers the total of unmarked objects by
/// one.
pub(crate) proof fn lemma_total_update(slots: Seq<Option<Block>>, s: int, block: Block)
    requires
        0 <= s < slots.len(),
        slots[s] is Some,
        unmarked_count(block.cells@) + 1 == unmarked_count(slots[s]->0.cells@),
    ensures
        unmarked_total(slots.update(s, Some(block))) + 1 == unmarked_total(slots),
    decreases slots.len(),
{
    let updated = slots.update(s, Some(block));
    if s == slots.len() - 1 {
        assert(updated.drop_last() == slots.drop_last());
    } else {
        assert(updated.drop_last() == slots.drop_last().update(s, Some(block)));
        lemma_total_update(slots.drop_last(), s, block);
    }
}

impl Block {
    /// Whether this block is `origin` with some of its objects marked.
    pub(crate) open spec fn traces(&self, origin: Block) -> bool {
        &&& self.gc_wf()
        &&& origin.wf()
        &&& self.lines == origin.lines
        &&& self.cursor == origin.cursor
        &&& self.limit == origin.limit
        &&& forall|j: int|
            0 <= j < BLOCK_WORDS ==> unmarked(#[trigger] self.cells@[j]) == origin.cells@[j]
    }
}

impl Heap {
    /// Whether the object at `a` has a field that refers to `b`.
    pub open spec fn edge(&self, a: u64, b: u64) -> bool {
        self.contains(a) && exists|i: int|
            0 <= i < self@[a].fields.len() && (#[trigger] self@[a].fields[i]).target() == Some(b)
    }

    /// Whether each address of `p` but the last is an object with a field
    /// that refers to the next.
    pub open spec fn is_path(&self, p: Seq<u64>) -> bool {
        forall|i: int| 0 <= i < p.len() - 1 ==> self.edge(#[trigger] p[i], p[i + 1])
    }

    /// Whether `p` leads from a root to `a`.
    pub open spec fn path_from(&self, roots: Seq<TaggedPointer>, p: Seq<u64>, a: u64) -> bool {
        &&& p.len() > 0
        &&& is_root(roots, p[0])
        &&& self.is_path(p)
        &&& p.last() == a
    }

    /// Whether `a` can be reached from the roots by following references.
    pub open spec fn reachable(&self, roots: Seq<TaggedPointer>, a: u64) -> bool {
        exists|p: Seq<u64>| self.path_from(roots, p, a)
    }

    /// Whether following references from the roots leads to an address where
    /// no object lives.
    pub open spec fn dangling(&self, roots: Seq<TaggedPointer>) -> bool {
        exists|a: u64| self.reachable(roots, a) && !self.contains(a)
    }

    /// Whether a marked object lives at `a`.
    #[verifier::opaque]
    pub(crate) open spec fn marked_at(&self, a: u64) -> bool {
        self.cell_at(a) is Some && self.cell_at(a)->0.spec_header().marked
    }

    /// Whether this heap is `origin` with some of its objects marked.
    #[verifier::opaque]
    pub(crate) open spec fn traces(&self, origin: Heap) -> bool {
        &&& self.slots@.len() == origin.slots@.len()
        &&& self.budget == origin.budget
        &&& self.slots@.len() <= self.budget <= MAX_HEAP_BLOCKS
        &&& forall|s: int|
            0 <= s < origin.slots@.len() ==> ((#[trigger] self.slots@[s]) is Some
                <==> origin.slots@[s] is Some)
        &&& forall|s: int|
            0 <= s < origin.slots@.len() && (#[trigger] self.slots@[s]) is Some
                ==> self.slots@[s]->0.traces(origin.slots@[s]->0)
    }

    /// Whether the first `upto` fields of the object at `a` refer to marked
    /// objects only.
    #[verifier::opaque]
    pub(crate) open spec fn scanned(&self, origin: Heap, a: u64, upto: int) -> bool {
        forall|i: int|
            0 <= i < upto && i < origin@[a].fields.len() ==> match (
            #[trigger] origin@[a].fields[i]).target() {
                Some(b) => self.marked_at(b),
                None => true,
            }
    }

    /// A root is reachable.
    pub proof fn lemma_root_reachable(&self, roots: Seq<TaggedPointer>, i: int, a: u64)
        requires
            0 <= i < roots.len(),
            roots[i].target() == Some(a),
        ensures
            self.reachable(roots, a),
    {
        let p = seq![a];
        assert(is_root(roots, p[0]));
        assert(self.path_from(roots, p, a));
    }

    /// What a reachable object refers to is reachable.
    pub proof fn lemma_reachable_step(&self, roots: Seq<TaggedPointer>, a: u64, b: u64)
        requires
            self.reachable(roots, a),
            self.edge(a, b),
        ensures
            self.reachable(roots, b),
    {
        let p = choose|p: Seq<u64>| self.path_from(roots, p, a);
        let q = p.push(b);
        assert forall|i: int| 0 <= i < q.len() - 1 implies self.edge(#[trigger] q[i], q[i + 1]) by {
            if i < p.len() - 1 {
                assert(self.edge(p[i], p[i + 1]));
            }
        }
        assert(q[0] == p[0]);
        assert(self.path_from(roots, q, b));
    }

    /// A set of addresses that holds the roots' targets and whatever its
    /// objects refer to holds everything reachable.
    pub proof fn lemma_closed_holds_reachable(
        &self,
        roots: Seq<TaggedPointer>,
        closed: Set<u64>,
        p: Seq<u64>,
        a: u64,
    )
        requires
            self.path_from(roots, p, a),
            forall|r: u64| is_root(roots, r) ==> closed.contains(r),
            forall|x: u64, y: u64| closed.contains(x) && self.edge(x, y) ==> closed.contains(y),
        ensures
            closed.contains(a),
        decreases p.len(),
    {
        if p.len() > 1 {
            let q = p.drop_last();
            let x = q.last();
            assert forall|i: int| 0 <= i < q.len() - 1 implies self.edge(#[trigger] q[i], q[i + 1]) by {
                assert(self.edge(p[i], p[i + 1]));
            }
            assert(q[0] == p[0]);
            self.lemma_closed_holds_reachable(roots, closed, q, x);
            assert(self.edge(p[p.len() - 2], p[p.len() - 2 + 1]));
        }
    }

    /// While tracing, the heap holds the objects of its origin, with the
    /// same fields.
    pub(crate) proof fn lemma_traces_cells(&self, origin: Heap, a: u64)
        requires
            self.traces(origin),
        ensures
            unmarked(self.cell_at(a)) == origin.cell_at(a),
            self.contains(a) <==> origin.contains(a),
            self.contains(a) ==> self.cell_at(a)->0.spec_fields() == origin@[a].fields,
            self.layout_wf(),
    {
        reveal(Heap::traces);
        assert forall|t: int|
            0 <= t < self.slots@.len() && (#[trigger] self.slots@[t]) is Some
                implies self.slots@[t]->0.layout_wf() by {
            assert(self.slots@[t]->0.traces(origin.slots@[t]->0));
        }
        let s = slot_of(a);
        if a % 8 == 0 && 0 <= s < self.slots@.len() && self.slots@[s] is Some {
            let o = offset_of(a);
            assert(self.slots@[s]->0.traces(origin.slots@[s]->0));
            assert(unmarked(self.slots@[s]->0.cells@[o]) == origin.slots@[s]->0.cells@[o]);
        }
    }

    /// A heap between collections traces itself.
    pub(crate) proof fn lemma_traces_self(&self)
        requires
            self.wf(),
        ensures
            self.traces(*self),
            forall|a: u64| !self.marked_at(a),
    {
        reveal(Heap::traces);
        reveal(Heap::marked_at);
        assert forall|s: int|
            0 <= s < self.slots@.len() && (#[trigger] self.slots@[s]) is Some
                implies self.slots@[s]->0.traces(self.slots@[s]->0) by {
            let block = self.slots@[s]->0;
            block.lemma_wf_gc_wf();
            assert forall|j: int| 0 <= j < BLOCK_WORDS implies unmarked(#[trigger] block.cells@[j])
                == block.cells@[j] by {
                assert(!is_marked(block.cells@, j));
            }
        }
        assert forall|a: u64| !self.marked_at(a) by {
            let s = slot_of(a);
            if a % 8 == 0 && 0 <= s < self.slots@.len() && self.slots@[s] is Some {
                assert(!is_marked(self.slots@[s]->0.cells@, offset_of(a)));
            }
        }
    }

    /// Marks the object that `word` refers to, if it refers to one, and
    /// pushes its address when the mark is new. Returns `false`, changing
    /// nothing, when the word refers to memory that holds no object.
    pub(crate) fn shade(
        &mut self,
        word: TaggedPointer,
        stack: &mut Vec<u64>,
        Ghost(origin): Ghost<Heap>,
    ) -> (ok: bool)
        requires
            old(self).traces(origin),
        ensures
            final(self).traces(origin),
            ok <==> (word.target() matches Some(b) ==> origin.contains(b)),
            !ok ==> *final(self) == *old(self) && final(stack)@ == old(stack)@,
            ok ==> forall|a: u64|
                #[trigger] final(self).marked_at(a) <==> old(self).marked_at(a) || word.target()
                    == Some(a),
            ok && word.target() is Some && !old(self).marked_at(word.target()->0) ==> {
                &&& final(stack)@ == old(stack)@.push(word.target()->0)
                &&& unmarked_total(final(self).slots@) + 1 == unmarked_total(old(self).slots@)
            },
            ok && !(word.target() is Some && !old(self).marked_at(word.target()->0)) ==> {
                &&& final(stack)@ == old(stack)@
                &&& unmarked_total(final(self).slots@) == unmarked_total(old(self).slots@)
            },
    {
        let address = match word.decode() {
            Value::Immediate(_) => {
                return true;
            },
            Value::Reference(address) => address,
        };
        if address == 0 {
            return true;
        }
        assert(word.target() == Some(address));
        let ghost before = *self;
        proof {
            reveal(Heap::traces);
            reveal(Heap::marked_at);
            before.lemma_traces_cells(origin, address);
        }
        let (s, o) = match self.locate(address) {
            Some(place) => place,
            None => {
                return false;
            },
        };
        let mut newly = false;
        match &mut self.slots[s] {
            Some(block) => {
                newly = block.mark(o);
            },
            None => {},
        }
        proof {
            let b0 = before.slots@[s as int]->0;
            let b1 = self.slots@[s as int]->0;
            let g0 = origin.slots@[s as int]->0;
            assert(b0.traces(g0));
            assert(self.slots@ == before.slots@.update(s as int, Some(b1)));
            assert(b1.traces(g0)) by {
                assert forall|j: int| 0 <= j < BLOCK_WORDS implies unmarked(#[trigger] b1.cells@[j])
                    == g0.cells@[j] by {
                    assert(unmarked(b0.cells@[j]) == g0.cells@[j]);
                }
            }
            assert(self.traces(origin)) by {
                assert forall|t: int|
                    0 <= t < origin.slots@.len() && (#[trigger] self.slots@[t]) is Some
                        implies self.slots@[t]->0.traces(origin.slots@[t]->0) by {
                    if t != s {
                        assert(before.slots@[t] is Some);
                    }
                }
            }
            before.lemma_cell_changed(*self, s as int, o as int);
            assert forall|a: u64| #[trigger]
                self.marked_at(a) <==> before.marked_at(a) || word.target() == Some(a) by {
                if a != address {
                    assert(self.cell_at(a) == before.cell_at(a));
                }
            }
            if newly {
                lemma_total_update(before.slots@, s as int, b1);
            } else {
                assert(b1.cells@ == b0.cells@);
                assert(self.slots@[s as int]->0.cells@ == before.slots@[s as int]->0.cells@);
                lemma_total_same(before.slots@, self.slots@);
            }
        }
        if newly {
            stack.push(address);
        }
        true
    }
}

/// Slots whose blocks hold the same cells count the same unmarked objects.
pub(crate) proof fn lemma_total_same(a: Seq<Option<Block>>, b: Seq<Option<Block>>)
    requires
        a.len() == b.len(),
        forall|s: int| 0 <= s < a.len() ==> ((#[trigger] a[s]) is Some <==> b[s] is Some),
        forall|s: int|
            0 <= s < a.len() && (#[trigger] a[s]) is Some ==> a[s]->0.cells@ == b[s]->0.cells@,
    ensures
        unmarked_total(a) == unmarked_total(b),
    decreases a.len(),
{
    if a.len() > 0 {
        let a1 = a.drop_last();
        let b1 = b.drop_last();
        assert forall|s: int| 0 <= s < a1.len() implies ((#[trigger] a1[s]) is Some <==> b1[s]
            is Some) by {
            assert(a[s] is Some <==> b[s] is Some);
        }
        assert forall|s: int| 0 <= s < a1.len() && (#[trigger] a1[s]) is Some implies a1[s]->0.cells@
            == b1[s]->0.cells@ by {
            assert(a[s] is Some);
        }
        lemma_total_same(a1, b1);
        assert(a[a.len() - 1] is Some <==> b[a.len() - 1] is Some);
    }
}


impl Heap {
    /// The invariant of tracing: every marked object is reachable, the stack
    /// holds marked objects only, and every marked object that is neither on
    /// the stack nor `current` has all its fields scanned.
    #[verifier::opaque]
    pub(crate) open spec fn tri_color(
        &self,
        origin: Heap,
        roots: Seq<TaggedPointer>,
        stack: Seq<u64>,
        current: Option<u64>,
    ) -> bool {
        &&& forall|a: u64| #[trigger] self.marked_at(a) ==> origin.reachable(roots, a)
        &&& forall|k: int| 0 <= k < stack.len() ==> self.marked_at(#[trigger] stack[k])
        &&& forall|a: u64| #[trigger]
            self.marked_at(a) && !stack.contains(a) && Some(a) != current ==> self.scanned(
                origin,
                a,
                origin@[a].fields.len() as int,
            )
    }

    /// Whether the targets of the first `upto` roots are marked.
    #[verifier::opaque]
    pub(crate) open spec fn roots_shaded(&self, roots: Seq<TaggedPointer>, upto: int) -> bool {
        forall|i: int|
            0 <= i < upto && i < roots.len() ==> ((#[trigger] roots[i]).target() is Some
                ==> self.marked_at(roots[i].target()->0))
    }

    /// Marks that are set stay set, so what was scanned stays scanned.
    pub(crate) proof fn lemma_scanned_grows(&self, after: Heap, origin: Heap, a: u64, upto: int)
        requires
            self.scanned(origin, a, upto),
            forall|x: u64| #[trigger] self.marked_at(x) ==> after.marked_at(x),
        ensures
            after.scanned(origin, a, upto),
    {
        reveal(Heap::scanned);
        assert forall|i: int| 0 <= i < upto && i < origin@[a].fields.len() implies match (
        #[trigger] origin@[a].fields[i]).target() {
            Some(b) => after.marked_at(b),
            None => true,
        } by {
            if origin@[a].fields[i].target() is Some {
                assert(self.marked_at(origin@[a].fields[i].target()->0));
            }
        }
    }

    /// Before anything is marked the invariant of tracing holds.
    pub(crate) proof fn lemma_trace_starts(&self, roots: Seq<TaggedPointer>)
        requires
            self.wf(),
        ensures
            self.traces(*self),
            self.tri_color(*self, roots, Seq::<u64>::empty(), None),
            self.roots_shaded(roots, 0),
    {
        self.lemma_traces_self();
        reveal(Heap::tri_color);
        reveal(Heap::roots_shaded);
    }

    /// A successful `shade` keeps the invariant of tracing.
    pub(crate) proof fn lemma_shaded(
        before: Heap,
        after: Heap,
        origin: Heap,
        roots: Seq<TaggedPointer>,
        stack0: Seq<u64>,
        stack1: Seq<u64>,
        word: TaggedPointer,
        current: Option<u64>,
    )
        requires
            before.tri_color(origin, roots, stack0, current),
            word.target() is Some ==> origin.reachable(roots, word.target()->0),
            forall|a: u64| #[trigger]
                after.marked_at(a) <==> before.marked_at(a) || word.target() == Some(a),
            word.target() is Some && !before.marked_at(word.target()->0) ==> stack1 == stack0.push(
                word.target()->0,
            ),
            !(word.target() is Some && !before.marked_at(word.target()->0)) ==> stack1 == stack0,
        ensures
            after.tri_color(origin, roots, stack1, current),
    {
        reveal(Heap::tri_color);
        assert forall|k: int| 0 <= k < stack1.len() implies after.marked_at(#[trigger] stack1[k]) by {
            if k < stack0.len() {
                assert(before.marked_at(stack0[k]));
            }
        }
        assert forall|a: u64| #[trigger]
            after.marked_at(a) && !stack1.contains(a) && Some(a) != current implies after.scanned(
            origin,
            a,
            origin@[a].fields.len() as int,
        ) by {
            if before.marked_at(a) {
                if stack0.contains(a) {
                    let k = choose|k: int| 0 <= k < stack0.len() && stack0[k] == a;
                    assert(stack1[k] == a);
                }
                before.lemma_scanned_grows(after, origin, a, origin@[a].fields.len() as int);
            } else {
                assert(word.target() == Some(a));
                assert(stack1[stack1.len() - 1] == a);
            }
        }
    }

    /// Once a root has been shaded, one more root has its target marked.
    pub(crate) proof fn lemma_root_shaded(
        before: Heap,
        after: Heap,
        roots: Seq<TaggedPointer>,
        upto: int,
        word: TaggedPointer,
    )
        requires
            before.roots_shaded(roots, upto),
            0 <= upto < roots.len(),
            word == roots[upto],
            forall|a: u64| #[trigger]
                after.marked_at(a) <==> before.marked_at(a) || word.target() == Some(a),
        ensures
            after.roots_shaded(roots, upto + 1),
    {
        reveal(Heap::roots_shaded);
        assert forall|i: int|
            0 <= i < upto + 1 && i < roots.len() && (#[trigger] roots[i]).target()
                is Some implies after.marked_at(roots[i].target()->0) by {
            if i < upto && roots[i].target() is Some {
                assert(before.marked_at(roots[i].target()->0));
            }
        }
    }

    /// Shading a field leaves the roots' targets marked.
    pub(crate) proof fn lemma_roots_stay_shaded(
        before: Heap,
        after: Heap,
        roots: Seq<TaggedPointer>,
        word: TaggedPointer,
    )
        requires
            before.roots_shaded(roots, roots.len() as int),
            forall|a: u64| #[trigger]
                after.marked_at(a) <==> before.marked_at(a) || word.target() == Some(a),
        ensures
            after.roots_shaded(roots, roots.len() as int),
    {
        reveal(Heap::roots_shaded);
        assert forall|i: int|
            0 <= i < roots.len() && (#[trigger] roots[i]).target() is Some implies after.marked_at(
            roots[i].target()->0,
        ) by {
            if roots[i].target() is Some {
                assert(before.marked_at(roots[i].target()->0));
            }
        }
    }

    /// The object taken from the stack is marked and lives in the heap; the
    /// invariant of tracing holds with that object as the current one.
    pub(crate) proof fn lemma_popped(
        &self,
        origin: Heap,
        roots: Seq<TaggedPointer>,
        full: Seq<u64>,
        current: u64,
    )
        requires
            self.traces(origin),
            self.tri_color(origin, roots, full, None),
            full.len() > 0,
            current == full[full.len() - 1],
        ensures
            self.tri_color(origin, roots, full.drop_last(), Some(current)),
            self.marked_at(current),
            self.scanned(origin, current, 0),
    {
        reveal(Heap::tri_color);
        reveal(Heap::scanned);
        let rest = full.drop_last();
        assert forall|k: int| 0 <= k < rest.len() implies self.marked_at(#[trigger] rest[k]) by {
            assert(self.marked_at(full[k]));
        }
        assert forall|a: u64| #[trigger]
            self.marked_at(a) && !rest.contains(a) && Some(a) != Some(current) implies self.scanned(
            origin,
            a,
            origin@[a].fields.len() as int,
        ) by {
            if full.contains(a) {
                let k = choose|k: int| 0 <= k < full.len() && full[k] == a;
                assert(rest[k] == a);
            }
        }
    }

    /// A marked object lives in the heap, with the fields it had when
    /// tracing began.
    pub(crate) proof fn lemma_marked_present(&self, origin: Heap, a: u64)
        requires
            self.traces(origin),
            self.marked_at(a),
        ensures
            self.layout_wf(),
            self.contains(a),
            origin.contains(a),
            self.cell_at(a)->0.spec_fields() == origin@[a].fields,
    {
        reveal(Heap::marked_at);
        self.lemma_traces_cells(origin, a);
    }

    /// What a field of a marked object refers to is reachable.
    pub(crate) proof fn lemma_field_reachable(
        &self,
        origin: Heap,
        roots: Seq<TaggedPointer>,
        stack: Seq<u64>,
        current: u64,
        i: int,
    )
        requires
            self.traces(origin),
            self.tri_color(origin, roots, stack, Some(current)),
            self.marked_at(current),
            0 <= i < origin@[current].fields.len(),
        ensures
            origin@[current].fields[i].target() is Some ==> origin.reachable(
                roots,
                origin@[current].fields[i].target()->0,
            ),
    {
        reveal(Heap::tri_color);
        self.lemma_marked_present(origin, current);
        let word = origin@[current].fields[i];
        if word.target() is Some {
            assert(origin.edge(current, word.target()->0));
            origin.lemma_reachable_step(roots, current, word.target()->0);
        }
    }

    /// Once a field has been shaded, one more field of the current object is
    /// scanned.
    pub(crate) proof fn lemma_field_scanned(
        before: Heap,
        after: Heap,
        origin: Heap,
        current: u64,
        i: int,
        word: TaggedPointer,
    )
        requires
            before.scanned(origin, current, i),
            0 <= i < origin@[current].fields.len(),
            word == origin@[current].fields[i],
            forall|a: u64| #[trigger]
                after.marked_at(a) <==> before.marked_at(a) || word.target() == Some(a),
        ensures
            after.scanned(origin, current, i + 1),
    {
        before.lemma_scanned_grows(after, origin, current, i);
        reveal(Heap::scanned);
    }

    /// When every field of the current object is scanned, the invariant of
    /// tracing holds without a current object.
    pub(crate) proof fn lemma_current_done(
        &self,
        origin: Heap,
        roots: Seq<TaggedPointer>,
        stack: Seq<u64>,
        current: u64,
    )
        requires
            self.tri_color(origin, roots, stack, Some(current)),
            self.scanned(origin, current, origin@[current].fields.len() as int),
        ensures
            self.tri_color(origin, roots, stack, None),
    {
        reveal(Heap::tri_color);
    }

    /// When the stack is empty and every root has been shaded, the marked
    /// objects are the reachable ones, and no reference leads astray.
    pub(crate) proof fn lemma_trace_complete(&self, origin: Heap, roots: Seq<TaggedPointer>)
        requires
            self.traces(origin),
            self.tri_color(origin, roots, Seq::<u64>::empty(), None),
            self.roots_shaded(roots, roots.len() as int),
        ensures
            forall|a: u64| #[trigger] self.marked_at(a) <==> origin.reachable(roots, a),
            !origin.dangling(roots),
    {
        reveal(Heap::tri_color);
        reveal(Heap::roots_shaded);
        let closed = Set::new(|a: u64| self.marked_at(a));
        let none = Seq::<u64>::empty();
        assert forall|x: u64, y: u64| closed.contains(x) && origin.edge(x, y) implies closed.contains(
            y,
        ) by {
            assert(self.marked_at(x));
            assert(!none.contains(x));
            assert(self.scanned(origin, x, origin@[x].fields.len() as int));
            reveal(Heap::scanned);
            let i = choose|i: int|
                0 <= i < origin@[x].fields.len() && (#[trigger] origin@[x].fields[i]).target() == Some(
                    y,
                );
            assert(origin@[x].fields[i].target() == Some(y));
        }
        assert forall|x: u64| is_root(roots, x) implies closed.contains(x) by {
            let i = choose|i: int| 0 <= i < roots.len() && (#[trigger] roots[i]).target() == Some(x);
            assert(roots[i].target() is Some);
        }
        assert forall|a: u64| origin.reachable(roots, a) implies self.marked_at(a) by {
            let p = choose|p: Seq<u64>| origin.path_from(roots, p, a);
            origin.lemma_closed_holds_reachable(roots, closed, p, a);
        }
        assert(!origin.dangling(roots)) by {
            if origin.dangling(roots) {
                let a = choose|a: u64| origin.reachable(roots, a) && !origin.contains(a);
                assert(self.marked_at(a));
                self.lemma_marked_present(origin, a);
            }
        }
    }

    /// A reachable address that holds no object is a dangling reference.
    pub(crate) proof fn lemma_found_dangling(&self, roots: Seq<TaggedPointer>, a: u64)
        requires
            self.reachable(roots, a),
            !self.contains(a),
        ensures
            self.dangling(roots),
    {
    }

    /// The number of fields of the object at `address`, read while tracing.
    pub(crate) fn peek_count(&self, address: u64) -> (n: usize)
        requires
            self.layout_wf(),
            self.contains(address),
        ensures
            n == self.cell_at(address)->0.spec_fields().len(),
    {
        match self.locate(address) {
            Some((s, o)) => match &self.slots[s] {
                Some(block) => match &block.cells[o] {
                    Some(object) => object.fields.len(),
                    None => 0,
                },
                None => 0,
            },
            None => 0,
        }
    }

    /// A field of the object at `address`, read while tracing.
    pub(crate) fn peek_field(&self, address: u64, index: usize) -> (word: TaggedPointer)
        requires
            self.layout_wf(),
            self.contains(address),
            index < self.cell_at(address)->0.spec_fields().len(),
        ensures
            word == self.cell_at(address)->0.spec_fields()[index as int],
    {
        match self.locate(address) {
            Some((s, o)) => match &self.slots[s] {
                Some(block) => match &block.cells[o] {
                    Some(object) => object.fields[index],
                    None => TaggedPointer::null(),
                },
                None => TaggedPointer::null(),
            },
            None => TaggedPointer::null(),
        }
    }

    /// Marks every object that can be reached from the roots, and the lines
    /// those objects overlap. Returns `false` as soon as a reference leads
    /// to memory that holds no object.
    pub(crate) fn trace(&mut self, roots: &Vec<TaggedPointer>) -> (ok: bool)
        requires
            old(self).wf(),
        ensures
            final(self).traces(*old(self)),
            ok <==> !old(self).dangling(roots@),
            ok ==> forall|a: u64| #[trigger]
                final(self).marked_at(a) <==> old(self).reachable(roots@, a),
    {
        let ghost origin = *self;
        proof {
            origin.lemma_trace_starts(roots@);
        }
        let mut stack: Vec<u64> = Vec::new();
        let mut r: usize = 0;
        while r < roots.len()
            invariant
                r <= roots.len(),
                origin == *old(self),
                self.traces(origin),
                self.tri_color(origin, roots@, stack@, None),
                self.roots_shaded(roots@, r as int),
            decreases roots.len() - r,
        {
            let word = roots[r];
            let ghost before = *self;
            let ghost stack0 = stack@;
            proof {
                if word.target() is Some {
                    origin.lemma_root_reachable(roots@, r as int, word.target()->0);
                }
            }
            let ok = self.shade(word, &mut stack, Ghost(origin));
            if !ok {
                proof {
                    origin.lemma_found_dangling(roots@, word.target()->0);
                }
                return false;
            }
            proof {
                Heap::lemma_shaded(before, *self, origin, roots@, stack0, stack@, word, None);
                Heap::lemma_root_shaded(before, *self, roots@, r as int, word);
            }
            r += 1;
        }
        while stack.len() > 0
            invariant
                origin == *old(self),
                self.traces(origin),
                self.tri_color(origin, roots@, stack@, None),
                self.roots_shaded(roots@, roots@.len() as int),
            decreases unmarked_total(self.slots@), stack@.len(),
        {
            let ghost total0 = unmarked_total(self.slots@);
            let ghost len0 = stack@.len();
            let ghost full = stack@;
            let top = stack.pop();
            let current: u64 = match top {
                Some(a) => a,
                None => 0,
            };
            proof {
                assert(stack@ == full.drop_last());
                self.lemma_popped(origin, roots@, full, current);
                self.lemma_marked_present(origin, current);
            }
            let count = self.peek_count(current);
            let mut i: usize = 0;
            while i < count
                invariant
                    i <= count,
                    count == origin@[current].fields.len(),
                    origin == *old(self),
                    self.traces(origin),
                    self.marked_at(current),
                    self.tri_color(origin, roots@, stack@, Some(current)),
                    self.scanned(origin, current, i as int),
                    self.roots_shaded(roots@, roots@.len() as int),
                    (unmarked_total(self.slots@) == total0 && stack@.len() == len0 - 1)
                        || unmarked_total(self.slots@) < total0,
                decreases count - i,
            {
                proof {
                    self.lemma_marked_present(origin, current);
                    self.lemma_field_reachable(origin, roots@, stack@, current, i as int);
                }
                let word = self.peek_field(current, i);
                let ghost before = *self;
                let ghost stack0 = stack@;
                let ok = self.shade(word, &mut stack, Ghost(origin));
                if !ok {
                    proof {
                        origin.lemma_found_dangling(roots@, word.target()->0);
                    }
                    return false;
                }
                proof {
                    Heap::lemma_shaded(
                        before,
                        *self,
                        origin,
                        roots@,
                        stack0,
                        stack@,
                        word,
                        Some(current),
                    );
                    Heap::lemma_roots_stay_shaded(before, *self, roots@, word);
                    Heap::lemma_field_scanned(before, *self, origin, current, i as int, word);
                }
                i += 1;
            }
            proof {
                self.lemma_current_done(origin, roots@, stack@, current);
            }
        }
        proof {
            assert(stack@ == Seq::<u64>::empty());
            self.lemma_trace_complete(origin, roots@);
        }
        true
    }
}


/// Putting a block into a slot, or taking one out, changes the number of
/// blocks owned by what the slot gains or loses.
pub(crate) proof fn lemma_owned_update(slots: Seq<Option<Block>>, s: int, entry: Option<Block>)
    requires
        0 <= s < slots.len(),
    ensures
        owned(slots.update(s, entry)) + (if slots[s] is Some {
            1nat
        } else {
            0nat
        }) == owned(slots) + (if entry is Some {
            1nat
        } else {
            0nat
        }),
    decreases slots.len(),
{
    let updated = slots.update(s, entry);
    if s == slots.len() - 1 {
        assert(updated.drop_last() == slots.drop_last());
    } else {
        assert(updated.drop_last() == slots.drop_last().update(s, entry));
        lemma_owned_update(slots.drop_last(), s, entry);
    }
}

/// Whether some line of a block that is being traced is marked.
pub(crate) open spec fn any_line_marked(block: Block) -> bool {
    exists|k: int| 0 <= k < LINES_PER_BLOCK && line_marked(block.cells@, k)
}

/// Whether `now` is what sweeping leaves of a traced slot: nothing, if the
/// slot was vacant or no line of its block is marked; else the block with
/// its unmarked objects gone and its line marks as line bits.
pub(crate) open spec fn swept_slot(traced: Option<Block>, now: Option<Block>) -> bool {
    match traced {
        None => now is None,
        Some(block) => if any_line_marked(block) {
            &&& now is Some
            &&& now->0.wf()
            &&& now->0.cursor == 0
            &&& now->0.limit == 0
            &&& forall|j: int|
                0 <= j < BLOCK_WORDS ==> #[trigger] now->0.cells@[j] == swept(block.cells@[j])
            &&& forall|k: int|
                0 <= k < LINES_PER_BLOCK ==> (#[trigger] now->0.lines@[k] <==> line_marked(
                    block.cells@,
                    k,
                ))
        } else {
            now is None
        },
    }
}

/// Whether `now` is a traced slot with every mark cleared.
pub(crate) open spec fn restored_slot(traced: Option<Block>, now: Option<Block>) -> bool {
    match traced {
        None => now is None,
        Some(block) => {
            &&& now is Some
            &&& now->0.wf()
            &&& now->0.layout() == block.layout()
            &&& forall|j: int|
                0 <= j < BLOCK_WORDS ==> #[trigger] now->0.cells@[j] == unmarked(block.cells@[j])
        },
    }
}

impl Heap {
    /// Whether slot `s` holds a block.
    pub open(crate) spec fn block_present(&self, s: int) -> bool {
        0 <= s < self.slots@.len() && self.slots@[s] is Some
    }

    /// Whether line `k` of the block in slot `s` is in use.
    pub open(crate) spec fn line_used(&self, s: int, k: int) -> bool {
        self.block_present(s) && 0 <= k < LINES_PER_BLOCK && self.slots@[s]->0.lines@[k]
    }

    /// Free, recyclable or full, for the block in slot `s`; `None` when the
    /// slot is vacant.
    pub open(crate) spec fn spec_block_state(&self, s: int) -> Option<BlockState> {
        if self.block_present(s) {
            Some(self.slots@[s]->0.spec_state())
        } else {
            None
        }
    }

    /// Whether word `w` of the block in slot `s` can be handed out to the
    /// next allocation.
    pub open(crate) spec fn word_available(&self, s: int, w: int) -> bool {
        self.block_present(s) && self.slots@[s]->0.available(w)
    }

    /// Whether the object at `a` lives in slot `s` and overlaps line `k` of
    /// its block.
    pub open spec fn overlaps(&self, a: u64, s: int, k: int) -> bool {
        &&& self.contains(a)
        &&& slot_of(a) == s
        &&& offset_of(a) < (k + 1) * LINE_WORDS
        &&& k * LINE_WORDS < offset_of(a) + HEADER_WORDS + self@[a].fields.len()
    }

    /// Whether a reachable object overlaps line `k` of the block in slot
    /// `s`.
    pub open spec fn line_reached(&self, roots: Seq<TaggedPointer>, s: int, k: int) -> bool {
        exists|a: u64| self.reachable(roots, a) && self.overlaps(a, s, k)
    }

    /// Whether a reachable object lives in the block in slot `s`.
    pub open spec fn block_reached(&self, roots: Seq<TaggedPointer>, s: int) -> bool {
        exists|k: int| 0 <= k < LINES_PER_BLOCK && self.line_reached(roots, s, k)
    }

    /// Where the heap stands with allocation after a collection from
    /// `roots`: a block stays where a reachable object lives in it, its
    /// lines are in use where reachable objects overlap them, and
    /// allocation starts over at its first word.
    pub open spec fn collected_layout(&self, roots: Seq<TaggedPointer>) -> HeapLayout {
        HeapLayout {
            blocks: Seq::new(
                self.spec_slots().len(),
                |s: int|
                    if self.block_reached(roots, s) {
                        Some(
                            BlockLayout {
                                lines: Seq::new(
                                    LINES_PER_BLOCK as nat,
                                    |k: int| self.line_reached(roots, s, k),
                                ),
                                cursor: 0,
                                limit: 0,
                            },
                        )
                    } else {
                        None
                    },
            ),
            budget: self.spec_budget(),
        }
    }

    /// Whether `after` is what a collection from `roots` makes of `before`:
    /// the reachable objects stay where and as they were, everything else is
    /// gone, a line is in use exactly when a reachable object overlaps it,
    /// no block is kept that has no line in use, and every word of every
    /// free line of a block that is kept can be handed out again.
    pub open spec fn collected(before: Heap, roots: Seq<TaggedPointer>, after: Heap) -> bool {
        &&& !before.dangling(roots)
        &&& after.spec_slots().len() == before.spec_slots().len()
        &&& after.spec_budget() == before.spec_budget()
        &&& forall|a: u64| #[trigger] after.contains(a) <==> before.reachable(roots, a)
        &&& forall|a: u64| #[trigger] after.contains(a) ==> after@[a] == before@[a]
        &&& forall|s: int, k: int|
            0 <= s < before.spec_slots().len() && 0 <= k < LINES_PER_BLOCK ==> (
            #[trigger] after.line_used(s, k) <==> before.line_reached(roots, s, k))
        &&& forall|s: int| #[trigger]
            after.block_present(s) ==> after.spec_block_state(s) != Some(BlockState::Free)
        &&& forall|s: int, w: int|
            0 <= w < BLOCK_WORDS ==> (#[trigger] after.word_available(s, w) <==> after.block_present(s)
                && !after.line_used(s, w / LINE_WORDS as int))
        &&& after.layout() == before.collected_layout(roots)
    }

    /// Every object that can be reached from the roots is still there after
    /// a collection, at the same address and with the same contents.
    pub proof fn lemma_reachable_survives(
        before: Heap,
        roots: Seq<TaggedPointer>,
        after: Heap,
        a: u64,
    )
        requires
            Heap::collected(before, roots, after),
            before.reachable(roots, a),
        ensures
            before.contains(a),
            after.contains(a),
            after@[a] == before@[a],
    {
        assert(after.contains(a));
    }

    /// An object that cannot be reached from the roots is gone after a
    /// collection, and its block has gone back to the pool or is
    /// recyclable, unless reachable objects overlap every line of the block.
    pub proof fn lemma_unreachable_reclaimed(
        before: Heap,
        roots: Seq<TaggedPointer>,
        after: Heap,
        a: u64,
        k: int,
    )
        requires
            after.wf(),
            Heap::collected(before, roots, after),
            before.contains(a),
            !before.reachable(roots, a),
            0 <= k < LINES_PER_BLOCK,
            !before.line_reached(roots, slot_of(a), k),
        ensures
            !after.contains(a),
            after.spec_block_state(slot_of(a)) is None || after.spec_block_state(slot_of(a)) == Some(
                BlockState::Recyclable,
            ),
    {
        let s = slot_of(a);
        assert(!after.contains(a));
        if after.block_present(s) {
            assert(!after.line_used(s, k));
            assert(after.spec_block_state(s) != Some(BlockState::Free));
            assert(after.slots@[s]->0.wf());
            assert(!after.slots@[s]->0.lines@[k]);
        }
    }

    /// No block that holds a reachable object is given back to the pool by a
    /// collection.
    pub proof fn lemma_no_premature_free(
        before: Heap,
        roots: Seq<TaggedPointer>,
        after: Heap,
        a: u64,
    )
        requires
            Heap::collected(before, roots, after),
            before.reachable(roots, a),
        ensures
            before.block_present(slot_of(a)),
            after.block_present(slot_of(a)),
    {
        assert(after.contains(a));
        assert(!before.dangling(roots));
        assert(before.contains(a));
    }
}


/// Slots that hold blocks in the same places own the same number of blocks.
pub(crate) proof fn lemma_owned_same(a: Seq<Option<Block>>, b: Seq<Option<Block>>)
    requires
        a.len() == b.len(),
        forall|s: int| 0 <= s < a.len() ==> ((#[trigger] a[s]) is Some <==> b[s] is Some),
    ensures
        owned(a) == owned(b),
    decreases a.len(),
{
    if a.len() > 0 {
        let a1 = a.drop_last();
        let b1 = b.drop_last();
        assert forall|s: int| 0 <= s < a1.len() implies ((#[trigger] a1[s]) is Some <==> b1[s]
            is Some) by {
            assert(a[s] is Some <==> b[s] is Some);
        }
        lemma_owned_same(a1, b1);
        assert(a[a.len() - 1] is Some <==> b[a.len() - 1] is Some);
    }
}

impl Heap {
    /// What sweeping makes of the cell at one address.
    pub(crate) proof fn lemma_swept_cell(
        origin: Heap,
        traced: Heap,
        now: Heap,
        roots: Seq<TaggedPointer>,
        a: u64,
    )
        requires
            origin.wf(),
            traced.traces(origin),
            forall|x: u64| #[trigger] traced.marked_at(x) <==> origin.reachable(roots, x),
            now.slots@.len() == traced.slots@.len(),
            forall|s: int|
                0 <= s < traced.slots@.len() ==> swept_slot(
                    #[trigger] traced.slots@[s],
                    now.slots@[s],
                ),
        ensures
            now.contains(a) <==> origin.reachable(roots, a),
            now.contains(a) ==> now.cell_at(a) == origin.cell_at(a),
    {
        reveal(Heap::traces);
        reveal(Heap::marked_at);
        traced.lemma_traces_cells(origin, a);
        let s = slot_of(a);
        let o = offset_of(a);
        assert(traced.marked_at(a) <==> origin.reachable(roots, a));
        if a % 8 == 0 && 0 <= s < traced.slots@.len() {
            assert(swept_slot(traced.slots@[s], now.slots@[s]));
            if traced.slots@[s] is Some {
                let b = traced.slots@[s]->0;
                assert(b.traces(origin.slots@[s]->0));
                assert(unmarked(b.cells@[o]) == origin.slots@[s]->0.cells@[o]);
                if any_line_marked(b) {
                    assert(now.slots@[s]->0.cells@[o] == swept(b.cells@[o]));
                } else {
                    if traced.marked_at(a) {
                        let k = o / LINE_WORDS as int;
                        assert(covers(b.cells@, o, k) && is_marked(b.cells@, o));
                        assert(line_marked(b.cells@, k));
                    }
                }
            }
        }
    }

    /// What sweeping makes of one line.
    pub(crate) proof fn lemma_swept_line(
        origin: Heap,
        traced: Heap,
        now: Heap,
        roots: Seq<TaggedPointer>,
        s: int,
        k: int,
    )
        requires
            origin.wf(),
            traced.traces(origin),
            forall|x: u64| #[trigger] traced.marked_at(x) <==> origin.reachable(roots, x),
            now.slots@.len() == traced.slots@.len(),
            forall|s: int|
                0 <= s < traced.slots@.len() ==> swept_slot(
                    #[trigger] traced.slots@[s],
                    now.slots@[s],
                ),
            0 <= s < traced.slots@.len(),
            0 <= k < LINES_PER_BLOCK,
        ensures
            now.line_used(s, k) <==> origin.line_reached(roots, s, k),
            now.block_present(s) ==> now.spec_block_state(s) != Some(BlockState::Free),
    {
        reveal(Heap::traces);
        reveal(Heap::marked_at);
        assert(swept_slot(traced.slots@[s], now.slots@[s]));
        if traced.slots@[s] is Some {
            let b = traced.slots@[s]->0;
            assert(b.traces(origin.slots@[s]->0));
            if now.block_present(s) {
                let kk = choose|kk: int| 0 <= kk < LINES_PER_BLOCK && line_marked(b.cells@, kk);
                assert(now.slots@[s]->0.lines@[kk]);
            }
            if now.line_used(s, k) {
                assert(line_marked(b.cells@, k));
                let j = choose|j: int| covers(b.cells@, j, k) && is_marked(b.cells@, j);
                Heap::lemma_address(s, j);
                let a = address_of(s, j) as u64;
                traced.lemma_traces_cells(origin, a);
                assert(traced.marked_at(a));
                assert(origin.overlaps(a, s, k));
            }
            if origin.line_reached(roots, s, k) {
                let a = choose|a: u64| origin.reachable(roots, a) && origin.overlaps(a, s, k);
                traced.lemma_traces_cells(origin, a);
                assert(traced.marked_at(a));
                let j = offset_of(a);
                assert(covers(b.cells@, j, k) && is_marked(b.cells@, j));
                assert(line_marked(b.cells@, k));
                assert(any_line_marked(b));
            }
        } else {
            if origin.line_reached(roots, s, k) {
                let a = choose|a: u64| origin.reachable(roots, a) && origin.overlaps(a, s, k);
                traced.lemma_traces_cells(origin, a);
            }
        }
    }

    /// A heap whose slots have all been swept is well formed and is what a
    /// collection makes of the heap that was traced.
    pub(crate) proof fn lemma_swept_heap(
        origin: Heap,
        traced: Heap,
        now: Heap,
        roots: Seq<TaggedPointer>,
    )
        requires
            origin.wf(),
            !origin.dangling(roots),
            traced.traces(origin),
            forall|x: u64| #[trigger] traced.marked_at(x) <==> origin.reachable(roots, x),
            now.slots@.len() == traced.slots@.len(),
            now.budget == origin.budget,
            forall|s: int|
                0 <= s < traced.slots@.len() ==> swept_slot(
                    #[trigger] traced.slots@[s],
                    now.slots@[s],
                ),
        ensures
            now.wf(),
            Heap::collected(origin, roots, now),
    {
        assert(now.wf()) by {
            reveal(Heap::traces);
            assert forall|s: int|
                0 <= s < now.slots@.len() && (#[trigger] now.slots@[s]) is Some
                    implies now.slots@[s]->0.wf() by {
                assert(swept_slot(traced.slots@[s], now.slots@[s]));
            }
        }
        assert(now.slots@.len() == origin.slots@.len()) by {
            reveal(Heap::traces);
        }
        assert forall|a: u64| #[trigger] now.contains(a) <==> origin.reachable(roots, a) by {
            Heap::lemma_swept_cell(origin, traced, now, roots, a);
        }
        assert forall|a: u64| #[trigger] now.contains(a) implies now@[a] == origin@[a] by {
            Heap::lemma_swept_cell(origin, traced, now, roots, a);
        }
        assert forall|s: int, k: int|
            0 <= s < origin.spec_slots().len() && 0 <= k < LINES_PER_BLOCK implies (
        #[trigger] now.line_used(s, k) <==> origin.line_reached(roots, s, k)) by {
            Heap::lemma_swept_line(origin, traced, now, roots, s, k);
        }
        assert forall|s: int| #[trigger] now.block_present(s) implies now.spec_block_state(s)
            != Some(BlockState::Free) by {
            Heap::lemma_swept_line(origin, traced, now, roots, s, 0);
        }
        assert forall|s: int, w: int| 0 <= w < BLOCK_WORDS implies (#[trigger] now.word_available(
            s,
            w,
        ) <==> now.block_present(s) && !now.line_used(s, w / LINE_WORDS as int)) by {
            if now.block_present(s) {
                assert(swept_slot(traced.slots@[s], now.slots@[s]));
            }
        }
        assert(now.layout().blocks =~= origin.collected_layout(roots).blocks) by {
            assert forall|s: int| 0 <= s < now.slots@.len() implies now.layout().blocks[s]
                == origin.collected_layout(roots).blocks[s] by {
                assert(swept_slot(traced.slots@[s], now.slots@[s]));
                assert forall|k: int| 0 <= k < LINES_PER_BLOCK implies (now.line_used(s, k)
                    <==> origin.line_reached(roots, s, k)) by {
                    Heap::lemma_swept_line(origin, traced, now, roots, s, k);
                }
                if now.block_present(s) {
                    assert(now.spec_block_state(s) != Some(BlockState::Free));
                    let k = choose|k: int|
                        0 <= k < now.slots@[s]->0.lines@.len() && #[trigger] now.slots@[s]->0.lines@[k];
                    assert(now.line_used(s, k));
                    assert(origin.block_reached(roots, s));
                    let lines = now.slots@[s]->0.layout().lines;
                    assert forall|k: int| 0 <= k < LINES_PER_BLOCK implies #[trigger] lines[k]
                        == origin.line_reached(roots, s, k) by {
                        assert(now.line_used(s, k) <==> origin.line_reached(roots, s, k));
                    }
                    assert(lines =~= Seq::new(
                        LINES_PER_BLOCK as nat,
                        |k: int| origin.line_reached(roots, s, k),
                    ));
                } else {
                    if origin.block_reached(roots, s) {
                        let k = choose|k: int|
                            0 <= k < LINES_PER_BLOCK && origin.line_reached(roots, s, k);
                        assert(now.line_used(s, k));
                    }
                }
            }
        }
    }

    /// A heap whose slots have all had their marks cleared is well formed
    /// and holds what it held before tracing.
    pub(crate) proof fn lemma_restored_heap(origin: Heap, traced: Heap, now: Heap)
        requires
            origin.wf(),
            traced.traces(origin),
            now.slots@.len() == traced.slots@.len(),
            now.budget == origin.budget,
            forall|s: int|
                0 <= s < traced.slots@.len() ==> restored_slot(
                    #[trigger] traced.slots@[s],
                    now.slots@[s],
                ),
        ensures
            now.wf(),
            now@ == origin@,
            now.layout() == origin.layout(),
            now.spec_slots().len() == origin.spec_slots().len(),
            owned(now.spec_slots()) == owned(origin.spec_slots()),
    {
        reveal(Heap::traces);
        assert(now.layout().blocks =~= origin.layout().blocks) by {
            assert forall|s: int| 0 <= s < now.slots@.len() implies now.layout().blocks[s]
                == origin.layout().blocks[s] by {
                assert(restored_slot(traced.slots@[s], now.slots@[s]));
                assert(traced.slots@[s] is Some <==> origin.slots@[s] is Some);
                if traced.slots@[s] is Some {
                    assert(traced.slots@[s]->0.traces(origin.slots@[s]->0));
                }
            }
        }
        assert forall|s: int| 0 <= s < now.slots@.len() implies ((#[trigger] now.slots@[s]) is Some
            <==> origin.slots@[s] is Some) by {
            assert(restored_slot(traced.slots@[s], now.slots@[s]));
            assert(traced.slots@[s] is Some <==> origin.slots@[s] is Some);
        }
        lemma_owned_same(now.slots@, origin.slots@);
        assert forall|s: int|
            0 <= s < now.slots@.len() && (#[trigger] now.slots@[s]) is Some
                implies now.slots@[s]->0.wf() by {
            assert(restored_slot(traced.slots@[s], now.slots@[s]));
        }
        assert forall|a: u64| now.cell_at(a) == origin.cell_at(a) by {
            traced.lemma_traces_cells(origin, a);
            let s = slot_of(a);
            let o = offset_of(a);
            if a % 8 == 0 && 0 <= s < traced.slots@.len() {
                assert(restored_slot(traced.slots@[s], now.slots@[s]));
                if traced.slots@[s] is Some {
                    assert(traced.slots@[s]->0.traces(origin.slots@[s]->0));
                    assert(unmarked(traced.slots@[s]->0.cells@[o]) == origin.slots@[s]->0.cells@[o]);
                    assert(now.slots@[s]->0.cells@[o] == unmarked(traced.slots@[s]->0.cells@[o]));
                }
            }
        }
        assert(now@ =~= origin@);
    }

    /// Clears every mark that a trace has set.
    pub(crate) fn unmark_all(&mut self, Ghost(origin): Ghost<Heap>)
        requires
            origin.wf(),
            old(self).traces(origin),
        ensures
            final(self).wf(),
            final(self)@ == origin@,
            final(self).layout() == origin.layout(),
            final(self).spec_slots().len() == origin.spec_slots().len(),
            owned(final(self).spec_slots()) == owned(origin.spec_slots()),
            final(self).spec_budget() == origin.spec_budget(),
    {
        let ghost traced = *self;
        let mut s: usize = 0;
        while s < self.slots.len()
            invariant
                s <= self.slots@.len(),
                origin.wf(),
                traced.traces(origin),
                self.slots@.len() == traced.slots@.len(),
                self.budget == traced.budget,
                forall|t: int|
                    0 <= t < s ==> restored_slot(#[trigger] traced.slots@[t], self.slots@[t]),
                forall|t: int|
                    s <= t < traced.slots@.len() ==> #[trigger] self.slots@[t] == traced.slots@[t],
            decreases self.slots.len() - s,
        {
            proof {
                reveal(Heap::traces);
                assert(self.slots@[s as int] == traced.slots@[s as int]);
                if traced.slots@[s as int] is Some {
                    assert(traced.slots@[s as int]->0.traces(origin.slots@[s as int]->0));
                }
            }
            match &mut self.slots[s] {
                Some(block) => {
                    block.unmark();
                },
                None => {},
            }
            s += 1;
        }
        proof {
            assert(self.budget == origin.budget) by {
                reveal(Heap::traces);
            }
            Heap::lemma_restored_heap(origin, traced, *self);
        }
    }

    /// Sweeps every block that a trace has gone through and gives the
    /// blocks left without a line in use back to the pool. Returns the
    /// number of blocks given back.
    pub(crate) fn sweep_all(
        &mut self,
        pool: &mut BlockPool,
        Ghost(origin): Ghost<Heap>,
        Ghost(roots): Ghost<Seq<TaggedPointer>>,
    ) -> (released: usize)
        requires
            origin.wf(),
            !origin.dangling(roots),
            old(self).traces(origin),
            forall|x: u64| #[trigger] old(self).marked_at(x) <==> origin.reachable(roots, x),
            old(pool).wf(),
        ensures
            final(self).wf(),
            final(pool).wf(),
            Heap::collected(origin, roots, *final(self)),
            released + owned(final(self).spec_slots()) == owned(origin.spec_slots()),
            final(pool)@ == BlockPool::after_release(old(pool)@, released as nat),
    {
        let ghost traced = *self;
        let ghost pool0 = pool@;
        let mut released: usize = 0;
        let mut s: usize = 0;
        proof {
            reveal(Heap::traces);
            lemma_owned_same(traced.slots@, origin.slots@);
        }
        while s < self.slots.len()
            invariant
                s <= self.slots@.len(),
                released <= s,
                origin.wf(),
                traced.traces(origin),
                self.slots@.len() == traced.slots@.len(),
                self.budget == traced.budget,
                pool.wf(),
                pool@ == BlockPool::after_release(pool0, released as nat),
                released + owned(self.slots@) == owned(origin.slots@),
                forall|t: int| 0 <= t < s ==> swept_slot(#[trigger] traced.slots@[t], self.slots@[t]),
                forall|t: int|
                    s <= t < traced.slots@.len() ==> #[trigger] self.slots@[t] == traced.slots@[t],
            decreases self.slots.len() - s,
        {
            let ghost slots0 = self.slots@;
            proof {
                reveal(Heap::traces);
                assert(self.slots@[s as int] == traced.slots@[s as int]);
                if traced.slots@[s as int] is Some {
                    assert(traced.slots@[s as int]->0.traces(origin.slots@[s as int]->0));
                }
            }
            let mut taken: Option<Block> = None;
            std::mem::swap(&mut self.slots[s], &mut taken);
            proof {
                lemma_owned_update(slots0, s as int, None);
            }
            match taken {
                Some(block) => {
                    let mut block = block;
                    let ghost b = block;
                    block.sweep();
                    match block.state() {
                        BlockState::Free => {
                            proof {
                                assert(!any_line_marked(b)) by {
                                    if any_line_marked(b) {
                                        let k = choose|k: int|
                                            0 <= k < LINES_PER_BLOCK && line_marked(b.cells@, k);
                                        assert(block.lines@[k]);
                                    }
                                }
                            }
                            pool.release_block(block);
                            released += 1;
                        },
                        _ => {
                            proof {
                                assert(any_line_marked(b)) by {
                                    let k = choose|k: int|
                                        0 <= k < block.lines@.len() && #[trigger] block.lines@[k];
                                    assert(line_marked(b.cells@, k));
                                }
                                lemma_owned_update(self.slots@, s as int, Some(block));
                            }
                            self.slots[s] = Some(block);
                        },
                    }
                },
                None => {},
            }
            s += 1;
        }
        proof {
            assert(self.budget == origin.budget) by {
                reveal(Heap::traces);
            }
            Heap::lemma_swept_heap(origin, traced, *self, roots);
        }
        released
    }

    /// Collects the heap: keeps every object that can be reached from the
    /// roots, where and as it is, drops every other object, and gives the
    /// blocks left without a line in use back to the pool. Returns the
    /// number of blocks given back.
    ///
    /// Fails with `GCInvariantViolation` when following references from the
    /// roots leads to memory that holds no object. The heap and the pool
    /// then hold what they held before.
    pub fn collect(&mut self, roots: &Vec<TaggedPointer>, pool: &mut BlockPool) -> (r: Result<
        usize,
        RuntimeError,
    >)
        requires
            old(self).wf(),
            old(pool).wf(),
        ensures
            final(self).wf(),
            final(pool).wf(),
            final(self).spec_budget() == old(self).spec_budget(),
            final(self).spec_slots().len() == old(self).spec_slots().len(),
            r is Err <==> old(self).dangling(roots@),
            r matches Err(e) ==> {
                &&& e == RuntimeError::GCInvariantViolation
                &&& final(self)@ == old(self)@
                &&& final(self).layout() == old(self).layout()
                &&& owned(final(self).spec_slots()) == owned(old(self).spec_slots())
                &&& final(pool)@ == old(pool)@
            },
            r matches Ok(released) ==> {
                &&& Heap::collected(*old(self), roots@, *final(self))
                &&& released + owned(final(self).spec_slots()) == owned(old(self).spec_slots())
                &&& final(pool)@ == BlockPool::after_release(old(pool)@, released as nat)
            },
    {
        let ghost origin = *self;
        let ok = self.trace(roots);
        if !ok {
            self.unmark_all(Ghost(origin));
            return Err(RuntimeError::GCInvariantViolation);
        }
        let released = self.sweep_all(pool, Ghost(origin), Ghost(roots@));
        Ok(released)
    }
}


impl Heap {
    /// Free, recyclable or full, for the block in slot `slot`; `None` when
    /// the slot holds no block.
    pub fn block_state(&self, slot: usize) -> (r: Option<BlockState>)
        requires
            self.wf(),
        ensures
            r == self.spec_block_state(slot as int),
    {
        if slot < self.slots.len() {
            match &self.slots[slot] {
                Some(block) => Some(block.state()),
                None => None,
            }
        } else {
            None
        }
    }

    /// The number of slots: one more than the highest slot that ever held
    /// a block.
    pub fn slot_count(&self) -> (n: usize)
        ensures
            n == self.spec_slots().len(),
    {
        self.slots.len()
    }
}

} // verus!
