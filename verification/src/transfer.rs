//! Copying values between heaps.
//!
//! Sending a value copies the objects it leads to out of the sender's heap
//! into a graph that stands on its own; receiving copies the graph into the
//! receiver's heap. No object is ever shared between two heaps.

use vstd::prelude::*;
use crate::allocator::{BlockPool, PoolView};
use crate::block::{unmarked_count, Block, BLOCK_WORDS};
use crate::errors::RuntimeError;
use crate::gc::{is_root, unmarked_total};
use crate::heap::{Heap, MAX_HEAP_BLOCKS};
use crate::message::{node_word, GraphView, ObjectGraph, MAX_NODES};
use crate::object::{Object, ObjectHeader, ObjectView, HEADER_WORDS};
use crate::tagged_pointer::{TaggedPointer, Value};

verus! {

/// Whether no address occurs twice in `order`.
pub open spec fn distinct(order: Seq<u64>) -> bool {
    forall|i: int, j: int| 0 <= i < j < order.len() ==> #[trigger] order[i] != #[trigger] order[j]
}

/// Whether `copy` stands for `word` in a graph whose node `j` is the copy
/// of the object at `order[j]`: an immediate or null stands for itself, and
/// a reference is replaced by the word of the node that copies its target.
pub open spec fn renamed(word: TaggedPointer, copy: TaggedPointer, order: Seq<u64>) -> bool {
    match word.target() {
        None => copy == word,
        Some(b) => exists|j: int|
            0 <= j < order.len() && #[trigger] order[j] == b && copy@ == node_word(j),
    }
}

/// Whether `copy` is a copy of `source` for a graph: same class, same
/// payload, the fields renamed, neither marked nor pinned.
pub open spec fn copied(source: ObjectView, copy: ObjectView, order: Seq<u64>) -> bool {
    &&& copy.header == (ObjectHeader { class: source.header.class, marked: false, pinned: false })
    &&& copy.value == source.value
    &&& copy.fields.len() == source.fields.len()
    &&& forall|f: int|
        0 <= f < source.fields.len() ==> renamed(
            #[trigger] source.fields[f],
            copy.fields[f],
            order,
        )
}

/// A block holds no more unmarked objects than it has words.
pub(crate) proof fn lemma_unmarked_count_bound(cells: Seq<Option<Object>>)
    ensures
        unmarked_count(cells) <= cells.len(),
    decreases cells.len(),
{
    if cells.len() > 0 {
        lemma_unmarked_count_bound(cells.drop_last());
    }
}

/// A heap holds no more unmarked objects than its blocks have words.
pub(crate) proof fn lemma_unmarked_total_bound(slots: Seq<Option<Block>>)
    requires
        forall|s: int|
            0 <= s < slots.len() && (#[trigger] slots[s]) is Some ==> slots[s]->0.cells@.len()
                == BLOCK_WORDS,
    ensures
        unmarked_total(slots) <= slots.len() * BLOCK_WORDS,
    decreases slots.len(),
{
    if slots.len() > 0 {
        let rest = slots.drop_last();
        assert forall|s: int|
            0 <= s < rest.len() && (#[trigger] rest[s]) is Some implies rest[s]->0.cells@.len()
            == BLOCK_WORDS by {
            assert(slots[s] is Some);
        }
        lemma_unmarked_total_bound(rest);
        if slots.last() is Some {
            assert(slots[slots.len() - 1] is Some);
            lemma_unmarked_count_bound(slots.last()->0.cells@);
        }
    }
}

impl Heap {
    /// Whether `graph` is a copy of what `word` leads to in this heap, with
    /// node `k` the copy of the object at `order[k]`: the nodes are the
    /// objects that can be reached from `word`, each once, the target of
    /// `word` first.
    pub open spec fn exports(&self, word: TaggedPointer, order: Seq<u64>, graph: GraphView) -> bool {
        &&& order.len() == graph.nodes.len()
        &&& order.len() > 0
        &&& graph.root@ == node_word(0)
        &&& Some(order[0]) == word.target()
        &&& distinct(order)
        &&& forall|k: int|
            0 <= k < order.len() ==> {
                &&& self.contains(#[trigger] order[k])
                &&& self.reachable(seq![word], order[k])
                &&& copied(self@[order[k]], graph.nodes[k], order)
            }
        &&& forall|a: u64| self.reachable(seq![word], a) ==> order.contains(a)
    }

    /// The invariant of copying out: the marked objects are those in
    /// `order`, each once and each reachable, and the first `done` of them
    /// have their copies in `nodes`.
    #[verifier::opaque]
    pub(crate) open spec fn copying(
        &self,
        origin: Heap,
        word: TaggedPointer,
        order: Seq<u64>,
        nodes: Seq<Object>,
    ) -> bool {
        &&& forall|a: u64| #[trigger] self.marked_at(a) <==> order.contains(a)
        &&& distinct(order)
        &&& order.len() + unmarked_total(self.slots@) == unmarked_total(origin.slots@)
        &&& nodes.len() <= order.len()
        &&& forall|k: int|
            0 <= k < order.len() ==> origin.contains(#[trigger] order[k]) && origin.reachable(
                seq![word],
                order[k],
            )
        &&& forall|k: int|
            0 <= k < nodes.len() ==> copied(origin@[order[k]], (#[trigger] nodes[k])@, order)
    }

    /// A copy stays a copy when more objects are discovered.
    pub(crate) proof fn lemma_copied_grows(
        source: ObjectView,
        copy: ObjectView,
        order: Seq<u64>,
        longer: Seq<u64>,
    )
        requires
            copied(source, copy, order),
            order.len() <= longer.len(),
            longer.subrange(0, order.len() as int) == order,
        ensures
            copied(source, copy, longer),
    {
        assert forall|f: int| 0 <= f < source.fields.len() implies renamed(
            #[trigger] source.fields[f],
            copy.fields[f],
            longer,
        ) by {
            Heap::lemma_renamed_grows(source.fields[f], copy.fields[f], order, longer);
        }
    }

    /// A renamed word stays renamed when more objects are discovered.
    pub(crate) proof fn lemma_renamed_grows(
        word: TaggedPointer,
        copy: TaggedPointer,
        order: Seq<u64>,
        longer: Seq<u64>,
    )
        requires
            renamed(word, copy, order),
            order.len() <= longer.len(),
            longer.subrange(0, order.len() as int) == order,
        ensures
            renamed(word, copy, longer),
    {
        if word.target() is Some {
            let b = word.target()->0;
            let j = choose|j: int|
                0 <= j < order.len() && #[trigger] order[j] == b && copy@ == node_word(j);
            assert(longer.subrange(0, order.len() as int)[j] == longer[j]);
            assert(longer[j] == b);
        }
    }

    /// Discovering the target of a word keeps the invariant of copying out.
    pub(crate) proof fn lemma_discovered(
        before: Heap,
        after: Heap,
        origin: Heap,
        root: TaggedPointer,
        order0: Seq<u64>,
        order1: Seq<u64>,
        nodes: Seq<Object>,
        word: TaggedPointer,
    )
        requires
            before.copying(origin, root, order0, nodes),
            word.target() is Some ==> origin.reachable(seq![root], word.target()->0)
                && origin.contains(word.target()->0),
            forall|a: u64| #[trigger]
                after.marked_at(a) <==> before.marked_at(a) || word.target() == Some(a),
            word.target() is Some && !before.marked_at(word.target()->0) ==> order1 == order0.push(
                word.target()->0,
            ) && unmarked_total(after.slots@) + 1 == unmarked_total(before.slots@),
            !(word.target() is Some && !before.marked_at(word.target()->0)) ==> order1 == order0
                && unmarked_total(after.slots@) == unmarked_total(before.slots@),
        ensures
            after.copying(origin, root, order1, nodes),
            order0.len() <= order1.len(),
            order1.subrange(0, order0.len() as int) == order0,
            word.target() is Some ==> order1.contains(word.target()->0),
    {
        reveal(Heap::copying);
        assert(order1.subrange(0, order0.len() as int) =~= order0);
        if word.target() is Some && !before.marked_at(word.target()->0) {
            let b = word.target()->0;
            assert(order1[order1.len() - 1] == b);
            assert forall|a: u64| #[trigger] after.marked_at(a) <==> order1.contains(a) by {
                if order0.contains(a) {
                    let k = choose|k: int| 0 <= k < order0.len() && order0[k] == a;
                    assert(order1[k] == a);
                }
                if order1.contains(a) {
                    let k = choose|k: int| 0 <= k < order1.len() && order1[k] == a;
                    if k < order0.len() {
                        assert(order0[k] == a);
                    }
                }
            }
            assert(distinct(order1)) by {
                assert forall|i: int, j: int| 0 <= i < j < order1.len() implies #[trigger] order1[i]
                    != #[trigger] order1[j] by {
                    if j == order1.len() - 1 {
                        assert(order0[i] == order1[i]);
                        assert(order0.contains(order0[i]));
                    } else {
                        assert(order0[i] != order0[j]);
                    }
                }
            }
            assert forall|k: int| 0 <= k < order1.len() implies origin.contains(#[trigger] order1[k])
                && origin.reachable(seq![root], order1[k]) by {
                if k < order0.len() {
                    assert(origin.contains(order0[k]));
                }
            }
        } else {
            if word.target() is Some {
                assert(before.marked_at(word.target()->0));
            }
        }
        assert forall|k: int| 0 <= k < nodes.len() implies copied(
            origin@[order1[k]],
            (#[trigger] nodes[k])@,
            order1,
        ) by {
            assert(order1[k] == order0[k]);
            Heap::lemma_copied_grows(origin@[order0[k]], nodes[k]@, order0, order1);
        }
    }

    /// The position of a discovered address in `order`.
    pub(crate) fn position(order: &Vec<u64>, address: u64) -> (j: usize)
        requires
            order@.contains(address),
        ensures
            j < order@.len(),
            order@[j as int] == address,
    {
        let mut j: usize = 0;
        while j < order.len()
            invariant
                j <= order@.len(),
                order@.contains(address),
                forall|i: int| 0 <= i < j ==> order@[i] != address,
            decreases order.len() - j,
        {
            if order[j] == address {
                return j;
            }
            j += 1;
        }
        proof {
            let k = choose|k: int| 0 <= k < order@.len() && order@[k] == address;
            assert(order@[k] != address);
        }
        0
    }
}


impl Heap {
    /// What the invariant of copying out says of one discovered object, and
    /// how many objects can be discovered at most.
    pub(crate) proof fn lemma_copying_at(
        &self,
        origin: Heap,
        word: TaggedPointer,
        order: Seq<u64>,
        nodes: Seq<Object>,
        i: int,
    )
        requires
            origin.wf(),
            self.copying(origin, word, order, nodes),
            0 <= i < order.len(),
        ensures
            self.marked_at(order[i]),
            origin.contains(order[i]),
            origin.reachable(seq![word], order[i]),
            order.len() <= MAX_NODES,
    {
        reveal(Heap::copying);
        assert(order.contains(order[i]));
        assert forall|s: int|
            0 <= s < origin.slots@.len() && (#[trigger] origin.slots@[s])
                is Some implies origin.slots@[s]->0.cells@.len() == BLOCK_WORDS by {
            assert(origin.slots@[s]->0.wf());
        }
        lemma_unmarked_total_bound(origin.slots@);
        assert(origin.slots@.len() * BLOCK_WORDS <= MAX_HEAP_BLOCKS * BLOCK_WORDS) by (nonlinear_arith)
            requires
                origin.slots@.len() <= MAX_HEAP_BLOCKS,
        ;
    }

    /// Copying out starts with the target of the word as the only
    /// discovered object.
    pub(crate) proof fn lemma_copying_starts(
        before: Heap,
        after: Heap,
        word: TaggedPointer,
        order: Seq<u64>,
    )
        requires
            before.wf(),
            word.target() is Some,
            before.contains(word.target()->0),
            forall|a: u64| #[trigger] after.marked_at(a) <==> word.target() == Some(a),
            order == Seq::<u64>::empty().push(word.target()->0),
            unmarked_total(after.slots@) + 1 == unmarked_total(before.slots@),
        ensures
            after.copying(before, word, order, Seq::<Object>::empty()),
    {
        reveal(Heap::copying);
        let a0 = word.target()->0;
        before.lemma_root_reachable(seq![word], 0, a0);
        assert(order[0] == a0);
        assert forall|a: u64| #[trigger] after.marked_at(a) <==> order.contains(a) by {
            if order.contains(a) {
                let k = choose|k: int| 0 <= k < order.len() && order[k] == a;
            }
        }
    }

    /// Once a discovered object has been copied, the invariant of copying
    /// out holds with one more node.
    pub(crate) proof fn lemma_node_copied(
        &self,
        origin: Heap,
        word: TaggedPointer,
        order: Seq<u64>,
        nodes: Seq<Object>,
        node: Object,
    )
        requires
            self.copying(origin, word, order, nodes),
            nodes.len() < order.len(),
            copied(origin@[order[nodes.len() as int]], node@, order),
        ensures
            self.copying(origin, word, order, nodes.push(node)),
    {
        reveal(Heap::copying);
        let more = nodes.push(node);
        assert forall|k: int| 0 <= k < more.len() implies copied(
            origin@[order[k]],
            (#[trigger] more[k])@,
            order,
        ) by {
            if k < nodes.len() {
                assert(more[k] == nodes[k]);
            }
        }
    }

    /// When every discovered object has been copied, the nodes are a copy
    /// of what the word leads to.
    pub(crate) proof fn lemma_copy_complete(
        &self,
        origin: Heap,
        word: TaggedPointer,
        order: Seq<u64>,
        nodes: Seq<Object>,
        graph: GraphView,
    )
        requires
            origin.wf(),
            self.copying(origin, word, order, nodes),
            nodes.len() == order.len(),
            order.len() > 0,
            Some(order[0]) == word.target(),
            graph.root@ == node_word(0),
            graph.nodes == Seq::new(nodes.len(), |k: int| nodes[k]@),
        ensures
            origin.exports(word, order, graph),
            graph.wf(),
    {
        reveal(Heap::copying);
        self.lemma_copying_at(origin, word, order, nodes, 0);
        let roots = seq![word];
        let closed = Set::new(|a: u64| order.contains(a));
        assert forall|k: int| 0 <= k < order.len() implies copied(
            origin@[#[trigger] order[k]],
            graph.nodes[k],
            order,
        ) by {
            assert(copied(origin@[order[k]], nodes[k]@, order));
        }
        assert forall|r: u64| is_root(roots, r) implies closed.contains(r) by {
            let i = choose|i: int| 0 <= i < roots.len() && (#[trigger] roots[i]).target() == Some(r);
            assert(order[0] == r);
        }
        assert forall|x: u64, y: u64| closed.contains(x) && origin.edge(x, y) implies closed.contains(
            y,
        ) by {
            let k = choose|k: int| 0 <= k < order.len() && order[k] == x;
            let f = choose|f: int|
                0 <= f < origin@[x].fields.len() && (#[trigger] origin@[x].fields[f]).target() == Some(
                    y,
                );
            assert(copied(origin@[order[k]], nodes[k]@, order));
            assert(renamed(origin@[x].fields[f], nodes[k]@.fields[f], order));
        }
        assert forall|a: u64| origin.reachable(roots, a) implies order.contains(a) by {
            let p = choose|p: Seq<u64>| origin.path_from(roots, p, a);
            origin.lemma_closed_holds_reachable(roots, closed, p, a);
        }
        assert(graph.wf()) by {
            assert forall|k: int| 0 <= k < graph.nodes.len() implies {
                &&& (#[trigger] graph.nodes[k]).fields.len() <= crate::class::MAX_FIELDS
                &&& !graph.nodes[k].header.marked
            } by {
                assert(copied(origin@[order[k]], nodes[k]@, order));
                origin.lemma_object_wf(order[k]);
            }
            assert forall|k: int, f: int|
                0 <= k < graph.nodes.len() && 0 <= f < graph.nodes[k].fields.len()
                    implies graph.names_node(#[trigger] graph.nodes[k].fields[f]) by {
                assert(copied(origin@[order[k]], nodes[k]@, order));
                let source = origin@[order[k]].fields[f];
                assert(renamed(source, nodes[k]@.fields[f], order));
                if source.target() is Some {
                    let j = choose|j: int|
                        0 <= j < order.len() && #[trigger] order[j] == source.target()->0
                            && nodes[k]@.fields[f]@ == node_word(j);
                    assert(nodes[k]@.fields[f]@ == node_word(j));
                }
            }
        }
    }

    /// Every object of a well-formed heap is well formed.
    pub(crate) proof fn lemma_object_wf(&self, a: u64)
        requires
            self.wf(),
            self.contains(a),
        ensures
            self@[a].fields.len() <= crate::class::MAX_FIELDS,
            !self@[a].header.marked,
    {
        let s = crate::heap::slot_of(a);
        let o = crate::heap::offset_of(a);
        assert(self.slots@[s]->0.wf());
        assert(self.slots@[s]->0.cells@[o] is Some);
        assert(!crate::block::is_marked(self.slots@[s]->0.cells@, o));
    }

    /// Nothing can be reached from a word that is an immediate or null.
    pub proof fn lemma_immediate_reaches_nothing(&self, word: TaggedPointer)
        requires
            word.target() is None,
        ensures
            forall|a: u64| !self.reachable(seq![word], a),
            !self.dangling(seq![word]),
    {
        let roots = seq![word];
        assert forall|a: u64| !self.reachable(roots, a) by {
            if self.reachable(roots, a) {
                let p = choose|p: Seq<u64>| self.path_from(roots, p, a);
                let i = choose|i: int|
                    0 <= i < roots.len() && (#[trigger] roots[i]).target() == Some(p[0]);
            }
        }
    }

    /// The class and a copy of the payload of the object at `address`, read
    /// while tracing.
    pub(crate) fn peek_body(&self, address: u64) -> (r: (crate::class::ClassId, Option<
        crate::object::ObjectValue,
    >))
        requires
            self.layout_wf(),
            self.contains(address),
        ensures
            r.0 == self.cell_at(address)->0.spec_header().class,
            crate::object::payload_view(r.1) == self.cell_at(address)->0.spec_value(),
    {
        match self.locate(address) {
            Some((s, o)) => match &self.slots[s] {
                Some(block) => match &block.cells[o] {
                    Some(object) => {
                        let value = match &object.value {
                            Some(v) => Some(v.duplicate()),
                            None => None,
                        };
                        (object.header.class, value)
                    },
                    None => (crate::class::ClassId { index: 0 }, None),
                },
                None => (crate::class::ClassId { index: 0 }, None),
            },
            None => (crate::class::ClassId { index: 0 }, None),
        }
    }

    /// Copies what a word leads to out of the heap: an immediate or null by
    /// itself, a reference with every object that can be reached from it.
    /// The heap holds afterwards what it held before.
    ///
    /// Fails with `GCInvariantViolation` when following references from the
    /// word leads to memory that holds no object.
    pub fn export(&mut self, word: TaggedPointer) -> (r: Result<ObjectGraph, RuntimeError>)
        requires
            old(self).wf(),
        ensures
            final(self).wf(),
            final(self)@ == old(self)@,
            final(self).layout() == old(self).layout(),
            final(self).spec_budget() == old(self).spec_budget(),
            final(self).spec_slots().len() == old(self).spec_slots().len(),
            r is Err <==> old(self).dangling(seq![word]),
            r matches Err(e) ==> e == RuntimeError::GCInvariantViolation,
            r matches Ok(graph) ==> {
                &&& graph.wf()
                &&& word.target() is None ==> graph@ == (GraphView {
                    root: word,
                    nodes: Seq::<ObjectView>::empty(),
                })
                &&& word.target() is Some ==> exists|order: Seq<u64>|
                    old(self).exports(word, order, graph@)
            },
    {
        let ghost origin = *self;
        let ghost roots = seq![word];
        match ObjectGraph::immediate(word) {
            Some(graph) => {
                proof {
                    origin.lemma_immediate_reaches_nothing(word);
                }
                return Ok(graph);
            },
            None => {},
        }
        proof {
            origin.lemma_traces_self();
            origin.lemma_root_reachable(roots, 0, word.target()->0);
        }
        let mut order: Vec<u64> = Vec::new();
        let ok = self.shade(word, &mut order, Ghost(origin));
        if !ok {
            proof {
                origin.lemma_found_dangling(roots, word.target()->0);
            }
            return Err(RuntimeError::GCInvariantViolation);
        }
        let mut nodes: Vec<Object> = Vec::new();
        proof {
            Heap::lemma_copying_starts(origin, *self, word, order@);
        }
        let mut i: usize = 0;
        while i < order.len()
            invariant
                origin == *old(self),
                origin.wf(),
                roots == seq![word],
                self.traces(origin),
                self.copying(origin, word, order@, nodes@),
                i == nodes@.len(),
                i <= order@.len(),
                order@.len() > 0,
                Some(order@[0]) == word.target(),
            decreases unmarked_total(self.slots@), order@.len() - i,
        {
            let ghost total0 = unmarked_total(self.slots@);
            let ghost len0 = order@.len();
            let current = order[i];
            proof {
                self.lemma_copying_at(origin, word, order@, nodes@, i as int);
                self.lemma_marked_present(origin, current);
            }
            let count = self.peek_count(current);
            let mut fields: Vec<TaggedPointer> = Vec::new();
            let mut f: usize = 0;
            while f < count
                invariant
                    f <= count,
                    count == origin@[current].fields.len(),
                    origin == *old(self),
                    origin.wf(),
                    roots == seq![word],
                    self.traces(origin),
                    self.copying(origin, word, order@, nodes@),
                    i == nodes@.len(),
                    i < order@.len(),
                    order@[i as int] == current,
                    Some(order@[0]) == word.target(),
                    fields@.len() == f,
                    forall|g: int|
                        0 <= g < f ==> renamed(
                            #[trigger] origin@[current].fields[g],
                            fields@[g],
                            order@,
                        ),
                    (unmarked_total(self.slots@) == total0 && order@.len() == len0)
                        || unmarked_total(self.slots@) < total0,
                decreases count - f,
            {
                proof {
                    self.lemma_copying_at(origin, word, order@, nodes@, i as int);
                    self.lemma_marked_present(origin, current);
                }
                let source = self.peek_field(current, f);
                let ghost before = *self;
                let ghost order0 = order@;
                proof {
                    if source.target() is Some {
                        assert(origin.edge(current, source.target()->0));
                        origin.lemma_reachable_step(roots, current, source.target()->0);
                    }
                }
                let ok = self.shade(source, &mut order, Ghost(origin));
                if !ok {
                    proof {
                        origin.lemma_found_dangling(roots, source.target()->0);
                    }
                    self.unmark_all(Ghost(origin));
                    return Err(RuntimeError::GCInvariantViolation);
                }
                proof {
                    Heap::lemma_discovered(
                        before,
                        *self,
                        origin,
                        word,
                        order0,
                        order@,
                        nodes@,
                        source,
                    );
                    assert(order@[i as int] == order@.subrange(0, order0.len() as int)[i as int]);
                    assert forall|g: int| 0 <= g < f implies renamed(
                        #[trigger] origin@[current].fields[g],
                        fields@[g],
                        order@,
                    ) by {
                        Heap::lemma_renamed_grows(
                            origin@[current].fields[g],
                            fields@[g],
                            order0,
                            order@,
                        );
                    }
                    self.lemma_copying_at(origin, word, order@, nodes@, i as int);
                }
                let target = match source.decode() {
                    Value::Immediate(_) => 0,
                    Value::Reference(address) => address,
                };
                let copy = if target != 0 {
                    let j = Heap::position(&order, target);
                    TaggedPointer::from_raw((j as u64 + 1) * 8)
                } else {
                    source
                };
                let ghost fields0 = fields@;
                fields.push(copy);
                proof {
                    assert forall|g: int| 0 <= g < f + 1 implies renamed(
                        #[trigger] origin@[current].fields[g],
                        fields@[g],
                        order@,
                    ) by {
                        if g < f {
                            assert(fields@[g] == fields0[g]);
                        }
                    }
                }
                f += 1;
            }
            proof {
                self.lemma_copying_at(origin, word, order@, nodes@, i as int);
                self.lemma_marked_present(origin, current);
            }
            let (class, value) = self.peek_body(current);
            let node = Object {
                header: ObjectHeader { class, marked: false, pinned: false },
                fields,
                value,
            };
            proof {
                self.lemma_traces_cells(origin, current);
                assert(copied(origin@[current], node@, order@));
                self.lemma_node_copied(origin, word, order@, nodes@, node);
            }
            nodes.push(node);
            i += 1;
        }
        let ghost traced = *self;
        let ghost copies = nodes@;
        self.unmark_all(Ghost(origin));
        let graph = ObjectGraph { root: TaggedPointer::from_raw(8), nodes };
        proof {
            assert(graph@.root@ == node_word(0));
            traced.lemma_copy_complete(origin, word, order@, copies, graph@);
            if origin.dangling(roots) {
                let a = choose|a: u64| origin.reachable(roots, a) && !origin.contains(a);
                assert(order@.contains(a));
                let k = choose|k: int| 0 <= k < order@.len() && order@[k] == a;
                assert(origin.contains(order@[k]));
            }
        }
        Ok(graph)
    }
}


/// The sizes of the nodes of a graph, in words.
pub open spec fn node_sizes(graph: GraphView) -> Seq<int> {
    Seq::new(graph.nodes.len(), |k: int| HEADER_WORDS + graph.nodes[k].fields.len())
}

/// The word that stands for `word` of a graph in a heap where node `j` of
/// the graph lives at `placed[j]`.
pub open spec fn relocated_word(word: TaggedPointer, placed: Seq<u64>) -> TaggedPointer {
    match word.target() {
        None => word,
        Some(x) => TaggedPointer { raw: placed[x as int / 8 - 1] },
    }
}

/// The object that a node of a graph becomes in a heap where node `j` lives
/// at `placed[j]`.
pub open spec fn relocated(node: ObjectView, placed: Seq<u64>) -> ObjectView {
    ObjectView {
        header: ObjectHeader { class: node.header.class, marked: false, pinned: false },
        fields: Seq::new(node.fields.len(), |g: int| relocated_word(node.fields[g], placed)),
        value: node.value,
    }
}

/// A node under construction: the first `done` fields relocated, the
/// others still null, no payload yet.
pub(crate) open spec fn partly_relocated(node: ObjectView, placed: Seq<u64>, done: int) -> ObjectView {
    ObjectView {
        header: ObjectHeader { class: node.header.class, marked: false, pinned: false },
        fields: Seq::new(
            node.fields.len(),
            |g: int|
                if g < done {
                    relocated_word(node.fields[g], placed)
                } else {
                    TaggedPointer { raw: 0 }
                },
        ),
        value: None,
    }
}

impl Heap {
    /// Whether `after` is `before` with the nodes of `graph` added, node
    /// `j` at `placed[j]`: the new objects live at fresh addresses, each is
    /// its node relocated, and every object of `before` is as it was.
    pub open spec fn imports(before: Heap, graph: GraphView, placed: Seq<u64>, after: Heap) -> bool {
        &&& placed.len() == graph.nodes.len()
        &&& distinct(placed)
        &&& forall|k: int|
            0 <= k < placed.len() ==> {
                &&& !before.contains(#[trigger] placed[k])
                &&& after.contains(placed[k])
                &&& after@[placed[k]] == relocated(graph.nodes[k], placed)
            }
        &&& forall|a: u64| #[trigger] before.contains(a) ==> after.contains(a) && after@[a] == before@[a]
        &&& forall|a: u64| #[trigger] after.contains(a) ==> before.contains(a) || placed.contains(a)
    }

    /// Whether the heap can take `n` objects more whatever their sizes: it
    /// may own `n` blocks more and the pool can supply them.
    pub open spec fn takes(heap: Heap, pool: PoolView, n: nat) -> bool {
        &&& heap.spec_slots().len() + n <= heap.spec_budget()
        &&& pool.outstanding + n <= pool.ceiling
    }

    /// Whether every object of `before` is in `after` as it was.
    pub open spec fn keeps(before: Heap, after: Heap) -> bool {
        forall|a: u64| #[trigger] before.contains(a) ==> after.contains(a) && after@[a] == before@[a]
    }

    /// The state of copying in after `allocated` nodes have been allocated
    /// and `built` of them have their fields and payload.
    #[verifier::opaque]
    pub(crate) open spec fn placing(
        &self,
        origin: Heap,
        graph: GraphView,
        placed: Seq<u64>,
        built: int,
    ) -> bool {
        &&& placed.len() <= graph.nodes.len()
        &&& distinct(placed)
        &&& forall|k: int|
            0 <= k < placed.len() ==> {
                &&& !origin.contains(#[trigger] placed[k])
                &&& self.contains(placed[k])
                &&& placed[k] % 8 == 0
                &&& k < built ==> self@[placed[k]] == relocated(graph.nodes[k], placed)
                &&& k >= built ==> self@[placed[k]] == partly_relocated(graph.nodes[k], placed, 0)
            }
        &&& forall|a: u64| #[trigger] origin.contains(a) ==> self.contains(a) && self@[a] == origin@[a]
        &&& forall|a: u64| #[trigger] self.contains(a) ==> origin.contains(a) || placed.contains(a)
    }

    /// Allocating the next node keeps the state of copying in.
    pub(crate) proof fn lemma_node_placed(
        before: Heap,
        after: Heap,
        origin: Heap,
        graph: GraphView,
        placed: Seq<u64>,
        address: u64,
    )
        requires
            before.placing(origin, graph, placed, 0),
            placed.len() < graph.nodes.len(),
            !before.contains(address),
            address % 8 == 0,
            after@ == before@.insert(
                address,
                ObjectView::fresh(
                    graph.nodes[placed.len() as int].header.class,
                    graph.nodes[placed.len() as int].fields.len(),
                ),
            ),
        ensures
            after.placing(origin, graph, placed.push(address), 0),
    {
        reveal(Heap::placing);
        let more = placed.push(address);
        let k0 = placed.len() as int;
        assert forall|a: u64|
            #![trigger after.contains(a)]
            #![trigger before.contains(a)]
            after.contains(a) <==> before.contains(a) || a == address by {
            assert(after@.dom().contains(a) <==> before@.dom().contains(a) || a == address);
            assert(after@.dom().contains(a) == after.contains(a));
            assert(before@.dom().contains(a) == before.contains(a));
        }
        assert(distinct(more)) by {
            assert forall|i: int, j: int| 0 <= i < j < more.len() implies #[trigger] more[i]
                != #[trigger] more[j] by {
                if j == k0 {
                    assert(before.contains(placed[i]));
                } else {
                    assert(placed[i] != placed[j]);
                }
            }
        }
        assert forall|k: int| 0 <= k < more.len() implies {
            &&& !origin.contains(#[trigger] more[k])
            &&& after.contains(more[k])
            &&& more[k] % 8 == 0
            &&& k < 0 ==> after@[more[k]] == relocated(graph.nodes[k], more)
            &&& k >= 0 ==> after@[more[k]] == partly_relocated(graph.nodes[k], more, 0)
        } by {
            if k < k0 {
                assert(more[k] == placed[k]);
                assert(before.contains(placed[k]));
                assert(after@[placed[k]] == before@[placed[k]]);
                assert(partly_relocated(graph.nodes[k], more, 0).fields =~= partly_relocated(
                    graph.nodes[k],
                    placed,
                    0,
                ).fields);
            } else {
                if origin.contains(address) {
                    assert(before.contains(address));
                }
                assert(ObjectView::fresh(
                    graph.nodes[k0].header.class,
                    graph.nodes[k0].fields.len(),
                ).fields =~= partly_relocated(graph.nodes[k0], more, 0).fields);
            }
        }
        assert forall|a: u64| #[trigger] origin.contains(a) implies after.contains(a) && after@[a]
            == origin@[a] by {
            assert(before.contains(a));
        }
        assert forall|a: u64| #[trigger] after.contains(a) implies origin.contains(a) || more.contains(
            a,
        ) by {
            if a == address {
                assert(more[k0] == a);
            } else {
                assert(before.contains(a));
                if placed.contains(a) {
                    let k = choose|k: int| 0 <= k < placed.len() && placed[k] == a;
                    assert(more[k] == a);
                }
            }
        }
    }

    /// What the state of copying in says of the node that is built next.
    pub(crate) proof fn lemma_placing_at(
        &self,
        origin: Heap,
        graph: GraphView,
        placed: Seq<u64>,
        built: int,
        k: int,
    )
        requires
            self.placing(origin, graph, placed, built),
            0 <= k < placed.len(),
        ensures
            self.contains(placed[k]),
            placed[k] % 8 == 0,
            placed[k] != 0,
            k >= built ==> self@[placed[k]] == partly_relocated(graph.nodes[k], placed, 0),
            k < built ==> self@[placed[k]] == relocated(graph.nodes[k], placed),
    {
        reveal(Heap::placing);
        self.lemma_null_absent();
    }

    /// Once the node that is being built has all its fields and its
    /// payload, the state of copying in holds with one more node built.
    pub(crate) proof fn lemma_node_built(
        start: Heap,
        after: Heap,
        origin: Heap,
        graph: GraphView,
        placed: Seq<u64>,
        built: int,
    )
        requires
            start.placing(origin, graph, placed, built),
            0 <= built < placed.len(),
            forall|a: u64|
                #![trigger after.contains(a)]
                #![trigger start.contains(a)]
                after.contains(a) <==> start.contains(a),
            forall|a: u64| #[trigger] start.contains(a) && a != placed[built] ==> after@[a] == start@[a],
            after@[placed[built]] == relocated(graph.nodes[built], placed),
        ensures
            after.placing(origin, graph, placed, built + 1),
    {
        reveal(Heap::placing);
        assert forall|k: int| 0 <= k < placed.len() implies {
            &&& !origin.contains(#[trigger] placed[k])
            &&& after.contains(placed[k])
            &&& placed[k] % 8 == 0
            &&& k < built + 1 ==> after@[placed[k]] == relocated(graph.nodes[k], placed)
            &&& k >= built + 1 ==> after@[placed[k]] == partly_relocated(graph.nodes[k], placed, 0)
        } by {
            assert(start.contains(placed[k]));
            if k != built {
                if k < built {
                    assert(placed[k] != placed[built]);
                } else {
                    assert(placed[built] != placed[k]);
                }
            }
        }
        assert forall|a: u64| #[trigger] origin.contains(a) implies after.contains(a) && after@[a]
            == origin@[a] by {
            assert(start.contains(a));
            assert(!origin.contains(placed[built]));
        }
        assert forall|a: u64| #[trigger] after.contains(a) implies origin.contains(a)
            || placed.contains(a) by {
            assert(start.contains(a));
        }
    }

    /// When every node is allocated and built, the graph has been copied
    /// in.
    pub(crate) proof fn lemma_import_complete(
        &self,
        origin: Heap,
        graph: GraphView,
        placed: Seq<u64>,
    )
        requires
            self.placing(origin, graph, placed, graph.nodes.len() as int),
            placed.len() == graph.nodes.len(),
        ensures
            Heap::imports(origin, graph, placed, *self),
    {
        reveal(Heap::placing);
    }

    /// While a graph is copied in, every object the heap held before is
    /// kept.
    pub(crate) proof fn lemma_placing_keeps(
        &self,
        origin: Heap,
        graph: GraphView,
        placed: Seq<u64>,
        built: int,
    )
        requires
            self.placing(origin, graph, placed, built),
        ensures
            Heap::keeps(origin, *self),
    {
        reveal(Heap::placing);
    }

    /// Copies a graph into the heap: allocates one object per node, then
    /// writes the fields, with every reference among the nodes replaced by
    /// the address of the object that the node has become, and the
    /// payloads. Returns the word that the root of the graph has become.
    ///
    /// Fails with `AllocationFailure` exactly when allocating objects of
    /// the sizes of the nodes, one after another, comes to an object that
    /// cannot be allocated; it never does when the heap may own one block
    /// more for every node and the pool can supply them. Every object the
    /// heap held before is still as it was after a failure; the objects
    /// allocated so far stay behind, unreachable, for the next collection.
    pub fn import(&mut self, pool: &mut BlockPool, graph: &ObjectGraph) -> (r: Result<
        TaggedPointer,
        RuntimeError,
    >)
        requires
            old(self).wf(),
            old(pool).wf(),
            graph.wf(),
        ensures
            final(self).wf(),
            final(pool).wf(),
            final(self).spec_budget() == old(self).spec_budget(),
            Heap::keeps(*old(self), *final(self)),
            graph@.nodes.len() == 0 ==> r == Ok::<TaggedPointer, RuntimeError>(graph@.root)
                && final(self)@ == old(self)@ && final(pool)@ == old(pool)@,
            Heap::takes(*old(self), old(pool)@, graph@.nodes.len()) ==> r is Ok,
            r is Ok <==> old(self).layout().progress(old(pool)@, node_sizes(graph@)).2
                == graph@.nodes.len(),
            final(self).layout() == old(self).layout().progress(old(pool)@, node_sizes(graph@)).0,
            final(pool)@ == old(self).layout().progress(old(pool)@, node_sizes(graph@)).1,
            r matches Ok(word) ==> graph@.nodes.len() > 0 ==> exists|placed: Seq<u64>|
                Heap::imports(*old(self), graph@, placed, *final(self)) && word.target() == Some(
                    placed[0],
                ),
            r matches Err(e) ==> e == RuntimeError::AllocationFailure,
    {
        let ghost origin = *self;
        let ghost sizes = node_sizes(graph@);
        let ghost whole = origin.layout().progress(old(pool)@, sizes);
        let n = graph.nodes.len();
        if n == 0 {
            return Ok(graph.root);
        }
        let mut placed: Vec<u64> = Vec::new();
        proof {
            reveal(Heap::placing);
            assert(sizes.subrange(0, n as int) =~= sizes);
        }
        let mut k: usize = 0;
        while k < n
            invariant
                k <= n,
                n == graph.nodes@.len(),
                graph.wf(),
                origin == *old(self),
                self.wf(),
                pool.wf(),
                self.spec_budget() == origin.spec_budget(),
                placed@.len() == k,
                self.placing(origin, graph@, placed@, 0),
                self.spec_slots().len() <= origin.spec_slots().len() + k,
                pool@.outstanding <= old(pool)@.outstanding + k,
                pool@.ceiling == old(pool)@.ceiling,
                sizes == node_sizes(graph@),
                whole == origin.layout().progress(old(pool)@, sizes),
                whole.0 == self.layout().progress(pool@, sizes.subrange(k as int, n as int)).0,
                whole.1 == self.layout().progress(pool@, sizes.subrange(k as int, n as int)).1,
                whole.2 == self.layout().progress(pool@, sizes.subrange(k as int, n as int)).2 + k,
            decreases n - k,
        {
            let node = &graph.nodes[k];
            assert(graph@.nodes[k as int] == node@);
            let count = node.fields.len();
            let ghost before = *self;
            let ghost rest = sizes.subrange(k as int, n as int);
            proof {
                if Heap::takes(origin, old(pool)@, n as nat) {
                    assert(before.can_grow() && pool.can_supply());
                }
                assert(rest[0] == HEADER_WORDS + count);
                assert(rest.subrange(1, rest.len() as int) =~= sizes.subrange(k + 1, n as int));
            }
            match self.allocate(pool, node.header.class, count as u8) {
                Ok(pointer) => {
                    proof {
                        Heap::lemma_node_placed(before, *self, origin, graph@, placed@, pointer@);
                    }
                    placed.push(pointer.raw());
                },
                Err(e) => {
                    proof {
                        self.lemma_same_view(before);
                        before.lemma_placing_keeps(origin, graph@, placed@, 0);
                        assert forall|a: u64| #[trigger] origin.contains(a) implies self.contains(a)
                            && self@[a] == origin@[a] by {
                            assert(before.contains(a));
                        }
                    }
                    return Err(e);
                },
            }
            k += 1;
        }
        proof {
            assert(sizes.subrange(n as int, n as int) =~= Seq::<int>::empty());
        }
        let mut b: usize = 0;
        while b < n
            invariant
                b <= n,
                n == graph.nodes@.len(),
                n == placed@.len(),
                graph.wf(),
                origin == *old(self),
                self.wf(),
                pool.wf(),
                self.spec_budget() == origin.spec_budget(),
                self.placing(origin, graph@, placed@, b as int),
                self.layout() == whole.0,
            decreases n - b,
        {
            let node = &graph.nodes[b];
            let address = placed[b];
            let pointer = TaggedPointer::from_raw(address);
            let count = node.fields.len();
            let ghost start = *self;
            proof {
                assert(graph@.nodes[b as int] == node@);
                self.lemma_placing_at(origin, graph@, placed@, b as int, b as int);
            }
            let mut f: usize = 0;
            while f < count
                invariant
                    f <= count,
                    count == node@.fields.len(),
                    b < n,
                    n == graph.nodes@.len(),
                    n == placed@.len(),
                    graph.wf(),
                    graph@.nodes[b as int] == node@,
                    address == placed@[b as int],
                    pointer@ == address,
                    address % 8 == 0,
                    address != 0,
                    self.wf(),
                    self.spec_budget() == origin.spec_budget(),
                    self.layout() == whole.0,
                    start.placing(origin, graph@, placed@, b as int),
                    start.contains(address),
                    forall|a: u64|
                        #![trigger self.contains(a)]
                        #![trigger start.contains(a)]
                        self.contains(a) <==> start.contains(a),
                    forall|a: u64|
                        #[trigger] start.contains(a) && a != address ==> self@[a] == start@[a],
                    self@[address] == partly_relocated(node@, placed@, f as int),
                decreases count - f,
            {
                let source = node.fields[f];
                let target = match source.decode() {
                    Value::Immediate(_) => 0,
                    Value::Reference(x) => x,
                };
                let word = if target != 0 {
                    proof {
                        assert(graph@.names_node(graph@.nodes[b as int].fields[f as int]));
                        let j = choose|j: int|
                            0 <= j < graph@.nodes.len() && source@ == #[trigger] node_word(j);
                        assert(target as int / 8 - 1 == j);
                    }
                    let j = (target / 8 - 1) as usize;
                    TaggedPointer::from_raw(placed[j])
                } else {
                    source
                };
                assert(word == relocated_word(source, placed@));
                let ghost before = *self;
                assert(before.contains(address));
                let done = self.set_field(pointer, f, word);
                proof {
                    assert(done is Ok);
                    assert(self@[address].fields =~= partly_relocated(
                        node@,
                        placed@,
                        f + 1,
                    ).fields);
                    assert forall|a: u64|
                        #![trigger self.contains(a)]
                        #![trigger start.contains(a)]
                        self.contains(a) <==> start.contains(a) by {
                        assert(self@.dom().contains(a) <==> before@.dom().contains(a) || a == address);
                        assert(self@.dom().contains(a) == self.contains(a));
                        assert(before@.dom().contains(a) == before.contains(a));
                    }
                    assert forall|a: u64| #[trigger] start.contains(a) && a != address implies self@[a]
                        == start@[a] by {
                        assert(before.contains(a));
                    }
                }
                f += 1;
            }
            let ghost before = *self;
            assert(before.contains(address));
            match &node.value {
                Some(value) => {
                    let done = self.set_value(pointer, value.duplicate());
                    assert(done is Ok);
                },
                None => {},
            }
            proof {
                assert forall|a: u64|
                    #![trigger self.contains(a)]
                    #![trigger start.contains(a)]
                    self.contains(a) <==> start.contains(a) by {
                    assert(self@.dom().contains(a) <==> before@.dom().contains(a) || a == address);
                    assert(self@.dom().contains(a) == self.contains(a));
                    assert(before@.dom().contains(a) == before.contains(a));
                }
                assert forall|a: u64| #[trigger] start.contains(a) && a != address implies self@[a]
                    == start@[a] by {
                    assert(before.contains(a));
                }
                assert(self@[address].fields =~= relocated(node@, placed@).fields);
                assert(self@[address] == relocated(graph@.nodes[b as int], placed@));
                Heap::lemma_node_built(start, *self, origin, graph@, placed@, b as int);
            }
            b += 1;
        }
        proof {
            self.lemma_import_complete(origin, graph@, placed@);
            self.lemma_placing_keeps(origin, graph@, placed@, n as int);
            self.lemma_placing_at(origin, graph@, placed@, n as int, 0);
        }
        Ok(TaggedPointer::from_raw(placed[0]))
    }

    /// A heap that holds what another holds keeps every object of the
    /// other.
    pub(crate) proof fn lemma_same_view(&self, other: Heap)
        requires
            self@ == other@,
        ensures
            Heap::keeps(other, *self),
    {
        assert forall|a: u64| #[trigger] other.contains(a) implies self.contains(a) && self@[a]
            == other@[a] by {
            assert(self@.dom().contains(a) <==> other@.dom().contains(a));
            assert(self@.dom().contains(a) == self.contains(a));
            assert(other@.dom().contains(a) == other.contains(a));
        }
    }
}


impl Heap {
    /// A value that is copied out of one heap and into another keeps its
    /// shape: the copy of an object has the class, the payload and the
    /// number of fields of the object, a field that holds an immediate or
    /// null holds the same word in the copy, and a field that refers to an
    /// object refers, in the copy, to the copy of that object.
    pub proof fn lemma_transfer_keeps_shape(
        sender: Heap,
        word: TaggedPointer,
        order: Seq<u64>,
        graph: GraphView,
        before: Heap,
        placed: Seq<u64>,
        after: Heap,
        k: int,
        f: int,
    )
        requires
            graph.wf(),
            sender.exports(word, order, graph),
            Heap::imports(before, graph, placed, after),
            0 <= k < order.len(),
            0 <= f < sender@[order[k]].fields.len(),
        ensures
            after.contains(placed[k]),
            after@[placed[k]].header.class == sender@[order[k]].header.class,
            after@[placed[k]].value == sender@[order[k]].value,
            after@[placed[k]].fields.len() == sender@[order[k]].fields.len(),
            match sender@[order[k]].fields[f].target() {
                None => after@[placed[k]].fields[f] == sender@[order[k]].fields[f],
                Some(b) => exists|j: int|
                    0 <= j < order.len() && #[trigger] order[j] == b && after@[placed[k]].fields[f]@
                        == placed[j],
            },
    {
        let source = sender@[order[k]];
        let node = graph.nodes[k];
        assert(sender.contains(order[k]));
        assert(copied(source, node, order));
        assert(renamed(source.fields[f], node.fields[f], order));
        assert(after@[placed[k]] == relocated(node, placed));
        if source.fields[f].target() is Some {
            let b = source.fields[f].target()->0;
            let j = choose|j: int|
                0 <= j < order.len() && #[trigger] order[j] == b && node.fields[f]@ == node_word(j);
            assert(node.fields[f].target() == Some(node_word(j)));
            assert(node_word(j) as int / 8 - 1 == j);
        }
    }
}

} // verus!
