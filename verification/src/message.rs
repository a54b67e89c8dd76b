//! Messages: what one process hands to another.
//!
//! Processes share no heap. A value that crosses from one process to another
//! travels as an object graph that stands on its own: the objects the value
//! leads to, copied out of the sender's heap, with every reference among
//! them rewritten to the number of the node it names. A graph refers into no
//! heap, so a message that waits in a mailbox, or is on its way there, adds
//! nothing to the roots of any collection.

use vstd::prelude::*;
use crate::class::MAX_FIELDS;
use crate::object::{Object, ObjectView};
use crate::tagged_pointer::TaggedPointer;

verus! {

/// The most nodes a graph may hold: as many as the largest heap has words.
pub const MAX_NODES: u64 = 0x1_0000_0000;

/// The word that names node `index` inside a graph.
pub open spec fn node_word(index: int) -> u64 {
    ((index + 1) * 8) as u64
}

/// What a graph holds.
pub struct GraphView {
    /// The value itself: an immediate, null, or the word of node 0.
    pub root: TaggedPointer,
    /// The objects the value leads to.
    pub nodes: Seq<ObjectView>,
}

impl GraphView {
    /// Whether every reference names a node of the graph, the root names
    /// node 0 if it names any, and no node is marked.
    pub open spec fn wf(self) -> bool {
        &&& self.nodes.len() <= MAX_NODES
        &&& self.root.target() is Some ==> self.nodes.len() > 0 && self.root@ == node_word(0)
        &&& self.root.target() is None ==> self.nodes.len() == 0
        &&& forall|k: int|
            0 <= k < self.nodes.len() ==> {
                &&& (#[trigger] self.nodes[k]).fields.len() <= MAX_FIELDS
                &&& !self.nodes[k].header.marked
            }
        &&& forall|k: int, f: int|
            0 <= k < self.nodes.len() && 0 <= f < self.nodes[k].fields.len() ==> self.names_node(
                #[trigger] self.nodes[k].fields[f],
            )
    }

    /// Whether a word is an immediate, null, or the word of a node.
    pub open spec fn names_node(self, word: TaggedPointer) -> bool {
        word.target() is Some ==> exists|j: int|
            0 <= j < self.nodes.len() && word@ == #[trigger] node_word(j)
    }
}

/// A value with the objects it leads to, standing on its own.
pub struct ObjectGraph {
    pub(crate) root: TaggedPointer,
    pub(crate) nodes: Vec<Object>,
}

impl ObjectGraph {
    /// Root and nodes as plain values.
    pub open(crate) spec fn view(&self) -> GraphView {
        GraphView { root: self.root, nodes: Seq::new(self.nodes@.len(), |k: int| self.nodes@[k]@) }
    }

    /// Whether the graph stands on its own.
    pub open spec fn wf(&self) -> bool {
        self@.wf()
    }

    /// The graph of a value that leads to no object: an immediate or null.
    /// `None` when the word refers to an object.
    pub fn immediate(word: TaggedPointer) -> (r: Option<ObjectGraph>)
        ensures
            r is Some <==> word.target() is None,
            r matches Some(graph) ==> graph.wf() && graph@ == (GraphView {
                root: word,
                nodes: Seq::<ObjectView>::empty(),
            }),
    {
        let reference = match word.decode() {
            crate::tagged_pointer::Value::Immediate(_) => false,
            crate::tagged_pointer::Value::Reference(address) => address != 0,
        };
        if reference {
            None
        } else {
            let graph = ObjectGraph { root: word, nodes: Vec::new() };
            assert(graph@.nodes =~= Seq::<ObjectView>::empty());
            Some(graph)
        }
    }

    /// The value itself.
    pub fn root(&self) -> (word: TaggedPointer)
        ensures
            word == self@.root,
    {
        self.root
    }

    /// The number of objects the value leads to.
    pub fn node_count(&self) -> (n: usize)
        ensures
            n == self@.nodes.len(),
    {
        self.nodes.len()
    }
}

/// What a message holds.
pub struct MessageView {
    pub sender: u64,
    pub graph: GraphView,
}

/// A value on its way from one process to another.
pub struct Message {
    pub(crate) sender: u64,
    pub(crate) graph: ObjectGraph,
}

impl Message {
    /// Sender and graph as plain values.
    pub open(crate) spec fn view(&self) -> MessageView {
        MessageView { sender: self.sender, graph: self.graph@ }
    }

    /// Whether the graph that the message carries stands on its own.
    pub open spec fn wf(&self) -> bool {
        self@.graph.wf()
    }

    /// A message from `sender` that carries `graph`.
    pub fn new(sender: u64, graph: ObjectGraph) -> (message: Message)
        ensures
            message@ == (MessageView { sender, graph: graph@ }),
    {
        Message { sender, graph }
    }

    /// The PID of the process that sent the message.
    pub fn sender(&self) -> (pid: u64)
        ensures
            pid == self@.sender,
    {
        self.sender
    }

    /// What the message carries.
    pub fn graph(&self) -> (graph: &ObjectGraph)
        ensures
            graph@ == self@.graph,
    {
        &self.graph
    }

    /// Takes the message apart.
    pub fn into_graph(self) -> (graph: ObjectGraph)
        ensures
            graph@ == self@.graph,
    {
        self.graph
    }
}

} // verus!
