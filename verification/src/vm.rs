//! The runtime: class registry, block pool, process table and run queues
//! under one roof, with the operations that span them.

use vstd::prelude::*;
use crate::allocator::{BlockPool, PoolView};
use crate::class::{Class, ClassId, ClassKind, ClassRegistry};
use crate::errors::RuntimeError;
use crate::heap::{owned, Heap};
use crate::mailbox::{after_receive, after_send};
use crate::message::{GraphView, Message, MessageView};
use crate::object::ObjectView;
use crate::pool::{Pool, Queues};
use crate::process::{step_spec, Action, Event, Process, ProcessState};
use crate::process_table::ProcessTable;
use crate::tagged_pointer::TaggedPointer;

verus! {

/// What a worker finds when it looks for work.
#[derive(Clone, Copy, Debug, PartialEq, Eq, Structural)]
pub enum Pick {
    /// No process waits in any queue.
    Idle,
    /// The queue entry named a process that is gone or not runnable; the
    /// entry has been dropped.
    Stale(u64),
    /// The process is now running on the worker.
    Run(u64),
}

/// The state of one runtime.
pub struct Runtime {
    pub(crate) classes: ClassRegistry,
    pub(crate) blocks: BlockPool,
    pub(crate) processes: ProcessTable,
    pub(crate) scheduler: Pool,
    pub(crate) registers: usize,
    pub(crate) heap_budget: usize,
}

impl Runtime {
    /// The class registry.
    pub open(crate) spec fn spec_classes(&self) -> ClassRegistry {
        self.classes
    }

    /// The block pool, in numbers.
    pub open(crate) spec fn spec_blocks(&self) -> PoolView {
        self.blocks@
    }

    /// The process table.
    pub open(crate) spec fn spec_processes(&self) -> ProcessTable {
        self.processes
    }

    /// The run queues.
    pub open(crate) spec fn spec_scheduler(&self) -> Queues {
        self.scheduler@
    }

    /// The number of registers and the heap budget that every new process
    /// gets.
    pub open(crate) spec fn spec_config(&self) -> (usize, usize) {
        (self.registers, self.heap_budget)
    }

    /// Whether `pid` names a live process.
    pub open spec fn alive(&self, pid: u64) -> bool {
        self.spec_processes().contains(pid)
    }

    /// Whether `pid` was handed out and its process is gone.
    pub open spec fn dead(&self, pid: u64) -> bool {
        self.spec_processes().dead(pid)
    }

    /// The process that `pid` names.
    pub open spec fn process(&self, pid: u64) -> Process {
        self.spec_processes().process(pid)
    }

    /// Every part is well formed.
    pub open(crate) spec fn wf(&self) -> bool {
        &&& self.blocks.wf()
        &&& self.processes.wf()
        &&& self.scheduler.wf()
    }

    /// Whether a runtime that was `before` can have become `after`: what
    /// new processes get stays the same, PIDs are only ever handed out, and
    /// a PID whose process is gone names nothing ever again.
    pub open spec fn evolves(before: Runtime, after: Runtime) -> bool {
        &&& after.spec_config() == before.spec_config()
        &&& before.spec_processes().issued() <= after.spec_processes().issued()
        &&& forall|pid: u64| #[trigger] before.dead(pid) ==> after.dead(pid)
    }

    /// Whether `class` names a registered class of process kind.
    pub open spec fn spawnable(&self, class: ClassId) -> bool {
        &&& self.spec_classes().contains(class)
        &&& self.spec_classes().class_of(class).spec_kind() == ClassKind::Process
    }

    /// Whether the table, the run queues and the block pool of `after` are
    /// those of `before`.
    pub open spec fn unchanged(before: Runtime, after: Runtime) -> bool {
        &&& after.spec_processes() == before.spec_processes()
        &&& after.spec_scheduler() == before.spec_scheduler()
        &&& after.spec_blocks() == before.spec_blocks()
    }

    /// Whether every process but `pid` is as it was.
    pub open spec fn others_kept(before: Runtime, after: Runtime, pid: u64) -> bool {
        forall|other: u64|
            other != pid && #[trigger] before.alive(other) ==> after.alive(other) && after.process(
                other,
            ) == before.process(other)
    }

    /// Sets up a runtime: no class, no process, an empty block pool under
    /// `ceiling` blocks, run queues for `workers` workers. Every process
    /// will get `registers` registers and a heap of up to `heap_budget`
    /// blocks.
    pub fn bootstrap(workers: usize, ceiling: usize, heap_budget: usize, registers: usize) -> (runtime:
        Runtime)
        ensures
            runtime.wf(),
            runtime.spec_config() == (registers, heap_budget),
            runtime.spec_classes()@.len() == 0,
            runtime.spec_processes().issued() == 0,
            runtime.spec_blocks() == (PoolView { free: 0, outstanding: 0, ceiling: ceiling as nat }),
            runtime.spec_scheduler().total() == 0,
            runtime.spec_scheduler().injector.len() == 0,
            runtime.spec_scheduler().locals.len() == crate::pool::worker_count_spec(workers),
            forall|w: int|
                0 <= w < runtime.spec_scheduler().locals.len() ==> (
                #[trigger] runtime.spec_scheduler().locals[w]).len() == 0,
    {
        Runtime {
            classes: ClassRegistry::new(),
            blocks: BlockPool::new(ceiling),
            processes: ProcessTable::new(),
            scheduler: Pool::new(workers),
            registers,
            heap_budget,
        }
    }

    /// The class registry, to read from.
    pub fn classes(&self) -> (classes: &ClassRegistry)
        ensures
            *classes == self.spec_classes(),
    {
        &self.classes
    }

    /// The block pool, to read from.
    pub fn blocks(&self) -> (blocks: &BlockPool)
        ensures
            blocks@ == self.spec_blocks(),
    {
        &self.blocks
    }

    /// The process table, to read from.
    pub fn processes(&self) -> (processes: &ProcessTable)
        ensures
            *processes == self.spec_processes(),
    {
        &self.processes
    }

    /// The run queues, to read from.
    pub fn scheduler(&self) -> (scheduler: &Pool)
        ensures
            scheduler@ == self.spec_scheduler(),
    {
        &self.scheduler
    }

    /// Registers a class; see `ClassRegistry::register_class`.
    pub fn register_class(
        &mut self,
        name: String,
        field_count: usize,
        method_table_size: usize,
        kind: ClassKind,
    ) -> (r: Result<ClassId, RuntimeError>)
        requires
            old(self).wf(),
        ensures
            final(self).wf(),
            Runtime::evolves(*old(self), *final(self)),
            Runtime::unchanged(*old(self), *final(self)),
            r is Ok <==> field_count <= crate::class::MAX_FIELDS && method_table_size
                <= crate::class::MAX_METHODS,
            r matches Err(e) ==> e == RuntimeError::InvalidClass && final(self).spec_classes()@
                == old(self).spec_classes()@,
            r matches Ok(id) ==> {
                &&& id.index == old(self).spec_classes()@.len()
                &&& final(self).spec_classes()@.len() == old(self).spec_classes()@.len() + 1
                &&& final(self).spec_classes()@.subrange(0, id.index as int) == old(self).spec_classes()@
                &&& final(self).spec_classes().contains(id)
                &&& final(self).spec_classes().class_of(id).spec_name() == name@
                &&& final(self).spec_classes().class_of(id).spec_field_count() == field_count
                &&& final(self).spec_classes().class_of(id).spec_method_table_size()
                    == method_table_size
                &&& final(self).spec_classes().class_of(id).spec_kind() == kind
            },
    {
        self.classes.register_class(name, field_count, method_table_size, kind)
    }

    /// Spawns a process of a process-kind class: files it in the table,
    /// runnable, and puts it on the injector. Fails, changing nothing, with
    /// `InvalidClass` when `class` names no registered class of process
    /// kind, and with `AllocationFailure` when every PID has been handed
    /// out.
    pub fn spawn(&mut self, class: ClassId) -> (r: Result<u64, RuntimeError>)
        requires
            old(self).wf(),
        ensures
            final(self).wf(),
            final(self).spec_classes() == old(self).spec_classes(),
            final(self).spec_blocks() == old(self).spec_blocks(),
            Runtime::evolves(*old(self), *final(self)),
            r == Err::<u64, RuntimeError>(RuntimeError::InvalidClass) <==> !old(self).spawnable(class),
            r == Err::<u64, RuntimeError>(RuntimeError::AllocationFailure) <==> old(self).spawnable(
                class,
            ) && old(self).spec_processes().exhausted(),
            r matches Err(e) ==> {
                &&& e == RuntimeError::InvalidClass || e == RuntimeError::AllocationFailure
                &&& Runtime::unchanged(*old(self), *final(self))
            },
            r matches Ok(pid) ==> {
                &&& pid == old(self).spec_processes().issued()
                &&& final(self).spec_processes().issued() == pid + 1
                &&& final(self).alive(pid)
                &&& final(self).process(pid).spec_state() == ProcessState::Runnable
                &&& final(self).process(pid).spec_class() == class
                &&& final(self).process(pid).spec_mailbox().len() == 0
                &&& final(self).process(pid).spec_registers() == Seq::new(
                    old(self).spec_config().0 as nat,
                    |i: int| TaggedPointer { raw: 0 },
                )
                &&& final(self).process(pid).spec_depth() == 0
                &&& final(self).process(pid).spec_heap()@ == Map::<u64, ObjectView>::empty()
                &&& final(self).process(pid).spec_heap().spec_budget() == Heap::new_budget(
                    old(self).spec_config().1,
                )
                &&& final(self).spec_scheduler() == old(self).spec_scheduler().scheduled(pid)
                &&& final(self).spec_scheduler().total() == old(self).spec_scheduler().total() + 1
                &&& Runtime::others_kept(*old(self), *final(self), pid)
            },
    {
        let process_kind = match self.classes.get(class) {
            Some(descriptor) => match descriptor.kind() {
                ClassKind::Process => true,
                ClassKind::Object => false,
            },
            None => false,
        };
        if !process_kind {
            return Err(RuntimeError::InvalidClass);
        }
        let ghost before = self.processes;
        match self.processes.insert(class, self.registers, self.heap_budget) {
            Some(pid) => {
                self.scheduler.schedule(pid);
                proof {
                    assert forall|p: u64| #[trigger] old(self).dead(p) implies self.dead(p) by {
                        crate::process_table::lemma_insert_keeps_dead(before, self.processes, pid, p);
                    }
                    assert forall|other: u64| other != pid && #[trigger] old(self).alive(
                        other,
                    ) implies self.alive(other) && self.process(other) == old(self).process(other) by {
                        assert(self.processes.spec_entries().subrange(0, pid as int)[other as int]
                            == before.spec_entries()[other as int]);
                    }
                }
                Ok(pid)
            },
            None => Err(RuntimeError::AllocationFailure),
        }
    }

    /// Terminates a process: removes it from the table and gives the
    /// blocks of its heap back to the pool. Returns the number of blocks
    /// given back. Fails with `ProcessNotFound`, changing nothing, when
    /// `pid` names no live process. From then on `pid` names nothing.
    pub fn terminate(&mut self, pid: u64) -> (r: Result<usize, RuntimeError>)
        requires
            old(self).wf(),
        ensures
            final(self).wf(),
            final(self).spec_classes() == old(self).spec_classes(),
            final(self).spec_scheduler() == old(self).spec_scheduler(),
            Runtime::evolves(*old(self), *final(self)),
            Runtime::others_kept(*old(self), *final(self), pid),
            !final(self).alive(pid),
            final(self).spec_processes().issued() == old(self).spec_processes().issued(),
            r is Ok <==> old(self).alive(pid),
            r matches Err(e) ==> e == RuntimeError::ProcessNotFound && final(self).spec_processes()
                == old(self).spec_processes() && final(self).spec_blocks() == old(self).spec_blocks(),
            r matches Ok(released) ==> {
                &&& final(self).dead(pid)
                &&& released == owned(old(self).process(pid).spec_heap().spec_slots())
                &&& final(self).spec_blocks() == BlockPool::after_release(
                    old(self).spec_blocks(),
                    released as nat,
                )
            },
    {
        let ghost before = self.processes;
        match self.processes.remove(pid) {
            Some(process) => {
                let mut process = process;
                let released = process.heap.release_all(&mut self.blocks);
                proof {
                    assert forall|p: u64| #[trigger] old(self).dead(p) implies self.dead(p) by {
                        crate::process_table::lemma_remove_keeps_dead(before, self.processes, pid, p);
                    }
                }
                Ok(released)
            },
            None => Err(RuntimeError::ProcessNotFound),
        }
    }
}


/// Whether `graph` is what sending `word` out of `heap` makes: the word by
/// itself when it leads to no object, else a copy of every object that can
/// be reached from it.
pub open spec fn sent(heap: Heap, word: TaggedPointer, graph: GraphView) -> bool {
    &&& graph.wf()
    &&& word.target() is None ==> graph == (GraphView { root: word, nodes: Seq::<ObjectView>::empty() })
    &&& word.target() is Some ==> exists|order: Seq<u64>| heap.exports(word, order, graph)
}

impl Runtime {
    /// Whether every process but `a` and `b` is as it was.
    pub open spec fn kept_but(before: Runtime, after: Runtime, a: u64, b: u64) -> bool {
        forall|other: u64|
            other != a && other != b && #[trigger] before.alive(other) ==> after.alive(other)
                && after.process(other) == before.process(other)
    }

    /// Whether the process `pid` is in both runtimes and differs at most in
    /// what its heap keeps to itself.
    pub open spec fn same_but_heap(before: Runtime, after: Runtime, pid: u64) -> bool {
        &&& before.alive(pid)
        &&& after.alive(pid)
        &&& after.process(pid).spec_pid() == pid
        &&& after.process(pid).spec_state() == before.process(pid).spec_state()
        &&& after.process(pid).spec_class() == before.process(pid).spec_class()
        &&& after.process(pid).spec_roots() == before.process(pid).spec_roots()
        &&& after.process(pid).spec_mailbox() == before.process(pid).spec_mailbox()
        &&& after.process(pid).spec_heap()@ == before.process(pid).spec_heap()@
    }

    /// Takes a live process out of the table for a moment.
    pub(crate) fn take(&mut self, pid: u64) -> (r: Option<Process>)
        requires
            old(self).wf(),
        ensures
            final(self).wf(),
            final(self).classes == old(self).classes,
            final(self).blocks == old(self).blocks,
            final(self).scheduler == old(self).scheduler,
            final(self).registers == old(self).registers,
            final(self).heap_budget == old(self).heap_budget,
            r is Some <==> old(self).alive(pid),
            r is None ==> *final(self) == *old(self),
            r matches Some(process) ==> {
                &&& process == old(self).process(pid)
                &&& process.wf()
                &&& process.spec_pid() == pid
                &&& final(self).dead(pid)
                &&& final(self).processes.spec_entries() == old(self).processes.spec_entries().update(
                    pid as int,
                    None,
                )
            },
    {
        let r = self.processes.remove(pid);
        proof {
            if r is Some {
                assert(old(self).processes.spec_entries()[pid as int] is Some);
            }
        }
        r
    }

    /// Puts a process that was taken out back under its PID.
    pub(crate) fn give(&mut self, process: Process)
        requires
            old(self).wf(),
            process.wf(),
            old(self).dead(process.spec_pid()),
        ensures
            final(self).wf(),
            final(self).classes == old(self).classes,
            final(self).blocks == old(self).blocks,
            final(self).scheduler == old(self).scheduler,
            final(self).registers == old(self).registers,
            final(self).heap_budget == old(self).heap_budget,
            final(self).alive(process.spec_pid()),
            final(self).process(process.spec_pid()) == process,
            final(self).processes.spec_entries() == old(self).processes.spec_entries().update(
                process.spec_pid() as int,
                Some(process),
            ),
    {
        let back = self.processes.restore(process);
        assert(back is None);
    }

    /// Sends a value from one process to another: copies what the value
    /// leads to out of the sender's heap and puts the copy into the
    /// receiver's mailbox, waking a receiver that waits for a message.
    ///
    /// Fails with `SendToDeadProcess` when `receiver` names no live
    /// process, with `ProcessNotFound` when `sender` names none, and with
    /// `GCInvariantViolation` when the value leads to memory that holds no
    /// object. A send that fails delivers nothing.
    pub fn send(&mut self, sender: u64, receiver: u64, word: TaggedPointer) -> (r: Result<
        (),
        RuntimeError,
    >)
        requires
            old(self).wf(),
        ensures
            final(self).wf(),
            final(self).spec_classes() == old(self).spec_classes(),
            final(self).spec_blocks() == old(self).spec_blocks(),
            Runtime::evolves(*old(self), *final(self)),
            Runtime::kept_but(*old(self), *final(self), sender, receiver),
            !old(self).alive(receiver) ==> {
                &&& r == Err::<(), RuntimeError>(RuntimeError::SendToDeadProcess)
                &&& Runtime::unchanged(*old(self), *final(self))
            },
            old(self).alive(receiver) && !old(self).alive(sender) ==> {
                &&& r == Err::<(), RuntimeError>(RuntimeError::ProcessNotFound)
                &&& Runtime::unchanged(*old(self), *final(self))
            },
            old(self).alive(receiver) && old(self).alive(sender) ==> {
                let heap = old(self).process(sender).spec_heap();
                let target = old(self).process(receiver);
                &&& r is Err <==> heap.dangling(seq![word])
                &&& r matches Err(e) ==> {
                    &&& e == RuntimeError::GCInvariantViolation
                    &&& Runtime::same_but_heap(*old(self), *final(self), sender)
                    &&& Runtime::same_but_heap(*old(self), *final(self), receiver)
                    &&& final(self).spec_scheduler() == old(self).spec_scheduler()
                }
                &&& r is Ok ==> {
                    &&& final(self).alive(sender)
                    &&& final(self).alive(receiver)
                    &&& final(self).process(sender).spec_heap()@ == heap@
                    &&& final(self).process(sender).spec_roots() == old(self).process(
                        sender,
                    ).spec_roots()
                    &&& final(self).process(receiver).spec_heap()@ == target.spec_heap()@
                    &&& final(self).process(receiver).spec_roots() == target.spec_roots()
                    &&& final(self).process(receiver).spec_state() == step_spec(
                        target.spec_state(),
                        Event::MessageArrived,
                    ).0
                    &&& sender != receiver ==> Runtime::same_but_heap(
                        *old(self),
                        *final(self),
                        sender,
                    )
                    &&& exists|graph: GraphView|
                        sent(heap, word, graph) && final(self).process(receiver).spec_mailbox()
                            == after_send(
                            target.spec_mailbox(),
                            MessageView { sender, graph },
                        )
                    &&& final(self).spec_scheduler() == if target.spec_state()
                        == ProcessState::WaitingReceive {
                        old(self).spec_scheduler().scheduled(receiver)
                    } else {
                        old(self).spec_scheduler()
                    }
                }
            },
    {
        if self.processes.lookup(receiver).is_none() {
            return Err(RuntimeError::SendToDeadProcess);
        }
        let mut source = match self.take(sender) {
            Some(process) => process,
            None => {
                return Err(RuntimeError::ProcessNotFound);
            },
        };
        let ghost heap = source.heap;
        let ghost taken = *self;
        let exported = source.heap.export(word);
        let graph = match exported {
            Ok(graph) => graph,
            Err(e) => {
                self.give(source);
                proof {
                    Runtime::lemma_given_back(*old(self), taken, *self, sender);
                }
                return Err(e);
            },
        };
        let ghost carried = graph@;
        assert(sent(heap, word, carried));
        let message = Message::new(sender, graph);
        if sender == receiver {
            let woken = source.deliver(message);
            self.give(source);
            if woken {
                self.scheduler.schedule(receiver);
            }
            proof {
                Runtime::lemma_given_back(*old(self), taken, *self, sender);
                assert(sent(heap, word, carried) && self.process(receiver).spec_mailbox() == after_send(
                    old(self).process(receiver).spec_mailbox(),
                    MessageView { sender, graph: carried },
                ));
            }
        } else {
            self.give(source);
            let ghost middle = *self;
            proof {
                Runtime::lemma_given_back(*old(self), taken, middle, sender);
            }
            let mut target = match self.take(receiver) {
                Some(process) => process,
                None => {
                    assert(false);
                    return Err(RuntimeError::SendToDeadProcess);
                },
            };
            let ghost emptied = *self;
            let woken = target.deliver(message);
            self.give(target);
            if woken {
                self.scheduler.schedule(receiver);
            }
            proof {
                Runtime::lemma_given_back(middle, emptied, *self, receiver);
                assert forall|p: u64| #[trigger] old(self).dead(p) implies self.dead(p) by {
                    assert(middle.dead(p));
                }
                assert forall|other: u64|
                    other != sender && other != receiver && #[trigger] old(self).alive(
                        other,
                    ) implies self.alive(other) && self.process(other) == old(self).process(other) by {
                    assert(middle.alive(other));
                }
                assert(middle.process(receiver) == old(self).process(receiver));
                assert(self.process(sender) == middle.process(sender));
                assert(sent(heap, word, carried) && self.process(receiver).spec_mailbox() == after_send(
                    old(self).process(receiver).spec_mailbox(),
                    MessageView { sender, graph: carried },
                ));
            }
        }
        proof {
            let target = old(self).process(receiver);
            assert(self.alive(sender));
            assert(self.alive(receiver));
            assert(self.process(sender).spec_heap()@ == heap@);
            assert(self.process(sender).spec_roots() == old(self).process(sender).spec_roots());
            assert(self.process(receiver).spec_heap()@ == target.spec_heap()@);
            assert(self.process(receiver).spec_roots() == target.spec_roots());
            assert(self.process(receiver).spec_state() == step_spec(
                target.spec_state(),
                Event::MessageArrived,
            ).0);
            assert(sender != receiver ==> self.process(sender).spec_state() == old(self).process(
                sender,
            ).spec_state() && self.process(sender).spec_mailbox() == old(self).process(
                sender,
            ).spec_mailbox());
            assert(exists|graph: GraphView|
                sent(heap, word, graph) && self.process(receiver).spec_mailbox() == after_send(
                    target.spec_mailbox(),
                    MessageView { sender, graph },
                )) by {
                assert(sent(heap, word, carried) && self.process(receiver).spec_mailbox() == after_send(
                    target.spec_mailbox(),
                    MessageView { sender, graph: carried },
                ));
            }
            assert(self.spec_scheduler() == if target.spec_state() == ProcessState::WaitingReceive {
                old(self).spec_scheduler().scheduled(receiver)
            } else {
                old(self).spec_scheduler()
            });
            assert(!heap.dangling(seq![word]));
        }
        Ok(())
    }

    /// Taking a process out and putting one back under the same PID leaves
    /// every other process as it was, hands out no PID and brings no PID
    /// back to life.
    pub(crate) proof fn lemma_given_back(before: Runtime, taken: Runtime, after: Runtime, pid: u64)
        requires
            after.spec_config() == before.spec_config(),
            before.alive(pid),
            taken.processes.spec_entries() == before.processes.spec_entries().update(pid as int, None),
            after.alive(pid),
            after.processes.spec_entries() == taken.processes.spec_entries().update(
                pid as int,
                Some(after.process(pid)),
            ),
        ensures
            Runtime::evolves(before, after),
            Runtime::others_kept(before, after, pid),
            Runtime::kept_but(before, after, pid, pid),
            after.spec_processes().issued() == before.spec_processes().issued(),
    {
    }

    /// Receives for a process: takes the oldest message from its mailbox
    /// and copies what it carries into its heap. Returns the word that the
    /// value has become, or `None` when no message waits; a running
    /// process then blocks.
    ///
    /// Fails with `ProcessNotFound`, changing nothing, when `pid` names no
    /// live process, and with `AllocationFailure` when the heap cannot take
    /// what the message carries, as `Heap::import` says; the message then
    /// stays in the mailbox.
    pub fn receive(&mut self, pid: u64) -> (r: Result<Option<TaggedPointer>, RuntimeError>)
        requires
            old(self).wf(),
        ensures
            final(self).wf(),
            final(self).spec_classes() == old(self).spec_classes(),
            final(self).spec_scheduler() == old(self).spec_scheduler(),
            Runtime::evolves(*old(self), *final(self)),
            Runtime::others_kept(*old(self), *final(self), pid),
            !old(self).alive(pid) ==> {
                &&& r == Err::<Option<TaggedPointer>, RuntimeError>(RuntimeError::ProcessNotFound)
                &&& Runtime::unchanged(*old(self), *final(self))
            },
            old(self).alive(pid) ==> {
                let before = old(self).process(pid);
                let after = final(self).process(pid);
                &&& final(self).alive(pid)
                &&& after.spec_roots() == before.spec_roots()
                &&& Heap::keeps(before.spec_heap(), after.spec_heap())
                &&& before.spec_mailbox().len() == 0 ==> {
                    &&& r == Ok::<Option<TaggedPointer>, RuntimeError>(None)
                    &&& after.spec_state() == step_spec(
                        before.spec_state(),
                        Event::BlockedOnReceive,
                    ).0
                    &&& after.spec_mailbox() == before.spec_mailbox()
                    &&& after.spec_heap() == before.spec_heap()
                    &&& final(self).spec_blocks() == old(self).spec_blocks()
                }
                &&& before.spec_mailbox().len() > 0 ==> {
                    let graph = before.spec_mailbox()[0].graph;
                    &&& after.spec_state() == before.spec_state()
                    &&& r matches Err(e) ==> e == RuntimeError::AllocationFailure
                        && after.spec_mailbox() == before.spec_mailbox()
                    &&& graph.nodes.len() == 0 ==> r == Ok::<Option<TaggedPointer>, RuntimeError>(
                        Some(graph.root),
                    ) && after.spec_heap()@ == before.spec_heap()@
                    &&& Heap::takes(before.spec_heap(), old(self).spec_blocks(), graph.nodes.len())
                        ==> r is Ok
                    &&& r is Ok <==> before.spec_heap().layout().progress(
                        old(self).spec_blocks(),
                        crate::transfer::node_sizes(graph),
                    ).2 == graph.nodes.len()
                    &&& r matches Ok(found) ==> {
                        &&& found is Some
                        &&& after.spec_mailbox() == after_receive(before.spec_mailbox())
                        &&& graph.nodes.len() > 0 ==> exists|placed: Seq<u64>|
                            Heap::imports(before.spec_heap(), graph, placed, after.spec_heap())
                                && found->0.target() == Some(placed[0])
                    }
                }
            },
    {
        let mut process = match self.take(pid) {
            Some(process) => process,
            None => {
                return Err(RuntimeError::ProcessNotFound);
            },
        };
        let ghost taken = *self;
        let ghost before = process;
        let r = match process.receive() {
            None => Ok(None),
            Some(message) => {
                let imported = process.heap.import(&mut self.blocks, message.graph());
                match imported {
                    Ok(word) => Ok(Some(word)),
                    Err(e) => {
                        process.mailbox.put_back(message);
                        assert(process.mailbox@ =~= before.mailbox@);
                        Err(e)
                    },
                }
            },
        };
        let ghost emptied = *self;
        self.give(process);
        proof {
            assert(emptied.processes == taken.processes);
            Runtime::lemma_given_back(*old(self), taken, *self, pid);
            if before.spec_mailbox().len() == 0 {
                assert(Heap::keeps(before.spec_heap(), process.spec_heap()));
            }
        }
        r
    }

    /// Hands `worker` the next process to run. An entry that names a
    /// process that is gone or not runnable is dropped and reported as
    /// stale; the worker then looks again.
    pub fn pick(&mut self, worker: usize) -> (r: Pick)
        requires
            old(self).wf(),
        ensures
            final(self).wf(),
            final(self).spec_classes() == old(self).spec_classes(),
            final(self).spec_blocks() == old(self).spec_blocks(),
            final(self).spec_scheduler() == old(self).spec_scheduler().next(worker as int).1,
            r == Pick::Idle <==> old(self).spec_scheduler().total() == 0,
            r != Pick::Idle ==> final(self).spec_scheduler().total() + 1 == old(
                self,
            ).spec_scheduler().total(),
            Runtime::evolves(*old(self), *final(self)),
            match old(self).spec_scheduler().next(worker as int).0 {
                None => r == Pick::Idle && final(self).spec_processes() == old(self).spec_processes(),
                Some(pid) => {
                    &&& Runtime::others_kept(*old(self), *final(self), pid)
                    &&& if old(self).alive(pid) && old(self).process(pid).spec_state()
                        == ProcessState::Runnable {
                        &&& r == Pick::Run(pid)
                        &&& final(self).alive(pid)
                        &&& final(self).process(pid).spec_state() == ProcessState::Running
                        &&& final(self).process(pid).spec_heap() == old(self).process(pid).spec_heap()
                        &&& final(self).process(pid).spec_roots() == old(self).process(
                            pid,
                        ).spec_roots()
                        &&& final(self).process(pid).spec_mailbox() == old(self).process(
                            pid,
                        ).spec_mailbox()
                    } else {
                        &&& r == Pick::Stale(pid)
                        &&& final(self).alive(pid) == old(self).alive(pid)
                        &&& old(self).alive(pid) ==> {
                            &&& Runtime::same_but_memory(*old(self), *final(self), pid)
                            &&& final(self).process(pid).spec_heap() == old(self).process(
                                pid,
                            ).spec_heap()
                        }
                    }
                },
            },
    {
        let pid = match self.scheduler.next(worker) {
            Some(pid) => pid,
            None => {
                return Pick::Idle;
            },
        };
        let ghost polled = *self;
        let mut process = match self.take(pid) {
            Some(process) => process,
            None => {
                return Pick::Stale(pid);
            },
        };
        let ghost taken = *self;
        let action = process.apply(Event::Scheduled);
        self.give(process);
        proof {
            Runtime::lemma_given_back(polled, taken, *self, pid);
        }
        match action {
            Action::Run => Pick::Run(pid),
            _ => Pick::Stale(pid),
        }
    }

    /// Settles a process after an event: moves it to the state the event
    /// leads to and does what that state asks for. A process that yielded
    /// goes on the deque of the worker that ran it; a process that woke up
    /// goes on the injector; a process that ran to its end is removed and
    /// its blocks go back to the pool; a process at a safepoint has its
    /// heap collected and goes on the injector.
    ///
    /// Fails with `ProcessNotFound`, changing nothing, when `pid` names no
    /// live process, and with `GCInvariantViolation` when the collector
    /// comes upon memory that holds no object; the process is then aborted:
    /// removed, with all its blocks given back.
    pub fn settle(&mut self, worker: usize, pid: u64, event: Event) -> (r: Result<
        Action,
        RuntimeError,
    >)
        requires
            old(self).wf(),
        ensures
            final(self).wf(),
            final(self).spec_classes() == old(self).spec_classes(),
            Runtime::evolves(*old(self), *final(self)),
            Runtime::others_kept(*old(self), *final(self), pid),
            !old(self).alive(pid) ==> {
                &&& r == Err::<Action, RuntimeError>(RuntimeError::ProcessNotFound)
                &&& Runtime::unchanged(*old(self), *final(self))
            },
            old(self).alive(pid) ==> {
                let before = old(self).process(pid);
                let next = step_spec(before.spec_state(), event).0;
                let action = step_spec(before.spec_state(), event).1;
                let aborted = action == Action::Collect && before.spec_heap().dangling(
                    before.spec_roots(),
                );
                &&& r is Err <==> aborted
                &&& r matches Err(e) ==> e == RuntimeError::GCInvariantViolation
                &&& r matches Ok(done) ==> done == action
                &&& final(self).alive(pid) <==> !aborted && action != Action::Reclaim
                &&& !final(self).alive(pid) ==> final(self).dead(pid) && final(self).spec_blocks()
                    == BlockPool::after_release(
                    old(self).spec_blocks(),
                    owned(before.spec_heap().spec_slots()),
                ) && final(self).spec_scheduler() == old(self).spec_scheduler()
                &&& final(self).alive(pid) ==> {
                    let after = final(self).process(pid);
                    &&& after.spec_roots() == before.spec_roots()
                    &&& after.spec_mailbox() == before.spec_mailbox()
                    &&& action != Action::Collect ==> {
                        &&& after.spec_state() == next
                        &&& after.spec_heap() == before.spec_heap()
                        &&& final(self).spec_blocks() == old(self).spec_blocks()
                    }
                    &&& action == Action::Collect ==> {
                        &&& after.spec_state() == ProcessState::Runnable
                        &&& Heap::collected(before.spec_heap(), before.spec_roots(), after.spec_heap())
                        &&& final(self).spec_blocks() == BlockPool::after_release(
                            old(self).spec_blocks(),
                            (owned(before.spec_heap().spec_slots()) - owned(
                                after.spec_heap().spec_slots(),
                            )) as nat,
                        )
                    }
                    &&& final(self).spec_scheduler() == if action == Action::Collect {
                        old(self).spec_scheduler().scheduled(pid)
                    } else if action == Action::Enqueue {
                        if event == Event::Yielded {
                            old(self).spec_scheduler().requeued(worker as int, pid)
                        } else {
                            old(self).spec_scheduler().scheduled(pid)
                        }
                    } else {
                        old(self).spec_scheduler()
                    }
                }
            },
    {
        let mut process = match self.take(pid) {
            Some(process) => process,
            None => {
                return Err(RuntimeError::ProcessNotFound);
            },
        };
        let ghost taken = *self;
        let ghost before = process;
        let action = process.apply(event);
        match action {
            Action::Enqueue => {
                self.give(process);
                match event {
                    Event::Yielded => {
                        self.scheduler.requeue(worker, pid);
                    },
                    _ => {
                        self.scheduler.schedule(pid);
                    },
                }
                proof {
                    Runtime::lemma_given_back(*old(self), taken, *self, pid);
                }
                Ok(action)
            },
            Action::Reclaim => {
                let _ = process.heap.release_all(&mut self.blocks);
                proof {
                    Runtime::lemma_taken(*old(self), *self, pid);
                }
                Ok(action)
            },
            Action::Collect => {
                match process.collect_garbage(&mut self.blocks) {
                    Ok(_) => {
                        self.give(process);
                        self.scheduler.schedule(pid);
                        proof {
                            Runtime::lemma_given_back(*old(self), taken, *self, pid);
                        }
                        Ok(action)
                    },
                    Err(e) => {
                        proof {
                            Runtime::lemma_taken(*old(self), *self, pid);
                        }
                        Err(e)
                    },
                }
            },
            _ => {
                self.give(process);
                proof {
                    Runtime::lemma_given_back(*old(self), taken, *self, pid);
                }
                Ok(action)
            },
        }
    }

    /// Taking a process out for good leaves every other process as it was
    /// and brings no PID back to life.
    pub(crate) proof fn lemma_taken(before: Runtime, after: Runtime, pid: u64)
        requires
            after.spec_config() == before.spec_config(),
            before.alive(pid),
            after.processes.spec_entries() == before.processes.spec_entries().update(pid as int, None),
        ensures
            Runtime::evolves(before, after),
            Runtime::others_kept(before, after, pid),
            after.dead(pid),
    {
    }
}


impl Runtime {
    /// Releases a class; see `ClassRegistry::drop_class`.
    pub fn drop_class(&mut self, id: ClassId) -> (r: Result<Class, RuntimeError>)
        requires
            old(self).wf(),
        ensures
            final(self).wf(),
            Runtime::evolves(*old(self), *final(self)),
            Runtime::unchanged(*old(self), *final(self)),
            r is Ok <==> old(self).spec_classes().contains(id),
            r matches Err(e) ==> e == RuntimeError::InvalidClass && final(self).spec_classes()@
                == old(self).spec_classes()@,
            r matches Ok(class) ==> {
                &&& class == old(self).spec_classes().class_of(id)
                &&& final(self).spec_classes()@ == old(self).spec_classes()@.update(
                    id.index as int,
                    None,
                )
            },
    {
        self.classes.drop_class(id)
    }

    /// Tears the runtime down: terminates every process and gives its
    /// blocks back, empties the run queues, frees every block that waits in
    /// the pool and releases every class.
    pub fn shutdown(&mut self)
        requires
            old(self).wf(),
        ensures
            final(self).wf(),
            Runtime::evolves(*old(self), *final(self)),
            final(self).spec_processes().issued() == old(self).spec_processes().issued(),
            forall|pid: u64| !final(self).alive(pid),
            final(self).spec_scheduler().total() == 0,
            final(self).spec_blocks().free == 0,
            final(self).spec_blocks().outstanding <= old(self).spec_blocks().outstanding,
            final(self).spec_blocks().ceiling == old(self).spec_blocks().ceiling,
            forall|id: ClassId| !final(self).spec_classes().contains(id),
    {
        let count = self.processes.issued_count();
        let mut i: usize = 0;
        while i < count
            invariant
                i <= count,
                count == self.processes.issued(),
                count == old(self).processes.issued(),
                count <= u64::MAX,
                self.wf(),
                self.blocks@.ceiling == old(self).blocks@.ceiling,
                self.blocks@.outstanding <= old(self).blocks@.outstanding,
                Runtime::evolves(*old(self), *self),
                forall|pid: u64| pid < i ==> !self.alive(pid),
            decreases count - i,
        {
            let ghost before = *self;
            let _ = self.terminate(i as u64);
            proof {
                assert forall|pid: u64| pid < i + 1 implies !self.alive(pid) by {
                    if pid < i {
                        if before.alive(pid) {
                        } else {
                            assert(before.dead(pid));
                        }
                    }
                }
                assert forall|pid: u64| #[trigger] old(self).dead(pid) implies self.dead(pid) by {
                    assert(before.dead(pid));
                }
            }
            i += 1;
        }
        let ghost emptied = self.processes;
        proof {
            assert forall|pid: u64| !(#[trigger] emptied.contains(pid)) by {
                if pid < count {
                    assert(!self.alive(pid));
                }
            }
        }
        self.scheduler.clear();
        let _ = self.blocks.drain();
        self.classes.clear();
        proof {
            assert(self.processes == emptied);
            assert forall|pid: u64| !self.alive(pid) by {
                assert(!emptied.contains(pid));
            }
            assert forall|pid: u64| #[trigger] old(self).dead(pid) implies self.dead(pid) by {
                assert(!emptied.contains(pid));
            }
        }
    }

    /// Dead letter: a PID whose process is gone names nothing in any later
    /// state of the runtime, so every later send to it is refused with
    /// `SendToDeadProcess`.
    pub proof fn lemma_dead_letter(before: Runtime, after: Runtime, pid: u64)
        requires
            before.dead(pid),
            Runtime::evolves(before, after),
        ensures
            after.dead(pid),
            !after.alive(pid),
    {
    }

    /// What can become of a runtime can become of it in steps.
    pub proof fn lemma_evolves_in_steps(first: Runtime, second: Runtime, third: Runtime)
        requires
            Runtime::evolves(first, second),
            Runtime::evolves(second, third),
        ensures
            Runtime::evolves(first, third),
            Runtime::evolves(first, first),
    {
        assert forall|pid: u64| #[trigger] first.dead(pid) implies third.dead(pid) by {
            assert(second.dead(pid));
        }
    }
}


impl Runtime {
    /// Whether the process `pid` is in both runtimes and differs at most
    /// in its heap and its roots.
    pub open spec fn same_but_memory(before: Runtime, after: Runtime, pid: u64) -> bool {
        &&& before.alive(pid)
        &&& after.alive(pid)
        &&& after.process(pid).spec_state() == before.process(pid).spec_state()
        &&& after.process(pid).spec_class() == before.process(pid).spec_class()
        &&& after.process(pid).spec_mailbox() == before.process(pid).spec_mailbox()
    }

    /// Allocates an instance of a registered class in the heap of a
    /// process; see `Process::allocate`. Fails with `ProcessNotFound`,
    /// changing nothing, when `pid` names no live process.
    pub fn allocate(&mut self, pid: u64, class: ClassId) -> (r: Result<TaggedPointer, RuntimeError>)
        requires
            old(self).wf(),
        ensures
            final(self).wf(),
            final(self).spec_classes() == old(self).spec_classes(),
            final(self).spec_scheduler() == old(self).spec_scheduler(),
            Runtime::evolves(*old(self), *final(self)),
            Runtime::others_kept(*old(self), *final(self), pid),
            !old(self).alive(pid) ==> {
                &&& r == Err::<TaggedPointer, RuntimeError>(RuntimeError::ProcessNotFound)
                &&& Runtime::unchanged(*old(self), *final(self))
            },
            old(self).alive(pid) ==> {
                let heap = old(self).process(pid).spec_heap();
                let registry = old(self).spec_classes();
                &&& Runtime::same_but_memory(*old(self), *final(self), pid)
                &&& final(self).process(pid).spec_roots() == old(self).process(pid).spec_roots()
                &&& !registry.contains(class) ==> {
                    &&& r == Err::<TaggedPointer, RuntimeError>(RuntimeError::InvalidClass)
                    &&& final(self).process(pid).spec_heap() == heap
                    &&& final(self).spec_blocks() == old(self).spec_blocks()
                }
                &&& registry.contains(class) ==> {
                    let count = registry.class_of(class).spec_field_count();
                    &&& r is Ok <==> heap.has_room(crate::object::HEADER_WORDS + count) || (
                    heap.can_grow() && old(self).spec_blocks().can_supply())
                    &&& r matches Ok(pointer) ==> {
                        &&& pointer.target() == Some(pointer@)
                        &&& !heap.contains(pointer@)
                        &&& final(self).process(pid).spec_heap()@ == heap@.insert(
                            pointer@,
                            ObjectView::fresh(class, count as nat),
                        )
                        &&& pointer@ == crate::heap::address_of(
                            heap.layout().placement(crate::object::HEADER_WORDS + count).0,
                            heap.layout().placement(crate::object::HEADER_WORDS + count).1,
                        )
                        &&& final(self).spec_blocks() == if heap.has_room(
                            crate::object::HEADER_WORDS + count,
                        ) {
                            old(self).spec_blocks()
                        } else {
                            BlockPool::after_acquire(old(self).spec_blocks())
                        }
                    }
                    &&& r matches Err(e) ==> {
                        &&& e == RuntimeError::AllocationFailure
                        &&& final(self).process(pid).spec_heap()@ == heap@
                        &&& final(self).spec_blocks() == old(self).spec_blocks()
                    }
                }
            },
    {
        let mut process = match self.take(pid) {
            Some(process) => process,
            None => {
                return Err(RuntimeError::ProcessNotFound);
            },
        };
        let ghost taken = *self;
        let r = process.allocate(&self.classes, &mut self.blocks, class);
        self.give(process);
        proof {
            Runtime::lemma_given_back(*old(self), taken, *self, pid);
        }
        r
    }

    /// Reads a register of a process. `None` when `pid` names no live
    /// process or the process has no such register.
    pub fn register(&self, pid: u64, index: usize) -> (r: Option<TaggedPointer>)
        requires
            self.wf(),
        ensures
            r == if self.alive(pid) && index < self.process(pid).spec_registers().len() {
                Some(self.process(pid).spec_registers()[index as int])
            } else {
                None
            },
    {
        match self.processes.lookup(pid) {
            Some(process) => process.register(index),
            None => None,
        }
    }

    /// Writes a register of a process. Returns `false`, changing nothing,
    /// when `pid` names no live process or the process has no such
    /// register.
    pub fn set_register(&mut self, pid: u64, index: usize, word: TaggedPointer) -> (done: bool)
        requires
            old(self).wf(),
        ensures
            final(self).wf(),
            final(self).spec_classes() == old(self).spec_classes(),
            final(self).spec_scheduler() == old(self).spec_scheduler(),
            final(self).spec_blocks() == old(self).spec_blocks(),
            Runtime::evolves(*old(self), *final(self)),
            Runtime::others_kept(*old(self), *final(self), pid),
            done == (old(self).alive(pid) && index < old(self).process(pid).spec_registers().len()),
            !old(self).alive(pid) ==> final(self).spec_processes() == old(self).spec_processes(),
            old(self).alive(pid) ==> {
                &&& Runtime::same_but_memory(*old(self), *final(self), pid)
                &&& final(self).process(pid).spec_heap() == old(self).process(pid).spec_heap()
                &&& final(self).process(pid).spec_registers() == if done {
                    old(self).process(pid).spec_registers().update(index as int, word)
                } else {
                    old(self).process(pid).spec_registers()
                }
            },
    {
        let mut process = match self.take(pid) {
            Some(process) => process,
            None => {
                return false;
            },
        };
        let ghost taken = *self;
        let done = process.set_register(index, word);
        self.give(process);
        proof {
            Runtime::lemma_given_back(*old(self), taken, *self, pid);
        }
        done
    }

    /// Reads a field of an object in the heap of a process; see
    /// `Heap::field`. Fails with `ProcessNotFound` when `pid` names no
    /// live process.
    pub fn field(&self, pid: u64, pointer: TaggedPointer, index: usize) -> (r: Result<
        TaggedPointer,
        RuntimeError,
    >)
        requires
            self.wf(),
        ensures
            !self.alive(pid) ==> r == Err::<TaggedPointer, RuntimeError>(RuntimeError::ProcessNotFound),
            self.alive(pid) ==> r == match self.process(pid).spec_heap().resolve(pointer) {
                Err(e) => Err::<TaggedPointer, RuntimeError>(e),
                Ok(address) => if index < self.process(pid).spec_heap()@[address].fields.len() {
                    Ok::<TaggedPointer, RuntimeError>(
                        self.process(pid).spec_heap()@[address].fields[index as int],
                    )
                } else {
                    Err::<TaggedPointer, RuntimeError>(RuntimeError::FieldIndex)
                },
            },
    {
        match self.processes.lookup(pid) {
            Some(process) => process.heap().field(pointer, index),
            None => Err(RuntimeError::ProcessNotFound),
        }
    }

    /// Writes a field of an object in the heap of a process; see
    /// `Heap::set_field`. Fails with `ProcessNotFound`, changing nothing,
    /// when `pid` names no live process.
    pub fn set_field(
        &mut self,
        pid: u64,
        pointer: TaggedPointer,
        index: usize,
        word: TaggedPointer,
    ) -> (r: Result<(), RuntimeError>)
        requires
            old(self).wf(),
        ensures
            final(self).wf(),
            final(self).spec_classes() == old(self).spec_classes(),
            final(self).spec_scheduler() == old(self).spec_scheduler(),
            final(self).spec_blocks() == old(self).spec_blocks(),
            Runtime::evolves(*old(self), *final(self)),
            Runtime::others_kept(*old(self), *final(self), pid),
            !old(self).alive(pid) ==> r == Err::<(), RuntimeError>(RuntimeError::ProcessNotFound)
                && final(self).spec_processes() == old(self).spec_processes(),
            old(self).alive(pid) ==> {
                let heap = old(self).process(pid).spec_heap();
                let after = final(self).process(pid).spec_heap();
                &&& Runtime::same_but_memory(*old(self), *final(self), pid)
                &&& final(self).process(pid).spec_roots() == old(self).process(pid).spec_roots()
                &&& match heap.resolve(pointer) {
                    Err(e) => r == Err::<(), RuntimeError>(e) && after@ == heap@,
                    Ok(address) => if index < heap@[address].fields.len() {
                        &&& r is Ok
                        &&& after@ == heap@.insert(
                            address,
                            ObjectView {
                                header: heap@[address].header,
                                fields: heap@[address].fields.update(index as int, word),
                                value: heap@[address].value,
                            },
                        )
                    } else {
                        &&& r == Err::<(), RuntimeError>(RuntimeError::FieldIndex)
                        &&& after@ == heap@
                    },
                }
            },
    {
        let mut process = match self.take(pid) {
            Some(process) => process,
            None => {
                return Err(RuntimeError::ProcessNotFound);
            },
        };
        let ghost taken = *self;
        let r = process.heap.set_field(pointer, index, word);
        self.give(process);
        proof {
            Runtime::lemma_given_back(*old(self), taken, *self, pid);
        }
        r
    }
}

} // verus!
