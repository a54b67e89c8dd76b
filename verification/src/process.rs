//! Processes: lightweight units of execution, each with a heap of its own,
//! a register file, a stack of call frames and a mailbox.

use vstd::prelude::*;
use crate::allocator::BlockPool;
use crate::class::{ClassId, ClassRegistry};
use crate::errors::RuntimeError;
use crate::heap::Heap;
use crate::mailbox::{after_receive, after_send, Mailbox};
use crate::message::{Message, MessageView};
use crate::object::{ObjectView, HEADER_WORDS};
use crate::tagged_pointer::TaggedPointer;

verus! {

/// Where a process stands with the scheduler. A process is in exactly one
/// state at any time.
#[derive(Clone, Copy, Debug, PartialEq, Eq, Structural)]
pub enum ProcessState {
    /// Waiting in a run queue for a worker.
    Runnable,
    /// Being executed by a worker.
    Running,
    /// Blocked until a message arrives.
    WaitingReceive,
    /// Blocked until a deadline.
    WaitingTimer,
    /// Stopped at a safepoint while its heap is collected.
    SuspendedForGC,
    /// Terminated.
    Finished,
}

/// What can happen to a process.
#[derive(Clone, Copy, Debug, PartialEq, Eq, Structural)]
pub enum Event {
    /// A worker picked the process up.
    Scheduled,
    /// The process used up its quantum or yielded by itself.
    Yielded,
    /// The process ran to its end.
    Completed,
    /// The process asked for a message and none was waiting.
    BlockedOnReceive,
    /// The process asked to sleep until a deadline.
    BlockedOnTimer,
    /// The process reached a safepoint with a collection due.
    Safepoint,
    /// A message arrived in the mailbox.
    MessageArrived,
    /// The deadline passed.
    TimerFired,
    /// The collection of the heap ended.
    Collected,
}

/// What the scheduler has to do for a process after an event.
#[derive(Clone, Copy, Debug, PartialEq, Eq, Structural)]
pub enum Action {
    /// Execute the process on the worker that picked it up.
    Run,
    /// Put the process on a run queue.
    Enqueue,
    /// Leave the process alone until something wakes it.
    Park,
    /// Collect the heap of the process.
    Collect,
    /// Remove the process from the table and give its blocks back.
    Reclaim,
    /// The event does not apply in this state: nothing changes.
    Ignore,
}

/// The state an event leads to; `None` when the event does not apply in the
/// state.
pub open spec fn transition(state: ProcessState, event: Event) -> Option<ProcessState> {
    match (state, event) {
        (ProcessState::Runnable, Event::Scheduled) => Some(ProcessState::Running),
        (ProcessState::Running, Event::Yielded) => Some(ProcessState::Runnable),
        (ProcessState::Running, Event::Completed) => Some(ProcessState::Finished),
        (ProcessState::Running, Event::BlockedOnReceive) => Some(ProcessState::WaitingReceive),
        (ProcessState::Running, Event::BlockedOnTimer) => Some(ProcessState::WaitingTimer),
        (ProcessState::Running, Event::Safepoint) => Some(ProcessState::SuspendedForGC),
        (ProcessState::WaitingReceive, Event::MessageArrived) => Some(ProcessState::Runnable),
        (ProcessState::WaitingTimer, Event::TimerFired) => Some(ProcessState::Runnable),
        (ProcessState::SuspendedForGC, Event::Collected) => Some(ProcessState::Runnable),
        _ => None,
    }
}

/// What the scheduler does once a process has entered `state`.
pub open spec fn action_on_entry(state: ProcessState) -> Action {
    match state {
        ProcessState::Runnable => Action::Enqueue,
        ProcessState::Running => Action::Run,
        ProcessState::WaitingReceive => Action::Park,
        ProcessState::WaitingTimer => Action::Park,
        ProcessState::SuspendedForGC => Action::Collect,
        ProcessState::Finished => Action::Reclaim,
    }
}

/// State and action after an event: the state the event leads to with the
/// action that entering it asks for, or the same state and `Ignore`.
pub open spec fn step_spec(state: ProcessState, event: Event) -> (ProcessState, Action) {
    match transition(state, event) {
        Some(next) => (next, action_on_entry(next)),
        None => (state, Action::Ignore),
    }
}

/// The state an event leads to; `None` when the event does not apply.
pub fn next_state(state: ProcessState, event: Event) -> (r: Option<ProcessState>)
    ensures
        r == transition(state, event),
{
    match (state, event) {
        (ProcessState::Runnable, Event::Scheduled) => Some(ProcessState::Running),
        (ProcessState::Running, Event::Yielded) => Some(ProcessState::Runnable),
        (ProcessState::Running, Event::Completed) => Some(ProcessState::Finished),
        (ProcessState::Running, Event::BlockedOnReceive) => Some(ProcessState::WaitingReceive),
        (ProcessState::Running, Event::BlockedOnTimer) => Some(ProcessState::WaitingTimer),
        (ProcessState::Running, Event::Safepoint) => Some(ProcessState::SuspendedForGC),
        (ProcessState::WaitingReceive, Event::MessageArrived) => Some(ProcessState::Runnable),
        (ProcessState::WaitingTimer, Event::TimerFired) => Some(ProcessState::Runnable),
        (ProcessState::SuspendedForGC, Event::Collected) => Some(ProcessState::Runnable),
        _ => None,
    }
}

/// State and action after an event.
pub fn step(state: ProcessState, event: Event) -> (r: (ProcessState, Action))
    ensures
        r == step_spec(state, event),
{
    match next_state(state, event) {
        Some(next) => {
            let action = match next {
                ProcessState::Runnable => Action::Enqueue,
                ProcessState::Running => Action::Run,
                ProcessState::WaitingReceive => Action::Park,
                ProcessState::WaitingTimer => Action::Park,
                ProcessState::SuspendedForGC => Action::Collect,
                ProcessState::Finished => Action::Reclaim,
            };
            (next, action)
        },
        None => (state, Action::Ignore),
    }
}

/// Every state but `Finished` can be left, and `Finished` cannot.
pub proof fn lemma_finished_is_final(state: ProcessState)
    ensures
        state == ProcessState::Finished <==> forall|event: Event| transition(state, event) is None,
{
    if state != ProcessState::Finished {
        let event = match state {
            ProcessState::Runnable => Event::Scheduled,
            ProcessState::Running => Event::Yielded,
            ProcessState::WaitingReceive => Event::MessageArrived,
            ProcessState::WaitingTimer => Event::TimerFired,
            _ => Event::Collected,
        };
        assert(transition(state, event) is Some);
    }
}

/// A process that is blocked, suspended or running becomes runnable again
/// only through the event that ends its wait.
pub proof fn lemma_wake_events(state: ProcessState, event: Event)
    requires
        transition(state, event) == Some(ProcessState::Runnable),
    ensures
        (state, event) == (ProcessState::Running, Event::Yielded) || (state, event) == (
            ProcessState::WaitingReceive,
            Event::MessageArrived,
        ) || (state, event) == (ProcessState::WaitingTimer, Event::TimerFired) || (state, event) == (
            ProcessState::SuspendedForGC,
            Event::Collected,
        ),
{
}

/// The slots of one call.
pub struct CallFrame {
    pub(crate) slots: Vec<TaggedPointer>,
}

/// The slots of all frames, oldest frame first.
pub open(crate) spec fn frame_slots(frames: Seq<CallFrame>) -> Seq<TaggedPointer>
    decreases frames.len(),
{
    if frames.len() == 0 {
        Seq::empty()
    } else {
        frame_slots(frames.drop_last()) + frames.last().slots@
    }
}

/// A unit of execution.
pub struct Process {
    pub(crate) pid: u64,
    pub(crate) class: ClassId,
    pub(crate) state: ProcessState,
    pub(crate) heap: Heap,
    pub(crate) registers: Vec<TaggedPointer>,
    pub(crate) frames: Vec<CallFrame>,
    pub(crate) mailbox: Mailbox,
}

impl Process {
    /// The PID of the process.
    pub open(crate) spec fn spec_pid(&self) -> u64 {
        self.pid
    }

    /// The class the process is an instance of.
    pub open(crate) spec fn spec_class(&self) -> ClassId {
        self.class
    }

    /// Where the process stands with the scheduler.
    pub open(crate) spec fn spec_state(&self) -> ProcessState {
        self.state
    }

    /// The heap of the process.
    pub open(crate) spec fn spec_heap(&self) -> Heap {
        self.heap
    }

    /// The register file.
    pub open(crate) spec fn spec_registers(&self) -> Seq<TaggedPointer> {
        self.registers@
    }

    /// The number of call frames.
    pub open(crate) spec fn spec_depth(&self) -> nat {
        self.frames@.len()
    }

    /// The slots of the newest call frame.
    pub open(crate) spec fn spec_frame(&self) -> Seq<TaggedPointer>
        recommends
            self.spec_depth() > 0,
    {
        self.frames@.last().slots@
    }

    /// The waiting messages, oldest first.
    pub open(crate) spec fn spec_mailbox(&self) -> Seq<MessageView> {
        self.mailbox@
    }

    /// The roots of the process: its registers, then the slots of its call
    /// frames from the oldest frame to the newest.
    pub open(crate) spec fn spec_roots(&self) -> Seq<TaggedPointer> {
        self.registers@ + frame_slots(self.frames@)
    }

    /// The heap and the mailbox are well formed.
    pub open(crate) spec fn wf(&self) -> bool {
        &&& self.heap.wf()
        &&& self.mailbox.wf()
    }

    /// A new process: runnable, with `register_count` registers that hold
    /// null, no call frame, an empty mailbox and an empty heap that may own
    /// up to `heap_budget` blocks.
    pub fn new(pid: u64, class: ClassId, register_count: usize, heap_budget: usize) -> (process:
        Process)
        ensures
            process.wf(),
            process.spec_pid() == pid,
            process.spec_class() == class,
            process.spec_state() == ProcessState::Runnable,
            process.spec_registers() == Seq::new(
                register_count as nat,
                |i: int| TaggedPointer { raw: 0 },
            ),
            process.spec_depth() == 0,
            process.spec_mailbox() == Seq::<MessageView>::empty(),
            process.spec_heap()@ == Map::<u64, ObjectView>::empty(),
            process.spec_heap().spec_budget() == Heap::new_budget(heap_budget),
    {
        let mut registers: Vec<TaggedPointer> = Vec::new();
        let mut i: usize = 0;
        while i < register_count
            invariant
                i <= register_count,
                registers@.len() == i,
                forall|k: int| 0 <= k < i ==> registers@[k] == (TaggedPointer { raw: 0 }),
            decreases register_count - i,
        {
            registers.push(TaggedPointer::null());
            i += 1;
        }
        assert(registers@ =~= Seq::new(register_count as nat, |i: int| TaggedPointer { raw: 0 }));
        Process {
            pid,
            class,
            state: ProcessState::Runnable,
            heap: Heap::new(heap_budget),
            registers,
            frames: Vec::new(),
            mailbox: Mailbox::new(),
        }
    }

    /// The PID of the process.
    #[verifier::when_used_as_spec(spec_pid)]
    pub fn pid(&self) -> (pid: u64)
        ensures
            pid == self.spec_pid(),
    {
        self.pid
    }

    /// The class the process is an instance of.
    #[verifier::when_used_as_spec(spec_class)]
    pub fn class(&self) -> (class: ClassId)
        ensures
            class == self.spec_class(),
    {
        self.class
    }

    /// Where the process stands with the scheduler.
    #[verifier::when_used_as_spec(spec_state)]
    pub fn state(&self) -> (state: ProcessState)
        ensures
            state == self.spec_state(),
    {
        self.state
    }

    /// The heap, to read from.
    pub fn heap(&self) -> (heap: &Heap)
        ensures
            *heap == self.spec_heap(),
    {
        &self.heap
    }

    /// The number of waiting messages.
    pub fn mailbox_len(&self) -> (n: usize)
        ensures
            n == self.spec_mailbox().len(),
    {
        self.mailbox.len()
    }

    /// Applies an event: moves to the state it leads to and says what the
    /// scheduler has to do. An event that does not apply changes nothing.
    pub fn apply(&mut self, event: Event) -> (action: Action)
        ensures
            (final(self).spec_state(), action) == step_spec(old(self).spec_state(), event),
            final(self).spec_pid() == old(self).spec_pid(),
            final(self).spec_class() == old(self).spec_class(),
            final(self).spec_heap() == old(self).spec_heap(),
            final(self).spec_registers() == old(self).spec_registers(),
            final(self).spec_roots() == old(self).spec_roots(),
            final(self).spec_mailbox() == old(self).spec_mailbox(),
            old(self).wf() ==> final(self).wf(),
    {
        let (next, action) = step(self.state, event);
        self.state = next;
        action
    }

    /// Reads a register; `None` when there is no such register.
    pub fn register(&self, index: usize) -> (r: Option<TaggedPointer>)
        ensures
            r == if index < self.spec_registers().len() {
                Some(self.spec_registers()[index as int])
            } else {
                None
            },
    {
        if index < self.registers.len() {
            Some(self.registers[index])
        } else {
            None
        }
    }

    /// Writes a register. Returns `false`, changing nothing, when there is
    /// no such register.
    pub fn set_register(&mut self, index: usize, word: TaggedPointer) -> (done: bool)
        ensures
            done == (index < old(self).spec_registers().len()),
            final(self).spec_registers() == if done {
                old(self).spec_registers().update(index as int, word)
            } else {
                old(self).spec_registers()
            },
            final(self).spec_pid() == old(self).spec_pid(),
            final(self).spec_class() == old(self).spec_class(),
            final(self).spec_state() == old(self).spec_state(),
            final(self).spec_heap() == old(self).spec_heap(),
            final(self).spec_mailbox() == old(self).spec_mailbox(),
            final(self).spec_depth() == old(self).spec_depth(),
            old(self).wf() ==> final(self).wf(),
    {
        if index < self.registers.len() {
            self.registers[index] = word;
            true
        } else {
            false
        }
    }

    /// Enters a call: pushes a frame of `slot_count` slots that hold null.
    pub fn push_frame(&mut self, slot_count: usize)
        ensures
            final(self).spec_depth() == old(self).spec_depth() + 1,
            final(self).spec_frame() == Seq::new(slot_count as nat, |i: int| TaggedPointer { raw: 0 }),
            final(self).spec_roots() == old(self).spec_roots() + final(self).spec_frame(),
            final(self).spec_registers() == old(self).spec_registers(),
            final(self).spec_pid() == old(self).spec_pid(),
            final(self).spec_class() == old(self).spec_class(),
            final(self).spec_state() == old(self).spec_state(),
            final(self).spec_heap() == old(self).spec_heap(),
            final(self).spec_mailbox() == old(self).spec_mailbox(),
            old(self).wf() ==> final(self).wf(),
    {
        let mut slots: Vec<TaggedPointer> = Vec::new();
        let mut i: usize = 0;
        while i < slot_count
            invariant
                i <= slot_count,
                slots@.len() == i,
                forall|k: int| 0 <= k < i ==> slots@[k] == (TaggedPointer { raw: 0 }),
            decreases slot_count - i,
        {
            slots.push(TaggedPointer::null());
            i += 1;
        }
        assert(slots@ =~= Seq::new(slot_count as nat, |i: int| TaggedPointer { raw: 0 }));
        let ghost frames0 = self.frames@;
        self.frames.push(CallFrame { slots });
        assert(self.frames@.drop_last() =~= frames0);
        assert(self.spec_roots() =~= old(self).spec_roots() + self.spec_frame());
    }

    /// Leaves a call: pops the newest frame. Returns `false`, changing
    /// nothing, when there is no frame.
    pub fn pop_frame(&mut self) -> (done: bool)
        ensures
            done == (old(self).spec_depth() > 0),
            done ==> {
                &&& final(self).spec_depth() == old(self).spec_depth() - 1
                &&& final(self).spec_roots() + old(self).spec_frame() == old(self).spec_roots()
            },
            !done ==> {
                &&& final(self).spec_depth() == 0
                &&& final(self).spec_roots() == old(self).spec_roots()
            },
            final(self).spec_registers() == old(self).spec_registers(),
            final(self).spec_pid() == old(self).spec_pid(),
            final(self).spec_class() == old(self).spec_class(),
            final(self).spec_state() == old(self).spec_state(),
            final(self).spec_heap() == old(self).spec_heap(),
            final(self).spec_mailbox() == old(self).spec_mailbox(),
            old(self).wf() ==> final(self).wf(),
    {
        let ghost frames0 = self.frames@;
        match self.frames.pop() {
            Some(_) => {
                assert(self.frames@ =~= frames0.drop_last());
                assert(self.spec_roots() + old(self).spec_frame() =~= old(self).spec_roots());
                true
            },
            None => false,
        }
    }

    /// Reads a slot of the newest frame; `None` when there is no frame or
    /// no such slot.
    pub fn slot(&self, index: usize) -> (r: Option<TaggedPointer>)
        ensures
            r == if self.spec_depth() > 0 && index < self.spec_frame().len() {
                Some(self.spec_frame()[index as int])
            } else {
                None
            },
    {
        let depth = self.frames.len();
        if depth == 0 {
            return None;
        }
        let frame = &self.frames[depth - 1];
        if index < frame.slots.len() {
            Some(frame.slots[index])
        } else {
            None
        }
    }

    /// Writes a slot of the newest frame. Returns `false`, changing
    /// nothing, when there is no frame or no such slot.
    pub fn set_slot(&mut self, index: usize, word: TaggedPointer) -> (done: bool)
        ensures
            done == (old(self).spec_depth() > 0 && index < old(self).spec_frame().len()),
            final(self).spec_depth() == old(self).spec_depth(),
            done ==> final(self).spec_frame() == old(self).spec_frame().update(index as int, word),
            !done ==> final(self).spec_roots() == old(self).spec_roots(),
            final(self).spec_registers() == old(self).spec_registers(),
            final(self).spec_pid() == old(self).spec_pid(),
            final(self).spec_class() == old(self).spec_class(),
            final(self).spec_state() == old(self).spec_state(),
            final(self).spec_heap() == old(self).spec_heap(),
            final(self).spec_mailbox() == old(self).spec_mailbox(),
            old(self).wf() ==> final(self).wf(),
    {
        let depth = self.frames.len();
        if depth == 0 {
            return false;
        }
        if index < self.frames[depth - 1].slots.len() {
            self.frames[depth - 1].slots[index] = word;
            true
        } else {
            false
        }
    }

    /// The roots of the process, for the collector.
    pub fn roots(&self) -> (roots: Vec<TaggedPointer>)
        ensures
            roots@ == self.spec_roots(),
    {
        let mut roots: Vec<TaggedPointer> = Vec::new();
        let mut i: usize = 0;
        while i < self.registers.len()
            invariant
                i <= self.registers@.len(),
                roots@ == self.registers@.subrange(0, i as int),
            decreases self.registers.len() - i,
        {
            roots.push(self.registers[i]);
            i += 1;
        }
        assert(roots@ == self.registers@);
        let mut f: usize = 0;
        assert(self.frames@.subrange(0, 0) =~= Seq::<CallFrame>::empty());
        while f < self.frames.len()
            invariant
                f <= self.frames@.len(),
                roots@ == self.registers@ + frame_slots(self.frames@.subrange(0, f as int)),
            decreases self.frames.len() - f,
        {
            let frame = &self.frames[f];
            let ghost base = roots@;
            let mut k: usize = 0;
            while k < frame.slots.len()
                invariant
                    k <= frame.slots@.len(),
                    roots@ == base + frame.slots@.subrange(0, k as int),
                decreases frame.slots.len() - k,
            {
                roots.push(frame.slots[k]);
                k += 1;
            }
            proof {
                assert(frame.slots@.subrange(0, frame.slots@.len() as int) =~= frame.slots@);
                let next = self.frames@.subrange(0, f + 1);
                assert(next.drop_last() =~= self.frames@.subrange(0, f as int));
                assert(next.last() == *frame);
                assert(roots@ =~= self.registers@ + frame_slots(next));
            }
            f += 1;
        }
        assert(self.frames@.subrange(0, self.frames@.len() as int) =~= self.frames@);
        roots
    }

    /// Allocates an instance of a registered class in the heap of the
    /// process. Fails with `InvalidClass` when `class` names no registered
    /// class, and with `AllocationFailure` when the heap has no room and
    /// cannot grow; either way nothing changes. After an
    /// `AllocationFailure` the caller may collect the heap and try again.
    pub fn allocate(&mut self, registry: &ClassRegistry, pool: &mut BlockPool, class: ClassId) -> (r:
        Result<TaggedPointer, RuntimeError>)
        requires
            old(self).wf(),
            old(pool).wf(),
        ensures
            final(self).wf(),
            final(pool).wf(),
            final(self).spec_pid() == old(self).spec_pid(),
            final(self).spec_class() == old(self).spec_class(),
            final(self).spec_state() == old(self).spec_state(),
            final(self).spec_roots() == old(self).spec_roots(),
            final(self).spec_mailbox() == old(self).spec_mailbox(),
            final(self).spec_heap().spec_budget() == old(self).spec_heap().spec_budget(),
            !registry.contains(class) ==> r == Err::<TaggedPointer, RuntimeError>(
                RuntimeError::InvalidClass,
            ) && final(self).spec_heap() == old(self).spec_heap() && final(pool)@ == old(pool)@,
            registry.contains(class) ==> {
                let count = registry.class_of(class).spec_field_count();
                let heap = old(self).spec_heap();
                &&& r is Ok <==> heap.has_room(HEADER_WORDS + count) || (heap.can_grow() && old(
                    pool,
                ).can_supply())
                &&& r matches Ok(pointer) ==> {
                    &&& pointer.target() == Some(pointer@)
                    &&& !heap.contains(pointer@)
                    &&& final(self).spec_heap()@ == heap@.insert(
                        pointer@,
                        ObjectView::fresh(class, count as nat),
                    )
                    &&& pointer@ == crate::heap::address_of(
                        heap.layout().placement(HEADER_WORDS + count).0,
                        heap.layout().placement(HEADER_WORDS + count).1,
                    )
                    &&& final(pool)@ == if heap.has_room(HEADER_WORDS + count) {
                        old(pool)@
                    } else {
                        BlockPool::after_acquire(old(pool)@)
                    }
                }
                &&& r matches Err(e) ==> {
                    &&& e == RuntimeError::AllocationFailure
                    &&& final(self).spec_heap()@ == heap@
                    &&& final(pool)@ == old(pool)@
                }
            },
    {
        let count = match registry.get(class) {
            Some(descriptor) => descriptor.field_count(),
            None => {
                return Err(RuntimeError::InvalidClass);
            },
        };
        self.heap.allocate(pool, class, count)
    }

    /// Collects the heap of a process that is suspended at a safepoint,
    /// from its registers and call frames, and makes the process runnable
    /// again. Returns the number of blocks given back to the pool.
    ///
    /// When the collector comes upon a reference to memory that holds no
    /// object the process is aborted: it is finished, its heap is emptied
    /// and all its blocks go back to the pool.
    pub fn collect_garbage(&mut self, pool: &mut BlockPool) -> (r: Result<usize, RuntimeError>)
        requires
            old(self).wf(),
            old(pool).wf(),
            old(self).spec_state() == ProcessState::SuspendedForGC,
        ensures
            final(self).wf(),
            final(pool).wf(),
            final(self).spec_pid() == old(self).spec_pid(),
            final(self).spec_class() == old(self).spec_class(),
            final(self).spec_roots() == old(self).spec_roots(),
            final(self).spec_mailbox() == old(self).spec_mailbox(),
            r is Err <==> old(self).spec_heap().dangling(old(self).spec_roots()),
            r matches Ok(released) ==> {
                &&& final(self).spec_state() == ProcessState::Runnable
                &&& Heap::collected(
                    old(self).spec_heap(),
                    old(self).spec_roots(),
                    final(self).spec_heap(),
                )
                &&& released + crate::heap::owned(final(self).spec_heap().spec_slots())
                    == crate::heap::owned(old(self).spec_heap().spec_slots())
                &&& final(pool)@ == BlockPool::after_release(old(pool)@, released as nat)
            },
            r matches Err(e) ==> {
                &&& e == RuntimeError::GCInvariantViolation
                &&& final(self).spec_state() == ProcessState::Finished
                &&& final(self).spec_heap()@ == Map::<u64, ObjectView>::empty()
                &&& final(pool)@ == BlockPool::after_release(
                    old(pool)@,
                    crate::heap::owned(old(self).spec_heap().spec_slots()),
                )
            },
    {
        let roots = self.roots();
        match self.heap.collect(&roots, pool) {
            Ok(released) => {
                self.state = ProcessState::Runnable;
                Ok(released)
            },
            Err(e) => {
                let _ = self.heap.release_all(pool);
                self.state = ProcessState::Finished;
                Err(e)
            },
        }
    }

    /// Puts a message into the mailbox. A process that waits for a message
    /// becomes runnable; the result says so, and the caller then has to put
    /// the process on a run queue.
    pub fn deliver(&mut self, message: Message) -> (woken: bool)
        requires
            old(self).wf(),
            message.wf(),
        ensures
            final(self).wf(),
            final(self).spec_mailbox() == after_send(old(self).spec_mailbox(), message@),
            woken == (old(self).spec_state() == ProcessState::WaitingReceive),
            final(self).spec_state() == step_spec(old(self).spec_state(), Event::MessageArrived).0,
            final(self).spec_pid() == old(self).spec_pid(),
            final(self).spec_class() == old(self).spec_class(),
            final(self).spec_heap() == old(self).spec_heap(),
            final(self).spec_roots() == old(self).spec_roots(),
    {
        self.mailbox.send(message);
        let (next, action) = step(self.state, Event::MessageArrived);
        self.state = next;
        match action {
            Action::Enqueue => true,
            _ => false,
        }
    }

    /// Takes the oldest message from the mailbox. When none waits, a
    /// running process blocks: it moves to `WaitingReceive`.
    pub fn receive(&mut self) -> (r: Option<Message>)
        requires
            old(self).wf(),
        ensures
            final(self).wf(),
            r is Some <==> old(self).spec_mailbox().len() > 0,
            r matches Some(message) ==> {
                &&& message.wf()
                &&& message@ == old(self).spec_mailbox()[0]
                &&& final(self).spec_mailbox() == after_receive(old(self).spec_mailbox())
                &&& final(self).spec_state() == old(self).spec_state()
            },
            r is None ==> {
                &&& final(self).spec_mailbox() == old(self).spec_mailbox()
                &&& final(self).spec_state() == step_spec(
                    old(self).spec_state(),
                    Event::BlockedOnReceive,
                ).0
            },
            final(self).spec_pid() == old(self).spec_pid(),
            final(self).spec_class() == old(self).spec_class(),
            final(self).spec_heap() == old(self).spec_heap(),
            final(self).spec_roots() == old(self).spec_roots(),
    {
        let r = self.mailbox.receive();
        if r.is_none() {
            let (next, _) = step(self.state, Event::BlockedOnReceive);
            self.state = next;
        }
        r
    }
}

} // verus!
