//! The process table: the registry that maps PIDs to processes.
//!
//! PIDs are handed out in rising order and never used again: the PID of a
//! process that has terminated names nothing for as long as the table lives,
//! so a stale PID cannot come to name another process.

use vstd::prelude::*;
use crate::class::ClassId;
use crate::heap::Heap;
use crate::object::ObjectView;
use crate::process::{Process, ProcessState};
use crate::tagged_pointer::TaggedPointer;

verus! {

/// The registry of live processes.
pub struct ProcessTable {
    pub(crate) entries: Vec<Option<Process>>,
}

impl ProcessTable {
    /// One entry per PID handed out so far; `None` once the process has
    /// been removed.
    pub open(crate) spec fn spec_entries(&self) -> Seq<Option<Process>> {
        self.entries@
    }

    /// The number of PIDs handed out so far; also the next PID.
    pub open(crate) spec fn issued(&self) -> nat {
        self.entries@.len()
    }

    /// Whether `pid` names a live process.
    pub open(crate) spec fn contains(&self, pid: u64) -> bool {
        pid < self.entries@.len() && self.entries@[pid as int] is Some
    }

    /// The process that `pid` names.
    pub open(crate) spec fn process(&self, pid: u64) -> Process
        recommends
            self.contains(pid),
    {
        self.entries@[pid as int]->0
    }

    /// Whether `pid` was handed out and its process has been removed.
    pub open spec fn dead(&self, pid: u64) -> bool {
        pid < self.issued() && !self.contains(pid)
    }

    /// Whether every PID that the machine can count has been handed out.
    pub open spec fn exhausted(&self) -> bool {
        self.issued() >= usize::MAX || self.issued() >= u64::MAX
    }

    /// Every process is well formed and is filed under its own PID.
    pub open(crate) spec fn wf(&self) -> bool {
        &&& self.entries@.len() <= u64::MAX
        &&& forall|i: int|
            0 <= i < self.entries@.len() && (#[trigger] self.entries@[i]) is Some ==> {
                &&& self.entries@[i]->0.wf()
                &&& self.entries@[i]->0.spec_pid() == i
            }
    }

    /// An empty table.
    pub fn new() -> (table: ProcessTable)
        ensures
            table.wf(),
            table.issued() == 0,
    {
        ProcessTable { entries: Vec::new() }
    }

    /// The number of PIDs handed out so far.
    pub fn issued_count(&self) -> (n: usize)
        ensures
            n == self.issued(),
    {
        self.entries.len()
    }

    /// Makes a process with the next PID and files it: runnable, with
    /// `register_count` registers and a heap of up to `heap_budget` blocks.
    /// Returns the PID, or `None`, changing nothing, when every PID has
    /// been handed out.
    pub fn insert(&mut self, class: ClassId, register_count: usize, heap_budget: usize) -> (r:
        Option<u64>)
        requires
            old(self).wf(),
        ensures
            final(self).wf(),
            r is Some <==> !old(self).exhausted(),
            r is None ==> *final(self) == *old(self),
            r matches Some(pid) ==> {
                &&& pid == old(self).issued()
                &&& final(self).issued() == old(self).issued() + 1
                &&& final(self).contains(pid)
                &&& final(self).process(pid).spec_state() == ProcessState::Runnable
                &&& final(self).process(pid).spec_class() == class
                &&& final(self).process(pid).spec_pid() == pid
                &&& final(self).process(pid).spec_mailbox().len() == 0
                &&& final(self).process(pid).spec_registers() == Seq::new(
                    register_count as nat,
                    |i: int| TaggedPointer { raw: 0 },
                )
                &&& final(self).process(pid).spec_depth() == 0
                &&& final(self).process(pid).spec_heap()@ == Map::<u64, ObjectView>::empty()
                &&& final(self).process(pid).spec_heap().spec_budget() == Heap::new_budget(heap_budget)
                &&& final(self).spec_entries().subrange(0, pid as int) == old(self).spec_entries()
            },
    {
        let n = self.entries.len();
        if n as u64 >= u64::MAX || n >= usize::MAX {
            return None;
        }
        let pid: u64 = n as u64;
        let process = Process::new(pid, class, register_count, heap_budget);
        let ghost before = self.entries@;
        self.entries.push(Some(process));
        assert(self.entries@.subrange(0, pid as int) =~= before);
        assert forall|i: int|
            0 <= i < self.entries@.len() && (#[trigger] self.entries@[i]) is Some implies {
            &&& self.entries@[i]->0.wf()
            &&& self.entries@[i]->0.spec_pid() == i
        } by {
            if i < before.len() {
                assert(before[i] is Some);
            }
        }
        Some(pid)
    }

    /// Looks a process up; `None` when `pid` names no live process.
    pub fn lookup(&self, pid: u64) -> (r: Option<&Process>)
        requires
            self.wf(),
        ensures
            r is Some <==> self.contains(pid),
            r matches Some(process) ==> *process == self.process(pid) && process.wf()
                && process.spec_pid() == pid,
    {
        if pid < self.entries.len() as u64 {
            self.entries[pid as usize].as_ref()
        } else {
            None
        }
    }

    /// Takes a process out of the table; `None`, changing nothing, when
    /// `pid` names no live process. From then on `pid` names nothing.
    pub fn remove(&mut self, pid: u64) -> (r: Option<Process>)
        requires
            old(self).wf(),
        ensures
            final(self).wf(),
            final(self).issued() == old(self).issued(),
            r is Some <==> old(self).contains(pid),
            r matches Some(process) ==> process == old(self).process(pid) && process.wf()
                && final(self).spec_entries() == old(self).spec_entries().update(pid as int, None),
            r is None ==> *final(self) == *old(self),
            !final(self).contains(pid),
    {
        if pid >= self.entries.len() as u64 {
            return None;
        }
        if self.entries[pid as usize].is_none() {
            return None;
        }
        let ghost before = self.entries@;
        let mut taken: Option<Process> = None;
        std::mem::swap(&mut self.entries[pid as usize], &mut taken);
        proof {
            assert forall|i: int|
                0 <= i < self.entries@.len() && (#[trigger] self.entries@[i]) is Some implies {
                &&& self.entries@[i]->0.wf()
                &&& self.entries@[i]->0.spec_pid() == i
            } by {
                assert(before[i] is Some);
            }
        }
        taken
    }

    /// Puts back a process that was taken out with `remove`, under its own
    /// PID. Returns the process, changing nothing, when its PID was never
    /// handed out or names a live process.
    pub(crate) fn restore(&mut self, process: Process) -> (r: Option<Process>)
        requires
            old(self).wf(),
            process.wf(),
        ensures
            final(self).wf(),
            final(self).issued() == old(self).issued(),
            r is None <==> old(self).dead(process.spec_pid()),
            r is None ==> final(self).spec_entries() == old(self).spec_entries().update(
                process.spec_pid() as int,
                Some(process),
            ),
            r matches Some(back) ==> {
                &&& back == process
                &&& final(self).spec_entries() == old(self).spec_entries()
            },
    {
        let pid = process.pid();
        if pid >= self.entries.len() as u64 {
            return Some(process);
        }
        if self.entries[pid as usize].is_some() {
            return Some(process);
        }
        let ghost before = self.entries@;
        self.entries[pid as usize] = Some(process);
        proof {
            assert forall|i: int|
                0 <= i < self.entries@.len() && (#[trigger] self.entries@[i]) is Some implies {
                &&& self.entries@[i]->0.wf()
                &&& self.entries@[i]->0.spec_pid() == i
            } by {
                if i != pid {
                    assert(before[i] is Some);
                }
            }
        }
        None
    }
}

/// A PID that names nothing stays so when a process is inserted: the new
/// process gets a PID that was never handed out before.
pub proof fn lemma_insert_keeps_dead(before: ProcessTable, after: ProcessTable, pid: u64, dead: u64)
    requires
        before.dead(dead),
        pid == before.issued(),
        after.issued() == before.issued() + 1,
        after.spec_entries().subrange(0, pid as int) == before.spec_entries(),
    ensures
        after.dead(dead),
{
    let kept = after.spec_entries().subrange(0, pid as int);
    assert(kept[dead as int] == before.spec_entries()[dead as int]);
}

/// A PID that names nothing stays so when a process is removed.
pub proof fn lemma_remove_keeps_dead(before: ProcessTable, after: ProcessTable, pid: u64, dead: u64)
    requires
        before.dead(dead),
        (pid < before.issued() && after.spec_entries() == before.spec_entries().update(
            pid as int,
            None,
        )) || after.spec_entries() == before.spec_entries(),
    ensures
        after.dead(dead),
{
}

} // verus!
