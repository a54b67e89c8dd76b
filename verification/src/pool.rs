//! The scheduler's run queues: one deque per worker and a shared injector.
//!
//! Newly spawned and newly woken processes enter through the injector. A
//! worker that looks for work takes from the back of its own deque, then
//! from the front of the injector, then steals from the front of the first
//! deque that holds anything. The queues hold PIDs.

use std::collections::VecDeque;
use vstd::prelude::*;

verus! {

/// The most workers a pool may have.
pub const MAX_WORKERS: usize = 65536;

/// How often `pid` occurs in `s`.
pub open spec fn occurrences(s: Seq<u64>, pid: u64) -> nat
    decreases s.len(),
{
    if s.len() == 0 {
        0
    } else {
        occurrences(s.drop_last(), pid) + if s.last() == pid {
            1nat
        } else {
            0nat
        }
    }
}

/// How often `pid` occurs in all the deques together.
pub open spec fn local_occurrences(locals: Seq<Seq<u64>>, pid: u64) -> nat
    decreases locals.len(),
{
    if locals.len() == 0 {
        0
    } else {
        local_occurrences(locals.drop_last(), pid) + occurrences(locals.last(), pid)
    }
}

/// How many PIDs all the deques hold together.
pub open spec fn local_total(locals: Seq<Seq<u64>>) -> nat
    decreases locals.len(),
{
    if locals.len() == 0 {
        0
    } else {
        local_total(locals.drop_last()) + locals.last().len()
    }
}

/// The first deque from `from` on that holds anything.
pub open spec fn first_busy(locals: Seq<Seq<u64>>, from: int) -> Option<int>
    decreases locals.len() - from,
{
    if from < 0 || from >= locals.len() {
        None
    } else if locals[from].len() > 0 {
        Some(from)
    } else {
        first_busy(locals, from + 1)
    }
}

/// The run queues as plain values.
pub struct Queues {
    /// The shared queue; its front is the oldest entry.
    pub injector: Seq<u64>,
    /// One deque per worker.
    pub locals: Seq<Seq<u64>>,
}

impl Queues {
    /// How many PIDs wait in all queues together.
    pub open spec fn total(self) -> nat {
        self.injector.len() + local_total(self.locals)
    }

    /// How often `pid` waits in the queues.
    pub open spec fn count(self, pid: u64) -> nat {
        occurrences(self.injector, pid) + local_occurrences(self.locals, pid)
    }

    /// The queues after `pid` has entered through the injector.
    pub open spec fn scheduled(self, pid: u64) -> Queues {
        Queues { injector: self.injector.push(pid), locals: self.locals }
    }

    /// The queues after `worker` has put `pid` on its own deque; a worker
    /// the pool does not have puts it on the injector.
    pub open spec fn requeued(self, worker: int, pid: u64) -> Queues {
        if 0 <= worker < self.locals.len() {
            Queues {
                injector: self.injector,
                locals: self.locals.update(worker, self.locals[worker].push(pid)),
            }
        } else {
            self.scheduled(pid)
        }
    }

    /// What `worker` gets when it looks for work, and the queues after:
    /// the newest entry of its own deque; else the oldest entry of the
    /// injector; else the oldest entry of the first deque that holds
    /// anything; else nothing.
    pub open spec fn next(self, worker: int) -> (Option<u64>, Queues) {
        if 0 <= worker < self.locals.len() && self.locals[worker].len() > 0 {
            (
                Some(self.locals[worker].last()),
                Queues {
                    injector: self.injector,
                    locals: self.locals.update(worker, self.locals[worker].drop_last()),
                },
            )
        } else if self.injector.len() > 0 {
            (
                Some(self.injector[0]),
                Queues {
                    injector: self.injector.subrange(1, self.injector.len() as int),
                    locals: self.locals,
                },
            )
        } else {
            match first_busy(self.locals, 0) {
                Some(v) => (
                    Some(self.locals[v][0]),
                    Queues {
                        injector: self.injector,
                        locals: self.locals.update(
                            v,
                            self.locals[v].subrange(1, self.locals[v].len() as int),
                        ),
                    },
                ),
                None => (None, self),
            }
        }
    }

    /// The PIDs handed out, in order, when workers look for work one after
    /// another as `polls` says, and the queues after.
    pub open spec fn run(self, polls: Seq<int>) -> (Seq<u64>, Queues)
        decreases polls.len(),
    {
        if polls.len() == 0 {
            (Seq::empty(), self)
        } else {
            let (ran, mid) = self.run(polls.drop_last());
            let (r, after) = mid.next(polls.last());
            match r {
                Some(pid) => (ran.push(pid), after),
                None => (ran, after),
            }
        }
    }
}

/// What `first_busy` finds holds something, and every deque before it from
/// `from` on is empty; when it finds nothing, every deque from `from` on is
/// empty.
pub proof fn lemma_first_busy(locals: Seq<Seq<u64>>, from: int)
    requires
        0 <= from,
    ensures
        first_busy(locals, from) matches Some(v) ==> from <= v < locals.len() && locals[v].len() > 0
            && forall|u: int| from <= u < v ==> (#[trigger] locals[u]).len() == 0,
        first_busy(locals, from) is None ==> forall|u: int|
            from <= u < locals.len() ==> (#[trigger] locals[u]).len() == 0,
    decreases locals.len() - from,
{
    if from < locals.len() && locals[from].len() == 0 {
        lemma_first_busy(locals, from + 1);
    }
}

/// Taking the first entry of a sequence takes one occurrence of that entry
/// and of no other.
pub proof fn lemma_occurrences_front(s: Seq<u64>, pid: u64)
    requires
        s.len() > 0,
    ensures
        occurrences(s.subrange(1, s.len() as int), pid) + (if s[0] == pid {
            1nat
        } else {
            0nat
        }) == occurrences(s, pid),
    decreases s.len(),
{
    let rest = s.subrange(1, s.len() as int);
    if s.len() == 1 {
        assert(s.drop_last() =~= Seq::<u64>::empty());
        assert(rest =~= Seq::<u64>::empty());
    } else {
        let shorter = s.drop_last();
        lemma_occurrences_front(shorter, pid);
        assert(shorter.subrange(1, shorter.len() as int) =~= rest.drop_last());
        assert(rest.last() == s.last());
    }
}

/// Replacing one deque changes the occurrences and the total by what that
/// deque gains or loses.
pub proof fn lemma_local_update(locals: Seq<Seq<u64>>, w: int, deque: Seq<u64>, pid: u64)
    requires
        0 <= w < locals.len(),
    ensures
        local_occurrences(locals.update(w, deque), pid) + occurrences(locals[w], pid)
            == local_occurrences(locals, pid) + occurrences(deque, pid),
        local_total(locals.update(w, deque)) + locals[w].len() == local_total(locals) + deque.len(),
    decreases locals.len(),
{
    let updated = locals.update(w, deque);
    if w == locals.len() - 1 {
        assert(updated.drop_last() =~= locals.drop_last());
    } else {
        assert(updated.drop_last() =~= locals.drop_last().update(w, deque));
        lemma_local_update(locals.drop_last(), w, deque, pid);
    }
}

/// Deques that hold nothing in total are all empty, and deques that are
/// all empty hold nothing in total.
pub proof fn lemma_local_total_zero(locals: Seq<Seq<u64>>)
    ensures
        local_total(locals) == 0 <==> forall|u: int|
            0 <= u < locals.len() ==> (#[trigger] locals[u]).len() == 0,
    decreases locals.len(),
{
    if locals.len() > 0 {
        let rest = locals.drop_last();
        lemma_local_total_zero(rest);
        if local_total(locals) == 0 {
            assert forall|u: int| 0 <= u < locals.len() implies (#[trigger] locals[u]).len() == 0 by {
                if u < rest.len() {
                    assert(rest[u].len() == 0);
                }
            }
        }
        if forall|u: int| 0 <= u < locals.len() ==> (#[trigger] locals[u]).len() == 0 {
            assert forall|u: int| 0 <= u < rest.len() implies (#[trigger] rest[u]).len() == 0 by {
                assert(locals[u].len() == 0);
            }
            assert(locals[locals.len() - 1].len() == 0);
        }
    }
}

/// A PID occurs in a sequence no more often than the sequence is long.
pub proof fn lemma_occurrences_bound(s: Seq<u64>, pid: u64)
    ensures
        occurrences(s, pid) <= s.len(),
    decreases s.len(),
{
    if s.len() > 0 {
        lemma_occurrences_bound(s.drop_last(), pid);
    }
}

/// A PID waits in the queues no more often than the queues hold entries.
pub proof fn lemma_count_bound(q: Queues, pid: u64)
    ensures
        q.count(pid) <= q.total(),
{
    lemma_occurrences_bound(q.injector, pid);
    lemma_local_count_bound(q.locals, pid);
}

/// A PID occurs in the deques no more often than they hold entries.
pub proof fn lemma_local_count_bound(locals: Seq<Seq<u64>>, pid: u64)
    ensures
        local_occurrences(locals, pid) <= local_total(locals),
    decreases locals.len(),
{
    if locals.len() > 0 {
        lemma_local_count_bound(locals.drop_last(), pid);
        lemma_occurrences_bound(locals.last(), pid);
    }
}

/// A worker that looks for work goes without only when no process waits
/// anywhere: no worker idles while a process is runnable.
pub proof fn lemma_next_none_iff_idle(q: Queues, worker: int)
    ensures
        q.next(worker).0 is None <==> q.total() == 0,
{
    lemma_local_total_zero(q.locals);
    lemma_first_busy(q.locals, 0);
    if 0 <= worker < q.locals.len() && q.locals[worker].len() > 0 {
    } else if q.injector.len() > 0 {
    } else {
        if first_busy(q.locals, 0) is Some {
            let v = first_busy(q.locals, 0)->0;
            assert(q.locals[v].len() > 0);
        }
    }
}

/// Looking for work takes exactly the process that is handed out: it
/// waits once less, every other process waits as often as before, and
/// nothing is lost or made up.
pub proof fn lemma_next_takes_one(q: Queues, worker: int, pid: u64)
    ensures
        q.next(worker).0 matches Some(taken) ==> {
            &&& q.next(worker).1.count(pid) + (if taken == pid {
                1nat
            } else {
                0nat
            }) == q.count(pid)
            &&& q.next(worker).1.total() + 1 == q.total()
        },
        q.next(worker).0 is None ==> q.next(worker).1 == q,
{
    lemma_first_busy(q.locals, 0);
    if 0 <= worker < q.locals.len() && q.locals[worker].len() > 0 {
        lemma_local_update(q.locals, worker, q.locals[worker].drop_last(), pid);
    } else if q.injector.len() > 0 {
        lemma_occurrences_front(q.injector, pid);
    } else {
        if first_busy(q.locals, 0) is Some {
            let v = first_busy(q.locals, 0)->0;
            lemma_occurrences_front(q.locals[v], pid);
            lemma_local_update(
                q.locals,
                v,
                q.locals[v].subrange(1, q.locals[v].len() as int),
                pid,
            );
        }
    }
}

/// Putting a process on a queue makes it wait once more and changes
/// nothing else.
pub proof fn lemma_enqueue_adds_one(q: Queues, worker: int, added: u64, pid: u64)
    ensures
        q.scheduled(added).count(pid) == q.count(pid) + (if added == pid {
            1nat
        } else {
            0nat
        }),
        q.scheduled(added).total() == q.total() + 1,
        q.requeued(worker, added).count(pid) == q.count(pid) + (if added == pid {
            1nat
        } else {
            0nat
        }),
        q.requeued(worker, added).total() == q.total() + 1,
{
    assert(q.injector.push(added).drop_last() =~= q.injector);
    if 0 <= worker < q.locals.len() {
        let deque = q.locals[worker].push(added);
        assert(deque.drop_last() =~= q.locals[worker]);
        lemma_local_update(q.locals, worker, deque, pid);
    }
}

/// However the workers take turns, every time one looks for work while
/// processes wait it gets one, and what has been handed out and what still
/// waits are together what waited at the start.
pub proof fn lemma_run(q: Queues, polls: Seq<int>, pid: u64)
    ensures
        occurrences(q.run(polls).0, pid) + q.run(polls).1.count(pid) == q.count(pid),
        q.run(polls).1.total() == if polls.len() >= q.total() {
            0
        } else {
            q.total() - polls.len()
        },
    decreases polls.len(),
{
    if polls.len() > 0 {
        lemma_run(q, polls.drop_last(), pid);
        let (ran, mid) = q.run(polls.drop_last());
        lemma_next_none_iff_idle(mid, polls.last());
        lemma_next_takes_one(mid, polls.last(), pid);
        let (r, after) = mid.next(polls.last());
        if r is Some {
            assert(ran.push(r->0).drop_last() =~= ran);
        }
    }
}

/// Fairness under load: when the workers look for work at least as often
/// as processes wait, in whatever order the workers take turns, every
/// waiting process is handed out exactly as often as it waited, and no
/// process is left waiting.
pub proof fn lemma_all_run(q: Queues, polls: Seq<int>)
    requires
        polls.len() >= q.total(),
    ensures
        q.run(polls).1.total() == 0,
        forall|pid: u64| occurrences(q.run(polls).0, pid) == q.count(pid),
{
    assert forall|pid: u64| occurrences(q.run(polls).0, pid) == q.count(pid) by {
        lemma_run(q, polls, pid);
        lemma_count_bound(q.run(polls).1, pid);
    }
    lemma_run(q, polls, 0);
}

/// Calls `num_cpus::get` for the number of processors this machine offers.
///
/// Trusted. The number depends on the machine, so nothing is claimed of it.
#[verifier::external_body]
fn available_cpus() -> (n: usize) {
    num_cpus::get()
}

/// The number of workers for a machine with `cpus` processors: one per
/// processor, at least one, at most `MAX_WORKERS`.
pub open spec fn worker_count_spec(cpus: usize) -> usize {
    if cpus == 0 {
        1
    } else if cpus > MAX_WORKERS {
        MAX_WORKERS
    } else {
        cpus
    }
}

/// The number of workers for a machine with `cpus` processors.
pub fn worker_count_for(cpus: usize) -> (n: usize)
    ensures
        n == worker_count_spec(cpus),
{
    if cpus == 0 {
        1
    } else if cpus > MAX_WORKERS {
        MAX_WORKERS
    } else {
        cpus
    }
}

/// The run queues of a fixed set of workers.
pub struct Pool {
    pub(crate) injector: VecDeque<u64>,
    pub(crate) locals: Vec<VecDeque<u64>>,
}

impl Pool {
    pub open(crate) spec fn view(&self) -> Queues {
        Queues {
            injector: self.injector@,
            locals: Seq::new(self.locals@.len(), |w: int| self.locals@[w]@),
        }
    }

    /// The number of workers.
    pub open spec fn spec_workers(&self) -> nat {
        self@.locals.len()
    }

    /// A pool has at least one worker and at most `MAX_WORKERS`.
    pub open spec fn wf(&self) -> bool {
        1 <= self.spec_workers() <= MAX_WORKERS
    }

    /// A pool of `worker_count_for(workers)` workers with empty queues.
    pub fn new(workers: usize) -> (pool: Pool)
        ensures
            pool.wf(),
            pool.spec_workers() == worker_count_spec(workers),
            pool@.injector.len() == 0,
            forall|w: int| 0 <= w < pool.spec_workers() ==> (#[trigger] pool@.locals[w]).len() == 0,
            pool@.total() == 0,
    {
        let count = worker_count_for(workers);
        let mut locals: Vec<VecDeque<u64>> = Vec::new();
        let mut w: usize = 0;
        while w < count
            invariant
                w <= count,
                locals@.len() == w,
                forall|i: int| 0 <= i < w ==> (#[trigger] locals@[i])@.len() == 0,
            decreases count - w,
        {
            locals.push(VecDeque::new());
            w += 1;
        }
        let pool = Pool { injector: VecDeque::new(), locals };
        proof {
            lemma_local_total_zero(pool@.locals);
        }
        pool
    }

    /// A pool with one worker per processor of this machine.
    pub fn with_available_workers() -> (pool: Pool)
        ensures
            pool.wf(),
            pool@.total() == 0,
    {
        Pool::new(available_cpus())
    }

    /// The number of workers.
    pub fn workers(&self) -> (n: usize)
        ensures
            n == self.spec_workers(),
    {
        self.locals.len()
    }

    /// Whether no process waits in any queue.
    pub fn is_idle(&self) -> (idle: bool)
        ensures
            idle == (self@.total() == 0),
    {
        proof {
            lemma_local_total_zero(self@.locals);
        }
        if self.injector.len() > 0 {
            return false;
        }
        let mut w: usize = 0;
        while w < self.locals.len()
            invariant
                w <= self.locals@.len(),
                forall|u: int| 0 <= u < w ==> (#[trigger] self@.locals[u]).len() == 0,
            decreases self.locals.len() - w,
        {
            if self.locals[w].len() > 0 {
                proof {
                    lemma_local_total_zero(self@.locals);
                    assert(self@.locals[w as int].len() > 0);
                }
                return false;
            }
            w += 1;
        }
        proof {
            lemma_local_total_zero(self@.locals);
        }
        true
    }

    /// Puts a newly spawned or newly woken process on the injector.
    pub fn schedule(&mut self, pid: u64)
        ensures
            final(self)@ == old(self)@.scheduled(pid),
            final(self).spec_workers() == old(self).spec_workers(),
            final(self)@.total() == old(self)@.total() + 1,
    {
        self.injector.push_back(pid);
        assert(self@.locals =~= old(self)@.locals);
    }

    /// Puts a process that yielded on the deque of the worker that ran it.
    pub fn requeue(&mut self, worker: usize, pid: u64)
        ensures
            final(self)@ == old(self)@.requeued(worker as int, pid),
            final(self).spec_workers() == old(self).spec_workers(),
            final(self)@.total() == old(self)@.total() + 1,
    {
        proof {
            lemma_enqueue_adds_one(self@, worker as int, pid, pid);
        }
        if worker < self.locals.len() {
            self.locals[worker].push_back(pid);
            assert(self@.locals =~= old(self)@.locals.update(
                worker as int,
                old(self)@.locals[worker as int].push(pid),
            ));
        } else {
            self.schedule(pid);
        }
    }

    /// Hands `worker` the next process to run, if any waits.
    pub fn next(&mut self, worker: usize) -> (r: Option<u64>)
        ensures
            (r, final(self)@) == old(self)@.next(worker as int),
            final(self).spec_workers() == old(self).spec_workers(),
            r is None <==> old(self)@.total() == 0,
            r is Some ==> final(self)@.total() + 1 == old(self)@.total(),
            r is None ==> final(self)@ == old(self)@,
    {
        proof {
            lemma_next_none_iff_idle(self@, worker as int);
            lemma_next_takes_one(self@, worker as int, 0);
        }
        let n = self.locals.len();
        if worker < n {
            let own = self.locals[worker].pop_back();
            if own.is_some() {
                assert(self@.locals =~= old(self)@.locals.update(
                    worker as int,
                    old(self)@.locals[worker as int].drop_last(),
                ));
                return own;
            }
            assert(self@.locals =~= old(self)@.locals);
        }
        let shared = self.injector.pop_front();
        if shared.is_some() {
            assert(self@.locals =~= old(self)@.locals);
            return shared;
        }
        let mut v: usize = 0;
        while v < n
            invariant
                n == self.locals@.len(),
                v <= n,
                self@ == old(self)@,
                !(0 <= worker < old(self)@.locals.len() && old(self)@.locals[worker as int].len() > 0),
                old(self)@.injector.len() == 0,
                first_busy(old(self)@.locals, 0) == first_busy(old(self)@.locals, v as int),
            decreases n - v,
        {
            let stolen = self.locals[v].pop_front();
            if stolen.is_some() {
                proof {
                    lemma_next_none_iff_idle(old(self)@, worker as int);
                    lemma_next_takes_one(old(self)@, worker as int, 0);
                }
                assert(old(self)@.locals[v as int].len() > 0);
                assert(self@.locals =~= old(self)@.locals.update(
                    v as int,
                    old(self)@.locals[v as int].subrange(
                        1,
                        old(self)@.locals[v as int].len() as int,
                    ),
                ));
                return stolen;
            }
            assert(self@.locals =~= old(self)@.locals);
            assert(old(self)@.locals[v as int].len() == 0);
            v += 1;
        }
        proof {
            lemma_next_none_iff_idle(old(self)@, worker as int);
        }
        None
    }
}


impl Pool {
    /// Empties every queue, as at shutdown.
    pub fn clear(&mut self)
        ensures
            final(self).spec_workers() == old(self).spec_workers(),
            final(self)@.injector.len() == 0,
            forall|w: int|
                0 <= w < final(self).spec_workers() ==> (#[trigger] final(self)@.locals[w]).len()
                    == 0,
            final(self)@.total() == 0,
    {
        self.injector.clear();
        let mut w: usize = 0;
        while w < self.locals.len()
            invariant
                w <= self.locals@.len(),
                self.locals@.len() == old(self).locals@.len(),
                self.injector@.len() == 0,
                forall|u: int| 0 <= u < w ==> (#[trigger] self.locals@[u])@.len() == 0,
            decreases self.locals.len() - w,
        {
            self.locals[w].clear();
            w += 1;
        }
        proof {
            lemma_local_total_zero(self@.locals);
        }
    }
}

} // verus!
