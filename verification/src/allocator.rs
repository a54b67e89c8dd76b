//! The global pool of free blocks that every process heap draws from.

use vstd::prelude::*;
use crate::block::Block;
use crate::errors::RuntimeError;

verus! {

/// The pool in numbers.
pub struct PoolView {
    /// Blocks waiting in the pool.
    pub free: nat,
    /// Blocks handed out and not yet returned.
    pub outstanding: nat,
    /// The most blocks that may exist at once: the memory ceiling.
    pub ceiling: nat,
}

impl PoolView {
    /// Whether a block can be acquired: fewer blocks are handed out than may
    /// exist.
    pub open spec fn can_supply(self) -> bool {
        self.outstanding < self.ceiling
    }
}

/// A pool of free blocks under a memory ceiling.
pub struct BlockPool {
    pub(crate) free: Vec<Block>,
    pub(crate) outstanding: usize,
    pub(crate) ceiling: usize,
}

impl BlockPool {
    pub open(crate) spec fn view(&self) -> PoolView {
        PoolView {
            free: self.free@.len(),
            outstanding: self.outstanding as nat,
            ceiling: self.ceiling as nat,
        }
    }

    /// Free and outstanding blocks together stay under the ceiling, and
    /// every free block is fresh.
    pub open(crate) spec fn wf(&self) -> bool {
        &&& self.free@.len() + self.outstanding <= self.ceiling
        &&& forall|i: int| 0 <= i < self.free@.len() ==> (#[trigger] self.free@[i]).is_fresh()
    }

    /// Whether a block can be acquired.
    pub open spec fn can_supply(&self) -> bool {
        self@.can_supply()
    }

    /// The pool after one block was acquired from it: a free block if there
    /// was one, else a new one.
    pub open spec fn after_acquire(view: PoolView) -> PoolView {
        PoolView {
            free: if view.free > 0 {
                (view.free - 1) as nat
            } else {
                0
            },
            outstanding: view.outstanding + 1,
            ceiling: view.ceiling,
        }
    }

    /// The pool after `n` blocks were returned to it: it takes back as many
    /// as it has outstanding.
    pub open spec fn after_release(view: PoolView, n: nat) -> PoolView {
        let taken = if n <= view.outstanding {
            n
        } else {
            view.outstanding
        };
        PoolView {
            free: view.free + taken,
            outstanding: (view.outstanding - taken) as nat,
            ceiling: view.ceiling,
        }
    }

    /// An empty pool that lets at most `ceiling` blocks exist.
    pub fn new(ceiling: usize) -> (pool: BlockPool)
        ensures
            pool.wf(),
            pool@ == (PoolView { free: 0, outstanding: 0, ceiling: ceiling as nat }),
    {
        BlockPool { free: Vec::new(), outstanding: 0, ceiling }
    }

    /// Blocks waiting in the pool.
    pub fn free_count(&self) -> (n: usize)
        ensures
            n == self@.free,
    {
        self.free.len()
    }

    /// Blocks handed out and not yet returned.
    pub fn outstanding(&self) -> (n: usize)
        ensures
            n == self@.outstanding,
    {
        self.outstanding
    }

    /// The memory ceiling, in blocks.
    pub fn ceiling(&self) -> (n: usize)
        ensures
            n == self@.ceiling,
    {
        self.ceiling
    }

    /// Hands out a fresh block: a free one if there is one, else a new one.
    /// Fails with `AllocationFailure`, changing nothing, when the blocks
    /// handed out have reached the ceiling.
    pub fn acquire_block(&mut self) -> (r: Result<Block, RuntimeError>)
        requires
            old(self).wf(),
        ensures
            final(self).wf(),
            r is Ok <==> old(self).can_supply(),
            r matches Ok(block) ==> block.is_fresh() && final(self)@ == BlockPool::after_acquire(
                old(self)@,
            ),
            r matches Err(e) ==> e == RuntimeError::AllocationFailure && final(self)@ == old(self)@,
    {
        if self.outstanding >= self.ceiling {
            return Err(RuntimeError::AllocationFailure);
        }
        let ghost free0 = self.free@;
        match self.free.pop() {
            Some(block) => {
                assert(free0[free0.len() - 1].is_fresh());
                assert forall|i: int| 0 <= i < self.free@.len() implies (
                #[trigger] self.free@[i]).is_fresh() by {
                    assert(free0[i].is_fresh());
                }
                self.outstanding = self.outstanding + 1;
                Ok(block)
            },
            None => {
                self.outstanding = self.outstanding + 1;
                Ok(Block::new())
            },
        }
    }

    /// Takes a block back. The block is emptied first. A pool with no block
    /// outstanding did not hand this one out and leaves it to be dropped.
    pub fn release_block(&mut self, block: Block)
        requires
            old(self).wf(),
            block.layout_wf(),
        ensures
            final(self).wf(),
            final(self)@ == BlockPool::after_release(old(self)@, 1),
    {
        if self.outstanding > 0 {
            let mut block = block;
            block.reset();
            let ghost free0 = self.free@;
            self.free.push(block);
            self.outstanding = self.outstanding - 1;
            assert forall|i: int| 0 <= i < self.free@.len() implies (
            #[trigger] self.free@[i]).is_fresh() by {
                if i < free0.len() {
                    assert(free0[i].is_fresh());
                }
            }
        }
    }
}


impl BlockPool {
    /// Frees every block that waits in the pool, as at shutdown. Returns
    /// the number of blocks freed.
    pub fn drain(&mut self) -> (freed: usize)
        requires
            old(self).wf(),
        ensures
            final(self).wf(),
            freed == old(self)@.free,
            final(self)@ == (PoolView {
                free: 0,
                outstanding: old(self)@.outstanding,
                ceiling: old(self)@.ceiling,
            }),
    {
        let freed = self.free.len();
        self.free.clear();
        freed
    }
}

} // verus!
