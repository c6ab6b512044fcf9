//! The bump allocator over tape positions, released in LIFO order.
use std::collections::BTreeMap;
use vstd::prelude::*;

verus! {

pub type Id = usize;

/// A contiguous run of reserved tape cells.
#[derive(Debug, Clone, Copy)]
pub struct Cells {
    pub position: usize,
    pub size: usize,
}

impl Cells {
    /// The tape position of the cell at `index` within the run.
    pub fn position_at(&self, index: usize) -> (r: usize)
        requires
            self.position + index <= usize::MAX,
        ensures
            r == self.position + index,
    {
        self.position + index
    }
}

/// The allocation frontier, and the runs stored under an id.
#[derive(Clone, Debug)]
pub struct MemoryModel {
    pub memory: BTreeMap<Id, Cells>,
    pub size: usize,
}

impl MemoryModel {
    pub fn new() -> (r: Self)
        ensures
            r.size == 0,
            r.memory@ == Map::<Id, Cells>::empty(),
    {
        MemoryModel { memory: BTreeMap::new(), size: 0 }
    }

    /// Reserves `size` cells at the frontier and moves the frontier past them.
    pub fn allocate(&mut self, size: usize) -> (r: Cells)
        requires
            old(self).size + size <= usize::MAX,
        ensures
            r.position == old(self).size,
            r.size == size,
            final(self).size == old(self).size + size,
            final(self).memory@ == old(self).memory@,
    {
        let position = self.size;
        self.size = self.size + size;
        Cells { position, size }
    }

    /// Releases the `size` cells allocated last.
    pub fn free(&mut self, size: usize)
        requires
            size <= old(self).size,
        ensures
            final(self).size == old(self).size - size,
            final(self).memory@ == old(self).memory@,
    {
        self.size = self.size - size;
    }

    /// Allocates `size` cells and records the run under `id`.
    pub fn store_value(&mut self, id: Id, size: usize)
        requires
            old(self).size + size <= usize::MAX,
        ensures
            final(self).size == old(self).size + size,
            final(self).memory@ == old(self).memory@.insert(
                id,
                Cells { position: old(self).size, size },
            ),
    {
        let cells = self.allocate(size);
        self.memory.insert(id, cells);
    }
}

/// A call on the allocator: reserve or release a number of cells.
pub enum AllocOp {
    Allocate(nat),
    Free(nat),
}

/// The frontier after `ops`, each applied as `allocate` and `free` change it.
pub open spec fn frontier_after(start: int, ops: Seq<AllocOp>) -> int
    decreases ops.len(),
{
    if ops.len() == 0 {
        start
    } else {
        let f = frontier_after(start, ops.drop_last());
        match ops.last() {
            AllocOp::Allocate(n) => f + n,
            AllocOp::Free(n) => f - n,
        }
    }
}

/// The sizes of the allocations still live after `ops`, oldest first.
pub open spec fn live_after(ops: Seq<AllocOp>) -> Seq<nat>
    decreases ops.len(),
{
    if ops.len() == 0 {
        Seq::empty()
    } else {
        let live = live_after(ops.drop_last());
        match ops.last() {
            AllocOp::Allocate(n) => live.push(n),
            AllocOp::Free(_) => live.drop_last(),
        }
    }
}

/// Every `Free` releases exactly the most recent live allocation.
pub open spec fn is_lifo(ops: Seq<AllocOp>) -> bool
    decreases ops.len(),
{
    if ops.len() == 0 {
        true
    } else {
        is_lifo(ops.drop_last()) && match ops.last() {
            AllocOp::Allocate(_) => true,
            AllocOp::Free(n) => {
                let live = live_after(ops.drop_last());
                live.len() > 0 && live.last() == n
            },
        }
    }
}

pub open spec fn sum_sizes(s: Seq<nat>) -> int
    decreases s.len(),
{
    if s.len() == 0 {
        0
    } else {
        sum_sizes(s.drop_last()) + s.last()
    }
}

proof fn lemma_sum_nonneg(s: Seq<nat>)
    ensures
        sum_sizes(s) >= 0,
    decreases s.len(),
{
    if s.len() > 0 {
        lemma_sum_nonneg(s.drop_last());
    }
}

/// Under LIFO use, starting from an empty allocator, the frontier after any
/// sequence of calls is the total size of the allocations still live.
pub proof fn lemma_lifo_frontier(ops: Seq<AllocOp>)
    requires
        is_lifo(ops),
    ensures
        frontier_after(0, ops) == sum_sizes(live_after(ops)),
        frontier_after(0, ops) >= 0,
    decreases ops.len(),
{
    if ops.len() > 0 {
        lemma_lifo_frontier(ops.drop_last());
        let live = live_after(ops.drop_last());
        match ops.last() {
            AllocOp::Allocate(n) => {
                assert(live.push(n).drop_last() =~= live);
            },
            AllocOp::Free(n) => {},
        }
    }
    lemma_sum_nonneg(live_after(ops));
}

} // verus!
