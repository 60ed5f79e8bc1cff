//! Fixed-capacity object recycling pools.
//!
//! Objects live in cells of an arena that plays the part of the general
//! allocator. A pool keeps the addresses of vacated cells in a chain of
//! bounded blocks and hands them out again before it asks the arena for a
//! fresh cell.
use vstd::prelude::*;

pub mod block;
pub mod model;
pub mod recycling;
pub mod bulk;

pub use block::Block;
pub use bulk::BulkRecycling;
pub use recycling::Recycling;

verus! {

/// Counts of operations that were served from retained cells (`hit`) and
/// of those that had to go to the general allocator (`miss`).
#[derive(Copy, Clone, Debug, Default, PartialEq, Eq, Structural)]
pub struct HitMiss {
    pub hit: usize,
    pub miss: usize,
}

/// A running count together with the least and greatest values it has had.
#[derive(Copy, Clone, Debug, Default, PartialEq, Eq, Structural)]
pub struct MinMaxNow {
    pub min: usize,
    pub max: usize,
    pub now: usize,
}

pub open spec fn min_of(a: usize, b: usize) -> usize {
    if a <= b { a } else { b }
}

pub open spec fn max_of(a: usize, b: usize) -> usize {
    if a >= b { a } else { b }
}

impl MinMaxNow {
    /// The count after one decrement, with the minimum extended.
    pub open spec fn dec_spec(self) -> MinMaxNow {
        MinMaxNow {
            min: min_of((self.now - 1) as usize, self.min),
            max: self.max,
            now: (self.now - 1) as usize,
        }
    }

    /// The count after one increment, with the maximum extended.
    pub open spec fn inc_spec(self) -> MinMaxNow {
        MinMaxNow {
            min: self.min,
            max: max_of((self.now + 1) as usize, self.max),
            now: (self.now + 1) as usize,
        }
    }

    /// Lowers the running count by one and extends the tracked minimum.
    pub fn dec_now(&mut self)
        requires
            old(self).now > 0,
        ensures
            *final(self) == old(self).dec_spec(),
    {
        self.now = self.now - 1;
        if self.now < self.min {
            self.min = self.now;
        }
    }

    /// Raises the running count by one and extends the tracked maximum.
    pub fn inc_now(&mut self)
        requires
            old(self).now < usize::MAX,
        ensures
            *final(self) == old(self).inc_spec(),
    {
        self.now = self.now + 1;
        if self.now > self.max {
            self.max = self.now;
        }
    }
}

/// Everything a pool counts: allocate and free outcomes, and the number of
/// blocks chained behind the head block.
#[derive(Copy, Clone, Debug, Default, PartialEq, Eq, Structural)]
pub struct Metrics {
    pub alloc: HitMiss,
    pub free: HitMiss,
    pub blocks: MinMaxNow,
}

impl Metrics {
    /// All counters at zero.
    pub fn zero() -> (r: Metrics)
        ensures
            r == Metrics::zero_spec(),
    {
        Metrics {
            alloc: HitMiss { hit: 0, miss: 0 },
            free: HitMiss { hit: 0, miss: 0 },
            blocks: MinMaxNow { min: 0, max: 0, now: 0 },
        }
    }

    pub open spec fn zero_spec() -> Metrics {
        Metrics {
            alloc: HitMiss { hit: 0, miss: 0 },
            free: HitMiss { hit: 0, miss: 0 },
            blocks: MinMaxNow { min: 0, max: 0, now: 0 },
        }
    }
}

/// A snapshot of a pool: its metrics and the number of cells it retains.
#[derive(Copy, Clone, Debug, Default, PartialEq, Eq, Structural)]
pub struct Stats {
    pub metrics: Metrics,
    pub len: usize,
}

/// The general allocator: an arena of cells, each either holding a live
/// value or vacant. Fresh cells are appended; a cell is never handed out
/// again by the arena itself once vacated.
pub struct GlobalAllocator<T> {
    cells: Vec<Option<T>>,
}

impl<T> GlobalAllocator<T> {
    /// The contents of every cell, by address.
    pub closed spec fn cells(&self) -> Seq<Option<T>> {
        self.cells@
    }

    /// Whether `a` addresses a cell that holds a live value.
    pub open spec fn is_live(&self, a: int) -> bool {
        0 <= a < self.cells().len() && self.cells()[a] is Some
    }

    /// Whether `a` addresses a cell that exists and holds nothing.
    pub open spec fn is_vacant(&self, a: int) -> bool {
        0 <= a < self.cells().len() && self.cells()[a] is None
    }

    pub fn new() -> (r: Self)
        ensures
            r.cells() == Seq::<Option<T>>::empty(),
    {
        GlobalAllocator { cells: Vec::new() }
    }

    /// Places `value` in a fresh cell and returns its address.
    pub fn allocate(&mut self, value: T) -> (r: usize)
        ensures
            r == old(self).cells().len(),
            final(self).cells() == old(self).cells().push(Some(value)),
    {
        let r = self.cells.len();
        self.cells.push(Some(value));
        r
    }

    /// Drops the value at `a`, leaving the cell vacant.
    pub fn free(&mut self, a: usize)
        requires
            old(self).is_live(a as int),
        ensures
            final(self).cells() == old(self).cells().update(a as int, None),
    {
        let _dropped = self.replace_cell(a, None);
    }

    /// Constructs `value` in the vacant cell at `a`.
    pub fn construct(&mut self, a: usize, value: T)
        requires
            old(self).is_vacant(a as int),
        ensures
            final(self).cells() == old(self).cells().update(a as int, Some(value)),
    {
        let _vacant = self.replace_cell(a, Some(value));
    }

    /// Puts `value` in the live cell at `a` and returns what it held.
    pub fn replace(&mut self, a: usize, value: T) -> (r: T)
        requires
            old(self).is_live(a as int),
        ensures
            old(self).cells()[a as int] == Some(r),
            final(self).cells() == old(self).cells().update(a as int, Some(value)),
    {
        let prev = self.replace_cell(a, Some(value));
        prev.unwrap()
    }

    /// The value at the live cell `a`.
    pub fn get(&self, a: usize) -> (r: &T)
        requires
            self.is_live(a as int),
        ensures
            self.cells()[a as int] == Some(*r),
    {
        self.cells[a].as_ref().unwrap()
    }

    fn replace_cell(&mut self, a: usize, cell: Option<T>) -> (r: Option<T>)
        requires
            a < old(self).cells().len(),
        ensures
            r == old(self).cells()[a as int],
            final(self).cells() == old(self).cells().update(a as int, cell),
    {
        self.cells.push(cell);
        let r = self.cells.swap_remove(a);
        proof {
            assert(self.cells@ =~= old(self).cells@.update(a as int, cell));
        }
        r
    }
}

/// What every allocator offers, pooled or not: place a value in a cell and
/// get its address; drop the value at an address that is live.
pub trait Pool<T>: Sized {
    /// The arena cells, by address.
    spec fn cells_of(&self) -> Seq<Option<T>>;

    /// The internal invariant.
    spec fn inv(&self) -> bool;

    /// Whether one more allocate call can be counted.
    spec fn alloc_room(&self) -> bool;

    /// Whether one more free call can be counted.
    spec fn free_room(&self) -> bool;

    /// Places `value` in a cell that was vacant or fresh; no other cell
    /// changes.
    fn allocate(&mut self, value: T) -> (r: usize)
        requires
            old(self).inv(),
            old(self).alloc_room(),
        ensures
            final(self).inv(),
            r <= old(self).cells_of().len(),
            r < old(self).cells_of().len() ==> old(self).cells_of()[r as int] is None,
            final(self).cells_of().len() >= old(self).cells_of().len(),
            final(self).cells_of()[r as int] == Some(value),
            forall|b: int|
                0 <= b < old(self).cells_of().len() && b != r ==> final(self).cells_of()[b] == old(
                    self,
                ).cells_of()[b],
    ;

    /// Drops the value at the live address `a`, leaving its cell vacant.
    fn free(&mut self, a: usize)
        requires
            old(self).inv(),
            old(self).free_room(),
            0 <= a < old(self).cells_of().len(),
            old(self).cells_of()[a as int] is Some,
        ensures
            final(self).inv(),
            final(self).cells_of() == old(self).cells_of().update(a as int, None),
    ;
}

impl<T> Pool<T> for GlobalAllocator<T> {
    open spec fn cells_of(&self) -> Seq<Option<T>> {
        self.cells()
    }

    open spec fn inv(&self) -> bool {
        true
    }

    open spec fn alloc_room(&self) -> bool {
        true
    }

    open spec fn free_room(&self) -> bool {
        true
    }

    fn allocate(&mut self, value: T) -> (r: usize) {
        GlobalAllocator::allocate(self, value)
    }

    fn free(&mut self, a: usize) {
        GlobalAllocator::free(self, a)
    }
}

} // verus!
