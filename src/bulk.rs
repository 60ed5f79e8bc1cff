//! A pool for one object type whose blocks are themselves recycled, through
//! a nested pool of blocks.
use vstd::prelude::*;

use crate::block::Block;
use crate::model::{
    block_traffic, chain_contents, linked, lemma_alloc_wf, lemma_free_wf, lemma_no_reuse_while_live,
    lemma_occupancy, stack_of, PoolModel,
};
use crate::recycling::Recycling;
use crate::{GlobalAllocator, Metrics, Pool, Stats};

verus! {

/// A pool of `T` values in blocks of `BLOCK` addresses, where blocks are
/// obtained from and discarded into a nested `Recycling` pool of blocks
/// rather than the general allocator.
pub struct BulkRecycling<T, const BLOCK: usize> {
    memory: GlobalAllocator<T>,
    blocks: Recycling<Block<BLOCK>, BLOCK>,
    items: Option<usize>,
    metrics: Metrics,
    addrs: Ghost<Seq<usize>>,
}

impl<T, const BLOCK: usize> View for BulkRecycling<T, BLOCK> {
    type V = PoolModel<T>;

    closed spec fn view(&self) -> PoolModel<T> {
        PoolModel {
            cells: self.memory.cells(),
            chain: chain_contents(self.blocks@.cells, self.addrs@),
            metrics: self.metrics,
        }
    }
}

impl<T, const BLOCK: usize> BulkRecycling<T, BLOCK> {
    /// The nested pool that the blocks of the chain come from.
    pub closed spec fn block_pool(&self) -> PoolModel<Block<BLOCK>> {
        self.blocks@
    }

    pub closed spec fn wf(&self) -> bool {
        &&& self@.wf(BLOCK as int)
        &&& self.blocks.wf()
        &&& linked(self.blocks@.cells, self.addrs@, self.items)
        &&& self.blocks@.metrics.alloc.hit + self.blocks@.metrics.alloc.miss <= self.metrics.free.miss
        &&& self.blocks@.metrics.free.hit + self.blocks@.metrics.free.miss <= self.metrics.alloc.hit
    }

    /// A well-formed pool has a well-formed model, and so does its pool of
    /// blocks.
    pub proof fn lemma_model_wf(&self)
        requires
            self.wf(),
        ensures
            self@.wf(BLOCK as int),
            self.block_pool().wf(BLOCK as int),
    {
        self.blocks.lemma_model_wf();
    }

    /// An empty pool over an empty pool of blocks.
    pub fn new() -> (r: Self)
        ensures
            r.wf(),
            r@ == PoolModel::<T>::empty(),
            r.block_pool() == PoolModel::<Block<BLOCK>>::empty(),
    {
        let r = BulkRecycling {
            memory: GlobalAllocator::new(),
            blocks: Recycling::new(),
            items: None,
            metrics: Metrics::zero(),
            addrs: Ghost(Seq::empty()),
        };
        proof {
            assert(r@.chain =~= Seq::<Seq<usize>>::empty());
        }
        r
    }

    /// The metrics and the number of retained item addresses.
    pub fn item_stats(&self) -> (r: Stats)
        requires
            self.wf(),
        ensures
            r.metrics == self@.metrics,
            r.len == self@.retained().len(),
            r.len == self@.occupancy(BLOCK as int),
    {
        proof {
            lemma_occupancy(self@, BLOCK as int);
        }
        let head_len: usize = match self.items {
            Some(h) => self.blocks.get(h).len(),
            None => 0,
        };
        proof {
            if self.addrs@.len() > 0 {
                assert(self@.chain[0] == self.blocks@.cells[self.addrs@[0] as int]->Some_0.slots());
                assert(head_len == self@.chain[0].len());
            } else {
                assert(self@.chain.len() == 0);
                let now = self.metrics.blocks.now;
                assert(BLOCK * now == 0) by (nonlinear_arith)
                    requires
                        now == 0,
                ;
            }
            assert((BLOCK as int) * (self.metrics.blocks.now as int) + head_len == self@.retained().len());
        }
        Stats { metrics: self.metrics, len: BLOCK * self.metrics.blocks.now + head_len }
    }

    /// The statistics of the nested pool of blocks.
    pub fn block_stats(&self) -> (r: Stats)
        requires
            self.wf(),
        ensures
            r.metrics == self.block_pool().metrics,
            r.len == self.block_pool().retained().len(),
    {
        self.blocks.stats()
    }

    /// The value held at the live address `a`.
    pub fn get(&self, a: usize) -> (r: &T)
        requires
            self@.is_live(a as int),
        ensures
            self@.cells[a as int] == Some(*r),
    {
        self.memory.get(a)
    }

    /// As `Recycling::boxed`; an empty head displaced from the chain goes
    /// back to the pool of blocks.
    pub fn boxed(&mut self, value: T) -> (r: usize)
        requires
            old(self).wf(),
            old(self)@.metrics.alloc.hit + old(self)@.metrics.alloc.miss < usize::MAX,
        ensures
            final(self).wf(),
            old(self)@.alloc_step(final(self)@, value, r, BLOCK as int),
            block_traffic(
                old(self).block_pool(),
                final(self).block_pool(),
                false,
                old(self)@.retained().len() > 0 && old(self)@.chain[0].len() == 0,
                BLOCK as int,
            ),
    {
        let ghost o = self@;
        let ghost bo = self.blocks@;
        let ghost store = self.blocks@.cells;
        let ghost addrs = self.addrs@;
        if let Some(h) = self.items {
            let mut blk = self.blocks.replace(h, Block::new());
            proof {
                assert(addrs[0] == h);
                assert(blk.slots() == o.chain[0]);
            }
            match blk.pop() {
                Some(a) => {
                    let _empty = self.blocks.replace(h, blk);
                    proof {
                        let s2 = self.blocks@.cells;
                        assert(s2 == store.update(h as int, Some(blk)));
                        assert forall|i: int| 1 <= i < addrs.len() implies s2[addrs[i] as int]
                            == store[addrs[i] as int] by {
                            assert(addrs[i] != addrs[0]);
                        }
                        assert(self@.chain =~= o.chain.update(0, o.chain[0].drop_last()));
                        assert(o.retained().len() > 0) by {
                            lemma_occupancy(o, BLOCK as int);
                        }
                        let c = o.chain;
                        assert(o.retained() == stack_of(c.drop_first()) + c[0]);
                        assert(o.retained()[o.retained().len() - 1] == c[0].last());
                    }
                    self.memory.construct(a, value);
                    self.metrics.alloc.hit = self.metrics.alloc.hit + 1;
                    proof {
                        lemma_alloc_wf(o, self@, value, a, BLOCK as int);
                    }
                    return a;
                },
                None => {
                    match blk.take_next() {
                        Some(nx) => {
                            proof {
                                assert(addrs.len() > 1 && nx == addrs[1]);
                                assert(o.chain[1].len() == BLOCK);
                                assert(BLOCK > 0);
                            }
                            let mut nb = self.blocks.replace(nx, Block::new());
                            proof {
                                assert(nx != h);
                                assert(nb.slots() == o.chain[1]);
                            }
                            let a = match nb.pop() {
                                Some(a) => a,
                                None => {
                                    proof {
                                        assert(false);
                                    }
                                    0
                                },
                            };
                            let _empty = self.blocks.replace(nx, nb);
                            self.blocks.free(h);
                            self.items = Some(nx);
                            proof {
                                self.addrs@ = addrs.drop_first();
                                let s2 = self.blocks@.cells;
                                assert forall|i: int| 2 <= i < addrs.len() implies s2[addrs[i] as int]
                                    == store[addrs[i] as int] by {
                                    assert(addrs[i] != addrs[0]);
                                    assert(addrs[i] != addrs[1]);
                                }
                                assert(self@.chain =~= o.chain.drop_first().update(0, o.chain[1].drop_last()));
                                assert(linked(self.blocks@.cells, self.addrs@, self.items)) by {
                                    let na = self.addrs@;
                                    assert forall|i: int| 0 <= i < na.len() implies #[trigger] s2[na[i] as int]->Some_0.successor()
                                        == (if i + 1 < na.len() { Some(na[i + 1]) } else { None }) by {
                                        assert(na[i] == addrs[i + 1]);
                                    }
                                    assert forall|i: int| 0 <= i < na.len() implies 0 <= #[trigger] na[i] < s2.len()
                                        && s2[na[i] as int] is Some by {
                                        assert(na[i] == addrs[i + 1]);
                                    }
                                }
                                lemma_occupancy(o, BLOCK as int);
                                assert(o.retained().len() > 0) by {
                                    assert(o.retained().len() == BLOCK * o.metrics.blocks.now + o.chain[0].len());
                                    assert(BLOCK * o.metrics.blocks.now >= BLOCK * 1) by (nonlinear_arith)
                                        requires
                                            o.metrics.blocks.now >= 1,
                                    ;
                                }
                                let c = o.chain;
                                let d = c.drop_first();
                                assert(o.retained() == stack_of(d) + c[0]);
                                assert(stack_of(d) == stack_of(d.drop_first()) + d[0]);
                                assert(d[0] == c[1]);
                                assert(o.retained() =~= stack_of(d));
                                let k = o.retained().len() - 1;
                                assert(o.retained()[k] == a);
                            }
                            self.memory.construct(a, value);
                            self.metrics.alloc.hit = self.metrics.alloc.hit + 1;
                            self.metrics.blocks.dec_now();
                            proof {
                                lemma_alloc_wf(o, self@, value, a, BLOCK as int);
                            }
                            return a;
                        },
                        None => {
                            let _empty = self.blocks.replace(h, blk);
                            proof {
                                assert(addrs.len() == 1);
                                assert(self@.chain =~= o.chain);
                                lemma_occupancy(o, BLOCK as int);
                                assert(o.retained().len() == 0);
                            }
                        },
                    }
                },
            }
        }
        proof {
            if addrs.len() == 0 {
                assert(o.chain =~= Seq::<Seq<usize>>::empty());
            }
        }
        let r = self.memory.allocate(value);
        self.metrics.alloc.miss = self.metrics.alloc.miss + 1;
        proof {
            lemma_alloc_wf(o, self@, value, r, BLOCK as int);
        }
        r
    }

    /// As `Recycling::free`; a new head block is taken from the pool of
    /// blocks.
    pub fn free(&mut self, a: usize)
        requires
            old(self).wf(),
            old(self)@.is_live(a as int),
            BLOCK > 0,
            old(self)@.metrics.free.hit + old(self)@.metrics.free.miss < usize::MAX,
        ensures
            final(self).wf(),
            old(self)@.free_step(final(self)@, a, BLOCK as int),
            block_traffic(
                old(self).block_pool(),
                final(self).block_pool(),
                !(old(self)@.chain.len() > 0 && old(self)@.chain[0].len() < BLOCK),
                false,
                BLOCK as int,
            ),
    {
        let ghost o = self@;
        let ghost bo = self.blocks@;
        let ghost store = self.blocks@.cells;
        let ghost addrs = self.addrs@;
        proof {
            self.blocks.lemma_model_wf();
        }
        self.memory.free(a);
        if let Some(h) = self.items {
            let mut blk = self.blocks.replace(h, Block::new());
            proof {
                assert(addrs[0] == h);
                assert(blk.slots() == o.chain[0]);
            }
            match blk.push(a) {
                Ok(()) => {
                    let _empty = self.blocks.replace(h, blk);
                    self.metrics.free.hit = self.metrics.free.hit + 1;
                    proof {
                        let s2 = self.blocks@.cells;
                        assert forall|i: int| 1 <= i < addrs.len() implies s2[addrs[i] as int]
                            == store[addrs[i] as int] by {
                            assert(addrs[i] != addrs[0]);
                        }
                        assert(self@.chain =~= o.chain.update(0, o.chain[0].push(a)));
                    }
                },
                Err(a) => {
                    let _empty = self.blocks.replace(h, blk);
                    let ghost mid = self.blocks@;
                    let mut nb = Block::new();
                    nb.swap_next(&mut self.items);
                    let _pushed = nb.push(a);
                    let nh = self.blocks.boxed(nb);
                    self.items = Some(nh);
                    self.metrics.free.miss = self.metrics.free.miss + 1;
                    self.metrics.blocks.inc_now();
                    proof {
                        self.blocks.lemma_model_wf();
                        lemma_no_reuse_while_live(mid, self.blocks@, nb, nh, BLOCK as int);
                        self.addrs@ = seq![nh] + addrs;
                        let s2 = self.blocks@.cells;
                        let na = self.addrs@;
                        assert forall|i: int| 0 <= i < addrs.len() implies s2[addrs[i] as int]
                            == store[addrs[i] as int] && addrs[i] != nh by {
                            assert(mid.is_live(addrs[i] as int));
                        }
                        assert forall|i: int| 0 <= i < na.len() implies 0 <= #[trigger] na[i] < s2.len()
                            && s2[na[i] as int] is Some by {
                            if i > 0 {
                                assert(na[i] == addrs[i - 1]);
                            }
                        }
                        assert forall|i: int| 0 <= i < na.len() implies #[trigger] s2[na[i] as int]->Some_0.successor()
                            == (if i + 1 < na.len() { Some(na[i + 1]) } else { None }) by {
                            if i > 0 {
                                assert(na[i] == addrs[i - 1]);
                            }
                        }
                        assert(na.no_duplicates()) by {
                            assert forall|i: int, j: int| 0 <= i < j < na.len() implies na[i] != na[j] by {
                                if i == 0 {
                                    assert(na[j] == addrs[j - 1]);
                                } else {
                                    assert(na[i] == addrs[i - 1]);
                                    assert(na[j] == addrs[j - 1]);
                                }
                            }
                        }
                        assert(self@.chain =~= seq![seq![a]] + o.chain);
                    }
                },
            }
        } else {
            let mut nb = Block::new();
            let _pushed = nb.push(a);
            let nh = self.blocks.boxed(nb);
            self.items = Some(nh);
            self.metrics.free.miss = self.metrics.free.miss + 1;
            proof {
                lemma_no_reuse_while_live(bo, self.blocks@, nb, nh, BLOCK as int);
                self.addrs@ = seq![nh];
                assert(self@.chain =~= seq![seq![a]] + o.chain);
            }
        }
        proof {
            lemma_free_wf(o, self@, a, BLOCK as int);
        }
    }
}

impl<T, const BLOCK: usize> Default for BulkRecycling<T, BLOCK> {
    fn default() -> (r: Self)
        ensures
            r.wf(),
            r@ == PoolModel::<T>::empty(),
            r.block_pool() == PoolModel::<Block<BLOCK>>::empty(),
    {
        BulkRecycling::new()
    }
}

impl<T, const BLOCK: usize> Pool<T> for BulkRecycling<T, BLOCK> {
    closed spec fn cells_of(&self) -> Seq<Option<T>> {
        self@.cells
    }

    closed spec fn inv(&self) -> bool {
        self.wf()
    }

    closed spec fn alloc_room(&self) -> bool {
        self@.metrics.alloc.hit + self@.metrics.alloc.miss < usize::MAX
    }

    closed spec fn free_room(&self) -> bool {
        &&& BLOCK > 0
        &&& self@.metrics.free.hit + self@.metrics.free.miss < usize::MAX
    }

    fn allocate(&mut self, value: T) -> (r: usize) {
        let ghost m = self@;
        let r = BulkRecycling::boxed(self, value);
        proof {
            lemma_no_reuse_while_live(m, self@, value, r, BLOCK as int);
        }
        r
    }

    fn free(&mut self, a: usize) {
        BulkRecycling::free(self, a)
    }
}

} // verus!
