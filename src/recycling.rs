//! A pool for one object type whose blocks come from, and go back to, the
//! general allocator.
use vstd::prelude::*;

use crate::block::Block;
use crate::model::{
    chain_contents, linked, lemma_alloc_wf, lemma_free_wf, lemma_no_reuse_while_live, lemma_occupancy, PoolModel,
};
use crate::{GlobalAllocator, Metrics, Pool, Stats};

verus! {

/// A pool of `T` values that retains vacated cells in a chain of blocks of
/// `BLOCK` addresses each. Only the head block may be partly filled.
pub struct Recycling<T, const BLOCK: usize> {
    memory: GlobalAllocator<T>,
    blocks: GlobalAllocator<Block<BLOCK>>,
    head: Option<usize>,
    metrics: Metrics,
    addrs: Ghost<Seq<usize>>,
}

impl<T, const BLOCK: usize> View for Recycling<T, BLOCK> {
    type V = PoolModel<T>;

    closed spec fn view(&self) -> PoolModel<T> {
        PoolModel {
            cells: self.memory.cells(),
            chain: chain_contents(self.blocks.cells(), self.addrs@),
            metrics: self.metrics,
        }
    }
}

impl<T, const BLOCK: usize> Recycling<T, BLOCK> {
    pub closed spec fn wf(&self) -> bool {
        &&& self@.wf(BLOCK as int)
        &&& linked(self.blocks.cells(), self.addrs@, self.head)
    }

    /// A well-formed pool has a well-formed model: every block behind the
    /// head is full, and the retained addresses are distinct vacant cells.
    pub proof fn lemma_model_wf(&self)
        requires
            self.wf(),
        ensures
            self@.wf(BLOCK as int),
    {
    }

    /// An empty pool: no head block, all metrics at zero.
    pub fn new() -> (r: Self)
        ensures
            r.wf(),
            r@ == PoolModel::<T>::empty(),
    {
        let r = Recycling {
            memory: GlobalAllocator::new(),
            blocks: GlobalAllocator::new(),
            head: None,
            metrics: Metrics::zero(),
            addrs: Ghost(Seq::empty()),
        };
        proof {
            assert(r@.chain =~= Seq::<Seq<usize>>::empty());
        }
        r
    }

    /// The metrics and the number of retained addresses.
    pub fn stats(&self) -> (r: Stats)
        requires
            self.wf(),
        ensures
            r.metrics == self@.metrics,
            r.len == self@.retained().len(),
            r.len == self@.occupancy(BLOCK as int),
    {
        proof {
            lemma_occupancy(self@, BLOCK as int);
        }
        let head_len: usize = match self.head {
            Some(h) => self.blocks.get(h).len(),
            None => 0,
        };
        proof {
            if self.addrs@.len() > 0 {
                assert(self@.chain[0] == self.blocks.cells()[self.addrs@[0] as int]->Some_0.slots());
                assert(head_len == self@.chain[0].len());
            } else {
                assert(self@.chain.len() == 0);
                let now = self.metrics.blocks.now;
                assert(BLOCK * now == 0) by (nonlinear_arith)
                    requires
                        now == 0,
                ;
            }
            assert((BLOCK as int) * (self.metrics.blocks.now as int) + head_len == self@.retained().len());
            assert(self@.retained().len() <= usize::MAX);
        }
        Stats { metrics: self.metrics, len: BLOCK * self.metrics.blocks.now + head_len }
    }

    /// The value held at the live address `a`.
    pub fn get(&self, a: usize) -> (r: &T)
        requires
            self@.is_live(a as int),
        ensures
            self@.cells[a as int] == Some(*r),
    {
        self.memory.get(a)
    }

    /// Puts `value` at the live address `a` and returns what it held; the
    /// chain and the metrics are untouched.
    pub fn replace(&mut self, a: usize, value: T) -> (r: T)
        requires
            old(self).wf(),
            old(self)@.is_live(a as int),
        ensures
            final(self).wf(),
            old(self)@.cells[a as int] == Some(r),
            final(self)@ == (PoolModel { cells: old(self)@.cells.update(a as int, Some(value)), ..old(self)@ }),
    {
        let r = self.memory.replace(a, value);
        proof {
            let o = old(self)@;
            let n = self@;
            assert forall|k: int| 0 <= k < n.retained().len() implies {
                let b = #[trigger] n.retained()[k] as int;
                0 <= b < n.cells.len() && n.cells[b] is None
            } by {
                let b = o.retained()[k] as int;
                assert(0 <= b < o.cells.len() && o.cells[b] is None);
            }
        }
        r
    }

    /// Constructs `value` in a retained cell if there is one, counting a hit,
    /// else in a fresh cell of the general allocator, counting a miss; returns
    /// the address.
    pub fn boxed(&mut self, value: T) -> (r: usize)
        requires
            old(self).wf(),
            old(self)@.metrics.alloc.hit + old(self)@.metrics.alloc.miss < usize::MAX,
        ensures
            final(self).wf(),
            old(self)@.alloc_step(final(self)@, value, r, BLOCK as int),
    {
        let ghost o = self@;
        let ghost store = self.blocks.cells();
        let ghost addrs = self.addrs@;
        if let Some(h) = self.head {
            let mut blk = self.blocks.replace(h, Block::new());
            proof {
                assert(addrs[0] == h);
                assert(blk.slots() == o.chain[0]);
            }
            match blk.pop() {
                Some(a) => {
                    let _empty = self.blocks.replace(h, blk);
                    proof {
                        let s2 = self.blocks.cells();
                        assert(s2 == store.update(h as int, Some(blk)));
                        assert forall|i: int| 1 <= i < addrs.len() implies s2[addrs[i] as int]
                            == store[addrs[i] as int] by {
                            assert(addrs[i] != addrs[0]);
                        }
                        assert(self@.chain =~= o.chain.update(0, o.chain[0].drop_last()));
                        assert(o.retained().len() > 0) by {
                            lemma_occupancy(o, BLOCK as int);
                        }
                        let c = o.chain;
                        assert(o.retained() == crate::model::stack_of(c.drop_first()) + c[0]);
                        assert(o.retained()[o.retained().len() - 1] == c[0].last());
                    }
                    self.memory.construct(a, value);
                    self.metrics.alloc.hit = self.metrics.alloc.hit + 1;
                    proof {
                        lemma_alloc_wf(o, self@, value, a, BLOCK as int);
                    }
                    return a;
                },
                None => {
                    match blk.take_next() {
                        Some(nx) => {
                            proof {
                                assert(addrs.len() > 1 && nx == addrs[1]);
                                assert(o.chain[1].len() == BLOCK);
                                assert(BLOCK > 0);
                            }
                            let mut nb = self.blocks.replace(nx, Block::new());
                            proof {
                                assert(nx != h);
                                assert(nb.slots() == o.chain[1]);
                            }
                            let a = match nb.pop() {
                                Some(a) => a,
                                None => { proof { assert(false); } 0 },
                            };
                            let _empty = self.blocks.replace(nx, nb);
                            self.blocks.free(h);
                            self.head = Some(nx);
                            proof {
                                self.addrs@ = addrs.drop_first();
                                let s2 = self.blocks.cells();
                                assert forall|i: int| 2 <= i < addrs.len() implies s2[addrs[i] as int]
                                    == store[addrs[i] as int] by {
                                    assert(addrs[i] != addrs[0]);
                                    assert(addrs[i] != addrs[1]);
                                }
                                assert(self@.chain =~= o.chain.drop_first().update(0, o.chain[1].drop_last()));
                                assert(linked(self.blocks.cells(), self.addrs@, self.head)) by {
                                    let na = self.addrs@;
                                    assert forall|i: int| 0 <= i < na.len() implies #[trigger] s2[na[i] as int]->Some_0.successor()
                                        == (if i + 1 < na.len() { Some(na[i + 1]) } else { None }) by {
                                        assert(na[i] == addrs[i + 1]);
                                    }
                                    assert forall|i: int| 0 <= i < na.len() implies 0 <= #[trigger] na[i] < s2.len()
                                        && s2[na[i] as int] is Some by {
                                        assert(na[i] == addrs[i + 1]);
                                    }
                                }
                                lemma_occupancy(o, BLOCK as int);
                                assert(o.retained().len() > 0) by {
                                    assert(o.chain[1].len() == BLOCK);
                                    assert(o.retained().len() == BLOCK * o.metrics.blocks.now + o.chain[0].len());
                                    assert(o.metrics.blocks.now >= 1);
                                    assert(BLOCK * o.metrics.blocks.now >= BLOCK * 1) by (nonlinear_arith)
                                        requires
                                            o.metrics.blocks.now >= 1,
                                    ;
                                }
                                let c = o.chain;
                                let d = c.drop_first();
                                assert(o.retained() == crate::model::stack_of(d) + c[0]);
                                assert(c[0].len() == 0);
                                assert(crate::model::stack_of(d) == crate::model::stack_of(d.drop_first()) + d[0]);
                                assert(d[0] == c[1]);
                                assert(o.retained() =~= crate::model::stack_of(d));
                                let k = o.retained().len() - 1;
                                assert(o.retained()[k] == a);
                            }
                            self.memory.construct(a, value);
                            self.metrics.alloc.hit = self.metrics.alloc.hit + 1;
                            self.metrics.blocks.dec_now();
                            proof {
                                lemma_alloc_wf(o, self@, value, a, BLOCK as int);
                            }
                            return a;
                        },
                        None => {
                            let _empty = self.blocks.replace(h, blk);
                            proof {
                                assert(addrs.len() == 1);
                                let s2 = self.blocks.cells();
                                assert(self@.chain =~= o.chain);
                                lemma_occupancy(o, BLOCK as int);
                                assert(o.retained().len() == 0);
                            }
                        },
                    }
                },
            }
        }
        proof {
            if addrs.len() == 0 {
                assert(o.chain =~= Seq::<Seq<usize>>::empty());
            }
        }
        let r = self.memory.allocate(value);
        self.metrics.alloc.miss = self.metrics.alloc.miss + 1;
        proof {
            lemma_alloc_wf(o, self@, value, r, BLOCK as int);
        }
        r
    }

    /// Drops the value at the live address `a` and retains `a`: on top of the
    /// head when it has room, counting a hit, else in a new head block,
    /// counting a miss.
    pub fn free(&mut self, a: usize)
        requires
            old(self).wf(),
            old(self)@.is_live(a as int),
            BLOCK > 0,
            old(self)@.metrics.free.hit + old(self)@.metrics.free.miss < usize::MAX,
        ensures
            final(self).wf(),
            old(self)@.free_step(final(self)@, a, BLOCK as int),
    {
        let ghost o = self@;
        let ghost store = self.blocks.cells();
        let ghost addrs = self.addrs@;
        self.memory.free(a);
        if let Some(h) = self.head {
            let mut blk = self.blocks.replace(h, Block::new());
            proof {
                assert(addrs[0] == h);
                assert(blk.slots() == o.chain[0]);
            }
            match blk.push(a) {
                Ok(()) => {
                    let _empty = self.blocks.replace(h, blk);
                    self.metrics.free.hit = self.metrics.free.hit + 1;
                    proof {
                        let s2 = self.blocks.cells();
                        assert forall|i: int| 1 <= i < addrs.len() implies s2[addrs[i] as int]
                            == store[addrs[i] as int] by {
                            assert(addrs[i] != addrs[0]);
                        }
                        assert(self@.chain =~= o.chain.update(0, o.chain[0].push(a)));
                    }
                },
                Err(a) => {
                    let _empty = self.blocks.replace(h, blk);
                    let mut nb = Block::new();
                    nb.swap_next(&mut self.head);
                    let _pushed = nb.push(a);
                    let nh = self.blocks.allocate(nb);
                    self.head = Some(nh);
                    self.metrics.free.miss = self.metrics.free.miss + 1;
                    self.metrics.blocks.inc_now();
                    proof {
                        self.addrs@ = seq![nh] + addrs;
                        let s2 = self.blocks.cells();
                        let na = self.addrs@;
                        assert forall|i: int| 0 <= i < addrs.len() implies s2[addrs[i] as int]
                            == store[addrs[i] as int] by {
                            assert(addrs[i] < store.len());
                        }
                        assert forall|i: int| 0 <= i < na.len() implies 0 <= #[trigger] na[i] < s2.len()
                            && s2[na[i] as int] is Some by {
                            if i > 0 {
                                assert(na[i] == addrs[i - 1]);
                            }
                        }
                        assert forall|i: int| 0 <= i < na.len() implies #[trigger] s2[na[i] as int]->Some_0.successor()
                            == (if i + 1 < na.len() { Some(na[i + 1]) } else { None }) by {
                            if i > 0 {
                                assert(na[i] == addrs[i - 1]);
                            }
                        }
                        assert(na.no_duplicates()) by {
                            assert forall|i: int, j: int| 0 <= i < j < na.len() implies na[i] != na[j] by {
                                if i == 0 {
                                    assert(na[j] == addrs[j - 1]);
                                    assert(addrs[j - 1] < store.len());
                                } else {
                                    assert(na[i] == addrs[i - 1]);
                                    assert(na[j] == addrs[j - 1]);
                                }
                            }
                        }
                        assert(self@.chain =~= seq![seq![a]] + o.chain);
                    }
                },
            }
        } else {
            let mut nb = Block::new();
            let _pushed = nb.push(a);
            let nh = self.blocks.allocate(nb);
            self.head = Some(nh);
            self.metrics.free.miss = self.metrics.free.miss + 1;
            proof {
                self.addrs@ = seq![nh];
                assert(self@.chain =~= seq![seq![a]] + o.chain);
            }
        }
        proof {
            lemma_free_wf(o, self@, a, BLOCK as int);
        }
    }
}

impl<T, const BLOCK: usize> Default for Recycling<T, BLOCK> {
    fn default() -> (r: Self)
        ensures
            r.wf(),
            r@ == PoolModel::<T>::empty(),
    {
        Recycling::new()
    }
}

impl<T, const BLOCK: usize> Pool<T> for Recycling<T, BLOCK> {
    closed spec fn cells_of(&self) -> Seq<Option<T>> {
        self@.cells
    }

    closed spec fn inv(&self) -> bool {
        self.wf()
    }

    closed spec fn alloc_room(&self) -> bool {
        self@.metrics.alloc.hit + self@.metrics.alloc.miss < usize::MAX
    }

    closed spec fn free_room(&self) -> bool {
        &&& BLOCK > 0
        &&& self@.metrics.free.hit + self@.metrics.free.miss < usize::MAX
    }

    fn allocate(&mut self, value: T) -> (r: usize) {
        let ghost m = self@;
        let r = Recycling::boxed(self, value);
        proof {
            lemma_no_reuse_while_live(m, self@, value, r, BLOCK as int);
        }
        r
    }

    fn free(&mut self, a: usize) {
        Recycling::free(self, a)
    }
}

} // verus!
