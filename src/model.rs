//! The abstract state shared by both pools, the effect of each operation on
//! it, and the laws that follow.
use vstd::prelude::*;

use crate::block::Block;
use crate::{HitMiss, Metrics};

verus! {

/// What a pool is, abstractly: the arena cells, the contents of each block
/// of the chain (head first), and the metrics.
pub ghost struct PoolModel<T> {
    pub cells: Seq<Option<T>>,
    pub chain: Seq<Seq<usize>>,
    pub metrics: Metrics,
}

/// The retained addresses as one stack: the deepest block at the bottom, the
/// head's top slot last.
pub open spec fn stack_of(c: Seq<Seq<usize>>) -> Seq<usize>
    decreases c.len(),
{
    if c.len() == 0 {
        Seq::empty()
    } else {
        stack_of(c.drop_first()) + c[0]
    }
}

/// The contents of the blocks at `addrs` in `store`.
pub open spec fn chain_contents<const B: usize>(store: Seq<Option<Block<B>>>, addrs: Seq<usize>) -> Seq<Seq<usize>> {
    Seq::new(addrs.len(), |i: int| store[addrs[i] as int]->Some_0.slots())
}

/// `addrs` lists distinct live blocks of `store`, starting at `head`, each
/// linked to the next one, the last to none.
pub open spec fn linked<const B: usize>(store: Seq<Option<Block<B>>>, addrs: Seq<usize>, head: Option<usize>) -> bool {
    &&& (head is None <==> addrs.len() == 0)
    &&& (addrs.len() > 0 ==> head == Some(addrs[0]))
    &&& forall|i: int| 0 <= i < addrs.len() ==> 0 <= #[trigger] addrs[i] < store.len() && store[addrs[i] as int] is Some
    &&& forall|i: int| 0 <= i < addrs.len() ==> (#[trigger] store[addrs[i] as int])->Some_0.successor() == (if i + 1
        < addrs.len() {
        Some(addrs[i + 1])
    } else {
        None
    })
    &&& addrs.no_duplicates()
}

impl<T> PoolModel<T> {
    /// Every address the pool keeps for reuse.
    pub open spec fn retained(self) -> Seq<usize> {
        stack_of(self.chain)
    }

    /// The cell at `a` holds a value that a caller owns.
    pub open spec fn is_live(self, a: int) -> bool {
        0 <= a < self.cells.len() && self.cells[a] is Some
    }

    /// Every block but the head is full; the head holds at most `cap`.
    pub open spec fn shape_ok(self, cap: int) -> bool {
        &&& forall|i: int| 0 <= i < self.chain.len() ==> #[trigger] self.chain[i].len() <= cap
        &&& forall|i: int| 1 <= i < self.chain.len() ==> #[trigger] self.chain[i].len() == cap
    }

    /// The occupancy figure: `cap` for each block behind the head, plus the
    /// head's own count.
    pub open spec fn occupancy(self, cap: int) -> int {
        if self.chain.len() == 0 {
            0
        } else {
            cap * self.metrics.blocks.now + self.chain[0].len()
        }
    }

    pub open spec fn wf(self, cap: int) -> bool {
        &&& self.shape_ok(cap)
        &&& (self.chain.len() > 0 ==> cap > 0)
        &&& self.metrics.blocks.now == (if self.chain.len() == 0 {
            0
        } else {
            self.chain.len() - 1
        })
        &&& self.retained().no_duplicates()
        &&& forall|k: int|
            0 <= k < self.retained().len() ==> {
                let a = #[trigger] self.retained()[k] as int;
                0 <= a < self.cells.len() && self.cells[a] is None
            }
        &&& self.metrics.alloc.hit + self.metrics.alloc.miss <= usize::MAX
        &&& self.metrics.free.hit + self.metrics.free.miss <= usize::MAX
        &&& self.retained().len() <= self.metrics.free.hit + self.metrics.free.miss
        &&& self.metrics.blocks.now <= self.metrics.free.miss
    }

    /// A fresh pool over an empty arena.
    pub open spec fn empty() -> PoolModel<T> {
        PoolModel { cells: Seq::empty(), chain: Seq::empty(), metrics: Metrics::zero_spec() }
    }

    /// One allocate call that placed `value` at `r`: the head's top slot if
    /// there is one, else the top slot of the full successor, which becomes
    /// the head; with nothing retained, a fresh cell.
    pub open spec fn alloc_step(self, n: Self, value: T, r: usize, cap: int) -> bool {
        &&& n.metrics.free == self.metrics.free
        &&& if self.retained().len() > 0 {
            &&& n.cells == self.cells.update(r as int, Some(value))
            &&& n.metrics.alloc == (HitMiss {
                hit: (self.metrics.alloc.hit + 1) as usize,
                miss: self.metrics.alloc.miss,
            })
            &&& if self.chain[0].len() > 0 {
                &&& r == self.chain[0].last()
                &&& n.chain == self.chain.update(0, self.chain[0].drop_last())
                &&& n.metrics.blocks == self.metrics.blocks
            } else {
                &&& r == self.chain[1].last()
                &&& n.chain == self.chain.drop_first().update(0, self.chain[1].drop_last())
                &&& n.metrics.blocks == self.metrics.blocks.dec_spec()
            }
        } else {
            &&& r == self.cells.len()
            &&& n.cells == self.cells.push(Some(value))
            &&& n.chain == self.chain
            &&& n.metrics.alloc == (HitMiss {
                hit: self.metrics.alloc.hit,
                miss: (self.metrics.alloc.miss + 1) as usize,
            })
            &&& n.metrics.blocks == self.metrics.blocks
        }
    }

    /// One free call on the live cell `a`: its value is dropped and `a` goes
    /// on top of the head, or, with no head or a full one, into a new head
    /// block linked in front of the old one.
    pub open spec fn free_step(self, n: Self, a: usize, cap: int) -> bool {
        &&& n.cells == self.cells.update(a as int, None)
        &&& n.metrics.alloc == self.metrics.alloc
        &&& if self.chain.len() > 0 && self.chain[0].len() < cap {
            &&& n.chain == self.chain.update(0, self.chain[0].push(a))
            &&& n.metrics.free == (HitMiss {
                hit: (self.metrics.free.hit + 1) as usize,
                miss: self.metrics.free.miss,
            })
            &&& n.metrics.blocks == self.metrics.blocks
        } else {
            &&& n.chain == seq![seq![a]] + self.chain
            &&& n.metrics.free == (HitMiss {
                hit: self.metrics.free.hit,
                miss: (self.metrics.free.miss + 1) as usize,
            })
            &&& n.metrics.blocks == (if self.chain.len() == 0 {
                self.metrics.blocks
            } else {
                self.metrics.blocks.inc_spec()
            })
        }
    }
}

proof fn lemma_stack_all_full(c: Seq<Seq<usize>>, cap: int)
    requires
        cap >= 0,
        forall|i: int| 0 <= i < c.len() ==> #[trigger] c[i].len() == cap,
    ensures
        stack_of(c).len() == cap * c.len(),
    decreases c.len(),
{
    if c.len() > 0 {
        let d = c.drop_first();
        assert forall|i: int| 0 <= i < d.len() implies #[trigger] d[i].len() == cap by {
            assert(d[i] == c[i + 1]);
        }
        lemma_stack_all_full(d, cap);
        assert(cap * c.len() == cap * d.len() + cap) by (nonlinear_arith)
            requires
                d.len() + 1 == c.len(),
        ;
    }
}

proof fn lemma_stack_new_head(c: Seq<Seq<usize>>, s: Seq<usize>)
    requires
        c.len() > 0,
    ensures
        stack_of(c.update(0, s)) == stack_of(c.drop_first()) + s,
{
    assert(c.update(0, s).drop_first() =~= c.drop_first());
}

proof fn lemma_stack_prepend(c: Seq<Seq<usize>>, s: Seq<usize>)
    ensures
        stack_of(seq![s] + c) == stack_of(c) + s,
{
    assert((seq![s] + c).drop_first() =~= c);
}

/// The occupancy figure counts exactly the retained addresses.
pub proof fn lemma_occupancy<T>(m: PoolModel<T>, cap: int)
    requires
        m.wf(cap),
    ensures
        m.retained().len() == m.occupancy(cap),
{
    if m.chain.len() > 0 {
        let d = m.chain.drop_first();
        assert forall|i: int| 0 <= i < d.len() implies #[trigger] d[i].len() == cap by {
            assert(d[i] == m.chain[i + 1]);
        }
        lemma_stack_all_full(d, cap);
    }
}

/// In every well-formed state each block behind the head is full and the
/// head holds between none and `cap` addresses.
pub proof fn lemma_chain_shape<T>(m: PoolModel<T>, cap: int)
    requires
        m.wf(cap),
    ensures
        forall|i: int| 1 <= i < m.chain.len() ==> #[trigger] m.chain[i].len() == cap,
        m.chain.len() > 0 ==> 0 <= m.chain[0].len() <= cap,
{
}

/// An allocate call takes the address on top of the retained stack when
/// there is one, and a fresh cell otherwise.
pub proof fn lemma_alloc_pops<T>(m: PoolModel<T>, n: PoolModel<T>, value: T, r: usize, cap: int)
    requires
        m.wf(cap),
        m.alloc_step(n, value, r, cap),
    ensures
        m.retained().len() > 0 ==> r == m.retained().last() && n.retained() == m.retained().drop_last(),
        m.retained().len() == 0 ==> r == m.cells.len() && n.retained() == m.retained(),
{
    if m.retained().len() > 0 {
        lemma_occupancy(m, cap);
        let c = m.chain;
        if c[0].len() > 0 {
            lemma_stack_new_head(c, c[0].drop_last());
            assert(m.retained() == stack_of(c.drop_first()) + c[0]) by {
                assert(c.len() > 0);
            }
            assert(n.retained() =~= m.retained().drop_last());
        } else {
            let d = c.drop_first();
            assert(c.len() >= 2) by {
                if c.len() == 1 {
                    assert(m.occupancy(cap) == cap * 0 + 0) by (nonlinear_arith)
                        requires
                            m.metrics.blocks.now == 0,
                            c[0].len() == 0,
                            m.occupancy(cap) == cap * m.metrics.blocks.now + c[0].len(),
                    ;
                }
            }
            assert(d[0] == c[1]);
            assert(c[1].len() == cap);
            lemma_stack_new_head(d, d[0].drop_last());
            assert(m.retained() == stack_of(d) + c[0]);
            assert(c[0] =~= Seq::<usize>::empty());
            assert(m.retained() =~= stack_of(d));
            assert(stack_of(d) == stack_of(d.drop_first()) + d[0]);
            assert(n.retained() =~= m.retained().drop_last());
        }
    }
}

/// A free call puts the freed address on top of the retained stack.
pub proof fn lemma_free_pushes<T>(m: PoolModel<T>, n: PoolModel<T>, a: usize, cap: int)
    requires
        m.free_step(n, a, cap),
    ensures
        n.retained() == m.retained().push(a),
{
    let c = m.chain;
    if c.len() > 0 && c[0].len() < cap {
        lemma_stack_new_head(c, c[0].push(a));
        assert(n.retained() =~= m.retained().push(a));
    } else {
        lemma_stack_prepend(c, seq![a]);
        assert(n.retained() =~= m.retained().push(a));
    }
}

/// Allocate keeps the state well formed.
pub proof fn lemma_alloc_wf<T>(m: PoolModel<T>, n: PoolModel<T>, value: T, r: usize, cap: int)
    requires
        m.wf(cap),
        m.alloc_step(n, value, r, cap),
        m.metrics.alloc.hit + m.metrics.alloc.miss < usize::MAX,
    ensures
        n.wf(cap),
{
    lemma_alloc_pops(m, n, value, r, cap);
    let c = m.chain;
    if m.retained().len() > 0 {
        if c[0].len() > 0 {
            assert forall|i: int| 1 <= i < n.chain.len() implies #[trigger] n.chain[i].len() == cap by {
                assert(n.chain[i] == c[i]);
            }
            assert forall|i: int| 0 <= i < n.chain.len() implies #[trigger] n.chain[i].len() <= cap by {
                if i > 0 {
                    assert(n.chain[i] == c[i]);
                }
            }
        } else {
            lemma_occupancy(m, cap);
            assert(c.len() >= 2) by {
                if c.len() == 1 {
                    assert(m.occupancy(cap) == cap * 0 + 0) by (nonlinear_arith)
                        requires
                            m.metrics.blocks.now == 0,
                            c[0].len() == 0,
                            m.occupancy(cap) == cap * m.metrics.blocks.now + c[0].len(),
                    ;
                }
            }
            assert forall|i: int| 1 <= i < n.chain.len() implies #[trigger] n.chain[i].len() == cap by {
                assert(n.chain[i] == c[i + 1]);
            }
            assert forall|i: int| 0 <= i < n.chain.len() implies #[trigger] n.chain[i].len() <= cap by {
                if i > 0 {
                    assert(n.chain[i] == c[i + 1]);
                } else {
                    assert(c[1].len() == cap);
                }
            }
        }
        let s = m.retained();
        assert forall|k: int| 0 <= k < n.retained().len() implies {
            let a = #[trigger] n.retained()[k] as int;
            0 <= a < n.cells.len() && n.cells[a] is None
        } by {
            assert(n.retained()[k] == s[k]);
            assert(s[k] != s[s.len() - 1]);
        }
    } else {
        assert forall|k: int| 0 <= k < n.retained().len() implies {
            let a = #[trigger] n.retained()[k] as int;
            0 <= a < n.cells.len() && n.cells[a] is None
        } by {
            assert(n.retained()[k] == m.retained()[k]);
        }
    }
}

/// Free keeps the state well formed.
pub proof fn lemma_free_wf<T>(m: PoolModel<T>, n: PoolModel<T>, a: usize, cap: int)
    requires
        m.wf(cap),
        m.is_live(a as int),
        cap > 0,
        m.free_step(n, a, cap),
        m.metrics.free.hit + m.metrics.free.miss < usize::MAX,
    ensures
        n.wf(cap),
{
    lemma_free_pushes(m, n, a, cap);
    let c = m.chain;
    let s = m.retained();
    if c.len() > 0 && c[0].len() < cap {
        assert forall|i: int| 1 <= i < n.chain.len() implies #[trigger] n.chain[i].len() == cap by {
            assert(n.chain[i] == c[i]);
        }
        assert forall|i: int| 0 <= i < n.chain.len() implies #[trigger] n.chain[i].len() <= cap by {
            if i > 0 {
                assert(n.chain[i] == c[i]);
            }
        }
    } else {
        assert forall|i: int| 1 <= i < n.chain.len() implies #[trigger] n.chain[i].len() == cap by {
            assert(n.chain[i] == c[i - 1]);
            if i == 1 {
                assert(c[0].len() >= cap);
            }
        }
        assert forall|i: int| 0 <= i < n.chain.len() implies #[trigger] n.chain[i].len() <= cap by {
            if i > 0 {
                assert(n.chain[i] == c[i - 1]);
            }
        }
    }
    assert forall|k: int| 0 <= k < s.len() implies s[k] != a by {
        let b = s[k] as int;
        assert(0 <= b < m.cells.len() && m.cells[b] is None);
    }
    assert forall|k: int| 0 <= k < n.retained().len() implies {
        let b = #[trigger] n.retained()[k] as int;
        0 <= b < n.cells.len() && n.cells[b] is None
    } by {
        if k < s.len() {
            assert(n.retained()[k] == s[k]);
        }
    }
    assert(n.retained().no_duplicates()) by {
        assert forall|i: int, j: int| 0 <= i < j < n.retained().len() implies n.retained()[i]
            != n.retained()[j] by {
            if j == s.len() {
                assert(n.retained()[i] == s[i]);
            } else {
                assert(n.retained()[i] == s[i]);
                assert(n.retained()[j] == s[j]);
            }
        }
    }
}

/// An allocate call never hands out an address that is live: it places the
/// value in a cell that was vacant or fresh and leaves every other cell as it
/// was, so an address stays live until it is freed.
pub proof fn lemma_no_reuse_while_live<T>(m: PoolModel<T>, n: PoolModel<T>, value: T, r: usize, cap: int)
    requires
        m.wf(cap),
        m.alloc_step(n, value, r, cap),
    ensures
        forall|a: int| m.is_live(a) ==> a != r && n.is_live(a),
        n.is_live(r as int),
        n.cells[r as int] == Some(value),
        r <= m.cells.len(),
        n.cells.len() >= m.cells.len(),
        forall|a: int| 0 <= a < m.cells.len() && a != r ==> n.cells[a] == m.cells[a],
{
    lemma_alloc_pops(m, n, value, r, cap);
    if m.retained().len() > 0 {
        let k = m.retained().len() - 1;
        assert(m.retained()[k] == r);
    }
}

/// A free call ends the life of the freed address only.
pub proof fn lemma_free_keeps_others_live<T>(m: PoolModel<T>, n: PoolModel<T>, b: usize, cap: int)
    requires
        m.is_live(b as int),
        m.free_step(n, b, cap),
    ensures
        !n.is_live(b as int),
        forall|a: int| m.is_live(a) && a != b ==> n.is_live(a),
{
}

/// What a tiered pool's own operation did to its pool of blocks: one
/// allocate call there when a block was `obtained`, one free call when a
/// block was `discarded`, each counted as that pool counts it.
pub open spec fn block_traffic<B>(o: PoolModel<B>, n: PoolModel<B>, obtained: bool, discarded: bool, cap: int) -> bool {
    &&& n.metrics.alloc == (if !obtained {
        o.metrics.alloc
    } else if o.retained().len() > 0 {
        HitMiss { hit: (o.metrics.alloc.hit + 1) as usize, miss: o.metrics.alloc.miss }
    } else {
        HitMiss { hit: o.metrics.alloc.hit, miss: (o.metrics.alloc.miss + 1) as usize }
    })
    &&& n.metrics.free == (if !discarded {
        o.metrics.free
    } else if o.chain.len() > 0 && o.chain[0].len() < cap {
        HitMiss { hit: (o.metrics.free.hit + 1) as usize, miss: o.metrics.free.miss }
    } else {
        HitMiss { hit: o.metrics.free.hit, miss: (o.metrics.free.miss + 1) as usize }
    })
}

/// Freeing an address and allocating right after hands the same address
/// back, holding the new value.
pub proof fn lemma_round_trip<T>(
    m0: PoolModel<T>,
    m1: PoolModel<T>,
    m2: PoolModel<T>,
    a: usize,
    value: T,
    r: usize,
    cap: int,
)
    requires
        m0.free_step(m1, a, cap),
        m1.wf(cap),
        m1.alloc_step(m2, value, r, cap),
    ensures
        r == a,
        m2.cells[a as int] == Some(value),
        m2.retained() == m0.retained(),
{
    lemma_free_pushes(m0, m1, a, cap);
    lemma_alloc_pops(m1, m2, value, r, cap);
    assert(m1.retained().drop_last() =~= m0.retained());
}

/// Each allocate call adds one to exactly one of the allocate counters, the
/// hit counter exactly when a retained address is reused, and leaves the
/// free counters alone.
pub proof fn lemma_alloc_counts<T>(m: PoolModel<T>, n: PoolModel<T>, value: T, r: usize, cap: int)
    requires
        m.wf(cap),
        m.alloc_step(n, value, r, cap),
        m.metrics.alloc.hit + m.metrics.alloc.miss < usize::MAX,
    ensures
        n.metrics.alloc.hit + n.metrics.alloc.miss == m.metrics.alloc.hit + m.metrics.alloc.miss + 1,
        n.metrics.free == m.metrics.free,
        n.metrics.alloc.hit == m.metrics.alloc.hit + 1 <==> r < m.cells.len(),
        n.metrics.alloc.miss == m.metrics.alloc.miss + 1 <==> r == m.cells.len(),
{
    lemma_no_reuse_while_live(m, n, value, r, cap);
    if m.retained().len() > 0 {
        lemma_alloc_pops(m, n, value, r, cap);
        let k = m.retained().len() - 1;
        assert(m.retained()[k] == r);
    }
}

/// Each free call adds one to exactly one of the free counters, the miss
/// counter exactly when a new block had to be obtained, and leaves the
/// allocate counters alone.
pub proof fn lemma_free_counts<T>(m: PoolModel<T>, n: PoolModel<T>, a: usize, cap: int)
    requires
        m.wf(cap),
        m.free_step(n, a, cap),
        m.metrics.free.hit + m.metrics.free.miss < usize::MAX,
    ensures
        n.metrics.free.hit + n.metrics.free.miss == m.metrics.free.hit + m.metrics.free.miss + 1,
        n.metrics.alloc == m.metrics.alloc,
        n.metrics.free.hit == m.metrics.free.hit + 1 <==> n.chain.len() == m.chain.len(),
        n.metrics.free.miss == m.metrics.free.miss + 1 <==> n.chain.len() == m.chain.len() + 1,
{
}

/// One call made on a pool: an allocate call that placed `value` at `addr`,
/// or a free call on `addr`.
pub ghost enum Call<T> {
    Allocate { value: T, addr: usize },
    Free { addr: usize },
}

/// `n` is what the call `c` made of `m`, the call being one that the pool
/// accepts there.
pub open spec fn call_step<T>(m: PoolModel<T>, n: PoolModel<T>, c: Call<T>, cap: int) -> bool {
    match c {
        Call::Allocate { value, addr } => {
            &&& m.metrics.alloc.hit + m.metrics.alloc.miss < usize::MAX
            &&& m.alloc_step(n, value, addr, cap)
        },
        Call::Free { addr } => {
            &&& cap > 0
            &&& m.is_live(addr as int)
            &&& m.metrics.free.hit + m.metrics.free.miss < usize::MAX
            &&& m.free_step(n, addr, cap)
        },
    }
}

/// The number of allocate calls in `calls`.
pub open spec fn count_allocs<T>(calls: Seq<Call<T>>) -> int
    decreases calls.len(),
{
    if calls.len() == 0 {
        0
    } else {
        count_allocs(calls.drop_last()) + if calls.last() is Allocate {
            1int
        } else {
            0int
        }
    }
}

/// The number of free calls in `calls`.
pub open spec fn count_frees<T>(calls: Seq<Call<T>>) -> int
    decreases calls.len(),
{
    if calls.len() == 0 {
        0
    } else {
        count_frees(calls.drop_last()) + if calls.last() is Free {
            1int
        } else {
            0int
        }
    }
}

/// Over any history of calls from a fresh pool, every state reached is well
/// formed (each block behind the head full, the head within its capacity,
/// the occupancy figure equal to the number of retained addresses), and the
/// allocate and free counters add up to the number of calls of each kind.
pub proof fn lemma_history<T>(states: Seq<PoolModel<T>>, calls: Seq<Call<T>>, cap: int)
    requires
        states.len() == calls.len() + 1,
        states[0] == PoolModel::<T>::empty(),
        forall|i: int| 0 <= i < calls.len() ==> call_step(#[trigger] states[i], states[i + 1], calls[i], cap),
    ensures
        forall|i: int| 0 <= i < states.len() ==> (#[trigger] states[i]).wf(cap),
        forall|i: int| 0 <= i < states.len() ==> (#[trigger] states[i]).retained().len() == states[i].occupancy(cap),
        states.last().metrics.alloc.hit + states.last().metrics.alloc.miss == count_allocs(calls),
        states.last().metrics.free.hit + states.last().metrics.free.miss == count_frees(calls),
    decreases calls.len(),
{
    if calls.len() == 0 {
        lemma_empty_wf::<T>(cap);
        assert forall|i: int| 0 <= i < states.len() implies (#[trigger] states[i]).retained().len()
            == states[i].occupancy(cap) by {
            lemma_occupancy(states[i], cap);
        }
    } else {
        let k = calls.len() - 1;
        let ps = states.drop_last();
        let pc = calls.drop_last();
        assert forall|i: int| 0 <= i < pc.len() implies call_step(#[trigger] ps[i], ps[i + 1], pc[i], cap) by {
            assert(ps[i] == states[i] && ps[i + 1] == states[i + 1] && pc[i] == calls[i]);
            assert(call_step(states[i], states[i + 1], calls[i], cap));
        }
        lemma_history(ps, pc, cap);
        let m = states[k];
        let n = states[k + 1];
        assert(m == ps[k]);
        assert(m.wf(cap));
        assert(call_step(states[k], states[k + 1], calls[k], cap));
        match calls[k] {
            Call::Allocate { value, addr } => {
                lemma_alloc_wf(m, n, value, addr, cap);
                lemma_alloc_counts(m, n, value, addr, cap);
            },
            Call::Free { addr } => {
                lemma_free_wf(m, n, addr, cap);
                lemma_free_counts(m, n, addr, cap);
            },
        }
        assert forall|i: int| 0 <= i < states.len() implies (#[trigger] states[i]).wf(cap) by {
            if i < states.len() - 1 {
                assert(states[i] == ps[i]);
            }
        }
        assert forall|i: int| 0 <= i < states.len() implies (#[trigger] states[i]).retained().len()
            == states[i].occupancy(cap) by {
            lemma_occupancy(states[i], cap);
        }
    }
}

/// A fresh pool counts nothing and retains nothing.
pub proof fn lemma_empty_wf<T>(cap: int)
    ensures
        PoolModel::<T>::empty().wf(cap),
        PoolModel::<T>::empty().retained().len() == 0,
{
    let m = PoolModel::<T>::empty();
    assert(m.retained() =~= Seq::<usize>::empty());
}

} // verus!
