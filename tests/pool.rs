use recycler::{Block, BulkRecycling, GlobalAllocator, HitMiss, MinMaxNow, Pool, Recycling};

fn fill<P: Pool<u32>>(p: &mut P, n: u32) -> Vec<usize> {
    (0..n).map(|i| p.allocate(i)).collect()
}

#[test]
fn scenario_a_five_frees_make_two_blocks() {
    let mut p: Recycling<u32, 4> = Recycling::new();
    let addrs = fill(&mut p, 5);
    for &a in &addrs {
        p.free(a);
    }
    let s = p.stats();
    assert_eq!(s.metrics.blocks.now, 1);
    assert_eq!(s.metrics.blocks.max, 1);
    assert_eq!(s.len, 5);
    assert_eq!(s.metrics.free, HitMiss { hit: 3, miss: 2 });
    assert_eq!(s.metrics.alloc, HitMiss { hit: 0, miss: 5 });
}

#[test]
fn scenario_b_head_then_promotion() {
    let mut p: Recycling<u32, 4> = Recycling::new();
    let addrs = fill(&mut p, 5);
    for &a in &addrs {
        p.free(a);
    }
    let first = p.boxed(100);
    assert_eq!(first, addrs[4]);
    let s = p.stats();
    assert_eq!(s.metrics.alloc.hit, 1);
    assert_eq!(s.metrics.blocks.now, 1);
    assert_eq!(s.len, 4);
    let second = p.boxed(200);
    assert_eq!(second, addrs[3]);
    let s = p.stats();
    assert_eq!(s.metrics.alloc.hit, 2);
    assert_eq!(s.metrics.blocks.now, 0);
    assert_eq!(s.metrics.blocks.min, 0);
    assert_eq!(s.metrics.blocks.max, 1);
    assert_eq!(s.len, 3);
    assert_eq!(*p.get(first), 100);
    assert_eq!(*p.get(second), 200);
}

#[test]
fn scenario_c_allocate_on_empty_pool_misses() {
    let mut p: Recycling<u32, 4> = Recycling::new();
    let a = p.boxed(7);
    let s = p.stats();
    assert_eq!(s.metrics.alloc, HitMiss { hit: 0, miss: 1 });
    assert_eq!(s.metrics.free, HitMiss { hit: 0, miss: 0 });
    assert_eq!(s.len, 0);
    assert_eq!(a, 0);
    assert_eq!(*p.get(a), 7);
}

#[test]
fn scenario_d_blocks_come_from_nested_pool() {
    let mut p: BulkRecycling<u32, 4> = BulkRecycling::new();
    let addrs = fill(&mut p, 5);
    for &a in &addrs {
        p.free(a);
    }
    let b = p.block_stats();
    assert_eq!(b.metrics.alloc, HitMiss { hit: 0, miss: 2 });
    assert_eq!(p.item_stats().metrics.blocks.now, 1);
    // two allocations empty the head; it goes back to the block pool
    let x = p.boxed(10);
    let y = p.boxed(11);
    let b = p.block_stats();
    assert_eq!(b.metrics.free.hit + b.metrics.free.miss, 1);
    assert_eq!(b.len, 1);
    assert_eq!(p.item_stats().metrics.blocks.now, 0);
    // refill the head, then force a new block: it is recycled
    p.free(x);
    p.free(y);
    let b = p.block_stats();
    assert_eq!(b.metrics.alloc, HitMiss { hit: 1, miss: 2 });
    assert_eq!(b.len, 0);
    let s = p.item_stats();
    assert_eq!(s.len, 5);
    assert_eq!(s.metrics.blocks.now, 1);
    assert_eq!(s.metrics.alloc, HitMiss { hit: 2, miss: 5 });
    assert_eq!(s.metrics.free, HitMiss { hit: 4, miss: 3 });
}

#[test]
fn round_trip_reuses_address() {
    let mut p: Recycling<String, 3> = Recycling::new();
    let a = p.boxed(String::from("first"));
    let _b = p.boxed(String::from("other"));
    p.free(a);
    let c = p.boxed(String::from("second"));
    assert_eq!(c, a);
    assert_eq!(p.get(c), "second");
}

#[test]
fn round_trip_reuses_address_tiered() {
    let mut p: BulkRecycling<u64, 2> = BulkRecycling::new();
    let a = p.boxed(1);
    p.free(a);
    let c = p.boxed(2);
    assert_eq!(c, a);
    assert_eq!(*p.get(c), 2);
}

#[test]
fn no_address_handed_out_twice_while_live() {
    let mut p: Recycling<u32, 2> = Recycling::new();
    let addrs = fill(&mut p, 6);
    for &a in &addrs[1..] {
        p.free(a);
    }
    let mut live = vec![addrs[0]];
    for i in 0..8 {
        let r = p.boxed(i);
        assert!(!live.contains(&r));
        live.push(r);
    }
    assert_eq!(*p.get(addrs[0]), 0);
}

#[test]
fn hit_and_miss_count_every_call() {
    let mut p: Recycling<u32, 2> = Recycling::new();
    let addrs = fill(&mut p, 3);
    p.free(addrs[0]);
    p.free(addrs[1]);
    let _r1 = p.boxed(9);
    let _r2 = p.boxed(9);
    let _r3 = p.boxed(9);
    p.free(addrs[2]);
    let s = p.stats();
    assert_eq!(s.metrics.alloc.hit + s.metrics.alloc.miss, 6);
    assert_eq!(s.metrics.alloc, HitMiss { hit: 2, miss: 4 });
    assert_eq!(s.metrics.free.hit + s.metrics.free.miss, 3);
    assert_eq!(s.metrics.free, HitMiss { hit: 2, miss: 1 });
}

#[test]
fn occupancy_matches_retained_count() {
    let mut p: Recycling<u32, 3> = Recycling::new();
    let addrs = fill(&mut p, 10);
    let mut retained: usize = 0;
    for &a in &addrs {
        p.free(a);
        retained += 1;
        let s = p.stats();
        assert_eq!(s.len, retained);
    }
    let s = p.stats();
    assert_eq!(s.metrics.blocks.now, 3);
    assert_eq!(s.len, 3 * s.metrics.blocks.now + 1);
    for _ in 0..7 {
        let _ = p.boxed(0);
        retained -= 1;
        assert_eq!(p.stats().len, retained);
    }
    let s = p.stats();
    assert_eq!(s.metrics.blocks.now, 1);
    assert_eq!(s.len, 3);
}

#[test]
fn capacity_one_blocks() {
    let mut p: Recycling<u8, 1> = Recycling::new();
    let addrs = fill_u8(&mut p, 3);
    for &a in &addrs {
        p.free(a);
    }
    let s = p.stats();
    assert_eq!(s.metrics.blocks.now, 2);
    assert_eq!(s.len, 3);
    assert_eq!(p.boxed(5), addrs[2]);
    assert_eq!(p.boxed(6), addrs[1]);
    assert_eq!(p.boxed(7), addrs[0]);
    assert_eq!(p.stats().len, 0);
    assert_eq!(p.boxed(8), 3);
}

fn fill_u8(p: &mut Recycling<u8, 1>, n: u8) -> Vec<usize> {
    (0..n).map(|i| p.boxed(i)).collect()
}

#[test]
fn general_allocator_never_reuses() {
    let mut g: GlobalAllocator<u32> = GlobalAllocator::new();
    let a = g.allocate(1);
    Pool::free(&mut g, a);
    let b = g.allocate(2);
    assert_ne!(a, b);
    assert_eq!(*g.get(b), 2);
}

#[test]
fn default_pools_are_empty() {
    let p: Recycling<u32, 4> = Recycling::default();
    assert_eq!(p.stats().len, 0);
    assert_eq!(p.stats().metrics, recycler::Metrics::default());
    let q: BulkRecycling<u32, 4> = BulkRecycling::default();
    assert_eq!(q.item_stats().len, 0);
    assert_eq!(q.block_stats().len, 0);
}

#[test]
fn block_push_pop_lifo_and_full() {
    let mut b: Block<2> = Block::new();
    assert_eq!(b.pop(), None);
    assert_eq!(b.push(10), Ok(()));
    assert_eq!(b.push(20), Ok(()));
    assert_eq!(b.push(30), Err(30));
    assert_eq!(b.len(), 2);
    assert_eq!(b.pop(), Some(20));
    assert_eq!(b.pop(), Some(10));
    assert_eq!(b.len(), 0);
}

#[test]
fn block_successor_links() {
    let mut b: Block<2> = Block::default();
    assert_eq!(b.take_next(), None);
    let mut link = Some(7);
    b.swap_next(&mut link);
    assert_eq!(link, None);
    let mut other = Some(9);
    b.swap_next(&mut other);
    assert_eq!(other, Some(7));
    assert_eq!(b.take_next(), Some(9));
    assert_eq!(b.take_next(), None);
}

#[test]
fn min_max_now_tracks_extremes() {
    let mut m = MinMaxNow { min: 1, max: 1, now: 1 };
    m.inc_now();
    m.inc_now();
    assert_eq!(m, MinMaxNow { min: 1, max: 3, now: 3 });
    m.dec_now();
    m.dec_now();
    m.dec_now();
    assert_eq!(m, MinMaxNow { min: 0, max: 3, now: 0 });
}
