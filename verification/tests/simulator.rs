use cache_sim::driver::CacheManager;
use cache_sim::set_store::Cache;

#[test]
fn capacity_one_miss_hit_evict() {
    // One set of capacity 1: first touch misses without eviction, the same
    // tag then hits, a different tag evicts the resident one.
    let mut c = Cache::new(1, 1);
    assert_eq!(c.test_and_store(0, 5), (false, false));
    assert_eq!(c.test_and_store(0, 5), (true, false));
    assert_eq!(c.test_and_store(0, 7), (false, true));
    // tag 5 was evicted, so it misses and evicts tag 7 in turn
    assert_eq!(c.test_and_store(0, 5), (false, true));
    assert_eq!(c.test_and_store(0, 7), (false, true));
}

#[test]
fn lru_evicts_least_recently_used() {
    let mut c = Cache::new(1, 2);
    assert_eq!(c.test_and_store(0, 1), (false, false));
    assert_eq!(c.test_and_store(0, 2), (false, false));
    // refresh tag 1, so tag 2 becomes the least recently used
    assert_eq!(c.test_and_store(0, 1), (true, false));
    assert_eq!(c.test_and_store(0, 3), (false, true));
    assert_eq!(c.test_and_store(0, 1), (true, false));
    // tag 2 is the one that left
    assert_eq!(c.test_and_store(0, 2), (false, true));
}

#[test]
fn repeated_tag_hits_after_first() {
    let mut c = Cache::new(2, 4);
    let mut hits: u32 = 0;
    let mut misses: u32 = 0;
    let mut evictions: u32 = 0;
    let mut round: u32 = 0;
    while round < 10 {
        let (h, e) = c.test_and_store(1, 42);
        if h {
            hits += 1;
        } else {
            misses += 1;
        }
        if e {
            evictions += 1;
        }
        round += 1;
    }
    assert_eq!(misses, 1);
    assert_eq!(hits, 9);
    assert_eq!(evictions, 0);
}

#[test]
fn capacity_never_exceeded() {
    let mut c = Cache::new(2, 2);
    let mut t: u64 = 0;
    while t < 20 {
        c.test_and_store((t % 2) as usize, t);
        assert!(c.data[0].len() <= c.set_capacity);
        assert!(c.data[1].len() <= c.set_capacity);
        t += 1;
    }
}

#[test]
fn stamps_stay_unique_and_below_counter() {
    let mut c = Cache::new(1, 4);
    let accesses: [u64; 9] = [3, 1, 4, 1, 5, 9, 2, 6, 5];
    let mut i: usize = 0;
    while i < accesses.len() {
        c.test_and_store(0, accesses[i]);
        i += 1;
    }
    assert_eq!(c.current, accesses.len());
    let set = &c.data[0];
    let mut a: usize = 0;
    while a < set.len() {
        assert!(set[a].stamp < c.current);
        let mut b: usize = a + 1;
        while b < set.len() {
            assert_ne!(set[a].stamp, set[b].stamp);
            assert_ne!(set[a].tag, set[b].tag);
            b += 1;
        }
        a += 1;
    }
}

#[test]
fn small_geometry_scenario() {
    // 4-byte lines, 2 sets, 2 tag bits, capacity 1.
    let mut m = CacheManager::new(2, 1, 2, 1);
    m.load(0, 4);
    assert_eq!((m.hit, m.miss, m.swap), (0, 1, 0));
    m.load(0, 4);
    assert_eq!((m.hit, m.miss, m.swap), (1, 1, 0));
    // address 4 selects the other set, an independent miss
    m.load(4, 4);
    assert_eq!((m.hit, m.miss, m.swap), (1, 2, 0));
}

#[test]
fn mid_line_access_with_masked_tag() {
    // 4-byte lines, 2 sets, 2 tag bits, capacity 1.  Four bytes from
    // address 10 span the lines at 8 and 12: set 0 with tag 1, then set 1
    // with tag 1, each a miss that evicts the tag-0 resident.
    let mut m = CacheManager::new(2, 1, 2, 1);
    m.load(0, 4);
    m.load(0, 4);
    m.load(4, 4);
    m.load(10, 4);
    assert_eq!((m.hit, m.miss, m.swap), (1, 4, 2));
}

#[test]
fn two_line_split() {
    // 4-byte lines: six bytes from address 2 span exactly the lines at 0
    // and 4, so the driver makes exactly two calls, the second on the set
    // of the following line.
    let mut m = CacheManager::new(2, 1, 2, 2);
    m.load(2, 6);
    assert_eq!(m.hit + m.miss, 2);
    assert_eq!(m.miss, 2);
    assert_eq!(m.cache.data[0].len(), 1);
    assert_eq!(m.cache.data[1].len(), 1);
}

#[test]
fn zero_tag_bits_alias() {
    // tag_len = 0: addresses 0, 8 and 16 all mask to the line of set 0,
    // whatever their true upper bits.
    let mut m = CacheManager::new(0, 1, 2, 4);
    m.load(0, 1);
    m.load(8, 1);
    m.load(16, 1);
    assert_eq!((m.hit, m.miss, m.swap), (2, 1, 0));
    assert_eq!(m.cache.data[0].len(), 1);
    assert_eq!(m.cache.data[0][0].tag, 0);
}

#[test]
fn counter_matches_calls() {
    // The default geometry: an 8-way cache with 64 sets of 64-byte lines.
    let mut m = CacheManager::new(35, 6, 6, 8);
    m.load(0x1234, 64);
    m.load(0x1234, 1);
    m.load(0xffff, 200);
    assert_eq!(m.cache.current, m.hit + m.miss);
    assert!(m.swap <= m.miss);
    // 0x1234..0x1274 covers two 64-byte lines; 0xffff..0x100c7 covers five.
    assert_eq!(m.hit + m.miss, 8);
    assert_eq!(m.hit, 1);
}

#[test]
fn full_width_geometry() {
    // All 64 address bits are in use; an access near the top of memory.
    let mut m = CacheManager::new(52, 6, 6, 2);
    m.load(u64::MAX - 200, 100);
    assert_eq!(m.hit + m.miss, 3);
    assert_eq!(m.miss, 3);
}

#[test]
fn tag_only_geometry() {
    // One-byte lines and a single set: every byte is its own line.
    let mut m = CacheManager::new(64, 0, 0, 8);
    m.load(5, 3);
    assert_eq!((m.hit, m.miss), (0, 3));
    m.load(5, 1);
    assert_eq!((m.hit, m.miss), (1, 3));
}
