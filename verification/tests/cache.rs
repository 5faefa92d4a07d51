use csim::cache::{CacheManager, CacheResult};
use csim::Cli;

fn geometry(set_bits: u32, set_size: usize, block_bits: u32) -> Cli {
    Cli {
        set_bits,
        set_size,
        block_bits,
        trace_file: String::new(),
        verbose: false,
    }
}

#[test]
fn init_starts_empty() {
    let manager = CacheManager::init(&geometry(2, 2, 3));
    let stat = manager.get_stat();
    assert_eq!(stat.hits, 0);
    assert_eq!(stat.misses, 0);
    assert_eq!(stat.evictions, 0);
}

#[test]
fn cold_miss_then_hit() {
    let mut manager = CacheManager::init(&geometry(2, 2, 3));
    assert_eq!(manager.get_mem(0x10), CacheResult::MissWithoutEviction);
    assert_eq!(manager.get_mem(0x10), CacheResult::Hit);
    let stat = manager.get_stat();
    assert_eq!(stat.hits, 1);
    assert_eq!(stat.misses, 1);
    assert_eq!(stat.evictions, 0);
}

#[test]
fn repeated_hits_move_no_miss_counter() {
    let mut manager = CacheManager::init(&geometry(1, 2, 0));
    assert_eq!(manager.load(0x4), CacheResult::MissWithoutEviction);
    assert_eq!(manager.load(0x4), CacheResult::Hit);
    assert_eq!(manager.load(0x4), CacheResult::Hit);
    assert_eq!(manager.load(0x4), CacheResult::Hit);
    let stat = manager.get_stat();
    assert_eq!(stat.hits, 3);
    assert_eq!(stat.misses, 1);
    assert_eq!(stat.evictions, 0);
}

#[test]
fn block_offset_is_irrelevant() {
    let mut manager = CacheManager::init(&geometry(2, 1, 3));
    assert_eq!(manager.load(0x10), CacheResult::MissWithoutEviction);
    // Same block as 0x10: only the low three offset bits differ.
    assert_eq!(manager.load(0x17), CacheResult::Hit);
}

#[test]
fn lru_evicts_least_recently_touched() {
    // One set of associativity two; block offset zero, so the address is the
    // tag. Accessing 0, 1, 0, 2 must evict tag 1, the least recently used.
    let mut manager = CacheManager::init(&geometry(0, 2, 0));
    assert_eq!(manager.load(0x0), CacheResult::MissWithoutEviction);
    assert_eq!(manager.load(0x1), CacheResult::MissWithoutEviction);
    assert_eq!(manager.load(0x0), CacheResult::Hit);
    assert_eq!(manager.load(0x2), CacheResult::MissAndEviction);
    // Tags 0 and 2 stayed resident; tag 1 is gone.
    assert_eq!(manager.load(0x0), CacheResult::Hit);
    assert_eq!(manager.load(0x2), CacheResult::Hit);
    assert_eq!(manager.load(0x1), CacheResult::MissAndEviction);
    let stat = manager.get_stat();
    assert_eq!(stat.hits, 3);
    assert_eq!(stat.misses, 4);
    assert_eq!(stat.evictions, 2);
}

#[test]
fn modify_on_cold_address_is_miss_then_hit() {
    // A Modify is dispatched as a load followed by a store of the same
    // address: on a cold address that is one miss and then always a hit.
    let mut manager = CacheManager::init(&geometry(2, 2, 3));
    assert_eq!(manager.load(0x40), CacheResult::MissWithoutEviction);
    assert_eq!(manager.store(0x40), CacheResult::Hit);
    let stat = manager.get_stat();
    assert_eq!(stat.hits, 1);
    assert_eq!(stat.misses, 1);
}

#[test]
fn conservation_of_counters() {
    let mut manager = CacheManager::init(&geometry(1, 1, 0));
    let trace: [u64; 6] = [0x0, 0x2, 0x4, 0x0, 0x1, 0x3];
    for addr in trace {
        manager.get_mem(addr);
    }
    let stat = manager.get_stat();
    assert_eq!(stat.hits + stat.misses, 6);
    assert!(stat.evictions <= stat.misses);
}

#[test]
fn direct_mapped_conflict() {
    // Two addresses with the same set index but different tags in a
    // direct-mapped set keep evicting each other.
    let mut manager = CacheManager::init(&geometry(2, 1, 3));
    assert_eq!(manager.load(0x48), CacheResult::MissWithoutEviction);
    assert_eq!(manager.load(0x28), CacheResult::MissAndEviction);
    assert_eq!(manager.load(0x48), CacheResult::MissAndEviction);
}

#[test]
fn end_to_end_small_geometry() {
    // Geometry: two sets, one line per set, no block offset. The trace
    // 0x0, 0x2, 0x0 stays in set 0 throughout (tags 0, 1, 0), so every
    // access misses and both later accesses evict the single line.
    let mut manager = CacheManager::init(&geometry(1, 1, 0));
    assert_eq!(manager.load(0x0), CacheResult::MissWithoutEviction);
    assert_eq!(manager.load(0x2), CacheResult::MissAndEviction);
    assert_eq!(manager.load(0x0), CacheResult::MissAndEviction);
    let stat = manager.get_stat();
    assert_eq!(stat.hits, 0);
    assert_eq!(stat.misses, 3);
    assert_eq!(stat.evictions, 2);
}

#[test]
fn trace_line_drives_cache() {
    let mut manager = CacheManager::init(&geometry(4, 1, 4));
    let line = "L 10,1".to_string();
    let ins = csim::Instr::from_string(&line);
    match ins {
        csim::Instr::Load(addr) => {
            assert_eq!(addr, 0x10);
            assert_eq!(manager.load(addr), CacheResult::MissWithoutEviction);
        }
        _ => panic!("expected a load"),
    }
}
