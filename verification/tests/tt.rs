use pleco::piece_move::BitMove;
use pleco::tt::{
    next_power_of_two, partial_key, Entry, NodeBound, NodeTypeTimeBound, CLUSTER_BYTES, CLUSTER_SIZE, TT,
};

// around 0.5 GB
#[allow(dead_code)]
const HALF_GIG: usize = 2 << 24;
// around 30 MB
const THIRTY_MB: usize = 2 << 20;

/// Helper function to create a key of specified index / partial_key
fn create_key(partial_key: u16, full_key: u64) -> u64 {
    (partial_key as u64).wrapping_shl(48) | (full_key & 0x0000_FFFF_FFFF_FFFF)
}

fn empty_entry() -> Entry {
    Entry {
        partial_key: 0,
        best_move: BitMove::null(),
        score: 0,
        eval: 0,
        depth: 0,
        time_node_bound: NodeTypeTimeBound::create(NodeBound::NoBound, 0),
    }
}

#[test]
fn tt_alloc_realloc() {
    let size: usize = 8;
    let mut tt = TT::create(size);
    assert_eq!(tt.num_clusters(), size);

    let key = create_key(32, 44);
    let (_found, _entry) = tt.probe(key);
}

#[test]
fn tt_test_sizes() {
    let tt = TT::new_num_clusters(100);
    assert_eq!(tt.num_clusters(), (100 as usize).next_power_of_two());
    assert_eq!(tt.num_entries(), (100 as usize).next_power_of_two() * CLUSTER_SIZE);
}

#[test]
fn tt_null_ptr() {
    let size: usize = 2 << 20;
    let mut tt = TT::new_num_clusters(size);
    // a xorshift generator in place of random keys
    let mut state: u64 = 0x9E37_79B9_7F4A_7C15;
    for x in 0..1_000_000 as u64 {
        state ^= state << 13;
        state ^= state >> 7;
        state ^= state << 17;
        let key: u64 = state;
        {
            let (_found, entry) = tt.probe(key);
            entry.depth = (x % 0b1111_1111) as u8;
            entry.partial_key = key.wrapping_shr(48) as u16;
            // a reference is never null: check instead that it is the slot written
            assert_eq!(entry.partial_key, key.wrapping_shr(48) as u16);
            assert_eq!(entry.depth, (x % 0b1111_1111) as u8);
        }
        tt.new_search();
    }
}

#[test]
fn tt_basic_insert() {
    let mut tt = TT::new_num_clusters(THIRTY_MB);
    let partial_key_1: u16 = 17773;
    let key_index: u64 = 0x5556;

    let key_1 = create_key(partial_key_1, 0x5556);
    let (found, entry) = tt.probe(key_1);
    assert!(found);
    entry.partial_key = partial_key_1;
    entry.depth = 2;

    let (found, entry) = tt.probe(key_1);
    assert!(found);
    assert!(entry.is_empty());
    assert_eq!(entry.partial_key, partial_key_1);
    assert_eq!(entry.depth, 2);

    let partial_key_2: u16 = 8091;
    let partial_key_3: u16 = 12;
    let key_2: u64 = create_key(partial_key_2, key_index);
    let key_3: u64 = create_key(partial_key_3, key_index);

    let (found, entry) = tt.probe(key_2);
    assert!(found);
    assert!(entry.is_empty());
    entry.partial_key = partial_key_2;
    entry.depth = 3;

    let (found, entry) = tt.probe(key_3);
    assert!(found);
    assert!(entry.is_empty());
    entry.partial_key = partial_key_3;
    entry.depth = 6;

    // key that should find a good replacement
    let partial_key_4: u16 = 18;
    let key_4: u64 = create_key(partial_key_4, key_index);

    let (found, entry) = tt.probe(key_4);
    assert!(!found);

    // most vulnerable should be key_1
    assert_eq!(entry.partial_key, partial_key_1);
    assert_eq!(entry.depth, 2);
}

#[test]
fn cluster_takes_thirty_two_bytes() {
    assert_eq!(std::mem::size_of::<pleco::tt::Cluster>(), CLUSTER_BYTES);
}

#[test]
fn time_bound_create_and_update() {
    let mut b = NodeTypeTimeBound::create(NodeBound::UpperBound, 12);
    let mut e = empty_entry();
    e.time_node_bound = b;
    assert_eq!(e.time(), 12);
    assert_eq!(e.node_type(), NodeBound::UpperBound);
    b.update_bound(NodeBound::Exact);
    e.time_node_bound = b;
    assert_eq!(e.time(), 12);
    assert_eq!(e.node_type(), NodeBound::Exact);
    b.update_time(40);
    e.time_node_bound = b;
    assert_eq!(e.time(), 40);
    assert_eq!(e.node_type(), NodeBound::Exact);
}

#[test]
fn entry_empty_until_bound_set() {
    let mut e = empty_entry();
    assert!(e.is_empty());
    e.place(create_key(7, 1), BitMove::new(77), 10, 20, 3, NodeBound::LowerBound);
    assert!(!e.is_empty());
    assert_eq!(e.node_type(), NodeBound::LowerBound);
}

#[test]
fn place_new_key_overwrites_everything() {
    let mut e = empty_entry();
    e.place(create_key(5, 9), BitMove::new(100), -3, 4, 7, NodeBound::UpperBound);
    assert_eq!(e.partial_key, 5);
    assert_eq!(e.best_move, BitMove::new(100));
    assert_eq!(e.score, -3);
    assert_eq!(e.eval, 4);
    assert_eq!(e.depth, 7);
    assert_eq!(e.node_type(), NodeBound::UpperBound);
}

#[test]
fn place_same_key_only_exact_overwrites() {
    let mut e = empty_entry();
    let key = create_key(5, 9);
    e.place(key, BitMove::new(100), -3, 4, 7, NodeBound::UpperBound);
    // same key, not exact: unchanged
    e.place(key, BitMove::new(200), 50, 60, 9, NodeBound::LowerBound);
    assert_eq!(e.score, -3);
    assert_eq!(e.depth, 7);
    assert_eq!(e.node_type(), NodeBound::UpperBound);
    // same key, exact: new score, depth and bound, best move kept
    e.place(key, BitMove::new(200), 50, 60, 9, NodeBound::Exact);
    assert_eq!(e.score, 50);
    assert_eq!(e.eval, 60);
    assert_eq!(e.depth, 9);
    assert_eq!(e.best_move, BitMove::new(100));
    assert_eq!(e.node_type(), NodeBound::Exact);
}

#[test]
fn time_value_formula() {
    let mut e = empty_entry();
    e.depth = 10;
    e.time_node_bound = NodeTypeTimeBound::create(NodeBound::LowerBound, 4);
    // (259 + 8 - 5) & 0xFC = 4, so 10 - 2 * 4
    assert_eq!(e.time_value(8), 2);
    // (259 + 4 - 5) & 0xFC = 0, so 10 - 0
    assert_eq!(e.time_value(4), 10);
    // (259 + 12 - 5) & 0xFC = 8, so 10 - 16 is below zero
    assert_eq!(e.time_value(12), -6);
}

#[test]
fn partial_key_is_top_sixteen_bits() {
    assert_eq!(partial_key(0xABCD_0000_0000_1234), 0xABCD);
    assert_eq!(partial_key(create_key(17773, 0x5556)), 17773);
}

#[test]
fn next_power_of_two_values() {
    assert_eq!(next_power_of_two(0), 1);
    assert_eq!(next_power_of_two(1), 1);
    assert_eq!(next_power_of_two(3), 4);
    assert_eq!(next_power_of_two(64), 64);
    assert_eq!(next_power_of_two(100), 128);
}

#[test]
fn new_sizes_by_megabytes() {
    let tt = TT::new(1);
    // 1_000_000 / 32 = 31_250 clusters, rounded up to 32_768 and halved
    assert_eq!(tt.num_clusters(), 16384);
    assert_eq!(tt.num_entries(), 16384 * 3);
    assert_eq!(tt.size_kilobytes(), 524);
    assert_eq!(tt.size_megabytes(), 0);
    assert_eq!(tt.size_gigabytes(), 0);
}

#[test]
fn new_num_entries_rounds_up() {
    // 10 entries need 4 clusters
    let tt = TT::new_num_entries(10);
    assert_eq!(tt.num_clusters(), 4);
    // 100 entries need 34 clusters, rounded up to 64
    let tt = TT::new_num_entries(100);
    assert_eq!(tt.num_clusters(), 64);
    assert_eq!(tt.num_entries(), 192);
    // 3 entries fit in one cluster
    let tt = TT::new_num_entries(3);
    assert_eq!(tt.num_clusters(), 1);
}

#[test]
fn probe_replaces_stale_shallow_entry() {
    let mut tt = TT::create(4);
    {
        let key = create_key(1, 1);
        let (found, e) = tt.probe(key);
        assert!(found);
        e.place(key, BitMove::null(), 0, 0, 2, NodeBound::LowerBound);
    }
    tt.new_search();
    for pk in [2u16, 3] {
        let key = create_key(pk, 1);
        let (found, e) = tt.probe(key);
        assert!(found);
        e.place(key, BitMove::null(), 0, 0, 10, NodeBound::LowerBound);
    }
    let (found, e) = tt.probe(create_key(4, 1));
    assert!(!found);
    // the entry from the previous search, and shallow, is offered
    assert_eq!(e.partial_key, 1);
    assert_eq!(e.depth, 2);
}

#[test]
fn resize_and_clear() {
    let mut tt = TT::create(8);
    tt.new_search();
    tt.resize_round_up(100);
    assert_eq!(tt.num_clusters(), 128);
    assert_eq!(tt.time_age(), 4);
    let key = create_key(9, 3);
    {
        let (_, e) = tt.probe(key);
        e.place(key, BitMove::new(5), 1, 1, 1, NodeBound::Exact);
    }
    let (filled, _) = tt.hash_fill();
    assert!(filled > 0);
    tt.clear();
    assert_eq!(tt.num_clusters(), 128);
    assert_eq!(tt.hash_fill().0, 0);
    {
        let (found, e) = tt.probe(key);
        assert!(found);
        assert_eq!(e.partial_key, 0);
        assert_eq!(e.depth, 0);
        assert!(e.is_empty());
        assert_eq!(e.time(), 4);
    }
    let mb = tt.resize_to_megabytes(2);
    assert_eq!(tt.num_clusters(), 32768);
    assert_eq!(mb, 1);
}

#[test]
fn new_search_advances_time_and_cycles() {
    let mut tt = TT::create(2);
    assert_eq!(tt.time_age(), 0);
    assert_eq!(tt.time_age_cylces(), 0);
    for _ in 0..3 {
        tt.new_search();
    }
    assert_eq!(tt.time_age(), 12);
    assert_eq!(tt.time_age_cylces(), 3);
    for _ in 0..61 {
        tt.new_search();
    }
    // 64 searches wrap the time back to zero
    assert_eq!(tt.time_age(), 0);
    assert_eq!(tt.time_age_cylces(), 0);
}

#[test]
fn probe_then_place_reads_back() {
    let mut tt = TT::create(4);
    let key = create_key(300, 2);
    {
        let (found, e) = tt.probe(key);
        assert!(found);
        e.place(key, BitMove::new(1234), -77, 12, 9, NodeBound::Exact);
    }
    let (found, e) = tt.probe(key);
    assert!(found);
    assert_eq!(e.partial_key, 300);
    assert_eq!(e.score, -77);
    assert_eq!(e.eval, 12);
    assert_eq!(e.depth, 9);
    assert_eq!(e.best_move, BitMove::new(1234));
    assert_eq!(e.node_type(), NodeBound::Exact);
}

#[test]
fn probe_full_cluster_replaces_then_finds() {
    let mut tt = TT::create(4);
    for (pk, depth) in [(11u16, 5u8), (12, 1), (13, 7)] {
        let key = create_key(pk, 1);
        let (found, e) = tt.probe(key);
        assert!(found);
        e.place(key, BitMove::null(), 0, 0, depth, NodeBound::LowerBound);
    }
    let key = create_key(14, 1);
    {
        let (found, e) = tt.probe(key);
        assert!(!found);
        // the shallowest entry is the one to replace
        assert_eq!(e.partial_key, 12);
        e.place(key, BitMove::null(), 3, 3, 4, NodeBound::Exact);
    }
    let (found, e) = tt.probe(key);
    assert!(found);
    assert_eq!(e.partial_key, 14);
    assert_eq!(e.depth, 4);
    // the other keys are still found
    let (found, e) = tt.probe(create_key(13, 1));
    assert!(found);
    assert_eq!(e.depth, 7);
}

#[test]
fn probe_stamps_current_time() {
    let mut tt = TT::create(2);
    let key = create_key(21, 0);
    {
        let (_, e) = tt.probe(key);
        e.place(key, BitMove::null(), 0, 0, 1, NodeBound::Exact);
    }
    tt.new_search();
    tt.new_search();
    let (found, e) = tt.probe(key);
    assert!(found);
    assert_eq!(e.time(), 8);
    assert_eq!(e.node_type(), NodeBound::Exact);
}

#[test]
fn hash_fill_counts_entries() {
    let mut tt = TT::create(2);
    // a small table is scanned 1024 clusters' worth
    assert_eq!(tt.hash_fill(), (0, 1024 * 3));
    let key = create_key(1, 0);
    {
        let (_, e) = tt.probe(key);
        e.place(key, BitMove::null(), 0, 0, 1, NodeBound::Exact);
    }
    // cluster 0 is scanned 512 times
    assert_eq!(tt.hash_fill(), (512, 1024 * 3));
}
