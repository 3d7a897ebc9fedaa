use hsearch::canonical::PrevTwists;
use hsearch::prune::PruningTable;
use std::collections::HashSet;
use hsearch::prune::PruningMap;
use hsearch::stages::s4_psio::Stage4;
use hsearch::stages::{Stage, StageKeyU64};
use hsearch::parse_twists;

#[test]
fn test_pruning_trie_determinism() {
    let map1 = PruningMap::new::<Stage4>(4);
    let map2 = PruningMap::new::<Stage4>(4);
    assert_eq!(map1, map2);
}

#[test]
fn test_stage4_pruning_map() {
    let pruning_map = PruningMap::new::<Stage4>(4);
    let mut state = Stage4::default();
    assert_eq!(Some(0), pruning_map.query(state.key()));
    state = state.do_twists(&parse_twists("FR"));
    assert_eq!(Some(1), pruning_map.query(state.key()));
    state = state.do_twists(&parse_twists("OF"));
    assert_eq!(Some(2), pruning_map.query(state.key()));
    state = state.do_twists(&parse_twists("FR"));
    assert_eq!(Some(3), pruning_map.query(state.key()));
}

#[test]
fn pruning_map_queries() {
    let pruning_map = PruningMap::new::<Stage4>(2);
    assert_eq!(pruning_map.depth(), 2);
    let solved = Stage4::default();
    // the start is never pruned while its depth is within reach
    assert!(!pruning_map.query_should_prune(solved.key(), 1));
    let one = solved.do_twists(&parse_twists("FR"));
    assert_eq!(pruning_map.query(one.key()), Some(1));
    assert!(!pruning_map.query_should_prune(one.key(), 1));
    // a key that needs more twists than are left is pruned
    let two = one.do_twists(&parse_twists("OF"));
    assert_eq!(pruning_map.query(two.key()), Some(2));
    assert!(pruning_map.query_should_prune(two.key(), 1));
    // beyond the depth of the map nothing is pruned
    assert!(!pruning_map.query_should_prune(12345, 3));
    assert!(pruning_map.query_should_prune(12345, 2));
    assert_eq!(pruning_map.query(12345), None);
}

use hsearch::prune::SubsetTrie;
use hsearch::stages::{Stage1, SubsetMaskStage};

#[test]
fn subset_trie_keeps_best_matching_entry() {
    let mut trie = SubsetTrie::Empty;
    assert_eq!(trie.lookup(0), None);
    // an entry matches the lookup keys whose bits are a subset of its key's
    trie.insert_if_better(0b0001, 4, 3);
    assert_eq!(trie.lookup(0), Some(3));
    assert_eq!(trie.lookup(0b0001), Some(3));
    assert_eq!(trie.lookup(0b0010), None);
    trie.insert_if_better(0b0011, 4, 1);
    assert_eq!(trie.lookup(0), Some(1));
    assert_eq!(trie.lookup(0b0001), Some(1));
    assert_eq!(trie.lookup(0b0010), Some(1));
    assert_eq!(trie.lookup(0b0100), None);
    // a worse value for the same key changes nothing
    trie.insert_if_better(0b0011, 4, 5);
    assert_eq!(trie.lookup(0b0011), Some(1));
    // two levels: the second four bits must match too
    let mut deep = SubsetTrie::Empty;
    deep.insert_if_better(0x21, 8, 2);
    assert_eq!(deep.lookup(0x21), Some(2));
    assert_eq!(deep.lookup(0x20), Some(2));
    assert_eq!(deep.lookup(0x12), None);
    assert_eq!(deep.lookup(0x31), None);
}

#[test]
fn subset_trie_single_entry_matches_subsets() {
    let mut children: Vec<SubsetTrie> = (0..16).map(|_| SubsetTrie::Empty).collect();
    children[1] = SubsetTrie::Terminal(2);
    let t = SubsetTrie::Branch(children);
    assert_eq!(t.lookup(0), Some(2));
    assert_eq!(t.lookup(1), Some(2));
    assert_eq!(t.lookup(2), None);
}

#[test]
fn subset_trie_from_stage1_target() {
    let trie = SubsetTrie::new::<Stage1>(1);
    let target = Stage1::subset_trie_target();
    let key = target.subset_trie_key();
    let mask: u128 = (1 << Stage1::subset_trie_key_bits()) - 1;
    // the target matches every lookup key whose bits are among its own
    assert_eq!(trie.lookup(key & mask), Some(0));
    assert_eq!(trie.lookup(0), Some(0));
}

#[test]
fn s1_edge_table_at_depth_one() {
    let table = PruningTable::make_s1_e_pruning_table(1);
    let solved = Stage1::solved();
    assert_eq!(table.query(Stage1::SOLVED_E), Some(0));
    let mut keys: HashSet<u32> = HashSet::new();
    keys.insert(Stage1::SOLVED_E);
    for t in Stage1::twists().iter() {
        let e = solved.do_twist(t).e;
        keys.insert(e);
        let expected = if e == Stage1::SOLVED_E { 0 } else { 1 };
        assert_eq!(table.query(e), Some(expected));
    }
    assert_eq!(table.len(), keys.len());
    assert!(keys.len() > 1);
}

#[test]
fn pruning_table_depths_and_keys() {
    let solved = Stage4::default();
    let only_start = PruningTable::make_pruning_table(solved, |s: Stage4| s.key(), 0);
    assert_eq!(only_start.len(), 1);
    assert_eq!(only_start.query(solved.key()), Some(0));
    let table = PruningTable::make_pruning_table(solved, |s: Stage4| s.key(), 2);
    assert_eq!(table.query(solved.key()), Some(0));
    for t in Stage4::twists().iter() {
        let one = solved.do_twist(t);
        let d = table.query(one.key()).unwrap();
        assert!(d <= 1);
        for u in Stage4::twists().iter() {
            let d2 = table.query(one.do_twist(u).key()).unwrap();
            assert!(d2 <= 2);
        }
    }
    // the table built by every sequence holds the same keys as the map
    // built breadth-first with the same twists, at no greater depth
    let map = PruningMap::new::<Stage4>(2);
    assert!(table.len() >= 1);
    for t in Stage4::twists().iter() {
        let k = solved.do_twist(t).key();
        assert_eq!(table.query(k).is_some(), map.query(k).is_some());
    }
}

#[test]
fn subset_trie_distance_lower_bound() {
    assert_eq!(SubsetTrie::Empty.distance_lower_bound(0, 3), 4);
    assert_eq!(SubsetTrie::Terminal(2).distance_lower_bound(5, 3), 2);
    let trie = SubsetTrie::new::<Stage1>(1);
    assert_eq!(trie.distance_lower_bound(0, 1), 0);
}

#[test]
fn subset_trie_covers_states_one_twist_away() {
    let trie = SubsetTrie::new::<Stage1>(1);
    let target = Stage1::subset_trie_target();
    for t in Stage1::twists().iter() {
        let key = target.do_twist(t).subset_trie_key();
        let v = trie.lookup(key);
        assert!(v.is_some());
        assert!(v.unwrap() <= 1);
    }
}

#[test]
fn pruning_map_covers_states_within_depth() {
    let map = PruningMap::new::<Stage4>(2);
    let start = Stage4::default();
    assert_eq!(map.query(start.key()), Some(0));
    for t in Stage4::twists().iter() {
        let one = start.do_twist(t);
        let d1 = map.query(one.key()).unwrap();
        assert!(d1 <= 1);
        for u in Stage4::twists().iter() {
            let d2 = map.query(one.do_twist(u).key()).unwrap();
            assert!(d2 <= 2);
        }
    }
}

#[test]
fn subset_trie_covers_states_two_twists_away() {
    let trie = SubsetTrie::new::<Stage1>(2);
    let target = Stage1::subset_trie_target();
    let twists = Stage1::twists();
    for t1 in twists.iter() {
        let p = match PrevTwists::new().do_twist(t1) {
            Some(p) => p,
            None => continue,
        };
        let s1 = target.do_twist(t1);
        for t2 in twists.iter() {
            if p.do_twist(t2).is_none() {
                continue;
            }
            let key = s1.do_twist(t2).subset_trie_key();
            let v = trie.lookup(key);
            assert!(v.is_some());
            assert!(v.unwrap() <= 2);
        }
    }
}

#[test]
fn pruning_map_bytes_round_trip() {
    let map = PruningMap::new::<Stage4>(2);
    let bytes = map.to_bytes();
    let back = PruningMap::from_bytes(2, &bytes).unwrap();
    assert_eq!(back, map);
    assert_eq!(back.depth(), 2);
    // the count comes first, then nine bytes for each entry
    let count = u64::from_le_bytes(bytes[0..8].try_into().unwrap()) as usize;
    assert_eq!(bytes.len(), 8 + 9 * count);
    // a byte missing, or the entries out of order, is refused
    assert!(PruningMap::from_bytes(2, &bytes[..bytes.len() - 1]).is_none());
    assert!(PruningMap::from_bytes(2, &[1, 0, 0]).is_none());
    let mut swapped = vec![2, 0, 0, 0, 0, 0, 0, 0];
    swapped.extend_from_slice(&[5, 0, 0, 0, 0, 0, 0, 0, 1]);
    swapped.extend_from_slice(&[4, 0, 0, 0, 0, 0, 0, 0, 1]);
    assert!(PruningMap::from_bytes(2, &swapped).is_none());
    let mut ordered = vec![2, 0, 0, 0, 0, 0, 0, 0];
    ordered.extend_from_slice(&[4, 0, 0, 0, 0, 0, 0, 0, 1]);
    ordered.extend_from_slice(&[5, 0, 0, 0, 0, 0, 0, 0, 2]);
    let m = PruningMap::from_bytes(3, &ordered).unwrap();
    assert_eq!(m.query(4), Some(1));
    assert_eq!(m.query(5), Some(2));
    assert_eq!(m.query(6), None);
    assert_eq!(m.depth(), 3);
}
