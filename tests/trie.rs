use buffman_tree::{Action, Arena, BTreeBranch, Branch, DataHandle, Leaf, Node, ByteBranch, ByteString, HashBranch, Key, Op, Trie};
use std::collections::BTreeMap;

fn reference_deepest<'a, V>(map: &'a BTreeMap<Vec<u8>, V>, key: &[u8]) -> Option<&'a V> {
    let mut key: &[u8] = key;
    loop {
        let (k, v) = map.range(..=key.to_vec()).next_back()?;
        if k.as_slice() == key {
            return Some(v);
        }
        let common = k.iter().zip(key).take_while(|(a, b)| a == b).count();
        key = &key[..common];
    }
}

fn insert_get(values: BTreeMap<Vec<u8>, String>, mut searches: Vec<Vec<u8>>) {
    let mut btree = BTreeMap::new();
    let mut trie: Trie<u8, String> = Trie::new();
    searches.extend(values.keys().cloned());
    for (key, value) in values {
        assert_eq!(btree.insert(key.clone(), value.clone()), trie.insert(&key, value.clone()));
    }
    for search in &searches {
        assert_eq!(btree.get(search), trie.get(search));
        assert_eq!(reference_deepest(&btree, search), trie.get_deepest(search));
    }
    for key in &searches {
        assert_eq!(btree.remove(key), trie.remove(key));
    }
    for search in &searches {
        assert_eq!(btree.get(search), trie.get(search));
        assert_eq!(reference_deepest(&btree, search), trie.get_deepest(search));
    }
    assert!(trie.is_empty());
}

#[test]
fn nop() {}

#[test]
fn insert_get_case() {
    let values = BTreeMap::from_iter([(vec![0], "0".to_string())]);
    let searches = vec![vec![]];
    insert_get(values, searches);
}

#[test]
fn insert_get_mixed() {
    let values = BTreeMap::from_iter([
        (vec![], "root".to_string()),
        (vec![1, 2, 3], "123".to_string()),
        (vec![1, 2], "12".to_string()),
        (vec![1, 4], "14".to_string()),
        (vec![2], "2".to_string()),
        (vec![1, 2, 3, 4, 5], "12345".to_string()),
    ]);
    let searches = vec![vec![1], vec![1, 2, 3, 9], vec![3], vec![1, 4, 4], vec![1, 2, 3, 4]];
    insert_get(values, searches);
}

#[test]
fn prune_contract() {
    let mut trie: Trie<usize, &'static str> = Trie::new();
    trie.insert(&[], "_");
    trie.insert(&[1], "1");
    trie.insert(&[1, 0], "10");

    assert_eq!(trie.remove(&[]), Some("_"));
    let node = trie.root_node();
    assert_eq!(node.prefix(), &[1]);
    assert!(matches!(node.leaf_branch(), (Some(_), Some(_))));
    assert!(!trie.is_empty());

    assert_eq!(trie.remove(&[1]), Some("1"));
    let node = trie.root_node();
    assert_eq!(node.prefix(), &[1, 0]);
    assert!(matches!(node.leaf_branch(), (Some(_), None)));
    assert!(!trie.is_empty());

    assert_eq!(trie.remove(&[1, 0]), Some("10"));
    let node = trie.root_node();
    assert_eq!(node.prefix(), &Vec::<usize>::new());
    assert!(node.is_empty());
    assert!(trie.is_empty());
}

fn remove_all_is_clean(values: &[Vec<u8>]) {
    let mut trie: Trie<u8, ()> = Trie::new();
    for v in values {
        trie.insert(v, ());
    }
    let mut removed = 0;
    for v in values {
        if trie.remove(v).is_some() {
            removed += 1;
        }
    }
    assert!(trie.is_empty());
    assert_eq!(removed, values.len());
    let node = trie.root_node();
    assert!(node.is_empty());
    assert!(node.prefix().is_empty());
    assert!(matches!(node.leaf_branch(), (None, None)));
}

#[test]
fn remove_cleanup() {
    remove_all_is_clean(&[vec![0]]);
    remove_all_is_clean(&[vec![0, 2]]);
}

fn replay<B: Branch<u8>>(actions: Vec<Action<(Vec<u8>, usize)>>) {
    let mut btree: BTreeMap<Vec<u8>, usize> = BTreeMap::new();
    let mut trie: Trie<u8, usize, B> = Trie::new();
    for action in actions {
        let (key, value) = action.item().clone();
        match action.op() {
            Op::Insert => assert_eq!(btree.insert(key.clone(), value), trie.insert(&key, value)),
            Op::Get => assert_eq!(btree.get(&key), trie.get(&key)),
            Op::GetDeepest => assert_eq!(reference_deepest(&btree, &key), trie.get_deepest(&key)),
            Op::Remove => assert_eq!(btree.remove(&key), trie.remove(&key)),
        }
    }
    assert_eq!(btree.is_empty(), trie.is_empty());
}

fn oracle_cases<B: Branch<u8>>() {
    replay::<B>(vec![
        Action::new(Op::Insert, (vec![0], 0)),
        Action::new(Op::Insert, (vec![], 0)),
        Action::new(Op::Remove, (vec![], 0)),
        Action::new(Op::Insert, (vec![], 0)),
    ]);
    replay::<B>(vec![
        Action::new(Op::Insert, (vec![195], 0)),
        Action::new(Op::Insert, (vec![195, 0], 0)),
        Action::new(Op::Insert, (vec![], 0)),
        Action::new(Op::Get, (vec![195], 0)),
        Action::new(Op::GetDeepest, (vec![195, 1], 0)),
        Action::new(Op::GetDeepest, (vec![0], 0)),
        Action::new(Op::Remove, (vec![195], 0)),
        Action::new(Op::Get, (vec![195, 0], 0)),
    ]);
}

#[test]
fn btree_oracle_cases() {
    oracle_cases::<buffman_tree::BTreeBranch<u8>>();
    oracle_cases::<ByteBranch>();
    oracle_cases::<HashBranch<u8>>();
}

#[test]
fn scenario_remove_in_turn() {
    let mut trie: Trie<u8, char> = Trie::new();
    trie.insert(&[], ' ');
    trie.insert(&[0], '0');
    trie.insert(&[1], '1');
    assert_eq!(trie.get(&[]), Some(&' '));
    assert_eq!(trie.remove(&[0]), Some('0'));
    assert_eq!(trie.get(&[]), Some(&' '));
    assert_eq!(trie.get(&[1]), Some(&'1'));
    assert_eq!(trie.get(&[0]), None);
    assert_eq!(trie.remove(&[]), Some(' '));
    assert_eq!(trie.get(&[]), None);
    assert_eq!(trie.get(&[1]), Some(&'1'));
    assert_eq!(trie.remove(&[1]), Some('1'));
    assert!(trie.is_empty());
    let node = trie.root_node();
    assert!(node.is_empty());
    assert!(node.prefix().is_empty());
}

#[test]
fn scenario_contraction() {
    let mut trie: Trie<u8, &'static str> = Trie::new();
    trie.insert(&[], "_");
    trie.insert(&[1], "1");
    trie.insert(&[1, 0], "10");
    assert_eq!(trie.remove(&[]), Some("_"));
    assert_eq!(trie.remove(&[1]), Some("1"));
    let node = trie.root_node();
    assert_eq!(node.prefix(), &vec![1, 0]);
    assert!(matches!(node.leaf_branch(), (Some(_), None)));
    assert_eq!(trie.get(&[1, 0]), Some(&"10"));
}

#[test]
fn scenario_mid_prefix_split() {
    let mut trie: Trie<u8, &'static str> = Trie::new();
    trie.insert(&[0, 0, 0], "000");
    assert_eq!(trie.get_deepest(&[0]), None);
    assert_eq!(trie.get_deepest(&[0, 0, 0, 9]), Some(&"000"));
    assert_eq!(trie.get_deepest(&[]), None);
    assert_eq!(trie.get(&[0, 0]), None);
}

#[test]
fn round_trip() {
    let mut trie: Trie<u32, u64> = Trie::new();
    for (i, key) in [vec![5, 6, 7], vec![5], vec![], vec![5, 6, 8], vec![9]].iter().enumerate() {
        assert_eq!(trie.insert(key, i as u64), None);
        assert_eq!(trie.get(key), Some(&(i as u64)));
    }
}

#[test]
fn replacement() {
    let mut trie: Trie<u8, &'static str> = Trie::new();
    assert_eq!(trie.insert(&[4, 2], "first"), None);
    assert_eq!(trie.insert(&[4, 2], "second"), Some("first"));
    assert_eq!(trie.get(&[4, 2]), Some(&"second"));
}

#[test]
fn deletion_symmetry() {
    let keys: Vec<Vec<u8>> = vec![vec![1, 2, 3], vec![1, 2], vec![1, 3], vec![], vec![7, 7, 7, 7], vec![1, 2, 4]];
    let mut trie: Trie<u8, usize> = Trie::new();
    for (i, k) in keys.iter().enumerate() {
        trie.insert(k, i);
    }
    for k in [&keys[3], &keys[0], &keys[5], &keys[2], &keys[1], &keys[4]] {
        assert!(trie.remove(k).is_some());
        assert_eq!(trie.get(k), None);
    }
    assert!(trie.is_empty());
    let node = trie.root_node();
    assert!(node.is_empty());
    assert!(node.prefix().is_empty());
}

#[test]
fn insert_then_remove_is_fresh() {
    let mut trie: Trie<char, i32> = Trie::new();
    trie.insert(&['a', 'b'], 1);
    assert_eq!(trie.remove(&['a', 'b']), Some(1));
    assert!(trie.is_empty());
    let fresh: Trie<char, i32> = Trie::default();
    assert_eq!(trie.root_node().prefix(), fresh.root_node().prefix());
    assert_eq!(trie.root_node().is_empty(), fresh.root_node().is_empty());
}

#[test]
fn remove_absent_keys() {
    let mut trie: Trie<u8, u8> = Trie::new();
    assert_eq!(trie.remove(&[1]), None);
    trie.insert(&[1, 2, 3], 9);
    assert_eq!(trie.remove(&[1, 2]), None);
    assert_eq!(trie.remove(&[1, 2, 3, 4]), None);
    assert_eq!(trie.remove(&[2]), None);
    assert_eq!(trie.get(&[1, 2, 3]), Some(&9));
}

#[test]
fn sorted_iteration() {
    let keys: Vec<Vec<u8>> = vec![vec![3], vec![1, 2], vec![], vec![1], vec![2, 0, 0], vec![1, 2, 3], vec![0, 9]];
    let mut trie: Trie<u8, usize> = Trie::new();
    for (i, k) in keys.iter().enumerate() {
        trie.insert(k, i);
    }
    trie.remove(&[3]);
    let got: Vec<Vec<u8>> = trie.iter().into_iter().map(|(k, _)| k).collect();
    let expected: Vec<Vec<u8>> = vec![vec![], vec![0, 9], vec![1], vec![1, 2], vec![1, 2, 3], vec![2, 0, 0]];
    assert_eq!(got, expected);
    for (k, v) in trie.iter() {
        assert_eq!(trie.get(&k), Some(v));
    }
}

#[test]
fn iteration_of_empty_trie() {
    let trie: Trie<u8, usize> = Trie::new();
    assert!(trie.iter().is_empty());
}

#[test]
fn mutable_access() {
    let mut trie: Trie<u8, u32> = Trie::new();
    trie.insert(&[1], 10);
    trie.insert(&[1, 2, 3], 20);
    if let Some(v) = trie.get_mut(&[1, 2, 3]) {
        *v += 1;
    }
    assert_eq!(trie.get(&[1, 2, 3]), Some(&21));
    assert!(trie.get_mut(&[1, 2]).is_none());
    if let Some(v) = trie.get_deepest_mut(&[1, 2]) {
        *v = 11;
    }
    assert_eq!(trie.get(&[1]), Some(&11));
    assert!(trie.get_deepest_mut(&[2]).is_none());
}

#[test]
fn try_get_falls_back_to_deepest() {
    let mut trie: Trie<u8, &'static str> = Trie::new();
    trie.insert(&[1], "one");
    trie.insert(&[1, 2, 3], "three");
    assert_eq!(trie.try_get(&[1, 2, 3]), Ok(&"three"));
    assert_eq!(trie.try_get(&[1, 2]), Err(Some(&"one")));
    assert_eq!(trie.try_get(&[2]), Err(None));
}

#[test]
fn construction_from_pairs() {
    let trie: Trie<u8, i32> = Trie::from_pairs(vec![(vec![1, 2], 1), (vec![1], 2), (vec![1, 2], 3)]);
    assert_eq!(trie.get(&[1, 2]), Some(&3));
    assert_eq!(trie.get(&[1]), Some(&2));
    assert_eq!(trie.iter().len(), 2);
}

#[test]
fn clear_and_capacity() {
    let mut trie: Trie<u8, i32> = Trie::with_capacity(8);
    assert!(trie.is_empty());
    trie.insert(&[5, 5], 1);
    trie.insert(&[5, 6], 2);
    assert!(!trie.is_empty());
    trie.clear();
    assert!(trie.is_empty());
    assert_eq!(trie.get(&[5, 5]), None);
    assert!(trie.root_node().prefix().is_empty());
}

#[test]
fn longest_prefix_matches_reference() {
    let mut btree: BTreeMap<Vec<u8>, usize> = BTreeMap::new();
    let mut trie: Trie<u8, usize> = Trie::new();
    let keys: Vec<Vec<u8>> = vec![vec![1, 2, 3, 4], vec![1, 2], vec![1, 5], vec![7], vec![1, 2, 3, 4, 5, 6]];
    for (i, k) in keys.iter().enumerate() {
        btree.insert(k.clone(), i);
        trie.insert(k, i);
    }
    let queries: Vec<Vec<u8>> = vec![
        vec![],
        vec![1],
        vec![1, 2],
        vec![1, 2, 3],
        vec![1, 2, 3, 4, 5],
        vec![1, 2, 3, 4, 5, 6, 7],
        vec![1, 5, 0],
        vec![7, 7],
        vec![8],
    ];
    for q in &queries {
        assert_eq!(reference_deepest(&btree, q), trie.get_deepest(q));
    }
    trie.insert(&[], 99);
    btree.insert(vec![], 99);
    for q in &queries {
        assert_eq!(reference_deepest(&btree, q), trie.get_deepest(q));
    }
}

#[test]
fn keys_of_other_piece_types() {
    let mut trie: Trie<char, u8> = Trie::new();
    let words = ["tea", "ten", "to", "inn", "in", "i"];
    for (i, w) in words.iter().enumerate() {
        let key: Vec<char> = w.chars().collect();
        trie.insert(&key, i as u8);
    }
    let got: Vec<String> = trie.iter().into_iter().map(|(k, _)| k.into_iter().collect()).collect();
    assert_eq!(got, vec!["i", "in", "inn", "tea", "ten", "to"]);
    let q: Vec<char> = "tenant".chars().collect();
    assert_eq!(trie.get_deepest(&q), Some(&1));
}

#[test]
fn byte_branch_trie() {
    let mut btree: BTreeMap<Vec<u8>, u32> = BTreeMap::new();
    let mut trie: Trie<u8, u32, ByteBranch> = Trie::new();
    let keys: Vec<Vec<u8>> = vec![vec![255, 0], vec![0], vec![255], vec![128, 1, 2], vec![128, 1, 3], vec![], vec![7, 7]];
    for (i, k) in keys.iter().enumerate() {
        assert_eq!(btree.insert(k.clone(), i as u32), trie.insert(k, i as u32));
    }
    let got: Vec<Vec<u8>> = trie.iter().into_iter().map(|(k, _)| k).collect();
    let expected: Vec<Vec<u8>> = btree.keys().cloned().collect();
    assert_eq!(got, expected);
    for q in [vec![128, 1, 2, 9], vec![255, 1], vec![1], vec![128]] {
        assert_eq!(reference_deepest(&btree, &q), trie.get_deepest(&q));
    }
    for k in &keys {
        assert_eq!(btree.remove(k), trie.remove(k));
    }
    assert!(trie.is_empty());
    assert!(trie.root_node().prefix().is_empty());
}

#[test]
fn byte_branch_contraction() {
    let mut trie: Trie<u8, &'static str, ByteBranch> = Trie::new();
    trie.insert(&[], "_");
    trie.insert(&[1], "1");
    trie.insert(&[1, 0], "10");
    assert_eq!(trie.remove(&[]), Some("_"));
    assert_eq!(trie.remove(&[1]), Some("1"));
    let node = trie.root_node();
    assert_eq!(node.prefix(), &vec![1, 0]);
    assert!(matches!(node.leaf_branch(), (Some(_), None)));
}

#[test]
fn branch_strategies_agree() {
    let mut sorted: buffman_tree::BTreeBranch<u8> = Branch::new();
    let mut bytes: ByteBranch = Branch::new();
    for (p, c) in [(9u8, 90usize), (3, 30), (200, 2000), (3, 31)] {
        assert_eq!(sorted.insert(p, c), bytes.insert(p, c));
    }
    assert_eq!(sorted.keys(), vec![3, 9, 200]);
    assert_eq!(bytes.keys(), vec![3, 9, 200]);
    assert_eq!(sorted.values(), vec![31, 90, 2000]);
    assert_eq!(bytes.values(), vec![31, 90, 2000]);
    assert_eq!(sorted.get(&9), Some(90));
    assert_eq!(bytes.get(&4), None);
    assert_eq!(sorted.remove(&9), Some(90));
    assert_eq!(bytes.remove(&9), Some(90));
    assert_eq!(sorted.len(), 2);
    assert_eq!(bytes.len(), 2);
    sorted.remove(&200);
    bytes.remove(&200);
    assert_eq!(sorted.single(), (3, 31));
    assert_eq!(bytes.single(), (3, 31));
    assert!(!bytes.is_empty());
}

#[test]
fn counting_keys() {
    let mut trie: Trie<u8, u8> = Trie::new();
    assert_eq!(trie.len(), 0);
    trie.insert(&[1, 2], 0);
    trie.insert(&[1], 0);
    trie.insert(&[1, 2], 1);
    trie.insert(&[], 0);
    assert_eq!(trie.len(), 3);
    trie.remove(&[1]);
    assert_eq!(trie.len(), 2);
}

#[test]
fn descend_stops_where_paths_diverge() {
    let mut trie: Trie<u8, u8> = Trie::new();
    trie.insert(&[1, 2, 3, 4], 0);
    trie.insert(&[1, 2, 5], 1);
    let (cursor, consumed) = trie.descend(&[1, 2, 3, 9]);
    assert_eq!(consumed, 3);
    assert_eq!(cursor.prefix_len(), 0);
    let (cursor, consumed) = trie.descend(&[1, 9]);
    assert_eq!(consumed, 1);
    assert_eq!(cursor.prefix_len(), 1);
    let (_, consumed) = trie.descend(&[1, 2]);
    assert_eq!(consumed, 2);
    let (_, consumed) = trie.descend(&[7]);
    assert_eq!(consumed, 0);
    let (cursor, consumed) = trie.descend(&[1, 2, 5]);
    assert_eq!(consumed, 3);
    assert_eq!(cursor.prefix_len(), 0);
}

#[test]
fn hash_branch_trie() {
    let mut btree: BTreeMap<Vec<u8>, u32> = BTreeMap::new();
    let mut trie: Trie<u8, u32, HashBranch<u8>> = Trie::new();
    let keys: Vec<Vec<u8>> = vec![vec![9, 1], vec![9, 2], vec![9], vec![4, 4, 4], vec![4, 4, 5], vec![], vec![0]];
    for (i, k) in keys.iter().enumerate() {
        assert_eq!(btree.insert(k.clone(), i as u32), trie.insert(k, i as u32));
    }
    let mut got: Vec<Vec<u8>> = trie.iter().into_iter().map(|(k, _)| k).collect();
    got.sort();
    let expected: Vec<Vec<u8>> = btree.keys().cloned().collect();
    assert_eq!(got, expected);
    assert_eq!(trie.len(), keys.len());
    for q in [vec![9, 1, 1], vec![4, 4], vec![4, 4, 5, 6], vec![7]] {
        assert_eq!(reference_deepest(&btree, &q), trie.get_deepest(&q));
    }
    for k in keys.iter().rev() {
        assert_eq!(btree.remove(k), trie.remove(k));
    }
    assert!(trie.is_empty());
    assert!(trie.root_node().prefix().is_empty());
}

#[test]
fn hash_branch_operations() {
    let mut hashed: HashBranch<u32> = Branch::new();
    assert!(hashed.is_empty());
    assert_eq!(hashed.insert(70000, 1), None);
    assert_eq!(hashed.insert(5, 2), None);
    assert_eq!(hashed.insert(70000, 3), Some(1));
    assert_eq!(hashed.get(&70000), Some(3));
    assert_eq!(hashed.get(&6), None);
    let mut keys = hashed.keys();
    keys.sort();
    assert_eq!(keys, vec![5, 70000]);
    assert_eq!(hashed.values().len(), 2);
    assert_eq!(hashed.remove(&5), Some(2));
    assert_eq!(hashed.remove(&5), None);
    assert_eq!(hashed.len(), 1);
    assert_eq!(hashed.single(), (70000, 3));
}

#[test]
fn byte_string_keys() {
    let mut trie: Trie<u8, u32, ByteBranch> = Trie::new();
    for (i, w) in ["tree", "trie", "tr", "ü"].iter().enumerate() {
        let key = ByteString(w.to_string());
        trie.insert(&key.pieces(), i as u32);
    }
    assert_eq!(ByteString("ü".to_string()).pieces(), vec![0xc3, 0xbc]);
    assert_eq!(trie.get(&ByteString("trie".to_string()).pieces()), Some(&1));
    assert_eq!(trie.get_deepest(&ByteString("trap".to_string()).pieces()), Some(&2));
    assert_eq!(vec![1u16, 2].pieces(), vec![1u16, 2]);
}

#[test]
fn consuming_iteration() {
    let mut trie: Trie<u8, String> = Trie::new();
    trie.insert(&[2], "two".to_string());
    trie.insert(&[1, 1], "eleven".to_string());
    trie.insert(&[1], "one".to_string());
    let entries = trie.into_iter();
    assert_eq!(
        entries,
        vec![
            (vec![1], "one".to_string()),
            (vec![1, 1], "eleven".to_string()),
            (vec![2], "two".to_string()),
        ]
    );
}

#[test]
fn try_get_mut_falls_back_to_deepest() {
    let mut trie: Trie<u8, u32> = Trie::new();
    trie.insert(&[1], 1);
    trie.insert(&[1, 2, 3], 3);
    match trie.try_get_mut(&[1, 2, 3]) {
        Ok(v) => *v = 30,
        Err(_) => panic!("exact key missing"),
    }
    match trie.try_get_mut(&[1, 2]) {
        Err(Some(v)) => *v = 10,
        _ => panic!("expected the deepest prefix"),
    }
    assert!(matches!(trie.try_get_mut(&[2]), Err(None)));
    assert_eq!(trie.get(&[1, 2, 3]), Some(&30));
    assert_eq!(trie.get(&[1]), Some(&10));
}

#[test]
fn arena_insert_with_own_handle() {
    let mut arena: Arena<usize> = Arena::new();
    let a = arena.insert_with(|h| h.index() * 10);
    let b = arena.insert_with(|h| h.index() * 10);
    assert_eq!(*arena.get(&a), a.index() * 10);
    assert_eq!(*arena.get(&b), b.index() * 10);
    assert_ne!(a.index(), b.index());
    arena.remove(a);
    let c = arena.insert_with(|h| h.index() + 7);
    assert_eq!(*arena.get(&c), c.index() + 7);
}

#[test]
fn branch_get_or_insert_and_prune() {
    let mut br: buffman_tree::BTreeBranch<u8> = Branch::new();
    assert_eq!(br.prune(|_| false), Some(None));
    assert_eq!(br.get_or_insert_with(4, || 40), 40);
    assert_eq!(br.get_or_insert_with(4, || 99), 40);
    assert_eq!(br.get_or_insert_with(2, || 20), 20);
    assert_eq!(br.prune(|_| false), None);
    assert_eq!(br.len(), 2);
    br.remove(&2);
    assert_eq!(br.prune(|_| false), Some(Some((4, 40))));
    assert!(br.is_empty());
    let mut bytes: ByteBranch = Branch::new();
    assert_eq!(bytes.get_or_insert_with(200, || 1), 1);
    assert_eq!(bytes.prune(|_| false), Some(Some((200, 1))));
}

#[test]
fn descend_stops_only_where_the_path_diverges() {
    let mut trie: Trie<u8, u8> = Trie::new();
    trie.insert(&[5, 6, 7], 0);
    let (cursor, consumed) = trie.descend(&[5, 6, 8]);
    assert_eq!(consumed, 2);
    assert_eq!(cursor.prefix_len(), 2);
    let (_, consumed) = trie.descend(&[5, 6, 7, 1]);
    assert_eq!(consumed, 3);
}

#[test]
fn branch_cleanup_and_prune_with_predicate() {
    let mut br: BTreeBranch<u8> = Branch::new();
    br.insert(1, 10);
    br.insert(2, 20);
    br.insert(3, 30);
    assert_eq!(br.cleanup(|c| c == 20), 2);
    assert_eq!(br.keys(), vec![1, 3]);
    assert_eq!(br.prune(|c| c == 30), Some(Some((1, 10))));
    assert!(br.is_empty());
    let mut hashed: HashBranch<u8> = Branch::new();
    hashed.insert(5, 50);
    hashed.insert(6, 60);
    assert_eq!(hashed.prune(|_| true), Some(None));
    assert!(hashed.is_empty());
}

#[test]
fn take_branch_keeps_a_node_without_branch() {
    let mut node: Node<u8, u8, BTreeBranch<u8>> = Node::from(usize::MAX, vec![1, 2], DataHandle::Empty);
    assert!(node.take_branch().is_none());
    assert_eq!(node.prefix(), &vec![1, 2]);
    let mut arena: Arena<BTreeBranch<u8>> = Arena::new();
    let b = arena.insert(Branch::new());
    let mut node: Node<u8, u8, BTreeBranch<u8>> = Node::from(usize::MAX, vec![1, 2], DataHandle::Branch(b.leak()));
    assert_eq!(node.take_branch().map(|h| h.index()), Some(b.index()));
    assert!(node.prefix().is_empty());
    assert!(node.is_empty());
    let mut leaves: Arena<Leaf<u8>> = Arena::new();
    let l = leaves.insert(Leaf::new(7));
    let mut node: Node<u8, u8, BTreeBranch<u8>> =
        Node::from(usize::MAX, vec![3], DataHandle::Full { leaf: l.leak(), branch: b.leak() });
    assert!(node.take_branch().is_some());
    assert_eq!(node.prefix(), &vec![3]);
    assert!(matches!(node.leaf_branch(), (Some(_), None)));
}

#[test]
fn split_keeps_the_head_on_the_root() {
    let mut trie: Trie<u8, &'static str> = Trie::new();
    trie.insert(&[0, 0, 0], "000");
    trie.insert(&[0], "0");
    let node = trie.root_node();
    assert_eq!(node.prefix(), &vec![0]);
    assert!(matches!(node.leaf_branch(), (Some(_), Some(_))));
    trie.insert(&[1], "1");
    let node = trie.root_node();
    assert!(node.prefix().is_empty());
    assert!(matches!(node.leaf_branch(), (None, Some(_))));
    assert_eq!(trie.get(&[0, 0, 0]), Some(&"000"));
    assert_eq!(trie.get(&[0]), Some(&"0"));
    assert_eq!(trie.get(&[1]), Some(&"1"));
}

#[test]
fn cloned_action() {
    let item = (vec![1u8, 2], 5usize);
    let action = Action::new(Op::Remove, &item).cloned();
    assert_eq!(action.op, Op::Remove);
    assert_eq!(action.item, item);
}
