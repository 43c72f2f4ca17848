use skiplist::{Node, SkipList, DEFAULT_MAX_LEVEL};

#[test]
fn test_of_skip_list() {
    let mut skip_list = SkipList::default();
    for i in 0..100 {
        assert_eq!(skip_list.insert(i, i), None);
    }

    for i in 0..100 {
        assert_eq!(skip_list.insert(i, 10 * i), Some(i));
    }

    for i in 0..100 {
        let v = i * 10;
        assert_eq!(skip_list.get(&i), Some(&v))
    }

    for i in 0..50 {
        let v = 10 * i;
        assert_eq!(skip_list.delete(&i), Some(v));
    }

    for i in 0..50 {
        assert_eq!(skip_list.get(&i), None);
    }

    for i in 50..100 {
        let v = i * 10;
        assert_eq!(skip_list.get(&i), Some(&v));
    }

    let mut it = skip_list.iter_mut();
    while let Some((k, v)) = it.next() {
        *v = *k * 20;
    }

    let mut key = 50;
    let mut it = skip_list.iter();
    while let Some((k, v)) = it.next() {
        assert_eq!(*k, key);
        assert_eq!(*v, key * 20);
        key += 1;
    }

    key = 50;
    let mut it = skip_list.into_iter();
    while let Some((k, v)) = it.next() {
        assert_eq!(k, key);
        assert_eq!(v, key * 20);
        key += 1;
    }
}

fn keys_in_order(s: &SkipList<u64>) -> Vec<u64> {
    let mut out = Vec::new();
    let mut it = s.iter();
    while let Some((k, _)) = it.next() {
        out.push(*k);
    }
    out
}

#[test]
fn lookup_after_distinct_inserts() {
    let mut s = SkipList::new();
    let keys = [42u64, 7, 19, 3, 88, 0, u64::MAX, 61];
    for (n, k) in keys.iter().enumerate() {
        assert_eq!(s.insert(*k, n as u64 * 3 + 1), None);
    }
    for (n, k) in keys.iter().enumerate() {
        assert_eq!(s.get(k), Some(&(n as u64 * 3 + 1)));
    }
    for absent in [1u64, 2, 8, 100, u64::MAX - 1] {
        assert_eq!(s.get(&absent), None);
    }
}

#[test]
fn get_on_empty_list() {
    let s: SkipList<String> = SkipList::new();
    assert_eq!(s.get(&0), None);
    assert_eq!(s.len(), 0);
    assert_eq!(s.iter().count(), 0);
}

#[test]
fn reinsert_returns_previous_and_keeps_count() {
    let mut s = SkipList::new();
    assert_eq!(s.insert(5, "a".to_string()), None);
    assert_eq!(s.len(), 1);
    assert_eq!(s.insert(9, "b".to_string()), None);
    assert_eq!(s.len(), 2);
    assert_eq!(s.insert(5, "c".to_string()), Some("a".to_string()));
    assert_eq!(s.len(), 2);
    assert_eq!(s.get(&5), Some(&"c".to_string()));
    assert_eq!(s.insert(5, "d".to_string()), Some("c".to_string()));
    assert_eq!(s.get(&5), Some(&"d".to_string()));
    assert_eq!(s.get(&9), Some(&"b".to_string()));
}

#[test]
fn delete_existing_and_missing() {
    let mut s = SkipList::new();
    for k in [10u64, 20, 30, 40] {
        s.insert(k, k + 1);
    }
    assert_eq!(s.delete(&20), Some(21));
    assert_eq!(s.len(), 3);
    assert_eq!(s.get(&20), None);
    assert_eq!(s.delete(&20), None);
    assert_eq!(s.len(), 3);
    assert_eq!(s.delete(&25), None);
    assert_eq!(s.len(), 3);
    assert_eq!(keys_in_order(&s), vec![10, 30, 40]);
    assert_eq!(s.get(&10), Some(&11));
    assert_eq!(s.get(&30), Some(&31));
    assert_eq!(s.get(&40), Some(&41));
}

#[test]
fn delete_then_reinsert() {
    let mut s = SkipList::new();
    for k in 0..20u64 {
        s.insert(k, k);
    }
    for k in (0..20u64).step_by(2) {
        assert_eq!(s.delete(&k), Some(k));
    }
    for k in (0..20u64).step_by(2) {
        assert_eq!(s.insert(k, k + 100), None);
    }
    assert_eq!(s.len(), 20);
    for k in 0..20u64 {
        let want = if k % 2 == 0 { k + 100 } else { k };
        assert_eq!(s.get(&k), Some(&want));
    }
    assert_eq!(keys_in_order(&s), (0..20).collect::<Vec<u64>>());
}

#[test]
fn iteration_is_ascending_after_mixed_updates() {
    let mut s = SkipList::new();
    let mut x: u64 = 12345;
    let mut model = std::collections::BTreeMap::new();
    for _ in 0..500 {
        x = x.wrapping_mul(6364136223846793005).wrapping_add(1442695040888963407);
        let k = (x >> 33) % 200;
        if (x >> 20) % 3 == 0 {
            assert_eq!(s.delete(&k), model.remove(&k));
        } else {
            assert_eq!(s.insert(k, x), model.insert(k, x));
        }
        assert_eq!(s.len(), model.len());
    }
    let keys = keys_in_order(&s);
    for w in keys.windows(2) {
        assert!(w[0] < w[1]);
    }
    let expected: Vec<u64> = model.keys().copied().collect();
    assert_eq!(keys, expected);
    let mut it = s.iter();
    for (k, v) in model.iter() {
        assert_eq!(it.next(), Some((k, v)));
    }
    assert_eq!(it.next(), None);
}

#[test]
fn iter_mut_writes_are_seen_by_get() {
    let mut s = SkipList::new();
    for k in [3u64, 1, 2] {
        s.insert(k, 0u64);
    }
    let mut seen = Vec::new();
    let mut it = s.iter_mut();
    while let Some((k, v)) = it.next() {
        seen.push(*k);
        *v = *k * 7;
    }
    assert_eq!(seen, vec![1, 2, 3]);
    assert_eq!(s.get(&1), Some(&7));
    assert_eq!(s.get(&2), Some(&14));
    assert_eq!(s.get(&3), Some(&21));
    assert_eq!(s.len(), 3);
}

#[test]
fn into_iter_yields_each_entry_once_in_order() {
    let mut s = SkipList::new();
    for k in [50u64, 10, 40, 20, 30] {
        s.insert(k, k * 2);
    }
    let mut it = s.into_iter();
    assert_eq!(it.size_hint(), (5, Some(5)));
    let mut out = Vec::new();
    while let Some(e) = it.next() {
        out.push(e);
    }
    assert_eq!(out, vec![(10, 20), (20, 40), (30, 60), (40, 80), (50, 100)]);
    assert_eq!(it.size_hint(), (0, Some(0)));
    assert_eq!(it.next(), None);
    assert_eq!(it.count(), 0);
}

#[test]
fn iterator_lengths() {
    let mut s = SkipList::new();
    for k in 0..7u64 {
        s.insert(k, ());
    }
    let mut it = s.iter();
    assert_eq!(it.size_hint(), (7, Some(7)));
    it.next();
    it.next();
    assert_eq!(it.size_hint(), (5, Some(5)));
    assert_eq!(it.count(), 5);
    let mut m = s.iter_mut();
    m.next();
    assert_eq!(m.len, 6);
}

#[test]
fn max_level_bounds() {
    assert!(SkipList::<u64>::with_max_level(0).is_none());
    assert!(SkipList::<u64>::with_max_level(1).is_none());
    let mut s = SkipList::with_max_level(2).unwrap();
    for k in (0..50u64).rev() {
        assert_eq!(s.insert(k, k), None);
    }
    for k in 0..50u64 {
        assert_eq!(s.get(&k), Some(&k));
    }
    assert_eq!(keys_in_order(&s), (0..50).collect::<Vec<u64>>());
    for _ in 0..20 {
        assert_eq!(s.random_level(), 1);
    }
}

#[test]
fn random_level_stays_in_range() {
    let s: SkipList<u8> = SkipList::default();
    let mut seen = [false; DEFAULT_MAX_LEVEL];
    for _ in 0..2000 {
        let l = s.random_level();
        assert!(l >= 1 && l < DEFAULT_MAX_LEVEL);
        seen[l] = true;
    }
    assert!(!seen[0]);
    assert!(seen[1..].iter().all(|b| *b));
}

#[test]
fn nodes_start_unlinked() {
    let n = Node::new(4, "v", 3, 6);
    assert_eq!(n.entry, Some((4, "v")));
    assert_eq!(n.level, 3);
    assert_eq!(n.next, vec![None; 6]);
    let h: Node<u8> = Node::sigil(5);
    assert!(h.entry.is_none());
    assert_eq!(h.level, 0);
    assert_eq!(h.next, vec![None; 5]);
}

#[test]
fn end_to_end_overwrite_delete_iterate() {
    let mut s = SkipList::new();
    for k in 1..100u64 {
        assert_eq!(s.insert(k, k), None);
    }
    for k in 1..100u64 {
        assert_eq!(s.insert(k, 10 * k), Some(k));
    }
    for k in 1..100u64 {
        assert_eq!(s.get(&k), Some(&(10 * k)));
    }
    assert_eq!(s.delete(&0), None);
    for k in 1..50u64 {
        assert_eq!(s.delete(&k), Some(10 * k));
    }
    for k in 0..50u64 {
        assert_eq!(s.get(&k), None);
    }
    for k in 50..100u64 {
        assert_eq!(s.get(&k), Some(&(10 * k)));
    }
    let mut want = 50u64;
    let mut it = s.iter();
    while let Some((k, v)) = it.next() {
        assert_eq!(*k, want);
        assert_eq!(*v, 10 * want);
        want += 1;
    }
    assert_eq!(want, 100);
}

#[test]
fn explicit_levels_raise_the_list_level_only() {
    let mut s = SkipList::with_max_level(6).unwrap();
    assert_eq!(s.level(), 0);
    assert_eq!(s.max_level(), 6);
    assert_eq!(s.insert_at_level(20, 'b', 3), None);
    assert_eq!(s.level(), 3);
    assert_eq!(s.insert_at_level(10, 'a', 1), None);
    assert_eq!(s.level(), 3);
    assert_eq!(s.insert_at_level(30, 'c', 5), None);
    assert_eq!(s.level(), 5);
    assert_eq!(s.insert_at_level(20, 'B', 5), Some('b'));
    assert_eq!(s.level(), 5);
    assert_eq!(s.delete(&30), Some('c'));
    assert_eq!(s.level(), 5);
    assert_eq!(s.get(&10), Some(&'a'));
    assert_eq!(s.get(&20), Some(&'B'));
    assert_eq!(s.get(&30), None);
    assert_eq!(s.len(), 2);
}

#[test]
fn explicit_levels_keep_order_and_lookups() {
    let mut s = SkipList::with_max_level(5).unwrap();
    let mut x: u64 = 99;
    let mut model = std::collections::BTreeMap::new();
    for step in 0..400u64 {
        x = x.wrapping_mul(6364136223846793005).wrapping_add(1442695040888963407);
        let k = (x >> 35) % 64;
        let level = 1 + ((x >> 13) % 4) as usize;
        if step % 4 == 3 {
            assert_eq!(s.delete(&k), model.remove(&k));
        } else {
            assert_eq!(s.insert_at_level(k, step, level), model.insert(k, step));
        }
    }
    for k in 0..64u64 {
        assert_eq!(s.get(&k), model.get(&k));
    }
    assert_eq!(keys_in_order(&s), model.keys().copied().collect::<Vec<u64>>());
}

#[test]
fn default_list_has_default_max_level() {
    let s: SkipList<i32> = SkipList::default();
    assert_eq!(s.max_level(), 12);
    assert_eq!(DEFAULT_MAX_LEVEL, 12);
    assert_eq!(s.level(), 0);
}
