use bot7685_ext::lru::{LruError, PyLRU};

fn find(l: &PyLRU<i64, String>, key: i64) -> Option<usize> {
    l.find_idx(|k: &i64| -> Result<bool, ()> { Ok(*k == key) }).unwrap()
}

fn set(l: &mut PyLRU<i64, String>, key: i64, value: &str) -> Option<(i64, String)> {
    let found = find(l, key);
    l.internal_set(found, key, value.to_string())
}

fn keys(l: &PyLRU<i64, String>) -> Vec<i64> {
    l.keys().into_iter().copied().collect()
}

#[test]
fn lru_doc_example_keeps_most_recent() {
    let mut l: PyLRU<i64, String> = PyLRU::new(3).unwrap();
    for i in 0..5 {
        set(&mut l, i, &i.to_string());
    }
    assert_eq!(keys(&l), vec![4, 3, 2]);
    assert_eq!(l.len(), 3);
}

#[test]
fn lru_new_rejects_zero_size() {
    assert!(matches!(PyLRU::<i64, String>::new(0), Err(LruError::SizeNotPositive)));
    let l: PyLRU<i64, String> = PyLRU::new(2).unwrap();
    assert_eq!(l.get_size(), 2);
    assert_eq!(l.len(), 0);
    assert_eq!(l.get_stats(), (0, 0));
}

#[test]
fn lru_set_then_get() {
    let mut l: PyLRU<i64, String> = PyLRU::new(2).unwrap();
    assert_eq!(set(&mut l, 1, "a"), None);
    assert_eq!(set(&mut l, 2, "b"), None);
    let f = find(&l, 1);
    assert_eq!(l.get(f).map(|v| v.clone()), Some("a".to_string()));
    assert_eq!(keys(&l), vec![1, 2]);
    assert_eq!(l.get_stats(), (1, 0));
    let f = find(&l, 7);
    assert_eq!(l.get(f), None);
    assert_eq!(l.get_stats(), (1, 1));
}

#[test]
fn lru_update_existing_keeps_size() {
    let mut l: PyLRU<i64, String> = PyLRU::new(2).unwrap();
    set(&mut l, 1, "a");
    set(&mut l, 2, "b");
    assert_eq!(set(&mut l, 1, "c"), None);
    assert_eq!(keys(&l), vec![1, 2]);
    let values: Vec<String> = l.values().into_iter().cloned().collect();
    assert_eq!(values, vec!["c".to_string(), "b".to_string()]);
}

#[test]
fn lru_evicts_least_recently_used() {
    let mut l: PyLRU<i64, String> = PyLRU::new(2).unwrap();
    set(&mut l, 1, "a");
    set(&mut l, 2, "b");
    let f = find(&l, 1);
    assert!(l.lookup(f));
    assert_eq!(set(&mut l, 3, "c"), Some((2, "b".to_string())));
    assert_eq!(keys(&l), vec![3, 1]);
}

#[test]
fn lru_pop_and_popitem() {
    let mut l: PyLRU<i64, String> = PyLRU::new(3).unwrap();
    set(&mut l, 1, "a");
    set(&mut l, 2, "b");
    set(&mut l, 3, "c");
    let f = find(&l, 2);
    assert_eq!(l.pop(f), Some((2, "b".to_string())));
    assert_eq!(l.pop(None), None);
    assert_eq!(keys(&l), vec![3, 1]);
    assert_eq!(l.popitem(true), Ok((1, "a".to_string())));
    assert_eq!(l.popitem(false), Ok((3, "c".to_string())));
    assert_eq!(l.popitem(true), Err(LruError::Empty));
}

#[test]
fn lru_peek_items() {
    let mut l: PyLRU<i64, String> = PyLRU::new(3).unwrap();
    assert!(l.peek_first_item().is_none());
    assert!(l.peek_last_item().is_none());
    set(&mut l, 1, "a");
    set(&mut l, 2, "b");
    assert_eq!(l.peek_first_item(), Some(&(2, "b".to_string())));
    assert_eq!(l.peek_last_item(), Some(&(1, "a".to_string())));
    assert_eq!(l.item_at(1), &(1, "a".to_string()));
    let items: Vec<(i64, String)> = l.items().into_iter().cloned().collect();
    assert_eq!(items, vec![(2, "b".to_string()), (1, "a".to_string())]);
    assert_eq!(keys(&l), vec![2, 1]);
}

#[test]
fn lru_set_size_shrinks_from_the_back() {
    let mut l: PyLRU<i64, String> = PyLRU::new(4).unwrap();
    for i in 0..4 {
        set(&mut l, i, "x");
    }
    assert!(matches!(l.set_size(0), Err(LruError::SizeNotPositive)));
    assert_eq!(l.get_size(), 4);
    let evicted: Vec<i64> = l.set_size(2).unwrap().into_iter().map(|e| e.0).collect();
    assert_eq!(evicted, vec![0, 1]);
    assert_eq!(keys(&l), vec![3, 2]);
    assert_eq!(l.get_size(), 2);
    assert!(l.set_size(5).unwrap().is_empty());
    assert_eq!(l.get_size(), 5);
}

#[test]
fn lru_evict_over_one_at_a_time() {
    let mut l: PyLRU<i64, String> = PyLRU::new(3).unwrap();
    for i in 0..3 {
        set(&mut l, i, "x");
    }
    assert_eq!(l.evict_over(1).map(|e| e.0), Some(0));
    assert_eq!(l.evict_over(1).map(|e| e.0), Some(1));
    assert_eq!(l.evict_over(1), None);
    assert_eq!(l.evict_lru().map(|e| e.0), Some(2));
    assert_eq!(l.evict_lru(), None);
}

#[test]
fn lru_clear_resets_counters() {
    let mut l: PyLRU<i64, String> = PyLRU::new(3).unwrap();
    set(&mut l, 1, "a");
    let f = find(&l, 1);
    l.lookup(f);
    l.lookup(None);
    assert_eq!(l.get_stats(), (1, 1));
    l.clear();
    assert_eq!(l.len(), 0);
    assert_eq!(l.get_stats(), (0, 0));
    assert_eq!(l.get_size(), 3);
}

#[test]
fn lru_move_to_front() {
    let mut l: PyLRU<i64, String> = PyLRU::new(3).unwrap();
    for i in 0..3 {
        set(&mut l, i, "x");
    }
    l.move_to_front(2);
    assert_eq!(keys(&l), vec![0, 2, 1]);
    l.move_to_front(0);
    assert_eq!(keys(&l), vec![0, 2, 1]);
}

#[test]
fn lru_find_passes_on_matcher_error() {
    let mut l: PyLRU<i64, String> = PyLRU::new(3).unwrap();
    set(&mut l, 1, "a");
    set(&mut l, 2, "b");
    let r = l.find_idx(|k: &i64| -> Result<bool, String> {
        if *k == 1 {
            Err("boom".to_string())
        } else {
            Ok(false)
        }
    });
    assert_eq!(r, Err("boom".to_string()));
    let r = l.find_idx(|_k: &i64| -> Result<bool, String> { Ok(true) });
    assert_eq!(r, Ok(Some(0)));
}
