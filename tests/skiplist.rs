use skiplist::{Node, SkipList};
use std::cell::Cell;
use std::rc::Rc;

fn keys_of<V>(list: &SkipList<u16, V>) -> Vec<u16> {
    let mut keys = Vec::new();
    let mut it = list.iter();
    while let Some(e) = it.next() {
        keys.push(*e.key());
    }
    keys
}

#[test]
fn test_new_list_sync() {
    let _: SkipList<usize, usize> = SkipList::new();
}

#[test]
fn test_insert_sync() {
    let mut list = SkipList::new();
    let mut rng: u16 = rand::random();

    for _ in 0..10_000 {
        rng ^= rng << 3;
        rng ^= rng >> 12;
        rng ^= rng << 7;
        list.insert(rng, "hello there!");
    }
}

#[test]
fn test_rand_height_sync() {
    let mut list: SkipList<&str, &str> = SkipList::new();
    let node = Node::new_rand_height("Hello", "There!", &mut list);

    let height = node.height();
    assert!(height >= 1);
    println!("height: {}", height);
}

#[test]
fn test_new_node_sync() {
    let node = Node::new(100, "hello", 1);
    let other = Node::new(100, "hello", 1);

    assert_eq!(node.key, other.key);
    assert_eq!(node.val, other.val);
    assert_eq!(node.height(), other.height());
}

#[test]
fn test_insert_verbose_sync() {
    let mut list = SkipList::new();

    list.insert(1u16, 1);
    assert_eq!(keys_of(&list), vec![1]);

    list.insert(2, 2);
    assert_eq!(keys_of(&list), vec![1, 2]);

    list.insert(5, 3);
    assert_eq!(keys_of(&list), vec![1, 2, 5]);
}

#[test]
fn test_remove() {
    let mut list = SkipList::new();
    let mut rng: u16 = rand::random();

    for _ in 0..10_000 {
        rng ^= rng << 3;
        rng ^= rng >> 12;
        rng ^= rng << 7;
        list.insert(rng, "hello there!");
    }
    for _ in 0..10_000 {
        rng ^= rng << 3;
        rng ^= rng >> 12;
        rng ^= rng << 7;
        list.remove(&rng);
    }
}

#[test]
fn test_verbose_remove() {
    let mut list = SkipList::new();

    list.insert(1u16, 1);
    list.insert(2, 2);
    list.insert(2, 2);
    list.insert(5, 3);

    assert!(list.remove(&1).is_some());

    assert!(list.remove(&6).is_none());
    assert!(list.remove(&1).is_none());
    assert!(list.remove(&5).is_some());
    assert!(list.remove(&2).is_some());

    assert_eq!(list.len(), 0);
}

struct CountOnDrop {
    counter: Rc<Cell<usize>>,
}

impl Drop for CountOnDrop {
    fn drop(&mut self) {
        self.counter.set(self.counter.get() + 1);
    }
}

#[test]
fn test_drop() {
    let counter = Rc::new(Cell::new(0usize));
    let mut list = SkipList::new();

    list.insert(1u16, CountOnDrop { counter: counter.clone() });
    list.remove(&1);
    list.insert(1, CountOnDrop { counter: counter.clone() });
    list.insert(1, CountOnDrop { counter: counter.clone() });

    assert_eq!(counter.get(), 2);

    drop(list);

    assert_eq!(counter.get(), 3);
}

#[test]
fn drop_count_matches_inserts_and_replacements() {
    let counter = Rc::new(Cell::new(0usize));
    let mut list = SkipList::new();
    for k in 0..50u16 {
        list.insert(k, CountOnDrop { counter: counter.clone() });
    }
    for k in 0..10u16 {
        list.insert(k, CountOnDrop { counter: counter.clone() });
    }
    assert_eq!(counter.get(), 10);
    drop(list);
    assert_eq!(counter.get(), 60);
}

#[test]
fn iteration_is_ascending_after_random_inserts() {
    let mut list = SkipList::new();
    let mut rng: u16 = 0x1234;
    for _ in 0..2_000 {
        rng ^= rng << 3;
        rng ^= rng >> 12;
        rng ^= rng << 7;
        list.insert(rng % 500, ());
    }
    let keys = keys_of(&list);
    for w in keys.windows(2) {
        assert!(w[0] < w[1]);
    }
    assert_eq!(keys.len(), list.len());
}

#[test]
fn replacement_returns_old_value() {
    let mut list = SkipList::new();
    assert!(list.insert(7u16, "v1").is_none());
    let old = list.insert(7, "v2");
    assert_eq!(old, Some((7, "v1")));
    assert_eq!(*list.get(&7).unwrap().val(), "v2");
    assert_eq!(list.len(), 1);
}

#[test]
fn remove_twice_second_is_none() {
    let mut list = SkipList::new();
    list.insert(3u16, 30);
    assert_eq!(list.remove(&3), Some((3, 30)));
    assert_eq!(list.remove(&3), None);
}

#[test]
fn round_trip_insert_get_remove() {
    let mut list = SkipList::new();
    list.insert(42u16, "v");
    assert_eq!(*list.get(&42).unwrap().val(), "v");
    assert_eq!(*list.get(&42).unwrap().key(), 42);
    list.remove(&42);
    assert!(list.get(&42).is_none());
}

#[test]
fn len_counts_live_keys() {
    let mut list = SkipList::new();
    for k in [5u16, 1, 5, 9, 1, 3] {
        list.insert(k, ());
    }
    assert_eq!(list.len(), 4);
    list.remove(&9);
    list.remove(&10);
    assert_eq!(list.len(), 3);
    assert!(!list.is_empty());
}

#[test]
fn scenario_last_values_win() {
    let mut list = SkipList::new();
    list.insert(1u16, "a");
    list.insert(4, "b");
    list.insert(3, "c");
    list.insert(3, "d");
    list.insert(1, "e");
    assert_eq!(keys_of(&list), vec![1, 3, 4]);
    assert_eq!(*list.get(&1).unwrap().val(), "e");
    assert_eq!(*list.get(&3).unwrap().val(), "d");
    assert_eq!(*list.get(&4).unwrap().val(), "b");
}

#[test]
fn scenario_pop_first_and_last() {
    let mut list = SkipList::new();
    for k in 1..=5u16 {
        list.insert(k, k * 10);
    }
    assert_eq!(list.pop_first(), Some((1, 10)));
    assert_eq!(keys_of(&list), vec![2, 3, 4, 5]);
    assert_eq!(list.pop_last(), Some((5, 50)));
    let last = list.get_last().unwrap();
    assert_eq!(*last.key(), 4);
    assert_eq!(*last.val(), 40);
    let first = list.get_first().unwrap();
    assert_eq!(*first.key(), 2);
}

#[test]
fn scenario_into_iter_in_order() {
    let mut list = SkipList::new();
    for k in [3u16, 5, 1, 4, 2] {
        list.insert(k, k + 100);
    }
    let mut it = list.into_iter();
    let mut out = Vec::new();
    while let Some(kv) = it.next() {
        out.push(kv);
    }
    assert_eq!(out, vec![(1, 101), (2, 102), (3, 103), (4, 104), (5, 105)]);
}

#[test]
fn empty_list_edges() {
    let mut list: SkipList<u16, ()> = SkipList::new();
    assert!(list.is_empty());
    assert_eq!(list.len(), 0);
    assert!(list.get(&1).is_none());
    assert!(list.get_first().is_none());
    assert!(list.get_last().is_none());
    assert!(list.pop_first().is_none());
    assert!(list.pop_last().is_none());
    assert!(list.remove(&1).is_none());
    assert!(list.iter().next().is_none());
    assert!(list.into_iter().next().is_none());
}

#[test]
fn extreme_keys() {
    let mut list = SkipList::new();
    list.insert(u64::MAX, 1);
    list.insert(0u64, 2);
    list.insert(u64::MAX / 2, 3);
    assert_eq!(*list.get_first().unwrap().key(), 0);
    assert_eq!(*list.get_last().unwrap().key(), u64::MAX);
    assert_eq!(list.remove(&u64::MAX), Some((u64::MAX, 1)));
    assert_eq!(*list.get_last().unwrap().key(), u64::MAX / 2);
}

#[test]
fn signed_keys_order() {
    let mut list = SkipList::new();
    for k in [3i32, -7, 0, -1, 12] {
        list.insert(k, ());
    }
    let mut keys = Vec::new();
    let mut it = list.iter();
    while let Some(e) = it.next() {
        keys.push(*e.key());
    }
    assert_eq!(keys, vec![-7, -1, 0, 3, 12]);
}

#[test]
fn reuse_of_freed_slots() {
    let mut list = SkipList::new();
    for round in 0..20u16 {
        for k in 0..100u16 {
            list.insert(k, round);
        }
        for k in 0..100u16 {
            if k % 3 == 0 {
                assert_eq!(list.remove(&k), Some((k, round)));
            }
        }
        assert_eq!(list.len(), 66);
        for k in 0..100u16 {
            if k % 3 == 0 {
                list.insert(k, round);
            }
        }
        assert_eq!(list.len(), 100);
    }
    let keys = keys_of(&list);
    assert_eq!(keys, (0..100u16).collect::<Vec<_>>());
}

#[test]
fn default_is_empty() {
    let list: SkipList<u32, ()> = SkipList::default();
    assert_eq!(list.len(), 0);
}

#[test]
fn from_iter_later_pairs_win() {
    let list = SkipList::from_iter(vec![(4u16, 'a'), (2, 'b'), (4, 'c'), (9, 'd')]);
    assert_eq!(list.len(), 3);
    assert_eq!(keys_of(&list), vec![2, 4, 9]);
    assert_eq!(*list.get(&4).unwrap().val(), 'c');
    let empty: SkipList<u16, ()> = SkipList::from_iter(Vec::new());
    assert!(empty.is_empty());
}

#[test]
fn get_between_present_keys() {
    let mut list = SkipList::new();
    for k in [10u16, 20, 30] {
        list.insert(k, k);
    }
    assert!(list.get(&15).is_none());
    assert!(list.get(&5).is_none());
    assert!(list.get(&35).is_none());
    assert_eq!(*list.get(&20).unwrap().val(), 20);
}

#[test]
fn heights_on_an_empty_list_stay_at_one() {
    let mut list: SkipList<u16, ()> = SkipList::new();
    for _ in 0..64 {
        let node = Node::new_rand_height(1u16, (), &mut list);
        assert_eq!(node.height(), 1);
    }
}

#[test]
fn test_find_removed() {
    let mut list = SkipList::new();

    list.insert(3u16, ());
    list.insert(4, ());
    list.insert(5, ());

    assert!(list.get(&3).is_some());
    assert!(list.get(&4).is_some());
    assert_eq!(keys_of(&list), vec![3, 4, 5]);
}

#[test]
fn len_plus_found_removals_is_distinct_inserts() {
    let mut list = SkipList::new();
    for k in 0..1_000u16 {
        list.insert(k, ());
    }
    let mut removed = 0usize;
    for k in (0..1_500u16).step_by(3) {
        if list.remove(&k).is_some() {
            removed += 1;
        }
    }
    assert_eq!(list.len() + removed, 1_000);
}
