use pinus::arena::PressedPineMap;
use pinus::blocks::{PineMap, Slot};
use pinus::prelude::{UnpinnedPineMap, UnpinnedPineMapEmplace};
use pinus::teardown::{aggregate, TeardownFailure};
use std::error::Error;

/// Where a value sits in memory, for comparing addresses over time.
fn address_of<T>(value: &T) -> String {
    format!("{:p}", value)
}

#[test]
fn new() {
    let _ = PineMap::<usize, usize>::new();
}

#[test]
fn insert() {
    let mut map = PineMap::<usize, usize>::new();
    assert_eq!(
        map.try_insert_with::<_, ()>(1, |_| Ok(2))
            .unwrap()
            .ok()
            .unwrap(),
        &2
    );
}

#[test]
fn complicated() {
    let mut map = PineMap::<usize, usize>::new();
    assert_eq!(
        map.try_insert_with::<_, ()>(1, |_| Ok(2))
            .unwrap()
            .ok()
            .unwrap(),
        &2
    );

    assert_eq!(
        map.try_insert_with::<_, ()>(2, |_| Ok(3))
            .unwrap()
            .ok()
            .unwrap(),
        &3
    );

    assert_eq!(
        map.try_insert_with::<_, ()>(3, |_| Ok(4))
            .unwrap()
            .ok()
            .unwrap(),
        &4
    );

    assert_eq!(
        map.try_insert_with::<_, ()>(3, |_| Ok(4))
            .unwrap()
            .unwrap_err()
            .0,
        3
    );

    let a = map.get(&1).copied();
    let b = map.get(&2).copied();
    let c = map.get(&3).copied();

    let result = map.try_insert_with::<_, Box<dyn Error>>(5, |_| Ok(7));

    println!("{:?}", a);
    println!("{:?}", b);
    println!("{:?}", c);

    println!("{:?}", result.unwrap().ok().unwrap());
}

#[test]
fn three_keys_then_remove_middle() {
    let mut map = PineMap::<usize, usize>::new();
    assert_eq!(map.insert(1, 2), Ok(&2));
    assert_eq!(map.insert(2, 3), Ok(&3));
    assert_eq!(map.insert(3, 4), Ok(&4));
    assert_eq!(map.insert(3, 4), Err((3, 4)));
    assert_eq!(map.get(&1), Some(&2));
    assert_eq!(map.get(&2), Some(&3));
    assert_eq!(map.get(&3), Some(&4));
    let at1 = map.locate(&1).unwrap();
    let at3 = map.locate(&3).unwrap();
    assert_eq!(map.remove_pair(&2), Some((2, 3)));
    assert_eq!(map.get(&2), None);
    assert_eq!(map.locate(&2), None);
    assert_eq!(map.get(&1), Some(&2));
    assert_eq!(map.get(&3), Some(&4));
    assert_eq!(map.locate(&1), Some(at1));
    assert_eq!(map.locate(&3), Some(at3));
}

#[test]
fn growth_keeps_addresses() {
    let mut map = PineMap::<usize, usize>::with_capacity(1);
    assert_eq!(map.block_count(), 1);
    assert_eq!(map.block_capacity(0), 1);
    map.insert(10, 100).unwrap();
    let first = map.locate(&10).unwrap();
    assert_eq!(first, Slot { block: 0, offset: 0 });
    map.insert(20, 200).unwrap();
    assert_eq!(map.block_count(), 2);
    assert_eq!(map.block_capacity(1), 2);
    let second = map.locate(&20).unwrap();
    assert_eq!(second, Slot { block: 1, offset: 0 });
    map.insert(30, 300).unwrap();
    assert_eq!(map.block_count(), 2);
    assert_eq!(map.locate(&30), Some(Slot { block: 1, offset: 1 }));
    assert_eq!(map.locate(&10), Some(first));
    assert_eq!(map.locate(&20), Some(second));
    assert_eq!(map.get(&10), Some(&100));
    assert_eq!(map.get(&20), Some(&200));
    assert_eq!(map.get(&30), Some(&300));
    map.insert(40, 400).unwrap();
    assert_eq!(map.block_count(), 3);
    assert_eq!(map.block_capacity(2), 4);
    assert_eq!(map.locate(&40), Some(Slot { block: 2, offset: 0 }));
}

#[test]
fn zero_capacity_means_one() {
    let map = PineMap::<usize, usize>::with_capacity(0);
    assert_eq!(map.block_capacity(0), 1);
    assert_eq!(map.next_slot(), Slot { block: 0, offset: 0 });
}

#[test]
fn second_insert_is_refused() {
    let mut map = PineMap::<u64, String>::new();
    assert_eq!(map.insert(7, "first".to_string()), Ok(&"first".to_string()));
    let refused = map.insert_with(7, |k| format!("second {}", k));
    match refused {
        Err((key, factory)) => {
            assert_eq!(key, 7);
            assert_eq!(factory(&7), "second 7");
        }
        Ok(_) => panic!("a live key was overwritten"),
    }
    assert_eq!(map.get(&7), Some(&"first".to_string()));
}

#[test]
fn failed_construction_leaves_no_trace() {
    let mut map = PineMap::<u64, u64>::with_capacity(1);
    map.insert(1, 10).unwrap();
    let reserved = map.next_slot();
    let failed = map.try_emplace_with(2, |_, _| Err::<u64, &str>("no"));
    assert_eq!(failed.err(), Some("no"));
    assert_eq!(map.get(&2), None);
    assert_eq!(map.block_count(), 1);
    assert_eq!(map.next_slot(), reserved);
    let seen = map.try_emplace_with::<_, ()>(2, |k, slot| Ok(*k * 1000 + slot.block as u64));
    assert_eq!(seen.unwrap().ok(), Some(&2001));
    assert_eq!(map.locate(&2), Some(reserved));
}

#[test]
fn freed_cell_is_reused_with_new_value() {
    let mut map = PineMap::<u64, u64>::with_capacity(4);
    map.insert(1, 11).unwrap();
    map.insert(2, 22).unwrap();
    map.insert(3, 33).unwrap();
    let freed = map.locate(&2).unwrap();
    assert_eq!(map.remove_value(&2), Some(22));
    assert_eq!(map.hole_count(), 1);
    assert_eq!(map.next_slot(), freed);
    assert_eq!(map.insert(9, 99), Ok(&99));
    assert_eq!(map.locate(&9), Some(freed));
    assert_eq!(map.get(&9), Some(&99));
    assert_eq!(map.hole_count(), 0);
    assert_eq!(map.get(&1), Some(&11));
    assert_eq!(map.get(&3), Some(&33));
}

#[test]
fn remove_variants() {
    let mut map = PineMap::<u64, u64>::new();
    map.insert(1, 10).unwrap();
    map.insert(2, 20).unwrap();
    map.insert(3, 30).unwrap();
    assert_eq!(map.remove_key(&1), Some(1));
    assert_eq!(map.remove_key(&1), None);
    assert!(map.drop_entry(&2));
    assert!(!map.drop_entry(&2));
    assert_eq!(map.remove_pair(&4), None);
    assert_eq!(map.remove_value(&3), Some(30));
    assert_eq!(map.get(&3), None);
}

#[test]
fn clear_empties_and_resets() {
    let mut map = PineMap::<u64, u64>::with_capacity(2);
    for k in 0..10u64 {
        map.insert(k, k + 1).unwrap();
    }
    map.remove_key(&3);
    assert!(map.block_count() > 1);
    map.clear();
    for k in 0..10u64 {
        assert_eq!(map.get(&k), None);
    }
    assert_eq!(map.block_count(), 1);
    assert_eq!(map.block_capacity(0), 2);
    assert_eq!(map.hole_count(), 0);
    assert_eq!(map.insert(3, 4), Ok(&4));
}

#[test]
fn teardown_without_failures() {
    let mut map = PineMap::<u64, u64>::new();
    map.insert(1, 1).unwrap();
    map.insert(2, 2).unwrap();
    let result = map.clear_with(|_| Ok::<(), String>(()), |_| Ok(()));
    assert!(result.is_ok());
    assert_eq!(map.get(&1), None);
    assert_eq!(map.get(&2), None);
}

#[test]
fn teardown_with_one_failure() {
    let mut map = PineMap::<u64, u64>::new();
    for k in 1..=5u64 {
        map.insert(k, k * 10).unwrap();
    }
    let result = map.clear_with(|_| Ok(()), |v| if v == 30 { Err(v) } else { Ok(()) });
    match result {
        Err(TeardownFailure::Single(e)) => assert_eq!(e, 30),
        _ => panic!("expected exactly one failure"),
    }
    for k in 1..=5u64 {
        assert_eq!(map.get(&k), None);
    }
}

#[test]
fn teardown_collects_every_failure() {
    let mut map = PineMap::<u64, u64>::new();
    for k in 1..=6u64 {
        map.insert(k, k * 10).unwrap();
    }
    map.remove_key(&6);
    let result = map.clear_with(|_| Ok(()), |v| if v % 20 == 0 { Err(v) } else { Ok(()) });
    match result {
        Err(failure) => {
            assert_eq!(failure.count(), 2);
            match failure {
                TeardownFailure::Many(mut errors) => {
                    errors.sort();
                    assert_eq!(errors, vec![20, 40]);
                }
                TeardownFailure::Single(_) => panic!("two failures were folded into one"),
            }
        }
        Ok(()) => panic!("failures were swallowed"),
    }
    for k in 1..=6u64 {
        assert_eq!(map.get(&k), None);
    }
}

#[test]
fn teardown_counts_key_and_value_failures_apart() {
    let mut map = PineMap::<u64, u64>::new();
    map.insert(1, 10).unwrap();
    map.insert(2, 20).unwrap();
    let result = map.clear_with(
        |k| if k == 2 { Err(format!("key {}", k)) } else { Ok(()) },
        |v| if v == 20 { Err(format!("value {}", v)) } else { Ok(()) },
    );
    match result {
        Err(TeardownFailure::Many(errors)) => {
            assert_eq!(errors, vec!["key 2".to_string(), "value 20".to_string()]);
        }
        _ => panic!("a failing key and a failing value are two failures"),
    }
    assert_eq!(map.get(&1), None);
    assert_eq!(map.get(&2), None);
}

#[test]
fn aggregate_shapes() {
    assert!(aggregate::<u8>(vec![]).is_ok());
    match aggregate(vec![5u8]) {
        Err(TeardownFailure::Single(5)) => {}
        _ => panic!("one failure must pass through as it is"),
    }
    match aggregate(vec![1u8, 2, 3]) {
        Err(TeardownFailure::Many(v)) => assert_eq!(v, vec![1, 2, 3]),
        _ => panic!("three failures must stay together"),
    }
    assert_eq!(TeardownFailure::Many(vec![1u8, 2, 3]).count(), 3);
    assert_eq!(TeardownFailure::Single(1u8).count(), 1);
}

#[test]
fn arena_never_reuses_cells() {
    let mut map = PressedPineMap::<u64, String>::with_capacity(2);
    assert_eq!(map.chunk_len(0), 0);
    map.insert(1, "a".to_string()).unwrap();
    map.insert(2, "b".to_string()).unwrap();
    let former = map.locate(&1).unwrap();
    assert_eq!(former, Slot { block: 0, offset: 0 });
    assert_eq!(map.remove_pair(&1), Some((1, "a".to_string())));
    assert_eq!(map.chunk_len(0), 2);
    map.insert(1, "c".to_string()).unwrap();
    map.insert(3, "d".to_string()).unwrap();
    assert_eq!(map.locate(&1), Some(Slot { block: 1, offset: 0 }));
    assert_eq!(map.locate(&3), Some(Slot { block: 1, offset: 1 }));
    assert_eq!(map.locate(&2), Some(Slot { block: 0, offset: 1 }));
    assert_eq!(map.chunk_count(), 2);
    assert_eq!(map.chunk_capacity(1), 4);
    assert_eq!(map.get(&1), Some(&"c".to_string()));
    assert!(map.drop_entry(&3));
    assert_eq!(map.chunk_len(1), 2);
    assert_eq!(map.next_slot(), Slot { block: 1, offset: 2 });
    map.clear();
    assert_eq!(map.chunk_count(), 1);
    assert_eq!(map.chunk_len(0), 0);
    assert_eq!(map.get(&2), None);
}

#[test]
fn arena_growth_keeps_value_addresses() {
    let mut map = PressedPineMap::<u64, u64>::with_capacity(1);
    let p1 = address_of(map.insert(1, 10).unwrap());
    let p2 = address_of(map.insert(2, 20).unwrap());
    let p3 = address_of(map.insert(3, 30).unwrap());
    assert_eq!(map.chunk_count(), 2);
    assert!(p1 != p2 && p2 != p3 && p1 != p3);
    assert_eq!(address_of(map.get(&1).unwrap()), p1);
    assert_eq!(address_of(map.get(&2).unwrap()), p2);
    assert_eq!(address_of(map.get(&3).unwrap()), p3);
    map.remove_key(&2);
    for k in 4..40u64 {
        map.insert(k, k).unwrap();
    }
    assert_eq!(address_of(map.get(&1).unwrap()), p1);
    assert_eq!(address_of(map.get(&3).unwrap()), p3);
    assert_eq!(map.get(&1), Some(&10));
    assert_eq!(map.get(&3), Some(&30));
}

#[test]
fn growth_keeps_value_addresses() {
    let mut map = PineMap::<usize, usize>::with_capacity(1);
    let p1 = address_of(map.insert(1, 10).unwrap());
    let p2 = address_of(map.insert(2, 20).unwrap());
    assert!(p1 != p2);
    assert_eq!(address_of(map.get(&1).unwrap()), p1);
    let p3 = address_of(map.insert(3, 30).unwrap());
    assert_eq!(address_of(map.get(&1).unwrap()), p1);
    assert_eq!(address_of(map.get(&2).unwrap()), p2);
    assert_eq!(address_of(map.get(&3).unwrap()), p3);
    for k in 4..40usize {
        map.insert(k, k).unwrap();
    }
    assert_eq!(address_of(map.get(&1).unwrap()), p1);
    assert_eq!(address_of(map.get(&2).unwrap()), p2);
    assert_eq!(address_of(map.get(&3).unwrap()), p3);
    assert_eq!(map.insert(3, 31), Err((3, 31)));
    assert_eq!(address_of(map.get(&3).unwrap()), p3);
}

#[test]
fn arena_emplace_sees_its_slot() {
    let mut map = PressedPineMap::<u64, usize>::with_capacity(8);
    assert_eq!(map.emplace_with(5, |_, at| at.offset * 10).ok(), Some(&0));
    assert_eq!(map.emplace_with(6, |_, at| at.offset * 10).ok(), Some(&10));
    match map.emplace_with(5, |_, at| at.offset) {
        Err((k, _)) => assert_eq!(k, 5),
        Ok(_) => panic!("a live key was overwritten"),
    }
    let failed = map.try_emplace_with(7, |_, _| Err::<usize, u8>(1));
    assert_eq!(failed.err(), Some(1));
    assert_eq!(map.chunk_len(0), 2);
    assert_eq!(map.get(&7), None);
}

#[test]
fn arena_teardown_counts_failures() {
    let mut map = PressedPineMap::<u64, u64>::new();
    for k in 0..4u64 {
        map.insert(k, k).unwrap();
    }
    let result = map.clear_with(|k| if k < 3 { Err(k) } else { Ok(()) }, |_| Ok(()));
    assert_eq!(result.err().map(|f| f.count()), Some(3));
    assert_eq!(map.chunk_count(), 1);
    assert_eq!(map.chunk_len(0), 0);
    for k in 0..4u64 {
        assert_eq!(map.get(&k), None);
    }
}

#[test]
fn get_mut_changes_value_in_place() {
    let mut map = PineMap::<u64, Vec<u8>>::with_capacity(2);
    map.insert(1, vec![1]).unwrap();
    map.insert(2, vec![2]).unwrap();
    let at = map.locate(&2).unwrap();
    map.get_mut(&2).unwrap().push(3);
    assert_eq!(map.get(&2), Some(&vec![2, 3]));
    assert_eq!(map.locate(&2), Some(at));
    assert_eq!(map.get(&1), Some(&vec![1]));
    assert!(map.get_mut(&3).is_none());
}

#[test]
fn arena_get_mut_changes_value_in_place() {
    let mut map = PressedPineMap::<u64, u64>::new();
    map.insert(4, 40).unwrap();
    *map.get_mut(&4).unwrap() += 1;
    assert_eq!(map.get(&4), Some(&41));
    assert_eq!(map.locate(&4), Some(Slot { block: 0, offset: 0 }));
    assert_eq!(map.chunk_len(0), 1);
    assert!(map.get_mut(&5).is_none());
}
