use simple_ht::{
    create_integer_to_integer_ht, create_simple_hash_table, HashTable, SimpleHashTable,
    SimpleHasher,
};
use rand::Rng;
use std::collections::HashSet;

#[test]
fn it_works() {
    let mut ht: SimpleHashTable<i64, i64, SimpleHasher> = create_integer_to_integer_ht();
    assert_eq!(ht.size(), 0);
    ht.insert(25, 32).unwrap();
    assert_eq!(ht.size(), 1);
    ht.insert(25, 32).unwrap();
    assert_eq!(ht.size(), 1);
    ht.insert(25, 32).unwrap();
    assert_eq!(ht.size(), 1);
    ht.insert(25, 32).unwrap();
    assert_eq!(ht.size(), 1);
    ht.insert(25, 32).unwrap();
    assert_eq!(ht.size(), 1);
    let expected = Some(32i64);
    assert_eq!(ht.has(&25), true);
    assert_eq!(ht.size(), 1);
    assert_eq!(ht.get(&25), expected);
    assert_eq!(ht.size(), 1);
    assert_eq!(ht.get(&25), expected);
    ht.insert(26, 32).unwrap();
    assert_eq!(ht.size(), 2);
    ht.insert(26, 32).unwrap();
    assert_eq!(ht.size(), 2);
    ht.insert(26, 32).unwrap();
    assert_eq!(ht.size(), 2);
    ht.insert(26, 32).unwrap();
    assert_eq!(ht.size(), 2);
    ht.insert(26, 33).unwrap();
    assert_eq!(ht.size(), 2);
    assert_eq!(*ht.get(&26).as_ref().unwrap(), 33);
    ht.delete(&26);
    assert_eq!(ht.size(), 1);
    assert!(!ht.has(&26))
}

#[test]
fn overflow_test() {
    let mut ht = create_integer_to_integer_ht();
    let sz_check: i64 = 1000000;
    for i in 0..sz_check {
        ht.insert(i, i).unwrap();
        assert_eq!(ht.size(), (i + 1) as usize);
    }
    assert_eq!(ht.size(), sz_check as usize);
}

#[test]
fn overflow_delete_test() {
    let mut ht = create_integer_to_integer_ht();
    let sz_check: i64 = 1000000;
    for i in 0..sz_check {
        ht.insert(i, i).unwrap();
        ht.delete(&i);
        assert_eq!(ht.size(), 0 as usize);
    }
}

#[test]
fn overflow_random_test() {
    let mut ht = create_integer_to_integer_ht();
    let sz_check: i64 = 1000;
    let mut hset: HashSet<i64> = HashSet::new();

    for i in 0..sz_check {
        let mut num: i64;
        loop {
            num = rand::thread_rng().gen_range(-1_000_000_000_000..1_000_000_000_000);
            if hset.insert(num) {
                break;
            }
        }
        ht.insert(num, num).unwrap();
        for item in hset.iter() {
            assert!(ht.has(&item));
        }
        assert_eq!(ht.size(), (i + 1) as usize);
    }
}

#[test]
fn all_keys_retrievable_after_growth() {
    let mut ht = create_integer_to_integer_ht();
    let n: i64 = 100000;
    for i in 0..n {
        ht.insert(i, i * 2 + 1).unwrap();
        assert_eq!(ht.size(), (i + 1) as usize);
    }
    for i in 0..n {
        assert_eq!(ht.get(&i), Some(i * 2 + 1));
    }
    assert_eq!(ht.get(&n), None);
    assert!(ht.capacity() >= n as usize);
}

#[test]
fn growth_doubles_plus_one() {
    let mut ht: SimpleHashTable<i64, i64, SimpleHasher> = create_simple_hash_table(0);
    assert_eq!(ht.capacity(), 0);
    assert_eq!(ht.get(&7), None);
    assert!(!ht.has(&7));
    ht.delete(&7);
    assert_eq!(ht.size(), 0);
    ht.insert(7, 70).unwrap();
    assert_eq!(ht.capacity(), 1);
    ht.insert(8, 80).unwrap();
    assert_eq!(ht.capacity(), 3);
    ht.insert(9, 90).unwrap();
    assert_eq!(ht.capacity(), 3);
    ht.insert(10, 100).unwrap();
    assert_eq!(ht.capacity(), 7);
    assert_eq!(ht.size(), 4);
    assert_eq!(ht.get(&7), Some(70));
    assert_eq!(ht.get(&8), Some(80));
    assert_eq!(ht.get(&9), Some(90));
    assert_eq!(ht.get(&10), Some(100));
}

#[test]
fn reinsert_updates_value_keeps_size() {
    let mut ht = create_integer_to_integer_ht();
    ht.insert(1, 10).unwrap();
    ht.insert(2, 20).unwrap();
    ht.insert(1, 11).unwrap();
    assert_eq!(ht.size(), 2);
    assert_eq!(ht.get(&1), Some(11));
    assert_eq!(ht.get(&2), Some(20));
}

#[test]
fn delete_present_key() {
    let mut ht = create_integer_to_integer_ht();
    ht.insert(5, 50).unwrap();
    ht.insert(37, 370).unwrap();
    assert_eq!(ht.size(), 2);
    assert_eq!(ht.wasted_capacity(), 0);
    ht.delete(&5);
    assert!(!ht.has(&5));
    assert_eq!(ht.get(&5), None);
    assert_eq!(ht.size(), 1);
    assert_eq!(ht.wasted_capacity(), 1);
    assert_eq!(ht.capacity(), 32);
    // 37 shares its home slot with 5 and sits behind the tombstone
    assert_eq!(ht.get(&37), Some(370));
    assert!(ht.has(&37));
}

#[test]
fn delete_absent_key() {
    let mut ht = create_integer_to_integer_ht();
    ht.insert(3, 30).unwrap();
    ht.delete(&4);
    ht.delete(&35);
    assert_eq!(ht.size(), 1);
    assert_eq!(ht.capacity(), 32);
    assert_eq!(ht.wasted_capacity(), 0);
    ht.delete(&3);
    ht.delete(&3);
    assert_eq!(ht.size(), 0);
    assert_eq!(ht.wasted_capacity(), 1);
}

#[test]
fn colliding_keys_chain_through_tombstones() {
    let mut ht = create_integer_to_integer_ht();
    for k in [1i64, 33, 65, 97] {
        ht.insert(k, k + 1).unwrap();
    }
    ht.delete(&33);
    ht.delete(&1);
    assert_eq!(ht.get(&65), Some(66));
    assert_eq!(ht.get(&97), Some(98));
    assert_eq!(ht.get(&33), None);
    ht.insert(129, 130).unwrap();
    assert_eq!(ht.size(), 3);
    assert_eq!(ht.get(&129), Some(130));
    assert_eq!(ht.get(&97), Some(98));
}

#[test]
fn tombstone_churn_grows_table() {
    let mut ht = create_integer_to_integer_ht();
    let mut last_capacity = ht.capacity();
    let mut grew = false;
    for i in 0..200i64 {
        let before = ht.wasted_capacity();
        ht.insert(4, i).unwrap();
        assert_eq!(ht.get(&4), Some(i));
        ht.delete(&4);
        assert_eq!(ht.size(), 0);
        assert!(ht.capacity() >= last_capacity);
        if ht.capacity() > last_capacity {
            grew = true;
            assert_eq!(ht.wasted_capacity(), 1);
        } else {
            assert_eq!(ht.wasted_capacity(), before + 1);
        }
        last_capacity = ht.capacity();
        assert!(ht.size() + ht.wasted_capacity() <= ht.capacity());
    }
    assert!(grew);
    ht.insert(9, 90).unwrap();
    assert_eq!(ht.get(&9), Some(90));
    assert_eq!(ht.size(), 1);
}

#[test]
fn load_never_exceeds_capacity() {
    let mut ht = create_integer_to_integer_ht();
    let mut last_capacity = ht.capacity();
    for i in 0..500i64 {
        ht.insert(i * 7, i).unwrap();
        if i % 3 == 0 {
            ht.delete(&(i * 7));
        }
        if i % 5 == 0 {
            ht.delete(&((i - 1) * 7));
        }
        assert!(ht.size() + ht.wasted_capacity() <= ht.capacity());
        assert!(ht.capacity() >= last_capacity);
        last_capacity = ht.capacity();
    }
}

#[test]
fn negative_keys() {
    let mut ht = create_integer_to_integer_ht();
    ht.insert(-1, 1).unwrap();
    ht.insert(i64::MIN, 2).unwrap();
    ht.insert(i64::MAX, 3).unwrap();
    assert_eq!(ht.get(&-1), Some(1));
    assert_eq!(ht.get(&i64::MIN), Some(2));
    assert_eq!(ht.get(&i64::MAX), Some(3));
    assert_eq!(ht.size(), 3);
}
