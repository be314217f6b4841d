use batcher::rbtree::RBTreeMap;

#[test]
fn test_insert_and_get() {
    let mut map = RBTreeMap::new();
    map.insert(4, "value4");
    map.insert(5, "value5");
    map.insert(3, "value3");
    map.insert(1, "value1");
    map.insert(2, "value2");
    assert_eq!(map.get(&1), Some(&"value1"));
    assert_eq!(map.get(&2), Some(&"value2"));
    assert_eq!(map.get(&4), Some(&"value4"));
    assert_eq!(map.get(&3), Some(&"value3"));
    assert_eq!(map.get(&5), Some(&"value5"));
    assert_eq!(map.get(&6), None);
}

#[test]
fn test_insert_overwrite() {
    let mut map = RBTreeMap::new();
    map.insert(10, "value10");
    assert_eq!(map.get(&10), Some(&"value10"));

    // Insert with the same key but different value
    map.insert(10, "new_value10");
    assert_eq!(map.get(&10), Some(&"new_value10"));
}

#[test]
fn test_remove() {
    let mut map = RBTreeMap::new();
    map.insert(10, "value10");
    map.insert(20, "value20");
    map.insert(5, "value5");

    assert_eq!(map.remove(&10), Some("value10"));
    assert_eq!(map.get(&10), None);

    assert_eq!(map.remove(&5), Some("value5"));
    assert_eq!(map.get(&5), None);

    assert_eq!(map.remove(&20), Some("value20"));
    assert_eq!(map.get(&20), None);

    // Try to remove a non-existent key
    assert_eq!(map.remove(&30), None);
}

#[test]
fn test_remove_from_empty() {
    let mut map: RBTreeMap<i32, &str> = RBTreeMap::new();
    assert_eq!(map.remove(&10), None);
}

#[test]
fn test_get_empty() {
    let map: RBTreeMap<i32, &str> = RBTreeMap::new();
    assert_eq!(map.get(&10), None);
}

#[test]
fn test_insert_and_remove_sequential() {
    let mut map = RBTreeMap::new();

    for i in 0..100 {
        map.insert(i, i * 2);
        assert_eq!(map.get(&i), Some(&(i * 2)));
    }

    for i in 0..100 {
        assert_eq!(map.remove(&i), Some(i * 2));
        assert_eq!(map.get(&i), None);
    }
}

struct SimpleRng {
    seed: u64,
}

impl SimpleRng {
    const A: u64 = 6364136223846793005;
    const C: u64 = 1;

    fn new(seed: u64) -> Self {
        SimpleRng { seed }
    }

    fn next(&mut self) -> u64 {
        self.seed = self.seed.wrapping_mul(Self::A).wrapping_add(Self::C);
        self.seed
    }

    fn gen_range(&mut self, min: u64, max: u64) -> u64 {
        min + (self.next() % (max - min))
    }
}

#[test]
fn test_random_inserts_and_gets() {
    let mut map = RBTreeMap::new();
    let mut rng = SimpleRng::new(114514);
    let mut keys = Vec::new();

    // Insert 1000 pseudo-random key-value pairs
    for _ in 0..1000 {
        let key = rng.gen_range(0, 50000);
        let value = rng.gen_range(0, 500000);
        if keys.iter().any(|(k, _)| k == &key) {
            continue;
        }
        map.insert(key, value);
        keys.push((key, value));
    }

    // Check if all inserted keys return the correct values
    for (key, value) in keys {
        assert_eq!(map.get(&key), Some(&value));
    }
}

#[test]
fn test_random_inserts_and_removals() {
    let mut map = RBTreeMap::new();
    let mut rng = SimpleRng::new(1919);
    let mut keys = Vec::new();

    // Insert 1000 pseudo-random key-value pairs
    for _ in 0..1000 {
        let key = rng.gen_range(0, 50000);
        let value = rng.gen_range(0, 500000);
        if keys.iter().any(|(k, _)| k == &key) {
            continue;
        }
        map.insert(key, value);
        keys.push((key, value));
    }

    // Randomly remove keys
    for (key, value) in keys {
        assert_eq!(map.get(&key), Some(&value));
        assert_eq!(map.remove(&key), Some(value));
        assert_eq!(map.get(&key), None); // Ensure the key is removed
    }

    // Ensure the map is empty after all removals
    assert_eq!(map.get(&rng.gen_range(0, 50000)), None);
}

#[test]
fn test_random_inserts_gets_and_removals_stress() {
    let mut map = RBTreeMap::new();
    let mut rng = SimpleRng::new(810);
    let mut keys = Vec::new();

    // Insert 10,000 pseudo-random key-value pairs
    for _ in 0..10_000 {
        let key = rng.gen_range(0, 50000);
        let value = rng.gen_range(0, 500000);
        if keys.iter().any(|(k, _)| k == &key) {
            continue;
        }
        map.insert(key, value);
        keys.push((key, value));
    }

    // Randomly get and remove 5,000 entries
    for _ in (0..5000).rev() {
        let index = rng.gen_range(0, keys.len() as u64) as usize;
        let (key, value) = keys.remove(index);
        assert_eq!(map.get(&key), Some(&value));
        assert_eq!(map.remove(&key), Some(value));
        assert_eq!(map.get(&key), None); // Ensure the key is removed
    }

    // Check remaining keys
    for (key, value) in keys {
        assert_eq!(map.get(&key), Some(&value));
    }
}

#[test]
fn default_map_is_empty() {
    let map: RBTreeMap<u64, u64> = RBTreeMap::default();
    assert_eq!(map.get(&0), None);
    assert_eq!(map.get(&u64::MAX), None);
}

#[test]
fn removal_of_a_node_with_two_children_keeps_the_rest() {
    let mut map = RBTreeMap::new();
    for key in [50, 30, 70, 20, 40, 60, 80, 35, 45, 42] {
        map.insert(key, key * 10);
    }
    assert_eq!(map.remove(&50), Some(500));
    assert_eq!(map.get(&50), None);
    for key in [30, 70, 20, 40, 60, 80, 35, 45, 42] {
        assert_eq!(map.get(&key), Some(&(key * 10)));
    }
    assert_eq!(map.remove(&40), Some(400));
    assert_eq!(map.remove(&40), None);
    for key in [30, 70, 20, 60, 80, 35, 45, 42] {
        assert_eq!(map.get(&key), Some(&(key * 10)));
    }
}

#[test]
fn descending_and_zigzag_inserts_are_found_again() {
    let mut map = RBTreeMap::new();
    for key in (0..200u32).rev() {
        map.insert(key, key + 1);
    }
    for key in [1000u32, 500, 750, 600, 700, 650] {
        map.insert(key, key + 1);
    }
    for key in 0..200u32 {
        assert_eq!(map.get(&key), Some(&(key + 1)));
    }
    for key in [1000u32, 500, 750, 600, 700, 650] {
        assert_eq!(map.get(&key), Some(&(key + 1)));
    }
    assert_eq!(map.get(&200), None);
    assert_eq!(map.get(&625), None);
}

#[test]
fn negative_keys_keep_their_order() {
    let mut map = RBTreeMap::new();
    map.insert(-5i64, 'a');
    map.insert(7, 'b');
    map.insert(0, 'c');
    map.insert(i64::MIN, 'd');
    map.insert(i64::MAX, 'e');
    assert_eq!(map.get(&-5), Some(&'a'));
    assert_eq!(map.get(&i64::MIN), Some(&'d'));
    assert_eq!(map.get(&i64::MAX), Some(&'e'));
    assert_eq!(map.remove(&0), Some('c'));
    assert_eq!(map.get(&0), None);
    assert_eq!(map.get(&7), Some(&'b'));
}
