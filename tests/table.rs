use open_table::entry::Node;
use open_table::table::HashTable;

fn node(s: &str) -> Node {
    Node::new(s.to_string())
}

fn is_power_of_two(n: usize) -> bool {
    n >= 1 && n & (n - 1) == 0
}

#[test]
fn new_table_is_empty_with_one_bucket() {
    let t = HashTable::new();
    assert_eq!(t.count(), 0);
    assert_eq!(t.capacity(), 1);
    let d = HashTable::default();
    assert_eq!(d.count(), 0);
    assert_eq!(d.capacity(), 1);
}

#[test]
fn node_keeps_its_key() {
    let n = node("hello");
    assert_eq!(n.key(), "hello");
    assert!(n.same_key(&node("hello")));
    assert!(!n.same_key(&node("world")));
}

#[test]
fn digest_depends_on_key_only() {
    assert_eq!(node("abc").hash(), node("abc").hash());
}

#[test]
fn concrete_scenario_five_seven() {
    let mut t = HashTable::new();
    t.insert(node("5"));
    assert_eq!(t.capacity(), 2);
    assert_eq!(t.count(), 1);
    // two entries in two buckets exceed three quarters: the table doubles
    t.insert(node("7"));
    assert_eq!(t.capacity(), 4);
    assert_eq!(t.count(), 2);
    // one entry in four buckets is below one half: the table halves
    t.delete(node("5"));
    assert_eq!(t.capacity(), 2);
    assert_eq!(t.count(), 1);
    assert!(t.search(&node("5")).is_none());
    assert!(t.search(&node("7")).is_some());
}

#[test]
fn shrink_boundary_is_inclusive() {
    // capacity 8 with 5 entries; deleting one leaves 4 / 8 = 1/2: no shrink
    let mut t = HashTable::new();
    for k in ["a", "b", "c", "d", "e"] {
        t.insert(node(k));
    }
    assert_eq!(t.capacity(), 8);
    t.delete(node("a"));
    assert_eq!(t.count(), 4);
    assert_eq!(t.capacity(), 8);
    // 3 / 8 is below one half: halves to 4
    t.delete(node("b"));
    assert_eq!(t.count(), 3);
    assert_eq!(t.capacity(), 4);
}

#[test]
fn expand_boundary_is_inclusive() {
    // 3 / 4 is not above three quarters: no growth
    let mut t = HashTable::new();
    for k in ["a", "b", "c"] {
        t.insert(node(k));
    }
    assert_eq!(t.count(), 3);
    assert_eq!(t.capacity(), 4);
    t.insert(node("d"));
    assert_eq!(t.capacity(), 8);
}

#[test]
fn round_trip_insert_then_search() {
    let mut t = HashTable::new();
    for i in 0..200 {
        let k = format!("key{}", i);
        t.insert(node(&k));
        assert!(t.search(&node(&k)).is_some());
    }
    for i in 0..200 {
        assert!(t.search(&node(&format!("key{}", i))).is_some());
    }
    assert!(t.search(&node("absent")).is_none());
}

#[test]
fn delete_makes_search_fail() {
    let mut t = HashTable::new();
    for i in 0..50 {
        t.insert(node(&i.to_string()));
    }
    for i in 0..50 {
        let before = t.count();
        let k = i.to_string();
        t.delete(node(&k));
        assert_eq!(t.count(), before - 1);
        assert!(t.search(&node(&k)).is_none());
    }
    assert_eq!(t.count(), 0);
    assert_eq!(t.capacity(), 1);
}

#[test]
fn delete_of_absent_key_changes_nothing() {
    let mut t = HashTable::new();
    t.delete(node("x"));
    assert_eq!(t.count(), 0);
    assert_eq!(t.capacity(), 1);
    t.insert(node("a"));
    t.delete(node("b"));
    assert_eq!(t.count(), 1);
    assert_eq!(t.capacity(), 2);
    assert!(t.search(&node("a")).is_some());
}

#[test]
fn capacity_never_drops_below_one() {
    let mut t = HashTable::new();
    t.insert(node("x"));
    assert_eq!(t.capacity(), 2);
    t.delete(node("x"));
    assert_eq!(t.count(), 0);
    assert_eq!(t.capacity(), 1);
    t.delete(node("x"));
    assert_eq!(t.capacity(), 1);
    t.insert(node("y"));
    assert_eq!(t.capacity(), 2);
    assert!(t.search(&node("y")).is_some());
}

#[test]
fn tombstone_does_not_break_probe_chain() {
    let mut t = HashTable::new();
    for k in ["f0", "f1", "f2", "f3"] {
        t.insert(node(k));
    }
    assert_eq!(t.capacity(), 8);
    let k1 = node("k");
    let home = k1.hash() % 8;
    let k2 = (0..10000)
        .map(|i| format!("c{}", i))
        .find(|s| node(s).hash() % 8 == home)
        .unwrap();
    t.insert(node("k"));
    t.insert(node(&k2));
    assert_eq!(t.capacity(), 8);
    let i1 = t.search(&node("k")).unwrap();
    let i2 = t.search(&node(&k2)).unwrap();
    assert_ne!(i1, i2);
    t.delete(node("k"));
    assert_eq!(t.capacity(), 8);
    assert!(t.search(&node("k")).is_none());
    assert_eq!(t.search(&node(&k2)), Some(i2));
}

#[test]
fn resize_keeps_every_entry() {
    let mut t = HashTable::new();
    let mut last_capacity = t.capacity();
    for i in 0..300 {
        t.insert(node(&format!("r{}", i)));
        if t.capacity() != last_capacity {
            for j in 0..=i {
                assert!(t.search(&node(&format!("r{}", j))).is_some());
            }
            last_capacity = t.capacity();
        }
    }
    assert_eq!(t.count(), 300);
    for i in 0..250 {
        t.delete(node(&format!("r{}", i)));
        if t.capacity() != last_capacity {
            for j in (i + 1)..300 {
                assert!(t.search(&node(&format!("r{}", j))).is_some());
            }
            last_capacity = t.capacity();
        }
    }
    assert_eq!(t.count(), 50);
}

#[test]
fn load_factor_bound_after_insert() {
    let mut t = HashTable::new();
    for i in 0..500 {
        if i % 3 == 2 {
            t.delete(node(&format!("l{}", i - 1)));
        } else {
            t.insert(node(&format!("l{}", i)));
            assert!(4 * t.count() <= 3 * t.capacity());
        }
        assert!(is_power_of_two(t.capacity()));
        assert!(t.count() < t.capacity());
    }
}

#[test]
fn inserting_same_key_twice_keeps_both() {
    let mut t = HashTable::new();
    t.insert(node("a"));
    t.insert(node("b"));
    let before = t.count();
    t.insert(node("dup"));
    t.insert(node("dup"));
    assert_eq!(t.count(), before + 2);
    assert!(t.search(&node("dup")).is_some());
    t.delete(node("dup"));
    assert_eq!(t.count(), before + 1);
    assert!(t.search(&node("dup")).is_some());
    t.delete(node("dup"));
    assert_eq!(t.count(), before);
    assert!(t.search(&node("dup")).is_none());
}
