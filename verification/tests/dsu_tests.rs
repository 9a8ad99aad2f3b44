use undigraph::DSU;

#[test]
fn test_add() {
    let mut dsu: DSU<&str> = DSU::new();
    assert_eq!(dsu.add("1"), true);
    assert_eq!(dsu.add("2"), true);
    assert_eq!(dsu.add("1"), false);
    assert_eq!(dsu.add("2"), false);
}

#[test]
fn test_union() {
    let mut dsu: DSU<&str> = DSU::new();
    assert_ne!(dsu.find("1"), dsu.find("2"));
    assert_ne!(dsu.find("1"), dsu.find("3"));
    assert_ne!(dsu.find("2"), dsu.find("3"));
    dsu.union("1", "2");
    assert_eq!(dsu.find("1"), dsu.find("2"));
    assert_ne!(dsu.find("1"), dsu.find("3"));
    assert_ne!(dsu.find("2"), dsu.find("3"));
}

#[test]
fn test_union_unchecked() {
    let mut dsu: DSU<&str> = DSU::new();
    dsu.add_unchecked("1");
    dsu.add_unchecked("2");
    dsu.add_unchecked("3");
    assert_ne!(dsu.find_unchecked("1"), dsu.find_unchecked("2"));
    assert_ne!(dsu.find_unchecked("1"), dsu.find_unchecked("3"));
    assert_ne!(dsu.find_unchecked("2"), dsu.find_unchecked("3"));
    dsu.union_unchecked("1", "2");
    assert_eq!(dsu.find_unchecked("1"), dsu.find_unchecked("2"));
    assert_ne!(dsu.find_unchecked("1"), dsu.find_unchecked("3"));
    assert_ne!(dsu.find_unchecked("2"), dsu.find_unchecked("3"));
}

#[test]
fn find_gives_slots_in_order_of_arrival() {
    let mut dsu: DSU<u64> = DSU::new();
    assert_eq!(dsu.find(70), 0);
    assert_eq!(dsu.find(50), 1);
    assert_eq!(dsu.find(70), 0);
    assert_eq!(dsu.add_unchecked(90), 2);
    assert_eq!(dsu.find_unchecked(90), 2);
}

#[test]
fn union_sets_the_first_root_under_the_second() {
    let mut dsu: DSU<u64> = DSU::new();
    assert_eq!(dsu.union(7, 8), true);
    assert_eq!(dsu.find(7), 1);
    assert_eq!(dsu.find(8), 1);
    assert_eq!(dsu.union(8, 7), false);
    assert_eq!(dsu.union(9, 7), true);
    assert_eq!(dsu.find(9), 1);
    assert_eq!(dsu.union(7, 10), true);
    assert_eq!(dsu.find(7), 3);
    assert_eq!(dsu.find(8), 3);
    assert_eq!(dsu.find(9), 3);
    assert_eq!(dsu.find(10), 3);
}

#[test]
fn union_of_a_value_with_itself_joins_nothing() {
    let mut dsu: DSU<String> = DSU::new();
    assert_eq!(dsu.union("a".to_string(), "a".to_string()), false);
    assert_eq!(dsu.find("a".to_string()), 0);
    assert_eq!(dsu.add("a".to_string()), false);
}

#[test]
fn add_after_find_changes_nothing() {
    let mut dsu: DSU<u32> = DSU::new();
    dsu.union(1, 2);
    let root = dsu.find(1);
    assert_eq!(dsu.add(1), false);
    assert_eq!(dsu.find(1), root);
    assert_eq!(dsu.add(3), true);
    assert_eq!(dsu.add(3), false);
    assert_eq!(dsu.find(1), root);
}

#[test]
fn add_unchecked_twice_leaves_the_first_slot_behind() {
    let mut dsu: DSU<&str> = DSU::new();
    assert_eq!(dsu.add_unchecked("a"), 0);
    assert_eq!(dsu.add_unchecked("b"), 1);
    dsu.union_unchecked("a", "b");
    assert_eq!(dsu.find_unchecked("a"), 1);
    assert_eq!(dsu.add_unchecked("a"), 2);
    assert_eq!(dsu.find_unchecked("a"), 2);
    assert_eq!(dsu.find_unchecked("b"), 1);
}

#[test]
fn long_chain_is_compressed() {
    let mut dsu: DSU<usize> = DSU::new();
    for i in 0..2000 {
        dsu.add(i);
    }
    for i in 0..1999 {
        assert_eq!(dsu.union_unchecked(i, i + 1), true);
    }
    for i in 0..2000 {
        assert_eq!(dsu.find_unchecked(i), 1999);
    }
}
