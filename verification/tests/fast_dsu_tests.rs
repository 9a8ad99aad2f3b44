use undigraph::FastDSU;

#[test]
fn chain_of_singletons_is_one_class() {
    for k in 1..20usize {
        let mut dsu = FastDSU::new();
        for x in 0..k {
            dsu.add(10 * x);
        }
        for x in 0..k - 1 {
            assert_eq!(dsu.union(10 * x, 10 * (x + 1)), true);
        }
        let (root, size) = dsu.find_all(10 * (k - 1));
        assert_eq!(root, 0);
        assert_eq!(size, k);
        let map = dsu.retain_map();
        assert_eq!(map.len(), k);
        for x in 0..k {
            assert_eq!(map[&(10 * x)], true);
        }
    }
}

#[test]
fn ties_leave_the_first_root() {
    let mut dsu = FastDSU::new();
    dsu.add(1);
    dsu.add(2);
    assert_eq!(dsu.union(1, 2), true);
    assert_eq!(dsu.find(&1), 1);
    assert_eq!(dsu.find(&2), 1);
    assert_eq!(dsu.union(2, 1), false);
    assert_eq!(dsu.find_all(2), (1, 2));
}

#[test]
fn the_smaller_class_joins_the_larger() {
    let mut dsu = FastDSU::new();
    for x in 1..=5 {
        dsu.add(x);
    }
    dsu.union(1, 2);
    assert_eq!(dsu.union(3, 2), true);
    assert_eq!(dsu.find(&3), 1);
    assert_eq!(dsu.union(4, 5), true);
    assert_eq!(dsu.find(&5), 4);
    assert_eq!(dsu.union(5, 3), true);
    assert_eq!(dsu.find(&4), 1);
    assert_eq!(dsu.find_all(5), (1, 5));
}

#[test]
fn retain_map_marks_the_largest_class() {
    let mut dsu = FastDSU::new();
    for x in [3usize, 8, 1, 9, 4, 7] {
        dsu.add(x);
    }
    dsu.union(3, 8);
    dsu.union(8, 1);
    dsu.union(9, 4);
    let map = dsu.retain_map();
    assert_eq!(map.len(), 6);
    assert_eq!(map[&3], true);
    assert_eq!(map[&8], true);
    assert_eq!(map[&1], true);
    assert_eq!(map[&9], false);
    assert_eq!(map[&4], false);
    assert_eq!(map[&7], false);
}

#[test]
fn retain_map_takes_one_of_two_largest() {
    let mut dsu = FastDSU::new();
    for x in 0..4usize {
        dsu.add(x);
    }
    dsu.union(0, 1);
    dsu.union(2, 3);
    let map = dsu.retain_map();
    assert_eq!(map[&0], map[&1]);
    assert_eq!(map[&2], map[&3]);
    assert_ne!(map[&0], map[&2]);
}

#[test]
fn find_reads_without_changing() {
    let mut dsu = FastDSU::new();
    for x in 0..6usize {
        dsu.add(x);
    }
    dsu.union(0, 1);
    dsu.union(2, 3);
    dsu.union(3, 1);
    assert_eq!(dsu.find(&3), dsu.find(&0));
    assert_eq!(dsu.find(&2), dsu.find(&1));
    assert_eq!(dsu.find(&4), 4);
    assert_eq!(dsu.find_all(4), (4, 1));
    assert_eq!(dsu.find_all(2).1, 4);
}
