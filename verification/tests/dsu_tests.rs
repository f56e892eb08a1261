use procon::DSU;

#[test]
fn new_is_empty() {
    let dsu = DSU::new();
    assert_eq!(dsu.root(0), None);
    assert_eq!(dsu.groups(), Vec::<Vec<usize>>::new());
}

#[test]
fn with_capacity_starts_as_singletons() {
    let dsu = DSU::with_capacity(3);
    assert_eq!(dsu.root(0), Some(0));
    assert_eq!(dsu.root(1), Some(1));
    assert_eq!(dsu.root(2), Some(2));
    assert_eq!(dsu.size(0), Some(1));
    assert_eq!(dsu.same(0, 1), Some(false));
    assert_eq!(dsu.groups(), vec![vec![0], vec![1], vec![2]]);
}

#[test]
fn merge_unites_roots() {
    let mut dsu = DSU::with_capacity(4);
    dsu.merge(0, 3);
    assert_eq!(dsu.root(0), dsu.root(3));
    assert_eq!(dsu.same(0, 3), Some(true));
    assert_eq!(dsu.same(0, 1), Some(false));
}

#[test]
fn merge_twice_is_a_no_op() {
    // Union idempotence: the first merge makes the pair share a
    // representative; the repeat reports nothing to do and changes
    // nothing.
    let mut dsu = DSU::with_capacity(4);
    let first = dsu.merge(0, 3);
    assert!(first.is_some());
    assert_eq!(dsu.same(0, 3), Some(true));
    let groups_before = dsu.groups();
    let second = dsu.merge(0, 3);
    assert_eq!(second, None);
    assert_eq!(dsu.groups(), groups_before);
    assert_eq!(dsu.size(0), Some(2));
}

#[test]
fn merge_by_size_keeps_larger_root() {
    let mut dsu = DSU::with_capacity(5);
    // Group {0, 1} of size 2; equal-size tie on the first merge goes
    // to the second argument's representative.
    assert_eq!(dsu.merge(0, 1), Some(1));
    // Merging a singleton into the pair keeps the pair's root.
    assert_eq!(dsu.merge(0, 2), Some(1));
    assert_eq!(dsu.size(2), Some(3));
    assert_eq!(dsu.root(2), Some(1));
}

#[test]
fn scenario_capacity_four_union_zero_three() {
    let mut dsu = DSU::with_capacity(4);
    dsu.merge(0, 3);
    assert_eq!(dsu.groups(), vec![vec![1], vec![2], vec![0, 3]]);
    assert_eq!(dsu.size(0), Some(2));
    assert_eq!(dsu.size(1), Some(1));
}

#[test]
fn size_conservation_over_union_sequences() {
    // The sum of group_size over one representative per group always
    // equals the element count, whatever merges happened.
    let mut dsu = DSU::with_capacity(6);
    let unions = [(0usize, 1usize), (2, 3), (3, 4), (0, 1), (1, 4)];
    for (a, b) in unions {
        dsu.merge(a, b);
        let total: usize = dsu.groups().iter().map(|g| dsu.size(g[0]).unwrap()).sum();
        assert_eq!(total, 6);
    }
    assert_eq!(dsu.size(5), Some(1));
    assert_eq!(dsu.size(0), Some(5));
}

#[test]
fn out_of_bounds_indices_give_none() {
    let mut dsu = DSU::with_capacity(4);
    assert_eq!(dsu.root(4), None);
    assert_eq!(dsu.root_mut(9), None);
    assert_eq!(dsu.merge(0, 4), None);
    assert_eq!(dsu.merge(7, 1), None);
    assert_eq!(dsu.same(0, 4), None);
    assert_eq!(dsu.same_mut(4, 0), None);
    assert_eq!(dsu.size(4), None);
    assert_eq!(dsu.size_mut(4), None);
}

#[test]
fn compressing_variants_agree_with_read_only_ones() {
    let mut dsu = DSU::with_capacity(8);
    for (a, b) in [(0usize, 1usize), (1, 2), (3, 4), (5, 6), (4, 5), (2, 3)] {
        dsu.merge(a, b);
    }
    for i in 0..8 {
        let root = dsu.root(i);
        let size = dsu.size(i);
        assert_eq!(dsu.root_mut(i), root);
        assert_eq!(dsu.size_mut(i), size);
    }
    for i in 0..8 {
        for j in 0..8 {
            let same = dsu.same(i, j);
            assert_eq!(dsu.same_mut(i, j), same);
        }
    }
    let groups = dsu.groups();
    assert_eq!(dsu.groups_mut(), groups);
    assert_eq!(groups, vec![vec![0, 1, 2, 3, 4, 5, 6], vec![7]]);
}
