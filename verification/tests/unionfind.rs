use region_labelling::unionfind::DisjointSetForest;

#[test]
fn new_forest_has_singleton_classes() {
    let mut forest = DisjointSetForest::new(5);
    assert_eq!(forest.len(), 5);
    for i in 0..5 {
        assert_eq!(forest.root(i), i);
    }
    assert!(!forest.find(0, 1));
    assert!(forest.find(3, 3));
}

#[test]
fn empty_forest_has_no_elements() {
    let forest = DisjointSetForest::new(0);
    assert_eq!(forest.len(), 0);
}

#[test]
fn union_merges_two_classes() {
    let mut forest = DisjointSetForest::new(6);
    forest.union(0, 1);
    forest.union(2, 3);
    assert!(forest.find(0, 1));
    assert!(forest.find(2, 3));
    assert!(!forest.find(1, 2));
    assert!(!forest.find(0, 4));
    forest.union(1, 3);
    assert!(forest.find(0, 2));
    assert!(forest.find(0, 3));
    assert!(!forest.find(0, 4));
    assert!(!forest.find(4, 5));
}

#[test]
fn union_within_one_class_changes_nothing() {
    let mut forest = DisjointSetForest::new(4);
    forest.union(0, 1);
    forest.union(1, 0);
    forest.union(2, 2);
    assert!(forest.find(0, 1));
    assert!(!forest.find(0, 2));
    assert!(!forest.find(2, 3));
}

#[test]
fn root_is_shared_by_a_class_and_is_its_own_root() {
    let mut forest = DisjointSetForest::new(8);
    for i in 0..7 {
        forest.union(i, i + 1);
    }
    let top = forest.root(0);
    assert!(top < 8);
    for i in 0..8 {
        assert_eq!(forest.root(i), top);
    }
    assert_eq!(forest.root(top), top);
}

#[test]
fn classes_do_not_depend_on_the_order_of_unions() {
    let mut a = DisjointSetForest::new(6);
    a.union(0, 1);
    a.union(1, 2);
    a.union(4, 5);
    let mut b = DisjointSetForest::new(6);
    b.union(5, 4);
    b.union(2, 0);
    b.union(2, 1);
    for i in 0..6 {
        for j in 0..6 {
            assert_eq!(a.find(i, j), b.find(i, j));
        }
    }
}

#[test]
fn long_chains_are_followed_to_the_root() {
    let n = 1000;
    let mut forest = DisjointSetForest::new(n);
    for i in 1..n {
        forest.union(i - 1, i);
    }
    let top = forest.root(n - 1);
    assert_eq!(forest.root(0), top);
    assert!(forest.find(0, n - 1));
}
