use mst::union_find::UnionFind;

#[test]
fn fresh_structure_has_singletons() {
    let mut uf = UnionFind::new(4);
    for x in 0..4 {
        assert_eq!(uf.find(x), x);
    }
}

#[test]
fn empty_structure_is_allowed() {
    let _uf = UnionFind::new(0);
}

#[test]
fn union_merges_once_then_reports_a_cycle() {
    let mut uf = UnionFind::new(5);
    assert!(uf.union(0, 1));
    assert!(uf.union(3, 4));
    assert!(!uf.union(1, 0));
    assert!(uf.union(1, 4));
    assert!(!uf.union(0, 3));
    assert_eq!(uf.find(0), uf.find(4));
    assert_ne!(uf.find(2), uf.find(0));
}

#[test]
fn self_union_is_rejected() {
    let mut uf = UnionFind::new(3);
    assert!(!uf.union(2, 2));
}

#[test]
fn long_chain_ends_in_one_set() {
    let n: usize = 200;
    let mut uf = UnionFind::new(n);
    for x in 1..n {
        assert!(uf.union(x - 1, x));
    }
    let root = uf.find(0);
    for x in 0..n {
        assert_eq!(uf.find(x), root);
    }
    assert!(!uf.union(0, n - 1));
}
