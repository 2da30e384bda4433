use dupsonic::matcher::UnionFind;

#[test]
fn test_union_find_basic() {
    let mut uf = UnionFind::new(5);
    assert!(!uf.connected(0, 1));
    uf.union(0, 1);
    assert!(uf.connected(0, 1));
    assert!(!uf.connected(0, 2));
}

#[test]
fn test_union_find_transitive() {
    let mut uf = UnionFind::new(5);
    uf.union(0, 1);
    uf.union(1, 2);
    // 0, 1, 2 should all be connected transitively
    assert!(uf.connected(0, 2));
    assert!(!uf.connected(0, 3));
}

#[test]
fn test_union_find_all_connected() {
    let mut uf = UnionFind::new(4);
    uf.union(0, 1);
    uf.union(2, 3);
    uf.union(1, 2);
    // All should be in same group
    assert!(uf.connected(0, 3));
}

#[test]
fn roots_represent_their_sets() {
    let mut uf = UnionFind::new(6);
    uf.union(0, 1);
    uf.union(2, 3);
    uf.union(1, 3);
    for x in 0..6 {
        let root = uf.find(x);
        assert_eq!(uf.find(root), root);
        assert!(uf.connected(x, root));
    }
    // Joining two sets leaves the others alone.
    assert!(uf.connected(0, 2));
    assert!(!uf.connected(0, 4));
    assert!(!uf.connected(4, 5));
    uf.union(0, 3);
    assert!(!uf.connected(3, 5));
}
