use egg::unionfind::UnionFind;

#[test]
fn find_is_idempotent() {
    let mut uf = UnionFind::new();
    for _ in 0..6 {
        uf.make_set();
    }
    uf.union(0, 1);
    uf.union(2, 1);
    uf.union(4, 5);
    uf.union(5, 2);
    for x in 0..6 {
        assert_eq!(uf.find(uf.find(x)), uf.find(x));
    }
    assert_eq!(uf.find(3), 3);
}

#[test]
fn union_joins_and_returns_the_survivor() {
    let mut uf = UnionFind::new();
    let a = uf.make_set();
    let b = uf.make_set();
    let c = uf.make_set();
    assert_eq!((a, b, c), (0, 1, 2));
    assert_eq!(uf.len(), 3);
    let r = uf.union(b, c);
    assert_eq!(r, b);
    assert_eq!(uf.find(c), b);
    let r = uf.union(c, a);
    assert_eq!(r, b);
    assert_eq!(uf.find(a), uf.find(c));
    assert_eq!(uf.find(a), b);
    assert_eq!(uf.union(a, c), b);
}

#[test]
fn copied_union_find_resolves_alike() {
    let mut uf = UnionFind::new();
    for _ in 0..4 {
        uf.make_set();
    }
    uf.union(3, 0);
    let copy = uf.duplicate();
    uf.union(1, 2);
    for x in 0..4 {
        assert_eq!(copy.find(x), if x == 0 || x == 3 { 3 } else { x });
    }
    assert_eq!(uf.find(2), 1);
}

#[test]
fn find_mut_compresses_without_changing_answers() {
    let mut uf = UnionFind::new();
    for _ in 0..5 {
        uf.make_set();
    }
    uf.union(3, 4);
    uf.union(2, 3);
    uf.union(1, 2);
    uf.union(0, 1);
    assert_eq!(uf.find_mut(4), 0);
    for x in 0..5 {
        assert_eq!(uf.find(x), 0);
        assert_eq!(uf.find_mut(x), 0);
    }
}
