use egg::eclass::ENode;
use egg::egraph::EGraph;
use egg::language::SymbolLang;

fn sym(op: &str, children: Vec<usize>) -> SymbolLang {
    SymbolLang::new(op.to_string(), children)
}

#[test]
fn enode_accessors() {
    let mut n = ENode { node: sym("f", vec![3, 4]), version: 2 };
    let m = ENode { node: sym("f", vec![7, 8]), version: 0 };
    let k = ENode { node: sym("f", vec![3]), version: 2 };
    let g = ENode { node: sym("g", vec![3, 4]), version: 2 };
    assert_eq!(n.discriminant(), "f".to_string());
    assert!(n.matches(&m));
    assert!(!n.matches(&k));
    assert!(!n.matches(&g));
    assert_eq!(n.children(), &[3, 4]);
    n.children_mut()[1] = 9;
    assert_eq!(n.children(), &[3, 9]);
    assert_eq!(n.version, 2);
}

#[test]
fn class_queries() {
    let mut eg: EGraph<SymbolLang, ()> = EGraph::new();
    let x = eg.add(sym("x", vec![]));
    let f = eg.add(sym("f", vec![x]));
    let g = eg.add(sym("g", vec![x, x]));
    let cx = eg.get(x).unwrap();
    assert!(!cx.is_empty());
    assert_eq!(cx.len(), 1);
    assert_eq!(cx.parents().copied().collect::<Vec<_>>(), vec![f, g, g]);
    assert_eq!(cx.leaves().len(), 1);
    assert_eq!(cx.id, x);
    let cf = eg.get(f).unwrap();
    assert!(cf.leaves().is_empty());
    let ops: Vec<String> = cf.iter().map(|n| n.node.op.clone()).collect();
    assert_eq!(ops, vec!["f".to_string()]);
    assert_eq!(cf.parents().len(), 0);
}

#[test]
fn hashcons_reuses_classes() {
    let mut eg: EGraph<SymbolLang, ()> = EGraph::new();
    let x = eg.add(sym("x", vec![]));
    let f = eg.add(sym("f", vec![x]));
    assert_eq!(eg.add(sym("f", vec![x])), f);
    assert_eq!(eg.add(sym("x", vec![])), x);
    let y = eg.add(sym("y", vec![]));
    assert_eq!(y, 2);
    eg.union(x, y);
    assert_eq!(eg.add(sym("f", vec![y])), f);
    assert_eq!(eg.classes.len(), 3);
}

#[test]
fn union_merges_nodes_into_the_survivor() {
    let mut eg: EGraph<SymbolLang, ()> = EGraph::new();
    let a = eg.add(sym("a", vec![]));
    let f = eg.add(sym("f", vec![a]));
    eg.version += 1;
    let r = eg.union(f, a);
    assert_eq!(r, f);
    assert!(eg.classes[a].is_none());
    let c = eg.get(a).unwrap();
    assert_eq!(c.id, f);
    assert_eq!(c.len(), 2);
    assert_eq!(c.version, 1);
    assert_eq!(c.parents().copied().collect::<Vec<_>>(), vec![f]);
}

#[test]
fn unique_leaves_pass() {
    let mut eg: EGraph<SymbolLang, ()> = EGraph::new();
    let a = eg.add(sym("a", vec![]));
    let f = eg.add(sym("f", vec![a]));
    eg.union(f, a);
    assert!(eg.get(f).unwrap().assert_unique_leaves().is_ok());
    let g = eg.add(sym("g", vec![f]));
    assert!(eg.get(g).unwrap().assert_unique_leaves().is_ok());
}

#[test]
fn different_leaves_are_reported() {
    let mut eg: EGraph<SymbolLang, ()> = EGraph::new();
    let f = eg.add(sym("f", vec![]));
    let a = eg.add(sym("a", vec![]));
    let b = eg.add(sym("b", vec![]));
    eg.union(f, a);
    eg.union(f, b);
    let c = eg.get(f).unwrap();
    let leaves: Vec<String> = c.leaves().iter().map(|n| n.node.op.clone()).collect();
    assert_eq!(leaves, vec!["f".to_string(), "a".to_string(), "b".to_string()]);
    let err = c.assert_unique_leaves().unwrap_err();
    assert_eq!(err.class, f);
    assert_eq!(err.first, 0);
    assert_eq!(err.others, vec![1, 2]);
}

#[test]
fn only_differing_leaves_are_listed() {
    let mut eg: EGraph<SymbolLang, ()> = EGraph::new();
    let a = eg.add(sym("a", vec![]));
    let h = eg.add(sym("h", vec![a]));
    let b = eg.add(sym("b", vec![]));
    eg.union(h, a);
    eg.union(h, b);
    let c = eg.get(h).unwrap();
    let err = c.assert_unique_leaves().unwrap_err();
    assert_eq!(err.class, h);
    assert_eq!(err.first, 1);
    assert_eq!(err.others, vec![2]);
}
