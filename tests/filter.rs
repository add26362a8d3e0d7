use egg::egraph::EGraph;
use egg::filter::{add_reachable, filter, reachable_classes};
use egg::language::SymbolLang;

fn sym(op: &str, children: Vec<usize>) -> SymbolLang {
    SymbolLang::new(op.to_string(), children)
}

fn retained(eg: &EGraph<SymbolLang, ()>) -> Vec<usize> {
    let mut ids = Vec::new();
    for (i, c) in eg.classes.iter().enumerate() {
        if c.is_some() {
            ids.push(i);
        }
    }
    ids
}

#[test]
fn filter_simple() {
    let mut eg: EGraph<SymbolLang, ()> = EGraph::new();
    let x = eg.add(sym("x", vec![]));
    let f = eg.add(sym("f", vec![x]));
    eg.version += 1;
    let x_again = eg.add(sym("x", vec![]));
    let g = eg.add(sym("g", vec![x_again]));
    assert_eq!(x_again, x);
    let new = filter(&eg);
    assert!(new.classes[g].is_some());
    assert!(new.classes[x].is_some());
    assert!(new.classes[f].is_none());
    assert_eq!(retained(&new), vec![x, g]);
    assert_eq!(new.version, 1);
}

#[test]
fn whitelist_covers_roots_and_stays_in_graph() {
    let mut eg: EGraph<SymbolLang, ()> = EGraph::new();
    let a = eg.add(sym("a", vec![]));
    let b = eg.add(sym("b", vec![]));
    let h = eg.add(sym("h", vec![a, b]));
    eg.version += 1;
    let k = eg.add(sym("k", vec![h]));
    let w = reachable_classes(&eg);
    assert_eq!(w, vec![true, true, true, true]);
    assert!(w[k]);
    eg.version += 1;
    let c = eg.add(sym("c", vec![]));
    let w = reachable_classes(&eg);
    assert_eq!(w, vec![false, false, false, false, true]);
    assert!(w[c]);
}

#[test]
fn filter_twice_keeps_the_same_classes() {
    let mut eg: EGraph<SymbolLang, ()> = EGraph::new();
    let x = eg.add(sym("x", vec![]));
    let _f = eg.add(sym("f", vec![x]));
    eg.version += 1;
    let y = eg.add(sym("y", vec![]));
    let _g = eg.add(sym("g", vec![x, y]));
    let once = filter(&eg);
    let twice = filter(&once);
    assert_eq!(retained(&once), retained(&twice));
    assert_eq!(retained(&once), vec![0, 2, 3]);
}

#[test]
fn filter_ends_on_a_cycle() {
    let mut eg: EGraph<SymbolLang, ()> = EGraph::new();
    let x = eg.add(sym("x", vec![]));
    let f = eg.add(sym("f", vec![x]));
    let r = eg.union(f, x);
    assert_eq!(r, f);
    assert_eq!(eg.find(x), f);
    let new = filter(&eg);
    assert_eq!(retained(&new), vec![f]);
    let class = new.classes[f].as_ref().unwrap();
    assert_eq!(class.len(), 2);
}

#[test]
fn filter_leaves_its_input_alone() {
    let mut eg: EGraph<SymbolLang, ()> = EGraph::new();
    let x = eg.add(sym("x", vec![]));
    let _f = eg.add(sym("f", vec![x]));
    eg.version += 1;
    let _g = eg.add(sym("g", vec![x]));
    let before: Vec<Option<(usize, usize, usize)>> = eg
        .classes
        .iter()
        .map(|c| c.as_ref().map(|c| (c.id, c.version, c.len())))
        .collect();
    let _new = filter(&eg);
    let after: Vec<Option<(usize, usize, usize)>> = eg
        .classes
        .iter()
        .map(|c| c.as_ref().map(|c| (c.id, c.version, c.len())))
        .collect();
    assert_eq!(before, after);
    assert_eq!(eg.version, 1);
    assert_eq!(retained(&eg), vec![0, 1, 2]);
}

#[test]
fn filter_with_no_roots_keeps_nothing() {
    let mut eg: EGraph<SymbolLang, ()> = EGraph::new();
    let x = eg.add(sym("x", vec![]));
    let _f = eg.add(sym("f", vec![x]));
    eg.version += 1;
    let new = filter(&eg);
    assert!(retained(&new).is_empty());
    assert_eq!(new.classes.len(), 2);
    assert_eq!(new.find(x), x);
}

#[test]
fn filter_keeps_the_union_find() {
    let mut eg: EGraph<SymbolLang, ()> = EGraph::new();
    let a = eg.add(sym("a", vec![]));
    let b = eg.add(sym("b", vec![]));
    let c = eg.add(sym("c", vec![]));
    eg.union(c, a);
    let new = filter(&eg);
    assert_eq!(new.find(a), c);
    assert_eq!(new.find(b), b);
    assert_eq!(new.find(c), c);
}

#[test]
fn bump_version_moves_the_roots() {
    let mut eg: EGraph<SymbolLang, ()> = EGraph::new();
    let x = eg.add(sym("x", vec![]));
    eg.bump_version();
    assert_eq!(eg.version, 1);
    let y = eg.add(sym("y", vec![]));
    let new = filter(&eg);
    assert_eq!(retained(&new), vec![y]);
    assert_eq!(new.get(x).is_none(), true);
}

#[test]
fn walk_stops_at_marked_classes() {
    let mut eg: EGraph<SymbolLang, ()> = EGraph::new();
    let x = eg.add(sym("x", vec![]));
    let f = eg.add(sym("f", vec![x]));
    let g = eg.add(sym("g", vec![f]));
    let mut w = vec![false, true, false];
    add_reachable(g, &eg, &mut w);
    assert_eq!(w, vec![false, true, true]);
    let mut w = vec![false, false, false];
    add_reachable(g, &eg, &mut w);
    assert_eq!(w, vec![true, true, true]);
    assert!(w[x] && w[f] && w[g]);
}

#[test]
fn walk_from_a_marked_class_changes_nothing() {
    let mut eg: EGraph<SymbolLang, ()> = EGraph::new();
    let x = eg.add(sym("x", vec![]));
    let f = eg.add(sym("f", vec![x]));
    let mut w = vec![false, true];
    add_reachable(f, &eg, &mut w);
    assert_eq!(w, vec![false, true]);
}

#[test]
fn walk_on_a_self_cycle_marks_the_class_once() {
    let mut eg: EGraph<SymbolLang, ()> = EGraph::new();
    let x = eg.add(sym("x", vec![]));
    let f = eg.add(sym("f", vec![x]));
    eg.union(f, x);
    let mut w = vec![false, false];
    add_reachable(f, &eg, &mut w);
    assert_eq!(w, vec![false, true]);
}
