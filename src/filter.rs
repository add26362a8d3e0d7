use vstd::prelude::*;

use crate::eclass::{class_copy, EClass};
use crate::egraph::{class_at, class_wf, present, succ, EGraph};
use crate::language::Language;
use crate::Id;

verus! {

/// A class of the current generation: the collector's roots.
pub open spec fn is_root<L, D>(g: &EGraph<L, D>, i: int) -> bool {
    present(g, i) && class_at(g, i).version == g.version
}

/// `p` is a walk along child edges.
pub open spec fn is_path<L: Language, D>(g: &EGraph<L, D>, p: Seq<int>) -> bool {
    &&& p.len() >= 1
    &&& forall|k: int| 0 <= k < p.len() - 1 ==> succ(g, #[trigger] p[k], p[k + 1])
}

/// A walk along child edges leads from `s` to `j`.
pub open spec fn reaches<L: Language, D>(g: &EGraph<L, D>, s: int, j: int) -> bool {
    exists|p: Seq<int>| is_path(g, p) && p[0] == s && p.last() == j
}

/// `j` is reached from some root.
pub open spec fn reachable<L: Language, D>(g: &EGraph<L, D>, j: int) -> bool {
    exists|r: int| is_root(g, r) && reaches(g, r, j)
}

/// Every child class of a marked class is marked.
pub open spec fn closed<L: Language, D>(g: &EGraph<L, D>, w: Seq<bool>) -> bool {
    forall|i: int, j: int|
        0 <= i < w.len() && w[i] && #[trigger] succ(g, i, j) ==> 0 <= j < w.len() && w[j]
}

/// The number of unmarked entries.
pub open spec fn count_unmarked(w: Seq<bool>) -> nat
    decreases w.len(),
{
    if w.len() == 0 {
        0
    } else {
        count_unmarked(w.drop_last()) + if w.last() {
            0nat
        } else {
            1nat
        }
    }
}

proof fn lemma_mark_one(w: Seq<bool>, c: int)
    requires
        0 <= c < w.len(),
        !w[c],
    ensures
        count_unmarked(w.update(c, true)) + 1 == count_unmarked(w),
    decreases w.len(),
{
    let u = w.update(c, true);
    if c < w.len() - 1 {
        assert(u.drop_last() =~= w.drop_last().update(c, true));
        lemma_mark_one(w.drop_last(), c);
    } else {
        assert(u.drop_last() =~= w.drop_last());
    }
}

/// A child class of a stored class is stored.
pub proof fn lemma_succ_present<L: Language, D>(g: &EGraph<L, D>, i: int, j: int)
    requires
        g.wf(),
        succ(g, i, j),
    ensures
        present(g, j),
{
    assert(class_wf(g, i));
    let (k, m) = choose|k: int, m: int|
        0 <= k < class_at(g, i).nodes@.len() && 0 <= m < class_at(
            g,
            i,
        ).nodes@[k].node.children_spec().len() && j == g.unionfind@[class_at(
            g,
            i,
        ).nodes@[k].node.children_spec()[m] as int];
    assert(class_at(g, i).nodes@[k].node.children_spec()[m] < g.classes@.len());
}

/// A walk from a marked class in a closed marking stays among marked classes.
pub proof fn lemma_closed_contains_reached<L: Language, D>(
    g: &EGraph<L, D>,
    w: Seq<bool>,
    s: int,
    j: int,
)
    requires
        closed(g, w),
        0 <= s < w.len(),
        w[s],
        reaches(g, s, j),
    ensures
        0 <= j < w.len(),
        w[j],
{
    let p = choose|p: Seq<int>| is_path(g, p) && p[0] == s && p.last() == j;
    lemma_closed_path_prefix(g, w, p, p.len() - 1);
}

proof fn lemma_closed_path_prefix<L: Language, D>(g: &EGraph<L, D>, w: Seq<bool>, p: Seq<int>, k: int)
    requires
        closed(g, w),
        is_path(g, p),
        0 <= p[0] < w.len(),
        w[p[0]],
        0 <= k < p.len(),
    ensures
        0 <= p[k] < w.len(),
        w[p[k]],
    decreases k,
{
    if k > 0 {
        lemma_closed_path_prefix(g, w, p, k - 1);
        assert(succ(g, p[k - 1], p[k]));
    }
}

/// One more child edge extends a walk.
pub proof fn lemma_reaches_step<L: Language, D>(g: &EGraph<L, D>, s: int, i: int, j: int)
    requires
        reaches(g, s, i),
        succ(g, i, j),
    ensures
        reaches(g, s, j),
{
    let p = choose|p: Seq<int>| is_path(g, p) && p[0] == s && p.last() == i;
    let q = p.push(j);
    assert forall|k: int| 0 <= k < q.len() - 1 implies succ(g, #[trigger] q[k], q[k + 1]) by {
        if k < p.len() - 1 {
            assert(q[k] == p[k] && q[k + 1] == p[k + 1]);
            assert(succ(g, p[k], p[k + 1]));
        }
    }
    assert(is_path(g, q) && q[0] == s && q.last() == j);
}

/// Every class stands at the start of a walk to itself.
pub proof fn lemma_reaches_self<L: Language, D>(g: &EGraph<L, D>, s: int)
    ensures
        reaches(g, s, s),
{
    let p = seq![s];
    assert(is_path(g, p) && p[0] == s && p.last() == s);
}

} // verus!

verus! {

/// A walk along child edges leads from `s` to `j` through classes that `w`
/// leaves unmarked, all but `j` itself.
pub open spec fn reaches_unmarked<L: Language, D>(
    g: &EGraph<L, D>,
    w: Seq<bool>,
    s: int,
    j: int,
) -> bool {
    exists|p: Seq<int>|
        is_path(g, p) && p[0] == s && p.last() == j && forall|k: int|
            0 <= k < p.len() - 1 ==> 0 <= #[trigger] p[k] < w.len() && !w[p[k]]
}

proof fn lemma_unmarked_self<L: Language, D>(g: &EGraph<L, D>, w: Seq<bool>, s: int)
    ensures
        reaches_unmarked(g, w, s, s),
{
    let p = seq![s];
    assert(is_path(g, p) && p[0] == s && p.last() == s);
}

proof fn lemma_unmarked_step<L: Language, D>(
    g: &EGraph<L, D>,
    w: Seq<bool>,
    s: int,
    i: int,
    j: int,
)
    requires
        reaches_unmarked(g, w, s, i),
        0 <= i < w.len(),
        !w[i],
        succ(g, i, j),
    ensures
        reaches_unmarked(g, w, s, j),
{
    let p = choose|p: Seq<int>|
        is_path(g, p) && p[0] == s && p.last() == i && forall|k: int|
            0 <= k < p.len() - 1 ==> 0 <= #[trigger] p[k] < w.len() && !w[p[k]];
    let q = p.push(j);
    assert forall|k: int| 0 <= k < q.len() - 1 implies succ(g, #[trigger] q[k], q[k + 1]) by {
        if k < p.len() - 1 {
            assert(q[k] == p[k] && q[k + 1] == p[k + 1]);
            assert(succ(g, p[k], p[k + 1]));
        }
    }
    assert forall|k: int| 0 <= k < q.len() - 1 implies 0 <= #[trigger] q[k] < w.len() && !w[q[k]] by {
        assert(q[k] == p[k]);
    }
    assert(is_path(g, q) && q[0] == s && q.last() == j);
}

proof fn lemma_unmarked_reaches<L: Language, D>(g: &EGraph<L, D>, w: Seq<bool>, s: int, j: int)
    requires
        reaches_unmarked(g, w, s, j),
    ensures
        reaches(g, s, j),
{
    let p = choose|p: Seq<int>|
        is_path(g, p) && p[0] == s && p.last() == j && forall|k: int|
            0 <= k < p.len() - 1 ==> 0 <= #[trigger] p[k] < w.len() && !w[p[k]];
    assert(is_path(g, p) && p[0] == s && p.last() == j);
}

/// Where every class newly marked in `w` (marked there, not in `w0`) has its
/// child classes marked, a walk from a marked `s` through classes unmarked in
/// `w0` ends at a class marked in `w`.
proof fn lemma_unmarked_walk_marked<L: Language, D>(
    g: &EGraph<L, D>,
    w0: Seq<bool>,
    w: Seq<bool>,
    s: int,
    j: int,
)
    requires
        w.len() == w0.len(),
        0 <= s < w.len(),
        w[s],
        forall|i: int, j: int|
            0 <= i < w.len() && w[i] && !w0[i] && #[trigger] succ(g, i, j) ==> 0 <= j < w.len()
                && w[j],
        reaches_unmarked(g, w0, s, j),
    ensures
        0 <= j < w.len(),
        w[j],
{
    let p = choose|p: Seq<int>|
        is_path(g, p) && p[0] == s && p.last() == j && forall|k: int|
            0 <= k < p.len() - 1 ==> 0 <= #[trigger] p[k] < w0.len() && !w0[p[k]];
    lemma_unmarked_prefix(g, w0, w, p, p.len() - 1);
}

proof fn lemma_unmarked_prefix<L: Language, D>(
    g: &EGraph<L, D>,
    w0: Seq<bool>,
    w: Seq<bool>,
    p: Seq<int>,
    k: int,
)
    requires
        w.len() == w0.len(),
        is_path(g, p),
        0 <= p[0] < w.len(),
        w[p[0]],
        forall|k: int| 0 <= k < p.len() - 1 ==> 0 <= #[trigger] p[k] < w0.len() && !w0[p[k]],
        forall|i: int, j: int|
            0 <= i < w.len() && w[i] && !w0[i] && #[trigger] succ(g, i, j) ==> 0 <= j < w.len()
                && w[j],
        0 <= k < p.len(),
    ensures
        0 <= p[k] < w.len(),
        w[p[k]],
    decreases k,
{
    if k > 0 {
        lemma_unmarked_prefix(g, w0, w, p, k - 1);
        assert(succ(g, p[k - 1], p[k]));
        assert(0 <= p[k - 1] < w0.len() && !w0[p[k - 1]]);
    }
}

/// The state of the walk from `id`: `w` extends `w0`, `id` is newly marked,
/// every new mark is a stored class reached from `id` through classes unmarked
/// in `w0`, the stack holds new marks once each, and every new mark off the
/// stack, but `cur`, has its child classes marked.
pub open spec fn walk_state<L: Language, D>(
    g: &EGraph<L, D>,
    w0: Seq<bool>,
    id: int,
    w: Seq<bool>,
    stack: Seq<Id>,
    cur: int,
) -> bool {
    &&& w.len() == w0.len()
    &&& 0 <= id < w.len()
    &&& w[id]
    &&& !w0[id]
    &&& forall|i: int| 0 <= i < w.len() && w0[i] ==> #[trigger] w[i]
    &&& forall|i: int|
        0 <= i < w.len() && #[trigger] w[i] && !w0[i] ==> reaches_unmarked(g, w0, id, i) && present(
            g,
            i,
        )
    &&& forall|t: int|
        0 <= t < stack.len() ==> #[trigger] stack[t] < w.len() && w[stack[t] as int]
            && !w0[stack[t] as int]
    &&& stack.no_duplicates()
    &&& forall|i: int, j: int|
        0 <= i < w.len() && i != cur && w[i] && !w0[i] && !stack.contains(i as Id)
            && #[trigger] succ(g, i, j) ==> 0 <= j < w.len() && w[j]
}

/// Marks `id` and every class reached from it along child edges, children taken
/// through their representatives. A class already marked is not entered again:
/// that ends the walk on a cyclic graph, and a marked `id` leaves the marks as
/// they were. Every newly marked class is stored and has its child classes marked.
pub fn add_reachable<L: Language, D>(id: Id, egraph: &EGraph<L, D>, whitelist: &mut Vec<bool>)
    requires
        egraph.wf(),
        old(whitelist)@.len() == egraph.classes@.len(),
        present(egraph, id as int),
    ensures
        final(whitelist)@.len() == old(whitelist)@.len(),
        final(whitelist)@[id as int],
        old(whitelist)@[id as int] ==> final(whitelist)@ == old(whitelist)@,
        forall|i: int|
            0 <= i < final(whitelist)@.len() ==> (#[trigger] final(whitelist)@[i] <==> (
            old(whitelist)@[i] || (!old(whitelist)@[id as int] && reaches_unmarked(
                egraph,
                old(whitelist)@,
                id as int,
                i,
            )))),
        forall|i: int, j: int|
            0 <= i < final(whitelist)@.len() && final(whitelist)@[i] && !old(whitelist)@[i]
                && #[trigger] succ(egraph, i, j) ==> 0 <= j < final(whitelist)@.len()
                && final(whitelist)@[j],
        forall|i: int|
            0 <= i < final(whitelist)@.len() && #[trigger] final(whitelist)@[i]
                && !old(whitelist)@[i] ==> present(egraph, i),
{
    if whitelist[id] {
        return;
    }
    let n = whitelist.len();
    let ghost w0 = whitelist@;
    proof {
        lemma_mark_one(whitelist@, id as int);
        lemma_unmarked_self(egraph, w0, id as int);
    }
    whitelist.set(id, true);
    let mut stack: Vec<Id> = Vec::new();
    stack.push(id);
    proof {
        assert(stack@[0] == id);
        assert forall|i: int, j: int|
            0 <= i < n && i != -1 && whitelist@[i] && !w0[i] && !stack@.contains(i as Id)
                && #[trigger] succ(egraph, i, j) implies 0 <= j < n && whitelist@[j] by {
            assert(i == id);
        }
        assert(walk_state(egraph, w0, id as int, whitelist@, stack@, -1));
    }
    while stack.len() > 0
        invariant
            egraph.wf(),
            n == egraph.classes@.len(),
            w0 == old(whitelist)@,
            w0.len() == n,
            whitelist@.len() == n,
            walk_state(egraph, w0, id as int, whitelist@, stack@, -1),
        decreases 2 * count_unmarked(whitelist@) + stack@.len(),
    {
        let ghost measure0 = 2 * count_unmarked(whitelist@) + stack@.len();
        let ghost stack0 = stack@;
        let cur = stack.pop().unwrap();
        proof {
            assert(stack@ =~= stack0.drop_last());
            assert(stack0.last() == cur);
            assert(stack0[stack0.len() - 1] == cur);
            if stack@.contains(cur) {
                let t = choose|t: int| 0 <= t < stack@.len() && stack@[t] == cur;
                assert(stack0[t] == stack0[stack0.len() - 1]);
            }
            assert forall|t: int| 0 <= t < stack@.len() implies #[trigger] stack@[t] < n
                && whitelist@[stack@[t] as int] && !w0[stack@[t] as int] by {
                assert(stack@[t] == stack0[t]);
            }
            assert forall|i: int, j: int|
                0 <= i < n && i != cur && whitelist@[i] && !w0[i] && !stack@.contains(i as Id)
                    && #[trigger] succ(egraph, i, j) implies 0 <= j < n && whitelist@[j] by {
                if stack0.contains(i as Id) {
                    let t = choose|t: int| 0 <= t < stack0.len() && stack0[t] == i as Id;
                    if t < stack0.len() - 1 {
                        assert(stack@[t] == i as Id);
                    }
                }
            }
            assert(walk_state(egraph, w0, id as int, whitelist@, stack@, cur as int));
        }
        let class = egraph.classes[cur].as_ref().unwrap();
        let mut k: usize = 0;
        while k < class.nodes.len()
            invariant
                egraph.wf(),
                n == egraph.classes@.len(),
                w0.len() == n,
                whitelist@.len() == n,
                walk_state(egraph, w0, id as int, whitelist@, stack@, cur as int),
                0 <= cur < n,
                whitelist@[cur as int],
                !w0[cur as int],
                egraph.classes@[cur as int] == Some(*class),
                !stack@.contains(cur),
                2 * count_unmarked(whitelist@) + stack@.len() < measure0,
                k <= class.nodes@.len(),
                forall|q: int, m: int|
                    0 <= q < k && 0 <= m < class.nodes@[q].node.children_spec().len()
                        ==> #[trigger] whitelist@[egraph.unionfind@[class.nodes@[q].node.children_spec()[m] as int] as int],
            decreases class.nodes@.len() - k,
        {
            let ch = class.nodes[k].children();
            let mut m: usize = 0;
            while m < ch.len()
                invariant
                    egraph.wf(),
                    n == egraph.classes@.len(),
                    w0.len() == n,
                    whitelist@.len() == n,
                    walk_state(egraph, w0, id as int, whitelist@, stack@, cur as int),
                    0 <= cur < n,
                    whitelist@[cur as int],
                    !w0[cur as int],
                    egraph.classes@[cur as int] == Some(*class),
                    !stack@.contains(cur),
                    2 * count_unmarked(whitelist@) + stack@.len() < measure0,
                    k < class.nodes@.len(),
                    ch@ == class.nodes@[k as int].node.children_spec(),
                    m <= ch@.len(),
                    forall|q: int, m: int|
                        0 <= q < k && 0 <= m < class.nodes@[q].node.children_spec().len()
                            ==> #[trigger] whitelist@[egraph.unionfind@[class.nodes@[q].node.children_spec()[m] as int] as int],
                    forall|mm: int|
                        0 <= mm < m ==> #[trigger] whitelist@[egraph.unionfind@[ch@[mm] as int] as int],
                decreases ch@.len() - m,
            {
                proof {
                    assert(class_wf(egraph, cur as int));
                    assert(class.nodes@[k as int] == class_at(egraph, cur as int).nodes@[k as int]);
                    assert(class_at(egraph, cur as int).nodes@[k as int].node.children_spec()[m as int] < n);
                }
                let c = egraph.find(ch[m]);
                proof {
                    assert(succ(egraph, cur as int, c as int));
                    lemma_succ_present(egraph, cur as int, c as int);
                }
                if !whitelist[c] {
                    proof {
                        lemma_mark_one(whitelist@, c as int);
                        assert(reaches_unmarked(egraph, w0, id as int, cur as int));
                        lemma_unmarked_step(egraph, w0, id as int, cur as int, c as int);
                    }
                    let ghost stack1 = stack@;
                    let ghost w1 = whitelist@;
                    whitelist.set(c, true);
                    stack.push(c);
                    proof {
                        assert(!w0[c as int]);
                        assert forall|t: int| 0 <= t < stack1.len() implies stack1[t] != c by {
                            assert(w1[stack1[t] as int]);
                        }
                        assert(!stack1.contains(c));
                        assert forall|x: Id| stack@.contains(x) && x != c implies stack1.contains(x) by {
                            let t = choose|t: int| 0 <= t < stack@.len() && stack@[t] == x;
                            assert(stack1[t] == x);
                        }
                        assert forall|x: Id| stack1.contains(x) implies stack@.contains(x) by {
                            let t = choose|t: int| 0 <= t < stack1.len() && stack1[t] == x;
                            assert(stack@[t] == x);
                        }
                        assert(stack@[stack@.len() - 1] == c);
                        assert forall|t: int| 0 <= t < stack@.len() implies #[trigger] stack@[t] < n
                            && whitelist@[stack@[t] as int] && !w0[stack@[t] as int] by {
                            if t < stack1.len() {
                                assert(stack@[t] == stack1[t]);
                            }
                        }
                        assert forall|i: int|
                            0 <= i < n && #[trigger] whitelist@[i] && !w0[i] implies reaches_unmarked(
                                egraph,
                                w0,
                                id as int,
                                i,
                            ) && present(egraph, i) by {
                            if i != c {
                                assert(w1[i]);
                            }
                        }
                        assert forall|i: int, j: int|
                            0 <= i < n && i != cur && whitelist@[i] && !w0[i] && !stack@.contains(
                                i as Id,
                            ) && #[trigger] succ(egraph, i, j) implies 0 <= j < n && whitelist@[j] by {
                            if i as Id == c {
                                assert(stack@.contains(c));
                            }
                            assert(w1[i]);
                            assert(!stack1.contains(i as Id));
                        }
                        assert(walk_state(egraph, w0, id as int, whitelist@, stack@, cur as int));
                    }
                }
                m += 1;
            }
            k += 1;
        }
        proof {
            assert forall|j: int| #[trigger] succ(egraph, cur as int, j) implies 0 <= j < n
                && whitelist@[j] by {
                lemma_succ_present(egraph, cur as int, j);
                let (q, mm) = choose|q: int, mm: int|
                    0 <= q < class_at(egraph, cur as int).nodes@.len() && 0 <= mm < class_at(
                        egraph,
                        cur as int,
                    ).nodes@[q].node.children_spec().len() && j == egraph.unionfind@[class_at(
                        egraph,
                        cur as int,
                    ).nodes@[q].node.children_spec()[mm] as int];
                assert(whitelist@[egraph.unionfind@[class.nodes@[q].node.children_spec()[mm] as int] as int]);
            }
            assert forall|i: int, j: int|
                0 <= i < n && i != -1 && whitelist@[i] && !w0[i] && !stack@.contains(i as Id)
                    && #[trigger] succ(egraph, i, j) implies 0 <= j < n && whitelist@[j] by {
                if i == cur as int {
                    assert(succ(egraph, cur as int, j));
                }
            }
        }
    }
    proof {
        assert forall|i: int, j: int|
            0 <= i < n && whitelist@[i] && !w0[i] && #[trigger] succ(egraph, i, j) implies 0 <= j
                < n && whitelist@[j] by {
            assert(!stack@.contains(i as Id));
        }
        assert forall|i: int|
            0 <= i < n implies (#[trigger] whitelist@[i] <==> (w0[i] || (!w0[id as int]
                && reaches_unmarked(egraph, w0, id as int, i)))) by {
            if reaches_unmarked(egraph, w0, id as int, i) {
                lemma_unmarked_walk_marked(egraph, w0, whitelist@, id as int, i);
            }
        }
    }
}

} // verus!

verus! {

/// The end of a walk from a stored class is stored.
pub proof fn lemma_reaches_present<L: Language, D>(g: &EGraph<L, D>, s: int, j: int)
    requires
        g.wf(),
        present(g, s),
        reaches(g, s, j),
    ensures
        present(g, j),
{
    let p = choose|p: Seq<int>| is_path(g, p) && p[0] == s && p.last() == j;
    if p.len() > 1 {
        assert(succ(g, p[p.len() - 2], p[p.len() - 1]));
        lemma_succ_present(g, p[p.len() - 2], j);
    }
}

/// Marks the classes reached from the roots: the classes of the current generation.
pub fn reachable_classes<L: Language, D>(egraph: &EGraph<L, D>) -> (r: Vec<bool>)
    requires
        egraph.wf(),
    ensures
        r@.len() == egraph.classes@.len(),
        forall|i: int| 0 <= i < r@.len() ==> (#[trigger] r@[i] <==> reachable(egraph, i)),
        closed(egraph, r@),
        forall|i: int| #[trigger] is_root(egraph, i) ==> 0 <= i < r@.len() && r@[i],
        forall|i: int| 0 <= i < r@.len() && #[trigger] r@[i] ==> present(egraph, i),
{
    let n = egraph.classes.len();
    let mut whitelist: Vec<bool> = Vec::new();
    while whitelist.len() < n
        invariant
            whitelist@.len() <= n,
            forall|j: int| 0 <= j < whitelist@.len() ==> !#[trigger] whitelist@[j],
        decreases n - whitelist@.len(),
    {
        whitelist.push(false);
    }
    let mut i: usize = 0;
    while i < n
        invariant
            egraph.wf(),
            n == egraph.classes@.len(),
            i <= n,
            whitelist@.len() == n,
            closed(egraph, whitelist@),
            forall|j: int|
                0 <= j < n ==> (#[trigger] whitelist@[j] <==> exists|r: int|
                    0 <= r < i && is_root(egraph, r) && reaches(egraph, r, j)),
        decreases n - i,
    {
        let ghost w1 = whitelist@;
        let is_new = match &egraph.classes[i] {
            Some(ec) => ec.version == egraph.version,
            None => false,
        };
        if is_new {
            if !whitelist[i] {
                add_reachable(i, egraph, &mut whitelist);
                proof {
                    assert forall|a: int, b: int|
                        0 <= a < whitelist@.len() && whitelist@[a] && #[trigger] succ(egraph, a, b)
                            implies 0 <= b < whitelist@.len() && whitelist@[b] by {
                        if w1[a] {
                            assert(w1[b]);
                        }
                    }
                    assert forall|j: int|
                        0 <= j < n implies (#[trigger] whitelist@[j] <==> (w1[j] || reaches(
                            egraph,
                            i as int,
                            j,
                        ))) by {
                        if reaches(egraph, i as int, j) {
                            lemma_closed_contains_reached(egraph, whitelist@, i as int, j);
                        }
                        if whitelist@[j] && !w1[j] {
                            lemma_unmarked_reaches(egraph, w1, i as int, j);
                        }
                    }
                }
            } else {
                proof {
                    assert forall|j: int| 0 <= j < n && reaches(egraph, i as int, j) implies whitelist@[j] by {
                        lemma_closed_contains_reached(egraph, whitelist@, i as int, j);
                    }
                }
            }
        }
        proof {
            assert forall|j: int|
                0 <= j < n implies (#[trigger] whitelist@[j] <==> exists|r: int|
                    0 <= r < i + 1 && is_root(egraph, r) && reaches(egraph, r, j)) by {
                if whitelist@[j] {
                    if w1[j] {
                        let r = choose|r: int| 0 <= r < i && is_root(egraph, r) && reaches(egraph, r, j);
                        assert(0 <= r < i + 1 && is_root(egraph, r) && reaches(egraph, r, j));
                    } else {
                        assert(is_root(egraph, i as int) && reaches(egraph, i as int, j));
                    }
                } else {
                    if exists|r: int| 0 <= r < i + 1 && is_root(egraph, r) && reaches(egraph, r, j) {
                        let r = choose|r: int|
                            0 <= r < i + 1 && is_root(egraph, r) && reaches(egraph, r, j);
                        if r < i {
                            assert(w1[j]);
                        }
                    }
                }
            }
        }
        i += 1;
    }
    proof {
        assert forall|j: int| 0 <= j < n implies (#[trigger] whitelist@[j] <==> reachable(egraph, j)) by {
            if reachable(egraph, j) {
                let r = choose|r: int| is_root(egraph, r) && reaches(egraph, r, j);
                assert(0 <= r < n);
            }
        }
        assert forall|j: int| #[trigger] is_root(egraph, j) implies 0 <= j < n && whitelist@[j] by {
            lemma_reaches_self(egraph, j);
        }
        assert forall|j: int| 0 <= j < n && #[trigger] whitelist@[j] implies present(egraph, j) by {
            let r = choose|r: int| is_root(egraph, r) && reaches(egraph, r, j);
            lemma_reaches_present(egraph, r, j);
        }
    }
    whitelist
}

} // verus!

verus! {

/// `h` is what collecting `g` gives: the same ids resolve alike, the generation
/// is kept, and exactly the reachable classes are stored, each a copy of the class it came from.
pub open spec fn filtered_from<L: Language, D: Clone>(g: &EGraph<L, D>, h: &EGraph<L, D>) -> bool {
    &&& h.unionfind@ == g.unionfind@
    &&& h.version == g.version
    &&& h.classes@.len() == g.classes@.len()
    &&& forall|i: int| 0 <= i < g.classes@.len() ==> (#[trigger] present(h, i) <==> reachable(g, i))
    &&& forall|i: int| #[trigger] present(h, i) ==> class_copy(class_at(g, i), class_at(h, i))
}

/// A child edge of a class kept by the collector is a child edge of its copy.
proof fn lemma_succ_copy<L: Language, D: Clone>(g: &EGraph<L, D>, h: &EGraph<L, D>, a: int, b: int)
    requires
        filtered_from(g, h),
        present(h, a),
        succ(g, a, b),
    ensures
        succ(h, a, b),
{
    let (k, m) = choose|k: int, m: int|
        0 <= k < class_at(g, a).nodes@.len() && 0 <= m < class_at(
            g,
            a,
        ).nodes@[k].node.children_spec().len() && b == g.unionfind@[class_at(
            g,
            a,
        ).nodes@[k].node.children_spec()[m] as int];
    assert(class_copy(class_at(g, a), class_at(h, a)));
    assert(class_at(h, a).nodes@[k].node.children_spec() == class_at(g, a).nodes@[k].node.children_spec());
}

/// Every class on a walk is reached from its first class.
proof fn lemma_prefix_reaches<L: Language, D>(g: &EGraph<L, D>, p: Seq<int>, k: int)
    requires
        is_path(g, p),
        0 <= k < p.len(),
    ensures
        reaches(g, p[0], p[k]),
{
    let q = p.take(k + 1);
    assert forall|t: int| 0 <= t < q.len() - 1 implies succ(g, #[trigger] q[t], q[t + 1]) by {
        assert(succ(g, p[t], p[t + 1]));
    }
    assert(is_path(g, q) && q[0] == p[0] && q.last() == p[k]);
}

/// Builds the collected graph: the union-find is copied as it is, the generation
/// kept, and only the classes reached from the current generation's classes are
/// copied over. The graph given is left as it was.
pub fn filter<L: Language, D: Clone>(egraph: &EGraph<L, D>) -> (r: EGraph<L, D>)
    requires
        egraph.wf(),
    ensures
        r.wf(),
        filtered_from(egraph, &r),
{
    let whitelist = reachable_classes(egraph);
    let n = egraph.classes.len();
    let mut classes: Vec<Option<EClass<L, D>>> = Vec::new();
    let mut i: usize = 0;
    while i < n
        invariant
            egraph.wf(),
            n == egraph.classes@.len(),
            whitelist@.len() == n,
            forall|j: int| 0 <= j < n ==> (#[trigger] whitelist@[j] <==> reachable(egraph, j)),
            forall|j: int| 0 <= j < n && #[trigger] whitelist@[j] ==> present(egraph, j),
            i <= n,
            classes@.len() == i,
            forall|j: int| 0 <= j < i ==> (#[trigger] classes@[j] is Some <==> whitelist@[j]),
            forall|j: int|
                0 <= j < i && #[trigger] classes@[j] is Some ==> class_copy(
                    class_at(egraph, j),
                    classes@[j].unwrap(),
                ),
        decreases n - i,
    {
        if whitelist[i] {
            let ec = egraph.classes[i].as_ref().unwrap();
            classes.push(Some(ec.duplicate()));
        } else {
            classes.push(None);
        }
        i += 1;
    }
    let r = EGraph { unionfind: egraph.unionfind.duplicate(), classes, version: egraph.version };
    proof {
        assert forall|i: int| present(&r, i) implies #[trigger] class_wf(&r, i) by {
            let c = class_at(&r, i);
            let o = class_at(egraph, i);
            assert(class_wf(egraph, i));
            assert(class_copy(o, c));
            assert forall|k: int| 0 <= k < c.nodes@.len() implies {
                &&& (#[trigger] c.nodes@[k]).version <= c.version
                &&& forall|m: int|
                    0 <= m < c.nodes@[k].node.children_spec().len() ==> {
                        &&& #[trigger] c.nodes@[k].node.children_spec()[m] < r.classes@.len()
                        &&& present(&r, r.unionfind@[c.nodes@[k].node.children_spec()[m] as int] as int)
                    }
            } by {
                assert(o.nodes@[k].version <= o.version);
                assert forall|m: int| 0 <= m < c.nodes@[k].node.children_spec().len() implies {
                    &&& #[trigger] c.nodes@[k].node.children_spec()[m] < r.classes@.len()
                    &&& present(&r, r.unionfind@[c.nodes@[k].node.children_spec()[m] as int] as int)
                } by {
                    let ch = o.nodes@[k].node.children_spec()[m];
                    assert(ch < n);
                    let j = egraph.unionfind@[ch as int] as int;
                    assert(succ(egraph, i, j));
                    let root = choose|root: int| is_root(egraph, root) && reaches(egraph, root, i);
                    lemma_reaches_step(egraph, root, i, j);
                    lemma_succ_present(egraph, i, j);
                    assert(whitelist@[j]);
                }
            }
        }
    }
    r
}

/// Collecting twice, with nothing changed in between, keeps the same classes.
pub proof fn lemma_filter_idempotent<L: Language, D: Clone>(
    g: &EGraph<L, D>,
    h: &EGraph<L, D>,
    h2: &EGraph<L, D>,
)
    requires
        g.wf(),
        h.wf(),
        filtered_from(g, h),
        filtered_from(h, h2),
    ensures
        h2.classes@.len() == h.classes@.len(),
        forall|i: int| #[trigger] present(h2, i) <==> present(h, i),
{
    assert forall|i: int| #[trigger] present(h2, i) <==> present(h, i) by {
        if present(h2, i) {
            let r = choose|r: int| is_root(h, r) && reaches(h, r, i);
            lemma_reaches_present(h, r, i);
        }
        if present(h, i) {
            let r = choose|r: int| is_root(g, r) && reaches(g, r, i);
            let p = choose|p: Seq<int>| is_path(g, p) && p[0] == r && p.last() == i;
            assert forall|t: int| 0 <= t < p.len() implies #[trigger] present(h, p[t]) by {
                lemma_prefix_reaches(g, p, t);
                lemma_reaches_present(g, r, p[t]);
                assert(reachable(g, p[t]));
            }
            assert forall|t: int| 0 <= t < p.len() - 1 implies succ(h, #[trigger] p[t], p[t + 1]) by {
                assert(succ(g, p[t], p[t + 1]));
                assert(present(h, p[t]));
                lemma_succ_copy(g, h, p[t], p[t + 1]);
            }
            assert(is_path(h, p));
            assert(present(h, r));
            assert(class_copy(class_at(g, r), class_at(h, r)));
            assert(is_root(h, r));
            assert(reachable(h, i));
        }
    }
}

} // verus!
