use vstd::prelude::*;

use crate::eclass::{EClass, ENode};
use crate::language::Language;
use crate::unionfind::{union_spec, UnionFind};
use crate::Id;

verus! {

/// The container: a union-find over class ids, the class of each id that is
/// still stored, and the current generation.
pub struct EGraph<L, D> {
    pub unionfind: UnionFind,
    /// The class stored under each id, if any.
    pub classes: Vec<Option<EClass<L, D>>>,
    /// The current generation.
    pub version: usize,
}

/// A class is stored under `i`.
pub open spec fn present<L, D>(g: &EGraph<L, D>, i: int) -> bool {
    0 <= i < g.classes@.len() && g.classes@[i] is Some
}

/// The class stored under `i`.
pub open spec fn class_at<L, D>(g: &EGraph<L, D>, i: int) -> EClass<L, D> {
    g.classes@[i].unwrap()
}

/// `ids` with each id replaced by its representative.
pub open spec fn canon_ids(canon: Seq<nat>, ids: Seq<Id>) -> Seq<Id> {
    ids.map_values(|c: Id| canon[c as int] as Id)
}

/// Some node of the class stored under `i` has a child whose representative is `j`.
pub open spec fn succ<L: Language, D>(g: &EGraph<L, D>, i: int, j: int) -> bool {
    &&& present(g, i)
    &&& exists|k: int, m: int|
        0 <= k < class_at(g, i).nodes@.len() && 0 <= m < class_at(
            g,
            i,
        ).nodes@[k].node.children_spec().len() && j == g.unionfind@[class_at(
            g,
            i,
        ).nodes@[k].node.children_spec()[m] as int]
}

/// What each stored class owes the graph: its own id, versions no later than the
/// graph's, and children that are issued ids whose representative is stored.
pub open spec fn class_wf<L: Language, D>(g: &EGraph<L, D>, i: int) -> bool {
    let c = class_at(g, i);
    &&& c.id == i
    &&& c.version <= g.version
    &&& forall|k: int|
        0 <= k < c.nodes@.len() ==> {
            &&& (#[trigger] c.nodes@[k]).version <= c.version
            &&& forall|m: int|
                0 <= m < c.nodes@[k].node.children_spec().len() ==> {
                    &&& #[trigger] c.nodes@[k].node.children_spec()[m] < g.classes@.len()
                    &&& present(g, g.unionfind@[c.nodes@[k].node.children_spec()[m] as int] as int)
                }
        }
}

/// The class stored under `i` holds a node of the same shape as `n` whose
/// children are exactly `children`.
pub open spec fn holds_node<L: Language, D>(
    g: &EGraph<L, D>,
    i: int,
    n: L,
    children: Seq<Id>,
) -> bool {
    &&& present(g, i)
    &&& exists|k: int|
        0 <= k < class_at(g, i).nodes@.len() && (#[trigger] class_at(g, i).nodes@[k]).node.matches_spec(&n)
            && class_at(g, i).nodes@[k].node.children_spec() == children
}

/// Both graphs store classes under the same ids, with the same ids, versions and
/// nodes; parents may differ.
pub open spec fn same_classes<L, D>(g: &EGraph<L, D>, h: &EGraph<L, D>) -> bool {
    &&& g.classes@.len() <= h.classes@.len()
    &&& forall|i: int|
        0 <= i < g.classes@.len() ==> (present(g, i) <==> #[trigger] present(h, i))
    &&& forall|i: int|
        #![trigger class_at(h, i)]
        0 <= i < g.classes@.len() && present(g, i) ==> {
            &&& class_at(h, i).id == class_at(g, i).id
            &&& class_at(h, i).version == class_at(g, i).version
            &&& class_at(h, i).nodes@ == class_at(g, i).nodes@
        }
}

/// Well-formedness depends on the union-find's map, the classes and the
/// generation alone.
proof fn lemma_wf_same_views<L: Language, D>(g: &EGraph<L, D>, h: &EGraph<L, D>)
    requires
        g.wf(),
        h.unionfind.wf(),
        h.unionfind@ == g.unionfind@,
        h.classes@ == g.classes@,
        h.version == g.version,
    ensures
        h.wf(),
{
    assert forall|i: int| present(h, i) implies #[trigger] class_wf(h, i) by {
        assert(class_wf(g, i));
    }
}

/// Equal ids, side by side.
fn ids_equal(a: &[Id], b: &[Id]) -> (r: bool)
    ensures
        r == (a@ == b@),
{
    if a.len() != b.len() {
        return false;
    }
    let mut i: usize = 0;
    while i < a.len()
        invariant
            a@.len() == b@.len(),
            i <= a@.len(),
            forall|k: int| 0 <= k < i ==> a@[k] == b@[k],
        decreases a@.len() - i,
    {
        if a[i] != b[i] {
            return false;
        }
        i += 1;
    }
    assert(a@ =~= b@);
    true
}

fn ids_to_vec(a: &[Id]) -> (r: Vec<Id>)
    ensures
        r@ == a@,
{
    let mut r: Vec<Id> = Vec::new();
    let mut i: usize = 0;
    while i < a.len()
        invariant
            i <= a@.len(),
            r@ == a@.take(i as int),
        decreases a@.len() - i,
    {
        r.push(a[i]);
        i += 1;
    }
    assert(r@ =~= a@);
    r
}

/// Replaces each id of `ids` by its representative.
fn canonicalize_ids(uf: &mut UnionFind, ids: &mut [Id])
    requires
        old(uf).wf(),
        forall|m: int| 0 <= m < old(ids)@.len() ==> #[trigger] old(ids)@[m] < old(uf)@.len(),
    ensures
        final(uf).wf(),
        final(uf)@ == old(uf)@,
        final(ids)@ == canon_ids(old(uf)@, old(ids)@),
{
    let mut m: usize = 0;
    while m < ids.len()
        invariant
            uf.wf(),
            uf@ == old(uf)@,
            ids@.len() == old(ids)@.len(),
            forall|k: int| 0 <= k < old(ids)@.len() ==> #[trigger] old(ids)@[k] < uf@.len(),
            m <= ids@.len(),
            forall|k: int| 0 <= k < m ==> ids@[k] == uf@[old(ids)@[k] as int],
            forall|k: int| m <= k < ids@.len() ==> ids@[k] == old(ids)@[k],
        decreases ids@.len() - m,
    {
        let c = uf.find_mut(ids[m]);
        ids[m] = c;
        m += 1;
    }
    assert(ids@ =~= canon_ids(old(uf)@, old(ids)@));
}

impl<L: Language, D> EGraph<L, D> {
    pub open spec fn wf(&self) -> bool {
        &&& self.unionfind.wf()
        &&& self.classes@.len() == self.unionfind@.len()
        &&& forall|i: int| present(self, i) ==> #[trigger] class_wf(self, i)
    }

    /// An empty graph at generation zero.
    pub fn new() -> (r: Self)
        ensures
            r.wf(),
            r.classes@.len() == 0,
            r.version == 0,
    {
        EGraph { unionfind: UnionFind::new(), classes: Vec::new(), version: 0 }
    }

    /// The representative of `id`.
    pub fn find(&self, id: Id) -> (r: Id)
        requires
            self.wf(),
            id < self.classes@.len(),
        ensures
            r == self.unionfind@[id as int],
    {
        self.unionfind.find(id)
    }

    /// The class stored under the representative of `id`, if any.
    pub fn get(&self, id: Id) -> (r: Option<&EClass<L, D>>)
        requires
            self.wf(),
            id < self.classes@.len(),
        ensures
            r == match self.classes@[self.unionfind@[id as int] as int] {
                Some(c) => Some(&c),
                None => None::<&EClass<L, D>>,
            },
    {
        proof {
            self.unionfind.lemma_wf_closed();
        }
        let c = self.unionfind.find(id);
        match &self.classes[c] {
            Some(ec) => Some(ec),
            None => None,
        }
    }

    /// Records `parent` among the parents of the class stored under `k`.
    fn add_parent(&mut self, k: Id, parent: Id)
        requires
            old(self).wf(),
            present(old(self), k as int),
        ensures
            final(self).wf(),
            final(self).unionfind@ == old(self).unionfind@,
            final(self).version == old(self).version,
            same_classes(old(self), final(self)),
            final(self).classes@.len() == old(self).classes@.len(),
            class_at(final(self), k as int).parents@ == class_at(old(self), k as int).parents@.push(
                parent,
            ),
            forall|i: int|
                0 <= i < old(self).classes@.len() && i != k ==> #[trigger] final(self).classes@[i]
                    == old(self).classes@[i],
    {
        let slot = self.classes[k].take();
        match slot {
            Some(mut ec) => {
                ec.parents.push(parent);
                self.classes.set(k, Some(ec));
            },
            None => {},
        }
        assert forall|i: int| present(&*self, i) implies #[trigger] class_wf(&*self, i) by {
            assert(class_wf(old(self), i));
        }
    }

    /// Adds `node`, with its children canonicalized, unless a stored class already
    /// holds a node of that shape with those canonical children: then the
    /// representative of the first such class is returned and nothing changes.
    /// A new node gets a class of its own, stamped with the current generation.
    pub fn add(&mut self, node: L) -> (r: Id)
        where
            D: Default,
        requires
            old(self).wf(),
            old(self).classes@.len() < usize::MAX,
            forall|m: int|
                0 <= m < node.children_spec().len() ==> {
                    &&& #[trigger] node.children_spec()[m] < old(self).classes@.len()
                    &&& present(
                        old(self),
                        old(self).unionfind@[node.children_spec()[m] as int] as int,
                    )
                },
        ensures
            final(self).wf(),
            final(self).version == old(self).version,
            ({
                let canon = canon_ids(old(self).unionfind@, node.children_spec());
                if exists|i: int| holds_node(old(self), i, node, canon) {
                    &&& final(self).unionfind@ == old(self).unionfind@
                    &&& final(self).classes@ == old(self).classes@
                    &&& exists|i: int|
                        0 <= i < old(self).classes@.len() && holds_node(old(self), i, node, canon)
                            && r == old(self).unionfind@[i]
                } else {
                    &&& r == old(self).classes@.len()
                    &&& final(self).unionfind@ == old(self).unionfind@.push(r as nat)
                    &&& final(self).classes@.len() == r + 1
                    &&& same_classes(old(self), final(self))
                    &&& present(final(self), r as int)
                    &&& class_at(final(self), r as int).version == old(self).version
                    &&& class_at(final(self), r as int).nodes@.len() == 1
                    &&& class_at(final(self), r as int).nodes@[0].version == old(self).version
                    &&& class_at(final(self), r as int).nodes@[0].node.matches_spec(&node)
                    &&& class_at(final(self), r as int).nodes@[0].node.children_spec() == canon
                    &&& class_at(final(self), r as int).parents@.len() == 0
                    &&& forall|m: int|
                        0 <= m < canon.len() ==> class_at(final(self), #[trigger] canon[m] as int).parents@.contains(
                            r,
                        )
                    &&& forall|i: int|
                        0 <= i < r && present(old(self), i) && !canon.contains(i as Id)
                            ==> #[trigger] class_at(final(self), i).parents@ == class_at(old(self), i).parents@
                }
            }),
    {
        let ghost canon = canon_ids(self.unionfind@, node.children_spec());
        proof {
            L::lemma_matches_equivalence();
        }
        let mut nd = node;
        let ch = nd.children_mut();
        canonicalize_ids(&mut self.unionfind, ch);
        proof {
            lemma_wf_same_views(old(self), &*self);
        }
        assert(nd.children_spec() == canon);
        assert(nd.matches_spec(&node));
        let n = self.classes.len();
        let mut i: usize = 0;
        while i < n
            invariant
                self.wf(),
                self.unionfind@ == old(self).unionfind@,
                self.classes@ == old(self).classes@,
                self.version == old(self).version,
                canon == canon_ids(old(self).unionfind@, node.children_spec()),
                n == self.classes@.len(),
                i <= n,
                nd.children_spec() == canon,
                nd.matches_spec(&node),
                forall|a: &L, b: &L| #[trigger]
                    a.matches_spec(b) ==> b.matches_spec(a),
                forall|a: &L, b: &L, c: &L|
                    #[trigger] a.matches_spec(b) && #[trigger] b.matches_spec(c) ==> a.matches_spec(c),
                forall|j: int| 0 <= j < i ==> !holds_node(old(self), j, node, canon),
            decreases n - i,
        {
            match &self.classes[i] {
                Some(ec) => {
                    let mut k: usize = 0;
                    while k < ec.nodes.len()
                        invariant
                            self.wf(),
                            self.unionfind@ == old(self).unionfind@,
                self.classes@ == old(self).classes@,
                self.version == old(self).version,
                            canon == canon_ids(old(self).unionfind@, node.children_spec()),
                            i < n,
                            n == self.classes@.len(),
                            self.classes@[i as int] == Some(*ec),
                            k <= ec.nodes@.len(),
                            nd.children_spec() == canon,
                            nd.matches_spec(&node),
                            forall|a: &L, b: &L| #[trigger]
                                a.matches_spec(b) ==> b.matches_spec(a),
                            forall|a: &L, b: &L, c: &L|
                                #[trigger] a.matches_spec(b) && #[trigger] b.matches_spec(c)
                                    ==> a.matches_spec(c),
                            forall|q: int|
                                0 <= q < k ==> !((#[trigger] ec.nodes@[q]).node.matches_spec(&node)
                                    && ec.nodes@[q].node.children_spec() == canon),
                        decreases ec.nodes@.len() - k,
                    {
                        proof {
                            let e = &ec.nodes@[k as int].node;
                            if e.matches_spec(&node) {
                                assert(node.matches_spec(&nd));
                                assert(e.matches_spec(&nd));
                            }
                        }
                        if ec.nodes[k].node.matches(&nd) && ids_equal(
                            ec.nodes[k].node.children(),
                            nd.children(),
                        ) {
                            proof {
                                let e = &ec.nodes@[k as int].node;
                                assert(e.matches_spec(&nd));
                                assert(e.matches_spec(&node));
                                assert(old(self).classes@[i as int] == Some(*ec));
                                assert(class_at(old(self), i as int).nodes@[k as int] == ec.nodes@[k as int]);
                                assert(holds_node(old(self), i as int, node, canon));
                            }
                            let ghost prev = *self;
                            let r = self.unionfind.find_mut(i);
                            proof {
                                lemma_wf_same_views(&prev, &*self);
                            }
                            assert(0 <= i < old(self).classes@.len() && holds_node(
                                old(self),
                                i as int,
                                node,
                                canon,
                            ) && r == old(self).unionfind@[i as int]);
                            return r;
                        }
                        k += 1;
                    }
                },
                None => {},
            }
            i += 1;
        }
        proof {
            self.unionfind.lemma_wf_closed();
            assert forall|j: int| !holds_node(old(self), j, node, canon) by {
                if 0 <= j < n {
                    assert(!holds_node(old(self), j, node, canon));
                }
            }
        }
        let ghost before = *self;
        let cs = ids_to_vec(nd.children());
        assert forall|q: int| 0 <= q < canon.len() implies present(&before, #[trigger] canon[q] as int) by {
            assert(canon[q] == before.unionfind@[node.children_spec()[q] as int]);
        }
        let id = self.unionfind.make_set();
        let version = self.version;
        let class = EClass {
            version,
            id,
            nodes: vec![ENode { node: nd, version }],
            data: D::default(),
            parents: Vec::new(),
        };
        self.classes.push(Some(class));
        assert forall|j: int| present(&*self, j) implies #[trigger] class_wf(&*self, j) by {
            if j < n {
                assert(class_wf(&before, j));
            } else {
                let c = class_at(&*self, j);
                assert forall|k: int| 0 <= k < c.nodes@.len() implies {
                    &&& (#[trigger] c.nodes@[k]).version <= c.version
                    &&& forall|m: int|
                        0 <= m < c.nodes@[k].node.children_spec().len() ==> {
                            &&& #[trigger] c.nodes@[k].node.children_spec()[m] < self.classes@.len()
                            &&& present(&*self, self.unionfind@[c.nodes@[k].node.children_spec()[m] as int] as int)
                        }
                } by {
                    assert forall|m: int|
                        0 <= m < c.nodes@[k].node.children_spec().len() implies {
                            &&& #[trigger] c.nodes@[k].node.children_spec()[m] < self.classes@.len()
                            &&& present(&*self, self.unionfind@[c.nodes@[k].node.children_spec()[m] as int] as int)
                        } by {
                        let orig = node.children_spec()[m];
                        assert(canon[m] == before.unionfind@[orig as int]);
                    }
                }
            }
        }
        assert(same_classes(&before, &*self));
        let ghost pushed = *self;
        assert(class_at(&pushed, id as int).nodes@[0].node == nd);
        let mut m: usize = 0;
        while m < cs.len()
            invariant
                self.wf(),
                m <= cs@.len(),
                cs@ == canon,
                self.classes@.len() == id + 1,
                self.unionfind@ == before.unionfind@.push(id as nat),
                self.version == before.version,
                same_classes(&before, &*self),
                present(&*self, id as int),
                before.unionfind@ == old(self).unionfind@,
                before.classes@ == old(self).classes@,
                before.version == old(self).version,
                canon == canon_ids(old(self).unionfind@, node.children_spec()),
                forall|j: int| !holds_node(old(self), j, node, canon),
                same_classes(&pushed, &*self),
                present(&pushed, id as int),
                class_at(&pushed, id as int).version == old(self).version,
                class_at(&pushed, id as int).nodes@.len() == 1,
                class_at(&pushed, id as int).nodes@[0].version == old(self).version,
                class_at(&pushed, id as int).nodes@[0].node.matches_spec(&node),
                class_at(&pushed, id as int).nodes@[0].node.children_spec() == canon,
                forall|q: int| 0 <= q < canon.len() ==> present(&before, #[trigger] canon[q] as int),
                class_at(&*self, id as int).parents@.len() == 0,
                before.classes@.len() == id,
                forall|q: int|
                    0 <= q < m ==> class_at(&*self, #[trigger] canon[q] as int).parents@.contains(id),
                forall|i: int|
                    0 <= i < id && present(&before, i) && !canon.take(m as int).contains(i as Id)
                        ==> #[trigger] class_at(&*self, i).parents@ == class_at(&before, i).parents@,
            decreases cs@.len() - m,
        {
            let ghost prev = *self;
            let k = cs[m];
            self.add_parent(k, id);
            proof {
                let p = class_at(&*self, k as int).parents@;
                assert(p[p.len() - 1] == id);
                assert(present(&before, canon[m as int] as int));
                assert(k < id);
                assert(self.classes@[id as int] == prev.classes@[id as int]);
                assert forall|q: int| 0 <= q < m + 1 implies class_at(&*self, #[trigger] canon[q] as int).parents@.contains(id) by {
                    if canon[q] != k {
                        assert(self.classes@[canon[q] as int] == prev.classes@[canon[q] as int]);
                    } else {
                        assert(p.contains(id));
                    }
                    if q < m && canon[q] == k {
                        let pp = class_at(&prev, k as int).parents@;
                        let t = choose|t: int| 0 <= t < pp.len() && pp[t] == id;
                        assert(p[t] == id);
                    }
                }
                assert(canon.take(m + 1) =~= canon.take(m as int).push(k));
                assert forall|i: int|
                    0 <= i < id && present(&before, i) && !canon.take(m + 1).contains(i as Id)
                        implies #[trigger] class_at(&*self, i).parents@ == class_at(&before, i).parents@ by {
                    assert(canon.take(m + 1)[m as int] == k);
                    assert(i != k);
                    assert(self.classes@[i] == prev.classes@[i]);
                    assert(!canon.take(m as int).contains(i as Id)) by {
                        if canon.take(m as int).contains(i as Id) {
                            let t = choose|t: int| 0 <= t < m && canon.take(m as int)[t] == i as Id;
                            assert(canon.take(m + 1)[t] == i as Id);
                        }
                    }
                }
            }
            m += 1;
        }
        proof {
            assert(canon.take(cs@.len() as int) =~= canon);
        }
        id
    }

    /// Merges the classes of `a` and `b`. The representative of `a` survives:
    /// its class takes the nodes and parents of the other, in that order, keeps
    /// its own data, and is stamped with the current generation; the other
    /// class's slot is emptied. Returns the surviving representative.
    pub fn union(&mut self, a: Id, b: Id) -> (r: Id)
        requires
            old(self).wf(),
            a < old(self).classes@.len(),
            b < old(self).classes@.len(),
            present(old(self), old(self).unionfind@[a as int] as int),
            present(old(self), old(self).unionfind@[b as int] as int),
        ensures
            final(self).wf(),
            r == old(self).unionfind@[a as int],
            final(self).unionfind@ == union_spec(old(self).unionfind@, a as int, b as int),
            final(self).version == old(self).version,
            final(self).classes@.len() == old(self).classes@.len(),
            ({
                let rb = old(self).unionfind@[b as int] as int;
                if r == rb {
                    final(self).classes@ == old(self).classes@
                } else {
                    &&& present(final(self), r as int)
                    &&& !present(final(self), rb)
                    &&& class_at(final(self), r as int).nodes@ == class_at(old(self), r as int).nodes@
                        + class_at(old(self), rb).nodes@
                    &&& class_at(final(self), r as int).parents@ == class_at(old(self), r as int).parents@
                        + class_at(old(self), rb).parents@
                    &&& class_at(final(self), r as int).version == old(self).version
                    &&& forall|i: int|
                        0 <= i < old(self).classes@.len() && i != r && i != rb ==> #[trigger] final(self).classes@[i]
                            == old(self).classes@[i]
                }
            }),
    {
        proof {
            self.unionfind.lemma_wf_closed();
        }
        let ra = self.unionfind.find_mut(a);
        let rb = self.unionfind.find_mut(b);
        proof {
            lemma_wf_same_views(old(self), &*self);
        }
        if ra == rb {
            proof {
                assert(union_spec(self.unionfind@, a as int, b as int) =~= self.unionfind@);
            }
            let ghost before = *self;
            let r = self.unionfind.union(a, b);
            assert forall|i: int| present(&*self, i) implies #[trigger] class_wf(&*self, i) by {
                assert(class_wf(&before, i));
            }
            return r;
        }
        let ghost before = *self;
        let r = self.unionfind.union(a, b);
        let taken = self.classes[rb].take().unwrap();
        let mut keep = self.classes[ra].take().unwrap();
        let mut nodes = taken.nodes;
        let mut parents = taken.parents;
        keep.nodes.append(&mut nodes);
        keep.parents.append(&mut parents);
        keep.version = self.version;
        self.classes.set(ra, Some(keep));
        proof {
            let u = self.unionfind@;
            let u0 = before.unionfind@;
            assert forall|i: int| present(&*self, i) implies #[trigger] class_wf(&*self, i) by {
                let c = class_at(&*self, i);
                assert(class_wf(&before, i));
                assert(class_wf(&before, rb as int));
                assert(class_wf(&before, ra as int));
                assert forall|k: int| 0 <= k < c.nodes@.len() implies {
                    &&& (#[trigger] c.nodes@[k]).version <= c.version
                    &&& forall|m: int|
                        0 <= m < c.nodes@[k].node.children_spec().len() ==> {
                            &&& #[trigger] c.nodes@[k].node.children_spec()[m] < self.classes@.len()
                            &&& present(&*self, u[c.nodes@[k].node.children_spec()[m] as int] as int)
                        }
                } by {
                    let ka = class_at(&before, ra as int).nodes@.len();
                    let src = if i != ra {
                        i
                    } else if k < ka {
                        ra as int
                    } else {
                        rb as int
                    };
                    let kk = if i == ra && k >= ka {
                        k - ka
                    } else {
                        k
                    };
                    assert(c.nodes@[k] == class_at(&before, src).nodes@[kk]);
                    assert forall|m: int| 0 <= m < c.nodes@[k].node.children_spec().len() implies {
                        &&& #[trigger] c.nodes@[k].node.children_spec()[m] < self.classes@.len()
                        &&& present(&*self, u[c.nodes@[k].node.children_spec()[m] as int] as int)
                    } by {
                        let ch = c.nodes@[k].node.children_spec()[m];
                        assert(ch == class_at(&before, src).nodes@[kk].node.children_spec()[m]);
                        assert(present(&before, u0[ch as int] as int));
                    }
                }
            }
        }
        r
    }

    /// Starts the next generation.
    pub fn bump_version(&mut self)
        requires
            old(self).wf(),
            old(self).version < usize::MAX,
        ensures
            final(self).wf(),
            final(self).version == old(self).version + 1,
            final(self).unionfind@ == old(self).unionfind@,
            final(self).classes@ == old(self).classes@,
    {
        self.version = self.version + 1;
        assert forall|i: int| present(&*self, i) implies #[trigger] class_wf(&*self, i) by {
            assert(class_wf(old(self), i));
        }
    }
}

} // verus!
