use vstd::prelude::*;

use crate::Id;

verus! {

/// The canonical map after merging the set of `b` into the set of `a`:
/// every id whose representative was that of `b` now has the representative of `a`.
pub open spec fn union_spec(canon: Seq<nat>, a: int, b: int) -> Seq<nat> {
    Seq::new(
        canon.len(),
        |i: int| if canon[i] == canon[b] { canon[a] } else { canon[i] },
    )
}

/// A canonical map is closed: every id maps to an id in range that maps to itself.
pub open spec fn canonical_closed(canon: Seq<nat>) -> bool {
    forall|i: int|
        0 <= i < canon.len() ==> #[trigger] canon[i] < canon.len() && canon[canon[i] as int]
            == canon[i]
}

/// A union-find over ids `0..len`, linking each id toward its set's representative.
pub struct UnionFind {
    parents: Vec<Id>,
    /// The representative of each id.
    canon: Ghost<Seq<nat>>,
    /// A measure that strictly falls from an id to its parent.
    rank: Ghost<Seq<nat>>,
}

impl View for UnionFind {
    type V = Seq<nat>;

    /// The canonical representative of each issued id.
    closed spec fn view(&self) -> Seq<nat> {
        self.canon@
    }
}

impl UnionFind {
    pub closed spec fn wf(&self) -> bool {
        let p = self.parents@;
        let c = self.canon@;
        let r = self.rank@;
        &&& c.len() == p.len()
        &&& r.len() == p.len()
        &&& forall|i: int|
            0 <= i < p.len() ==> {
                &&& #[trigger] p[i] < p.len()
                &&& c[i] < p.len()
                &&& c[c[i] as int] == c[i]
                &&& c[p[i] as int] == c[i]
                &&& (p[i] == i <==> c[i] == i)
                &&& (p[i] != i ==> r[p[i] as int] < r[i])
                &&& (c[i] != i ==> r[c[i] as int] < r[i])
            }
    }

    pub fn new() -> (r: Self)
        ensures
            r.wf(),
            r@ == Seq::<nat>::empty(),
    {
        UnionFind { parents: Vec::new(), canon: Ghost(Seq::empty()), rank: Ghost(Seq::empty()) }
    }

    pub fn len(&self) -> (r: usize)
        requires
            self.wf(),
        ensures
            r == self@.len(),
    {
        self.parents.len()
    }

    pub proof fn lemma_wf_closed(&self)
        requires
            self.wf(),
        ensures
            canonical_closed(self@),
    {
        assert forall|i: int| 0 <= i < self@.len() implies #[trigger] self@[i] < self@.len()
            && self@[self@[i] as int] == self@[i] by {
            assert(self.parents@[i] < self.parents@.len());
        }
    }

    /// An independent copy that resolves every id as this one does.
    pub fn duplicate(&self) -> (r: Self)
        requires
            self.wf(),
        ensures
            r.wf(),
            r@ == self@,
    {
        UnionFind { parents: self.parents.clone(), canon: Ghost(self.canon@), rank: Ghost(self.rank@) }
    }

    /// Allocates a fresh singleton set; its id is the number of ids issued before.
    pub fn make_set(&mut self) -> (r: Id)
        requires
            old(self).wf(),
            old(self)@.len() < usize::MAX,
        ensures
            final(self).wf(),
            r == old(self)@.len(),
            final(self)@ == old(self)@.push(r as nat),
    {
        let id = self.parents.len();
        self.parents.push(id);
        self.canon = Ghost(self.canon@.push(id as nat));
        self.rank = Ghost(self.rank@.push(0));
        id
    }

    /// Returns the canonical representative of `id`.
    pub fn find(&self, id: Id) -> (r: Id)
        requires
            self.wf(),
            id < self@.len(),
        ensures
            r == self@[id as int],
    {
        let mut cur = id;
        while self.parents[cur] != cur
            invariant
                self.wf(),
                cur < self@.len(),
                self@[cur as int] == self@[id as int],
            decreases self.rank@[cur as int],
        {
            cur = self.parents[cur];
        }
        cur
    }

    /// Returns the canonical representative of `id`, and links every id on the
    /// way there straight to it, so that later lookups are short.
    pub fn find_mut(&mut self, id: Id) -> (r: Id)
        requires
            old(self).wf(),
            id < old(self)@.len(),
        ensures
            final(self).wf(),
            final(self)@ == old(self)@,
            r == old(self)@[id as int],
    {
        let root = self.find(id);
        let mut cur = id;
        while self.parents[cur] != cur
            invariant
                self.wf(),
                self@ == old(self)@,
                self.rank@ == old(self).rank@,
                cur < self@.len(),
                self@[cur as int] == root,
                root == old(self)@[id as int],
            decreases self.rank@[cur as int],
        {
            let next = self.parents[cur];
            proof {
                assert(self.canon@[root as int] == root);
            }
            self.parents.set(cur, root);
            proof {
                let p = self.parents@;
                let c = self.canon@;
                let rk = self.rank@;
                assert forall|i: int|
                    0 <= i < p.len() implies {
                        &&& #[trigger] p[i] < p.len()
                        &&& c[i] < p.len()
                        &&& c[c[i] as int] == c[i]
                        &&& c[p[i] as int] == c[i]
                        &&& (p[i] == i <==> c[i] == i)
                        &&& (p[i] != i ==> rk[p[i] as int] < rk[i])
                        &&& (c[i] != i ==> rk[c[i] as int] < rk[i])
                    } by {
                    assert(c[cur as int] == root);
                }
            }
            cur = next;
        }
        cur
    }

    /// Merges the sets of `a` and `b`; the representative of `a` survives and is returned.
    pub fn union(&mut self, a: Id, b: Id) -> (r: Id)
        requires
            old(self).wf(),
            a < old(self)@.len(),
            b < old(self)@.len(),
        ensures
            final(self).wf(),
            r == old(self)@[a as int],
            final(self)@ == union_spec(old(self)@, a as int, b as int),
    {
        let ra = self.find_mut(a);
        let rb = self.find_mut(b);
        let ghost mid = self.parents@;
        proof {
            self.lemma_wf_closed();
        }
        if ra == rb {
            proof {
                assert(union_spec(self@, a as int, b as int) =~= self@);
            }
            return ra;
        }
        let ghost c = self.canon@;
        let ghost rk = self.rank@;
        self.parents.set(rb, ra);
        self.canon = Ghost(union_spec(c, a as int, b as int));
        self.rank = Ghost(
            Seq::new(rk.len(), |i: int| if c[i] == rb { rk[i] + rk[ra as int] + 1 } else { rk[i] }),
        );
        proof {
            let p = self.parents@;
            assert forall|i: int| 0 <= i < p.len() implies {
                &&& #[trigger] p[i] < p.len()
                &&& self.canon@[i] < p.len()
                &&& self.canon@[self.canon@[i] as int] == self.canon@[i]
                &&& self.canon@[p[i] as int] == self.canon@[i]
                &&& (p[i] == i <==> self.canon@[i] == i)
                &&& (p[i] != i ==> self.rank@[p[i] as int] < self.rank@[i])
                &&& (self.canon@[i] != i ==> self.rank@[self.canon@[i] as int] < self.rank@[i])
            } by {
                assert(c[ra as int] == ra);
                assert(c[rb as int] == rb);
                if i != rb {
                    assert(p[i] == mid[i]);
                }
            }
        }
        ra
    }
}

} // verus!

verus! {

/// Canonicalizing twice is canonicalizing once: `find(find(x)) == find(x)`.
pub proof fn lemma_find_idempotent(uf: &UnionFind, x: int)
    requires
        uf.wf(),
        0 <= x < uf@.len(),
    ensures
        uf@[x] < uf@.len(),
        uf@[uf@[x] as int] == uf@[x],
{
    uf.lemma_wf_closed();
}

/// After `union(a, b)` the two ids share one representative, and the map stays closed.
pub proof fn lemma_union_joins(canon: Seq<nat>, a: int, b: int)
    requires
        canonical_closed(canon),
        0 <= a < canon.len(),
        0 <= b < canon.len(),
    ensures
        union_spec(canon, a, b)[a] == union_spec(canon, a, b)[b],
        canonical_closed(union_spec(canon, a, b)),
{
    let u = union_spec(canon, a, b);
    assert forall|i: int| 0 <= i < u.len() implies #[trigger] u[i] < u.len() && u[u[i] as int]
        == u[i] by {
        assert(canon[canon[i] as int] == canon[i]);
        assert(canon[canon[a] as int] == canon[a]);
    }
}

} // verus!
