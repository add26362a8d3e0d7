use vstd::prelude::*;
use vstd::std_specs::iter::IteratorSpec;

use crate::language::Language;
use crate::Id;

verus! {

/// One syntactic node, stamped with the generation in which it was inserted.
pub struct ENode<L> {
    pub node: L,
    pub version: usize,
}

impl<L: Language> ENode<L> {
    pub fn discriminant(&self) -> (r: L::Discriminant)
        ensures
            r@ == self.node.discriminant_spec(),
    {
        self.node.discriminant()
    }

    pub fn matches(&self, other: &Self) -> (r: bool)
        ensures
            r == self.node.matches_spec(&other.node),
    {
        self.node.matches(&other.node)
    }

    pub fn children(&self) -> (r: &[Id])
        ensures
            r@ == self.node.children_spec(),
    {
        self.node.children()
    }

    /// The children, to be rewritten in place; operator and version stay.
    pub fn children_mut(&mut self) -> (r: &mut [Id])
        ensures
            r@ == old(self).node.children_spec(),
            final(self).node.children_spec() == final(r)@,
            final(self).node.discriminant_spec() == old(self).node.discriminant_spec(),
            final(self).version == old(self).version,
    {
        self.node.children_mut()
    }
}

/// A node without children.
pub open spec fn is_leaf_spec<L: Language>(n: ENode<L>) -> bool {
    n.node.children_spec().len() == 0
}

/// The childless nodes of `nodes`, in their order.
pub open spec fn leaves_spec<L: Language>(nodes: Seq<ENode<L>>) -> Seq<ENode<L>>
    decreases nodes.len(),
{
    if nodes.len() == 0 {
        Seq::empty()
    } else {
        let rest = leaves_spec(nodes.drop_last());
        if is_leaf_spec(nodes.last()) {
            rest.push(nodes.last())
        } else {
            rest
        }
    }
}

/// Every two childless nodes of `nodes` match structurally.
pub open spec fn unique_leaves_spec<L: Language>(nodes: Seq<ENode<L>>) -> bool {
    forall|i: int, j: int|
        0 <= i < nodes.len() && 0 <= j < nodes.len() && is_leaf_spec(#[trigger] nodes[i])
            && is_leaf_spec(#[trigger] nodes[j]) ==> nodes[i].node.matches_spec(&nodes[j].node)
}

/// Childless nodes of one class that differ: the class, the position of its
/// first leaf, and the positions, in order, of every leaf that does not match it.
pub struct LeafConflict {
    pub class: Id,
    pub first: usize,
    pub others: Vec<usize>,
}

/// `b` is a copy of `a`: same ids, versions and parents, and node for node the
/// same shape and children; the data is a clone.
pub open spec fn class_copy<L: Language, D: Clone>(a: EClass<L, D>, b: EClass<L, D>) -> bool {
    &&& b.id == a.id
    &&& b.version == a.version
    &&& b.parents@ == a.parents@
    &&& b.nodes@.len() == a.nodes@.len()
    &&& forall|k: int|
        0 <= k < a.nodes@.len() ==> {
            &&& (#[trigger] b.nodes@[k]).version == a.nodes@[k].version
            &&& b.nodes@[k].node.matches_spec(&a.nodes@[k].node)
            &&& b.nodes@[k].node.children_spec() == a.nodes@[k].node.children_spec()
        }
    &&& cloned(a.data, b.data)
}

/// An equivalence class of enodes.
#[non_exhaustive]
pub struct EClass<L, D> {
    /// The generation in which this class was last created or touched.
    pub version: usize,
    /// The id this class was created with.
    pub id: Id,
    /// The equivalent enodes, in insertion order.
    pub nodes: Vec<ENode<L>>,
    /// The analysis data of this class.
    pub data: D,
    /// The non-canonical ids of the enodes that have this class as a child.
    pub parents: Vec<Id>,
}

impl<L, D> EClass<L, D> {
    pub fn is_empty(&self) -> (r: bool)
        ensures
            r == (self.nodes@.len() == 0),
    {
        self.nodes.len() == 0
    }

    pub fn len(&self) -> (r: usize)
        ensures
            r == self.nodes@.len(),
    {
        self.nodes.len()
    }

    /// Iterates over the enodes, in insertion order.
    pub fn iter(&self) -> (r: std::slice::Iter<'_, ENode<L>>)
        ensures
            r.remaining() == self.nodes@.as_ref(),
    {
        broadcast use vstd::std_specs::slice::axiom_spec_slice_iter;
        self.nodes.as_slice().iter()
    }

    /// Iterates over the non-canonical ids of the parent enodes.
    pub fn parents(&self) -> (r: std::slice::Iter<'_, Id>)
        ensures
            r.remaining() == self.parents@.as_ref(),
    {
        broadcast use vstd::std_specs::slice::axiom_spec_slice_iter;
        self.parents.as_slice().iter()
    }
}

impl<L: Language, D: Clone> EClass<L, D> {
    /// A copy of this class, independent of it.
    pub fn duplicate(&self) -> (r: Self)
        ensures
            class_copy(*self, r),
    {
        let mut nodes: Vec<ENode<L>> = Vec::new();
        let mut k: usize = 0;
        while k < self.nodes.len()
            invariant
                k <= self.nodes@.len(),
                nodes@.len() == k,
                forall|q: int|
                    0 <= q < k ==> {
                        &&& (#[trigger] nodes@[q]).version == self.nodes@[q].version
                        &&& nodes@[q].node.matches_spec(&self.nodes@[q].node)
                        &&& nodes@[q].node.children_spec() == self.nodes@[q].node.children_spec()
                    },
            decreases self.nodes@.len() - k,
        {
            let n = &self.nodes[k];
            nodes.push(ENode { node: n.node.clone_node(), version: n.version });
            k += 1;
        }
        EClass {
            version: self.version,
            id: self.id,
            nodes,
            data: self.data.clone(),
            parents: self.parents.clone(),
        }
    }
}

impl<L: Language, D> EClass<L, D> {
    /// The childless enodes, in insertion order.
    pub fn leaves(&self) -> (r: Vec<&ENode<L>>)
        ensures
            r@.len() == leaves_spec(self.nodes@).len(),
            forall|i: int| 0 <= i < r@.len() ==> *r@[i] == leaves_spec(self.nodes@)[i],
    {
        let mut r: Vec<&ENode<L>> = Vec::new();
        let mut i: usize = 0;
        while i < self.nodes.len()
            invariant
                i <= self.nodes@.len(),
                r@.len() == leaves_spec(self.nodes@.take(i as int)).len(),
                forall|k: int|
                    0 <= k < r@.len() ==> *r@[k] == leaves_spec(self.nodes@.take(i as int))[k],
            decreases self.nodes@.len() - i,
        {
            let n = &self.nodes[i];
            assert(self.nodes@.take(i + 1).drop_last() =~= self.nodes@.take(i as int));
            if n.node.is_leaf() {
                r.push(n);
            }
            i += 1;
        }
        assert(self.nodes@.take(i as int) =~= self.nodes@);
        r
    }

    /// Checks that the childless enodes of this class all match one another.
    /// On a conflict it reports the class, its first leaf, and every leaf that
    /// differs from that one.
    pub fn assert_unique_leaves(&self) -> (r: Result<(), LeafConflict>)
        ensures
            r is Ok <==> unique_leaves_spec(self.nodes@),
            r matches Err(c) ==> {
                &&& c.class == self.id
                &&& c.first < self.nodes@.len()
                &&& is_leaf_spec(self.nodes@[c.first as int])
                &&& forall|k: int| 0 <= k < c.first ==> !is_leaf_spec(#[trigger] self.nodes@[k])
                &&& c.others@.len() > 0
                &&& forall|t: int|
                    0 <= t < c.others@.len() ==> #[trigger] c.others@[t] < self.nodes@.len()
                &&& forall|a: int, b: int|
                    0 <= a < b < c.others@.len() ==> #[trigger] c.others@[a] < #[trigger] c.others@[b]
                &&& forall|k: int|
                    0 <= k < self.nodes@.len() ==> (c.others@.contains(k as usize) <==> (
                    is_leaf_spec(#[trigger] self.nodes@[k]) && !self.nodes@[c.first as int].node.matches_spec(
                        &self.nodes@[k].node,
                    )))
            },
    {
        proof {
            L::lemma_matches_equivalence();
        }
        let n = self.nodes.len();
        let mut f: usize = 0;
        while f < n && !self.nodes[f].node.is_leaf()
            invariant
                n == self.nodes@.len(),
                f <= n,
                forall|k: int| 0 <= k < f ==> !is_leaf_spec(#[trigger] self.nodes@[k]),
            decreases n - f,
        {
            f += 1;
        }
        if f == n {
            return Ok(());
        }
        let mut others: Vec<usize> = Vec::new();
        let mut j: usize = f + 1;
        while j < n
            invariant
                n == self.nodes@.len(),
                f < j <= n,
                is_leaf_spec(self.nodes@[f as int]),
                forall|k: int| 0 <= k < f ==> !is_leaf_spec(#[trigger] self.nodes@[k]),
                forall|t: int| 0 <= t < others@.len() ==> f < #[trigger] others@[t] < j,
                forall|a: int, b: int|
                    0 <= a < b < others@.len() ==> #[trigger] others@[a] < #[trigger] others@[b],
                forall|k: int|
                    f <= k < j ==> (others@.contains(k as usize) <==> (is_leaf_spec(
                        #[trigger] self.nodes@[k],
                    ) && !self.nodes@[f as int].node.matches_spec(&self.nodes@[k].node))),
            decreases n - j,
        {
            let ghost prev = others@;
            if self.nodes[j].node.is_leaf() && !self.nodes[f].node.matches(&self.nodes[j].node) {
                others.push(j);
            }
            proof {
                assert forall|k: int|
                    f <= k < j + 1 implies (others@.contains(k as usize) <==> (is_leaf_spec(
                        #[trigger] self.nodes@[k],
                    ) && !self.nodes@[f as int].node.matches_spec(&self.nodes@[k].node))) by {
                    if others@.contains(k as usize) && k < j {
                        let t = choose|t: int| 0 <= t < others@.len() && others@[t] == k as usize;
                        if t < prev.len() {
                            assert(prev[t] == k as usize);
                        }
                    }
                    if prev.contains(k as usize) {
                        let t = choose|t: int| 0 <= t < prev.len() && prev[t] == k as usize;
                        assert(others@[t] == k as usize);
                    }
                    if k == j && others@.len() > prev.len() {
                        assert(others@[prev.len() as int] == j);
                    }
                }
            }
            j += 1;
        }
        if others.len() > 0 {
            proof {
                assert(self.nodes@[f as int].node.matches_spec(&self.nodes@[f as int].node));
                assert forall|k: int|
                    0 <= k < self.nodes@.len() implies (others@.contains(k as usize) <==> (
                    is_leaf_spec(#[trigger] self.nodes@[k]) && !self.nodes@[f as int].node.matches_spec(
                        &self.nodes@[k].node,
                    ))) by {
                    if others@.contains(k as usize) {
                        let t = choose|t: int| 0 <= t < others@.len() && others@[t] == k as usize;
                        assert(f < others@[t]);
                    }
                }
                let t0 = others@[0] as int;
                assert(others@.contains(t0 as usize));
                assert(is_leaf_spec(self.nodes@[t0]));
                assert(!unique_leaves_spec(self.nodes@));
            }
            return Err(LeafConflict { class: self.id, first: f, others });
        }
        proof {
            assert forall|k: int|
                f <= k < n && is_leaf_spec(#[trigger] self.nodes@[k])
                    implies self.nodes@[f as int].node.matches_spec(&self.nodes@[k].node) by {
                if !self.nodes@[f as int].node.matches_spec(&self.nodes@[k].node) {
                    assert(others@.contains(k as usize));
                }
            }
            assert forall|a: int, b: int|
                0 <= a < n && 0 <= b < n && is_leaf_spec(#[trigger] self.nodes@[a])
                    && is_leaf_spec(#[trigger] self.nodes@[b]) implies self.nodes@[a].node.matches_spec(
                &self.nodes@[b].node,
            ) by {
                let x = &self.nodes@[f as int].node;
                assert(x.matches_spec(&self.nodes@[a].node));
                assert(x.matches_spec(&self.nodes@[b].node));
            }
        }
        Ok(())
    }
}

} // verus!
