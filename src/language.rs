use vstd::prelude::*;

use crate::Id;

verus! {

/// What the e-graph needs of a term language: an operator tag, a structural
/// match that ignores which ids the children are, and access to the children.
pub trait Language: Sized {
    type Discriminant: View;

    /// The ordered child ids of this node.
    spec fn children_spec(&self) -> Seq<Id>;

    /// Same operator and arity; the child ids themselves are not compared.
    spec fn matches_spec(&self, other: &Self) -> bool;

    /// The tag of this node's operator.
    spec fn discriminant_spec(&self) -> <Self::Discriminant as View>::V;

    /// `matches_spec` is an equivalence that keeps the tag and the arity.
    proof fn lemma_matches_equivalence()
        ensures
            forall|a: &Self| #[trigger] a.matches_spec(a),
            forall|a: &Self, b: &Self| #[trigger]
                a.matches_spec(b) ==> b.matches_spec(a) && a.discriminant_spec()
                    == b.discriminant_spec() && a.children_spec().len()
                    == b.children_spec().len(),
            forall|a: &Self, b: &Self, c: &Self|
                #[trigger] a.matches_spec(b) && #[trigger] b.matches_spec(c) ==> a.matches_spec(c),
    ;

    fn discriminant(&self) -> (r: Self::Discriminant)
        ensures
            r@ == self.discriminant_spec(),
    ;

    fn matches(&self, other: &Self) -> (r: bool)
        ensures
            r == self.matches_spec(other),
    ;

    fn children(&self) -> (r: &[Id])
        ensures
            r@ == self.children_spec(),
    ;

    /// The children, to be rewritten in place; the operator stays as it was.
    fn children_mut(&mut self) -> (r: &mut [Id])
        ensures
            r@ == old(self).children_spec(),
            final(self).children_spec() == final(r)@,
            final(self).discriminant_spec() == old(self).discriminant_spec(),
            final(r)@.len() == r@.len() ==> old(self).matches_spec(&*final(self)),
    ;

    fn is_leaf(&self) -> (r: bool)
        ensures
            r == (self.children_spec().len() == 0),
    ;

    /// A copy with the same operator and the same children.
    fn clone_node(&self) -> (r: Self)
        ensures
            r.matches_spec(self),
            r.children_spec() == self.children_spec(),
    ;
}

/// A language of named operators applied to child classes, such as `(f x)`.
pub struct SymbolLang {
    pub op: String,
    pub children: Vec<Id>,
}

impl SymbolLang {
    pub fn new(op: String, children: Vec<Id>) -> (r: Self)
        ensures
            r.op@ == op@,
            r.children@ == children@,
    {
        SymbolLang { op, children }
    }

    pub fn leaf(op: String) -> (r: Self)
        ensures
            r.op@ == op@,
            r.children@.len() == 0,
    {
        SymbolLang { op, children: Vec::new() }
    }
}

impl Language for SymbolLang {
    type Discriminant = String;

    open spec fn children_spec(&self) -> Seq<Id> {
        self.children@
    }

    open spec fn matches_spec(&self, other: &Self) -> bool {
        self.op@ == other.op@ && self.children@.len() == other.children@.len()
    }

    open spec fn discriminant_spec(&self) -> Seq<char> {
        self.op@
    }

    proof fn lemma_matches_equivalence() {
    }

    fn discriminant(&self) -> (r: String) {
        self.op.clone()
    }

    fn matches(&self, other: &Self) -> (r: bool) {
        self.op == other.op && self.children.len() == other.children.len()
    }

    fn children(&self) -> (r: &[Id]) {
        self.children.as_slice()
    }

    fn children_mut(&mut self) -> (r: &mut [Id]) {
        self.children.as_mut_slice()
    }

    fn is_leaf(&self) -> (r: bool) {
        self.children.len() == 0
    }

    fn clone_node(&self) -> (r: Self) {
        SymbolLang { op: self.op.clone(), children: self.children.clone() }
    }
}

} // verus!
