//! Groupings of elements: a leaf, or two or three shared children one level down.
use std::rc::Rc;
use vstd::prelude::*;
use crate::fold::{
    Foldable, fold_left_rel, fold_right_rel, left_step, right_step, left_callable, right_callable,
    lemma_fold_left_one, lemma_fold_right_one, lemma_fold_left_append, lemma_fold_right_append,
    lemma_left_callable_split, lemma_right_callable_split,
};

verus! {

/// A leaf holds one element; `Node2` and `Node3` group two or three nodes of the level below.
/// Children and elements sit behind `Rc`, so that every tree version that holds a node
/// shares it instead of copying it.
#[derive(Debug, PartialEq, Eq)]
pub enum Node<A> {
    Leaf(Rc<A>),
    Node2(Rc<Node<A>>, Rc<Node<A>>),
    Node3(Rc<Node<A>>, Rc<Node<A>>, Rc<Node<A>>),
}

impl<A> View for Node<A> {
    type V = Seq<A>;

    open spec fn view(&self) -> Seq<A> {
        self.leaves()
    }
}

impl<A> Node<A> {
    /// The leaves, from left to right.
    pub open spec fn leaves(&self) -> Seq<A>
        decreases self,
    {
        match self {
            Node::Leaf(a) => seq![**a],
            Node::Node2(a, b) => a.leaves() + b.leaves(),
            Node::Node3(a, b, c) => a.leaves() + b.leaves() + c.leaves(),
        }
    }

    /// Every path from this node down to a leaf passes through `d` groupings.
    pub open spec fn has_depth(&self, d: nat) -> bool
        decreases self,
    {
        match self {
            Node::Leaf(_) => d == 0,
            Node::Node2(a, b) => d > 0 && a.has_depth((d - 1) as nat) && b.has_depth((d - 1) as nat),
            Node::Node3(a, b, c) => {
                &&& d > 0
                &&& a.has_depth((d - 1) as nat)
                &&& b.has_depth((d - 1) as nat)
                &&& c.has_depth((d - 1) as nat)
            },
        }
    }

    /// Every grouping in this node holds three children.
    pub open spec fn groups_of_three(&self) -> bool
        decreases self,
    {
        match self {
            Node::Leaf(_) => true,
            Node::Node2(..) => false,
            Node::Node3(a, b, c) => a.groups_of_three() && b.groups_of_three() && c.groups_of_three(),
        }
    }

    /// A node holds at least one element.
    pub proof fn lemma_nonempty(&self)
        ensures
            self@.len() >= 1,
        decreases self,
    {
        match self {
            Node::Leaf(_) => {},
            Node::Node2(a, _) => {
                a.lemma_nonempty();
            },
            Node::Node3(a, _, _) => {
                a.lemma_nonempty();
            },
        }
    }

    /// The leftmost element.
    pub fn front(&self) -> (r: &A)
        ensures
            self@.len() >= 1,
            *r == self@[0],
        decreases self,
    {
        proof {
            self.lemma_nonempty();
        }
        match self {
            Node::Leaf(a) => &**a,
            Node::Node2(a, _) => a.front(),
            Node::Node3(a, _, _) => a.front(),
        }
    }

    /// The rightmost element.
    pub fn back(&self) -> (r: &A)
        ensures
            self@.len() >= 1,
            *r == self@.last(),
        decreases self,
    {
        proof {
            self.lemma_nonempty();
        }
        match self {
            Node::Leaf(a) => &**a,
            Node::Node2(a, b) => {
                proof {
                    a.lemma_nonempty();
                }
                b.back()
            },
            Node::Node3(a, b, c) => {
                proof {
                    a.lemma_nonempty();
                    b.lemma_nonempty();
                }
                c.back()
            },
        }
    }

    pub(crate) fn fold_left_by<B, F>(&self, z: B, f: &F) -> (r: B) where F: Fn(B, &A) -> B
        requires
            left_callable(*f, self@),
        ensures
            fold_left_rel(left_step(*f), z, self@, r),
        decreases self,
    {
        match self {
            Node::Leaf(a) => {
                assert(self@[0] == **a);
                let r = f(z, &**a);
                proof {
                    lemma_fold_left_one(left_step(*f), z, self@, r);
                }
                r
            },
            Node::Node2(a, b) => {
                proof {
                    lemma_left_callable_split(*f, a@, b@);
                }
                let m = a.fold_left_by(z, f);
                let r = b.fold_left_by(m, f);
                proof {
                    lemma_fold_left_append(left_step(*f), z, a@, m, b@, r);
                }
                r
            },
            Node::Node3(a, b, c) => {
                proof {
                    lemma_left_callable_split(*f, a@ + b@, c@);
                    lemma_left_callable_split(*f, a@, b@);
                }
                let m1 = a.fold_left_by(z, f);
                let m2 = b.fold_left_by(m1, f);
                let r = c.fold_left_by(m2, f);
                proof {
                    lemma_fold_left_append(left_step(*f), z, a@, m1, b@, m2);
                    lemma_fold_left_append(left_step(*f), z, a@ + b@, m2, c@, r);
                }
                r
            },
        }
    }

    pub(crate) fn fold_right_by<B, F>(&self, z: B, f: &F) -> (r: B) where F: Fn(&A, B) -> B
        requires
            right_callable(*f, self@),
        ensures
            fold_right_rel(right_step(*f), z, self@, r),
        decreases self,
    {
        match self {
            Node::Leaf(a) => {
                assert(self@[0] == **a);
                let r = f(&**a, z);
                proof {
                    lemma_fold_right_one(right_step(*f), z, self@, r);
                }
                r
            },
            Node::Node2(a, b) => {
                proof {
                    lemma_right_callable_split(*f, a@, b@);
                }
                let m = b.fold_right_by(z, f);
                let r = a.fold_right_by(m, f);
                proof {
                    lemma_fold_right_append(right_step(*f), z, a@, m, b@, r);
                }
                r
            },
            Node::Node3(a, b, c) => {
                proof {
                    lemma_right_callable_split(*f, a@ + b@, c@);
                    lemma_right_callable_split(*f, a@, b@);
                }
                let m2 = c.fold_right_by(z, f);
                let m1 = b.fold_right_by(m2, f);
                let r = a.fold_right_by(m1, f);
                proof {
                    lemma_fold_right_append(right_step(*f), m2, a@, m1, b@, r);
                    lemma_fold_right_append(right_step(*f), z, a@ + b@, m2, c@, r);
                }
                r
            },
        }
    }
}

impl<A> Clone for Node<A> {
    /// Shares the children: nothing below this node is copied.
    fn clone(&self) -> (r: Self)
        ensures
            r == *self,
    {
        match self {
            Node::Leaf(a) => Node::Leaf(a.clone()),
            Node::Node2(a, b) => Node::Node2(a.clone(), b.clone()),
            Node::Node3(a, b, c) => Node::Node3(a.clone(), b.clone(), c.clone()),
        }
    }
}

impl<A> Foldable<A> for Node<A> {
    open spec fn elements(&self) -> Seq<A> {
        self@
    }

    fn foldl<B, F>(&self, z: B, f: F) -> (r: B) where F: Fn(B, &A) -> B {
        self.fold_left_by(z, &f)
    }

    fn foldr<B, F>(&self, z: B, f: F) -> (r: B) where F: Fn(&A, B) -> B {
        self.fold_right_by(z, &f)
    }
}

} // verus!
