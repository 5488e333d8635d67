//! The fingers: buffers of one to four nodes at either end of a tree level.
use vstd::prelude::*;
use crate::node::Node;
use crate::fold::{
    Foldable, fold_left_rel, fold_right_rel, left_step, right_step, left_callable, right_callable,
    lemma_fold_left_append, lemma_fold_right_append, lemma_left_callable_split,
    lemma_right_callable_split,
};

verus! {

/// One to four nodes, held by value.
#[derive(Debug, PartialEq, Eq)]
pub enum Digit<A> {
    One(Node<A>),
    Two(Node<A>, Node<A>),
    Three(Node<A>, Node<A>, Node<A>),
    Four(Node<A>, Node<A>, Node<A>, Node<A>),
}

impl<A> View for Digit<A> {
    type V = Seq<A>;

    /// The elements of the nodes, from the first node to the last.
    open spec fn view(&self) -> Seq<A> {
        match self {
            Digit::One(a) => a@,
            Digit::Two(a, b) => a@ + b@,
            Digit::Three(a, b, c) => a@ + b@ + c@,
            Digit::Four(a, b, c, d) => a@ + b@ + c@ + d@,
        }
    }
}

impl<A> Digit<A> {
    /// How many nodes the digit holds.
    pub open spec fn arity(&self) -> nat {
        match self {
            Digit::One(..) => 1,
            Digit::Two(..) => 2,
            Digit::Three(..) => 3,
            Digit::Four(..) => 4,
        }
    }

    /// Every node of the digit has depth `d`.
    pub open spec fn has_depth(&self, d: nat) -> bool {
        match self {
            Digit::One(a) => a.has_depth(d),
            Digit::Two(a, b) => a.has_depth(d) && b.has_depth(d),
            Digit::Three(a, b, c) => a.has_depth(d) && b.has_depth(d) && c.has_depth(d),
            Digit::Four(a, b, c, e) => a.has_depth(d) && b.has_depth(d) && c.has_depth(d) && e.has_depth(d),
        }
    }

    /// Every grouping in every node of the digit holds three children.
    pub open spec fn groups_of_three(&self) -> bool {
        match self {
            Digit::One(a) => a.groups_of_three(),
            Digit::Two(a, b) => a.groups_of_three() && b.groups_of_three(),
            Digit::Three(a, b, c) => a.groups_of_three() && b.groups_of_three() && c.groups_of_three(),
            Digit::Four(a, b, c, d) => {
                &&& a.groups_of_three()
                &&& b.groups_of_three()
                &&& c.groups_of_three()
                &&& d.groups_of_three()
            },
        }
    }

    /// A digit holds between one and four nodes, and at least one element.
    pub proof fn lemma_bounds(&self)
        ensures
            1 <= self.arity() <= 4,
            self@.len() >= 1,
    {
        match self {
            Digit::One(a) => a.lemma_nonempty(),
            Digit::Two(a, _) => a.lemma_nonempty(),
            Digit::Three(a, _, _) => a.lemma_nonempty(),
            Digit::Four(a, _, _, _) => a.lemma_nonempty(),
        }
    }

    /// The first element of the first node.
    pub fn front(&self) -> (r: &A)
        ensures
            self@.len() >= 1,
            *r == self@[0],
    {
        proof {
            self.lemma_bounds();
        }
        match self {
            Digit::One(a) => a.front(),
            Digit::Two(a, _) => a.front(),
            Digit::Three(a, _, _) => a.front(),
            Digit::Four(a, _, _, _) => a.front(),
        }
    }

    /// The last element of the last node.
    pub fn back(&self) -> (r: &A)
        ensures
            self@.len() >= 1,
            *r == self@.last(),
    {
        proof {
            self.lemma_bounds();
        }
        match self {
            Digit::One(a) => a.back(),
            Digit::Two(_, b) => b.back(),
            Digit::Three(_, _, c) => c.back(),
            Digit::Four(_, _, _, d) => d.back(),
        }
    }

    pub(crate) fn fold_left_by<B, F>(&self, z: B, f: &F) -> (r: B) where F: Fn(B, &A) -> B
        requires
            left_callable(*f, self@),
        ensures
            fold_left_rel(left_step(*f), z, self@, r),
    {
        match self {
            Digit::One(a) => a.fold_left_by(z, f),
            Digit::Two(a, b) => {
                proof {
                    lemma_left_callable_split(*f, a@, b@);
                }
                let m = a.fold_left_by(z, f);
                let r = b.fold_left_by(m, f);
                proof {
                    lemma_fold_left_append(left_step(*f), z, a@, m, b@, r);
                }
                r
            },
            Digit::Three(a, b, c) => {
                proof {
                    lemma_left_callable_split(*f, a@ + b@, c@);
                    lemma_left_callable_split(*f, a@, b@);
                }
                let m1 = a.fold_left_by(z, f);
                let m2 = b.fold_left_by(m1, f);
                let r = c.fold_left_by(m2, f);
                proof {
                    lemma_fold_left_append(left_step(*f), z, a@, m1, b@, m2);
                    lemma_fold_left_append(left_step(*f), z, a@ + b@, m2, c@, r);
                }
                r
            },
            Digit::Four(a, b, c, d) => {
                proof {
                    lemma_left_callable_split(*f, a@ + b@ + c@, d@);
                    lemma_left_callable_split(*f, a@ + b@, c@);
                    lemma_left_callable_split(*f, a@, b@);
                }
                let m1 = a.fold_left_by(z, f);
                let m2 = b.fold_left_by(m1, f);
                let m3 = c.fold_left_by(m2, f);
                let r = d.fold_left_by(m3, f);
                proof {
                    lemma_fold_left_append(left_step(*f), z, a@, m1, b@, m2);
                    lemma_fold_left_append(left_step(*f), z, a@ + b@, m2, c@, m3);
                    lemma_fold_left_append(left_step(*f), z, a@ + b@ + c@, m3, d@, r);
                }
                r
            },
        }
    }

    pub(crate) fn fold_right_by<B, F>(&self, z: B, f: &F) -> (r: B) where F: Fn(&A, B) -> B
        requires
            right_callable(*f, self@),
        ensures
            fold_right_rel(right_step(*f), z, self@, r),
    {
        match self {
            Digit::One(a) => a.fold_right_by(z, f),
            Digit::Two(a, b) => {
                proof {
                    lemma_right_callable_split(*f, a@, b@);
                }
                let m = b.fold_right_by(z, f);
                let r = a.fold_right_by(m, f);
                proof {
                    lemma_fold_right_append(right_step(*f), z, a@, m, b@, r);
                }
                r
            },
            Digit::Three(a, b, c) => {
                proof {
                    lemma_right_callable_split(*f, a@ + b@, c@);
                    lemma_right_callable_split(*f, a@, b@);
                }
                let m2 = c.fold_right_by(z, f);
                let m1 = b.fold_right_by(m2, f);
                let r = a.fold_right_by(m1, f);
                proof {
                    lemma_fold_right_append(right_step(*f), m2, a@, m1, b@, r);
                    lemma_fold_right_append(right_step(*f), z, a@ + b@, m2, c@, r);
                }
                r
            },
            Digit::Four(a, b, c, d) => {
                proof {
                    lemma_right_callable_split(*f, a@ + b@ + c@, d@);
                    lemma_right_callable_split(*f, a@ + b@, c@);
                    lemma_right_callable_split(*f, a@, b@);
                }
                let m3 = d.fold_right_by(z, f);
                let m2 = c.fold_right_by(m3, f);
                let m1 = b.fold_right_by(m2, f);
                let r = a.fold_right_by(m1, f);
                proof {
                    lemma_fold_right_append(right_step(*f), m2, a@, m1, b@, r);
                    lemma_fold_right_append(right_step(*f), m3, a@ + b@, m2, c@, r);
                    lemma_fold_right_append(right_step(*f), z, a@ + b@ + c@, m3, d@, r);
                }
                r
            },
        }
    }
}

impl<A> Clone for Digit<A> {
    /// Copies the digit's nodes, which share everything below them.
    fn clone(&self) -> (r: Self)
        ensures
            r == *self,
    {
        match self {
            Digit::One(a) => Digit::One(a.clone()),
            Digit::Two(a, b) => Digit::Two(a.clone(), b.clone()),
            Digit::Three(a, b, c) => Digit::Three(a.clone(), b.clone(), c.clone()),
            Digit::Four(a, b, c, d) => Digit::Four(a.clone(), b.clone(), c.clone(), d.clone()),
        }
    }
}

impl<A> Foldable<A> for Digit<A> {
    open spec fn elements(&self) -> Seq<A> {
        self@
    }

    fn foldl<B, F>(&self, z: B, f: F) -> (r: B) where F: Fn(B, &A) -> B {
        self.fold_left_by(z, &f)
    }

    fn foldr<B, F>(&self, z: B, f: F) -> (r: B) where F: Fn(&A, B) -> B {
        self.fold_right_by(z, &f)
    }
}

} // verus!
