//! The finger tree: empty, one node, or a prefix digit, a shared deeper tree and a suffix digit.
use std::rc::Rc;
use vstd::prelude::*;
use crate::digit::Digit;
use crate::node::Node;
use crate::fold::{
    Foldable, fold_left_rel, fold_right_rel, left_step, right_step, left_callable, right_callable,
    lemma_fold_left_append, lemma_fold_right_append, lemma_fold_left_empty, lemma_fold_right_empty,
    lemma_left_callable_split, lemma_right_callable_split,
};

verus! {

/// A persistent sequence. In `Deep(pr, m, sf)` the middle tree `m` holds nodes one level deeper
/// than the digits `pr` and `sf`; it sits behind `Rc`, so that versions made by pushing onto a
/// tree share it with that tree.
#[derive(Debug, PartialEq, Eq)]
pub enum FingerTree<A> {
    Empty,
    Single(Node<A>),
    Deep(Digit<A>, Rc<FingerTree<A>>, Digit<A>),
}

impl<A> View for FingerTree<A> {
    type V = Seq<A>;

    open spec fn view(&self) -> Seq<A> {
        self.leaves()
    }
}

impl<A> FingerTree<A> {
    /// The elements, from first to last: prefix, then middle, then suffix.
    pub open spec fn leaves(&self) -> Seq<A>
        decreases self,
    {
        match self {
            FingerTree::Empty => Seq::empty(),
            FingerTree::Single(a) => a@,
            FingerTree::Deep(pr, m, sf) => pr@ + m.leaves() + sf@,
        }
    }

    /// The nodes at the top of this tree have depth `d`, and at each level down one more.
    pub open spec fn has_depth(&self, d: nat) -> bool
        decreases self,
    {
        match self {
            FingerTree::Empty => true,
            FingerTree::Single(a) => a.has_depth(d),
            FingerTree::Deep(pr, m, sf) => pr.has_depth(d) && sf.has_depth(d) && m.has_depth(d + 1),
        }
    }

    /// Every grouping in every node of every level holds three children.
    pub open spec fn groups_of_three(&self) -> bool
        decreases self,
    {
        match self {
            FingerTree::Empty => true,
            FingerTree::Single(a) => a.groups_of_three(),
            FingerTree::Deep(pr, m, sf) => pr.groups_of_three() && sf.groups_of_three() && m.groups_of_three(),
        }
    }

    /// A tree of elements: its top level holds leaves, each level down holds nodes one grouping
    /// deeper, and every grouping holds three children, as pushes build them.
    pub open spec fn wf(&self) -> bool {
        self.has_depth(0) && self.groups_of_three()
    }

    /// The tree that pushing node `a` onto the front builds. A prefix with room takes `a` in
    /// front; a full prefix `Four(b, c, d, e)` becomes `Two(a, b)` and `c`, `d`, `e` go, grouped,
    /// onto the front of the middle tree. The suffix stays as it is.
    pub open spec fn pushed_front(&self, a: Node<A>) -> FingerTree<A>
        decreases self,
    {
        match self {
            FingerTree::Empty => FingerTree::Single(a),
            FingerTree::Single(b) => FingerTree::Deep(Digit::One(a), Rc::new(FingerTree::Empty), Digit::One(*b)),
            FingerTree::Deep(pr, m, sf) => match pr {
                Digit::One(b) => FingerTree::Deep(Digit::Two(a, *b), *m, *sf),
                Digit::Two(b, c) => FingerTree::Deep(Digit::Three(a, *b, *c), *m, *sf),
                Digit::Three(b, c, d) => FingerTree::Deep(Digit::Four(a, *b, *c, *d), *m, *sf),
                Digit::Four(b, c, d, e) => FingerTree::Deep(
                    Digit::Two(a, *b),
                    Rc::new(m.pushed_front(Node::Node3(Rc::new(*c), Rc::new(*d), Rc::new(*e)))),
                    *sf,
                ),
            },
        }
    }

    /// The tree that pushing node `a` onto the back builds. A suffix with room takes `a` at its
    /// end; a full suffix `Four(e, d, c, b)` becomes `Two(b, a)` and `e`, `d`, `c` go, grouped,
    /// onto the back of the middle tree. The prefix stays as it is.
    pub open spec fn pushed_back(&self, a: Node<A>) -> FingerTree<A>
        decreases self,
    {
        match self {
            FingerTree::Empty => FingerTree::Single(a),
            FingerTree::Single(b) => FingerTree::Deep(Digit::One(*b), Rc::new(FingerTree::Empty), Digit::One(a)),
            FingerTree::Deep(pr, m, sf) => match sf {
                Digit::One(b) => FingerTree::Deep(*pr, *m, Digit::Two(*b, a)),
                Digit::Two(c, b) => FingerTree::Deep(*pr, *m, Digit::Three(*c, *b, a)),
                Digit::Three(d, c, b) => FingerTree::Deep(*pr, *m, Digit::Four(*d, *c, *b, a)),
                Digit::Four(e, d, c, b) => FingerTree::Deep(
                    *pr,
                    Rc::new(m.pushed_back(Node::Node3(Rc::new(*e), Rc::new(*d), Rc::new(*c)))),
                    Digit::Two(*b, a),
                ),
            },
        }
    }

    /// The tree that pushing the elements of `s`, first to last, onto the back of the empty
    /// tree builds.
    pub open spec fn pushed_all(s: Seq<A>) -> FingerTree<A>
        decreases s.len(),
    {
        if s.len() == 0 {
            FingerTree::Empty
        } else {
            FingerTree::pushed_all(s.drop_last()).pushed_back(Node::Leaf(Rc::new(s.last())))
        }
    }

    /// Every digit of every level holds between one and four nodes.
    pub open spec fn digits_bounded(&self) -> bool
        decreases self,
    {
        match self {
            FingerTree::Empty => true,
            FingerTree::Single(_) => true,
            FingerTree::Deep(pr, m, sf) => {
                &&& 1 <= pr.arity() <= 4
                &&& 1 <= sf.arity() <= 4
                &&& m.digits_bounded()
            },
        }
    }

    /// Every digit of every level of a tree holds between one and four nodes.
    pub proof fn lemma_digits_bounded(&self)
        ensures
            self.digits_bounded(),
        decreases self,
    {
        if let FingerTree::Deep(pr, m, sf) = self {
            pr.lemma_bounds();
            sf.lemma_bounds();
            m.lemma_digits_bounded();
        }
    }

    /// Only the empty tree has no elements.
    pub proof fn lemma_empty_iff(&self)
        ensures
            (self@.len() == 0) == (self is Empty),
    {
        match self {
            FingerTree::Empty => {},
            FingerTree::Single(a) => a.lemma_nonempty(),
            FingerTree::Deep(pr, _, _) => pr.lemma_bounds(),
        }
    }

    /// The empty tree.
    pub fn new() -> (r: FingerTree<A>)
        ensures
            r is Empty,
            r@ == Seq::<A>::empty(),
            r.wf(),
    {
        FingerTree::Empty
    }

    /// A new tree with node `a` in front of this tree's elements. A full prefix keeps its first
    /// node and sends the other three, grouped, into the middle tree.
    fn push_front_aux(&self, a: Node<A>) -> (r: FingerTree<A>)
        ensures
            r == self.pushed_front(a),
            r@ == a@ + self@,
            forall|d: nat| self.has_depth(d) && a.has_depth(d) ==> #[trigger] r.has_depth(d),
            self.groups_of_three() && a.groups_of_three() ==> r.groups_of_three(),
        decreases self,
    {
        match self {
            FingerTree::Empty => {
                assert(self@ =~= Seq::<A>::empty());
                let r = FingerTree::Single(a);
                assert(r@ =~= a@ + self@);
                assert(forall|k: nat| self.has_depth(k) && a.has_depth(k) ==> #[trigger] r.has_depth(k));
                r
            },
            FingerTree::Single(b) => {
                let e = Rc::new(FingerTree::Empty);
                assert(e.leaves() =~= Seq::<A>::empty());
                assert(forall|k: nat| #[trigger] e.has_depth(k));
                assert(e.groups_of_three());
                let r = FingerTree::Deep(Digit::One(a), e, Digit::One(b.clone()));
                assert(r@ =~= a@ + self@);
                assert forall|k: nat| self.has_depth(k) && a.has_depth(k) implies #[trigger] r.has_depth(k) by {
                    assert(b.has_depth(k));
                    assert(e.has_depth(k + 1));
                }
                r
            },
            FingerTree::Deep(pr, m, sf) => match pr {
                Digit::Four(b, c, d, e) => {
                    let grouped = Node::Node3(Rc::new(c.clone()), Rc::new(d.clone()), Rc::new(e.clone()));
                    let pr2 = Digit::Two(a, b.clone());
                    assert(pr2@ + grouped@ =~= a@ + pr@);
                    let m2 = m.push_front_aux(grouped);
                    let r = FingerTree::Deep(pr2, Rc::new(m2), sf.clone());
                    assert(r@ =~= a@ + self@);
                    assert forall|k: nat| self.has_depth(k) && a.has_depth(k) implies #[trigger] r.has_depth(k) by {
                        assert(grouped.has_depth(k + 1));
                        assert(m2.has_depth(k + 1));
                    }
                    assert(self.groups_of_three() && a.groups_of_three() ==> grouped.groups_of_three());
                    r
                },
                Digit::One(b) => {
                    let pr2 = Digit::Two(a, b.clone());
                    assert(pr2@ =~= a@ + pr@);
                    let r = FingerTree::Deep(pr2, m.clone(), sf.clone());
                    assert(r@ =~= a@ + self@);
                    assert(forall|k: nat| self.has_depth(k) && a.has_depth(k) ==> #[trigger] r.has_depth(k));
                    r
                },
                Digit::Two(b, c) => {
                    let pr2 = Digit::Three(a, b.clone(), c.clone());
                    assert(pr2@ =~= a@ + pr@);
                    let r = FingerTree::Deep(pr2, m.clone(), sf.clone());
                    assert(r@ =~= a@ + self@);
                    assert(forall|k: nat| self.has_depth(k) && a.has_depth(k) ==> #[trigger] r.has_depth(k));
                    r
                },
                Digit::Three(b, c, d) => {
                    let pr2 = Digit::Four(a, b.clone(), c.clone(), d.clone());
                    assert(pr2@ =~= a@ + pr@);
                    let r = FingerTree::Deep(pr2, m.clone(), sf.clone());
                    assert(r@ =~= a@ + self@);
                    assert(forall|k: nat| self.has_depth(k) && a.has_depth(k) ==> #[trigger] r.has_depth(k));
                    r
                },
            },
        }
    }

    /// A new tree with node `a` after this tree's elements. A full suffix keeps its last node
    /// and sends the other three, grouped, into the middle tree.
    fn push_back_aux(&self, a: Node<A>) -> (r: FingerTree<A>)
        ensures
            r == self.pushed_back(a),
            r@ == self@ + a@,
            forall|d: nat| self.has_depth(d) && a.has_depth(d) ==> #[trigger] r.has_depth(d),
            self.groups_of_three() && a.groups_of_three() ==> r.groups_of_three(),
        decreases self,
    {
        match self {
            FingerTree::Empty => {
                assert(self@ =~= Seq::<A>::empty());
                let r = FingerTree::Single(a);
                assert(r@ =~= self@ + a@);
                assert(forall|k: nat| self.has_depth(k) && a.has_depth(k) ==> #[trigger] r.has_depth(k));
                r
            },
            FingerTree::Single(b) => {
                let e = Rc::new(FingerTree::Empty);
                assert(e.leaves() =~= Seq::<A>::empty());
                assert(forall|k: nat| #[trigger] e.has_depth(k));
                assert(e.groups_of_three());
                let r = FingerTree::Deep(Digit::One(b.clone()), e, Digit::One(a));
                assert(r@ =~= self@ + a@);
                assert forall|k: nat| self.has_depth(k) && a.has_depth(k) implies #[trigger] r.has_depth(k) by {
                    assert(b.has_depth(k));
                    assert(e.has_depth(k + 1));
                }
                r
            },
            FingerTree::Deep(pr, m, sf) => match sf {
                Digit::Four(e, d, c, b) => {
                    let grouped = Node::Node3(Rc::new(e.clone()), Rc::new(d.clone()), Rc::new(c.clone()));
                    let sf2 = Digit::Two(b.clone(), a);
                    assert(grouped@ + sf2@ =~= sf@ + a@);
                    let m2 = m.push_back_aux(grouped);
                    let r = FingerTree::Deep(pr.clone(), Rc::new(m2), sf2);
                    assert(r@ =~= self@ + a@);
                    assert forall|k: nat| self.has_depth(k) && a.has_depth(k) implies #[trigger] r.has_depth(k) by {
                        assert(grouped.has_depth(k + 1));
                        assert(m2.has_depth(k + 1));
                    }
                    assert(self.groups_of_three() && a.groups_of_three() ==> grouped.groups_of_three());
                    r
                },
                Digit::One(b) => {
                    let sf2 = Digit::Two(b.clone(), a);
                    assert(sf2@ =~= sf@ + a@);
                    let r = FingerTree::Deep(pr.clone(), m.clone(), sf2);
                    assert(r@ =~= self@ + a@);
                    assert(forall|k: nat| self.has_depth(k) && a.has_depth(k) ==> #[trigger] r.has_depth(k));
                    r
                },
                Digit::Two(c, b) => {
                    let sf2 = Digit::Three(c.clone(), b.clone(), a);
                    assert(sf2@ =~= sf@ + a@);
                    let r = FingerTree::Deep(pr.clone(), m.clone(), sf2);
                    assert(r@ =~= self@ + a@);
                    assert(forall|k: nat| self.has_depth(k) && a.has_depth(k) ==> #[trigger] r.has_depth(k));
                    r
                },
                Digit::Three(d, c, b) => {
                    let sf2 = Digit::Four(d.clone(), c.clone(), b.clone(), a);
                    assert(sf2@ =~= sf@ + a@);
                    let r = FingerTree::Deep(pr.clone(), m.clone(), sf2);
                    assert(r@ =~= self@ + a@);
                    assert(forall|k: nat| self.has_depth(k) && a.has_depth(k) ==> #[trigger] r.has_depth(k));
                    r
                },
            },
        }
    }

    /// A new tree with `a` in front of this tree's elements; this tree is left as it is.
    pub fn push_front(&self, a: A) -> (r: FingerTree<A>)
        ensures
            r == self.pushed_front(Node::Leaf(Rc::new(a))),
            r@ == seq![a] + self@,
            self.wf() ==> r.wf(),
    {
        self.push_front_aux(Node::Leaf(Rc::new(a)))
    }

    /// A new tree with `a` after this tree's elements; this tree is left as it is.
    pub fn push_back(&self, a: A) -> (r: FingerTree<A>)
        ensures
            r == self.pushed_back(Node::Leaf(Rc::new(a))),
            r@ == self@.push(a),
            self.wf() ==> r.wf(),
    {
        let r = self.push_back_aux(Node::Leaf(Rc::new(a)));
        assert(r@ =~= self@.push(a));
        r
    }

    /// The first element, or `None` for the empty tree.
    pub fn front(&self) -> (r: Option<&A>)
        ensures
            r is None <==> self is Empty,
            r is None <==> self@.len() == 0,
            r matches Some(x) ==> *x == self@[0],
    {
        proof {
            self.lemma_empty_iff();
        }
        match self {
            FingerTree::Empty => None,
            FingerTree::Single(a) => Some(a.front()),
            FingerTree::Deep(pr, _, _) => {
                let x = pr.front();
                assert(self@[0] == pr@[0]);
                Some(x)
            },
        }
    }

    /// The last element, or `None` for the empty tree.
    pub fn back(&self) -> (r: Option<&A>)
        ensures
            r is None <==> self is Empty,
            r is None <==> self@.len() == 0,
            r matches Some(x) ==> *x == self@.last(),
    {
        proof {
            self.lemma_empty_iff();
        }
        match self {
            FingerTree::Empty => None,
            FingerTree::Single(a) => Some(a.back()),
            FingerTree::Deep(_, _, sf) => {
                let x = sf.back();
                assert(self@.last() == sf@.last());
                Some(x)
            },
        }
    }

    /// A tree of the elements of `items`, in order, made by pushing each onto the back of
    /// the empty tree.
    pub fn from_iter(items: Vec<A>) -> (r: FingerTree<A>)
        ensures
            r == FingerTree::pushed_all(items@),
            r@ == items@,
            r.wf(),
    {
        let mut items = items;
        let ghost all = items@;
        let mut reversed: Vec<A> = Vec::new();
        while items.len() > 0
            invariant
                items@ + reversed@.reverse() == all,
            decreases items.len(),
        {
            let x = items.pop().unwrap();
            reversed.push(x);
            assert(items@ + reversed@.reverse() =~= all);
        }
        assert(reversed@.reverse() =~= all);
        let mut t = FingerTree::new();
        assert(all.subrange(0, 0) =~= Seq::<A>::empty());
        while reversed.len() > 0
            invariant
                reversed@.len() <= all.len(),
                reversed@.reverse() == all.subrange(all.len() - reversed@.len(), all.len() as int),
                t == FingerTree::pushed_all(all.subrange(0, all.len() - reversed@.len())),
                t@ == all.subrange(0, all.len() - reversed@.len()),
                t.wf(),
            decreases reversed.len(),
        {
            let ghost k = all.len() - reversed@.len();
            let ghost before = reversed@;
            assert(before.reverse()[0] == all[k]);
            let x = reversed.pop().unwrap();
            assert(x == all[k]);
            assert forall|i: int| 0 <= i < reversed@.len() implies reversed@.reverse()[i] == all[k + 1 + i] by {
                assert(before.reverse()[i + 1] == all[k + 1 + i]);
            }
            assert(reversed@.reverse() =~= all.subrange(k + 1, all.len() as int));
            assert(all.subrange(0, k + 1).drop_last() =~= all.subrange(0, k));
            t = t.push_back(x);
            assert(t@ =~= all.subrange(0, k + 1));
        }
        assert(all.subrange(0, all.len() as int) =~= all);
        t
    }

    fn fold_left_by<B, F>(&self, z: B, f: &F) -> (r: B) where F: Fn(B, &A) -> B
        requires
            left_callable(*f, self@),
        ensures
            fold_left_rel(left_step(*f), z, self@, r),
        decreases self,
    {
        match self {
            FingerTree::Empty => {
                proof {
                    lemma_fold_left_empty(left_step(*f), z, self@);
                }
                z
            },
            FingerTree::Single(a) => a.fold_left_by(z, f),
            FingerTree::Deep(pr, m, sf) => {
                proof {
                    lemma_left_callable_split(*f, pr@ + m.leaves(), sf@);
                    lemma_left_callable_split(*f, pr@, m.leaves());
                }
                let m1 = pr.fold_left_by(z, f);
                let m2 = m.fold_left_by(m1, f);
                let r = sf.fold_left_by(m2, f);
                proof {
                    lemma_fold_left_append(left_step(*f), z, pr@, m1, m.leaves(), m2);
                    lemma_fold_left_append(left_step(*f), z, pr@ + m.leaves(), m2, sf@, r);
                }
                r
            },
        }
    }

    fn fold_right_by<B, F>(&self, z: B, f: &F) -> (r: B) where F: Fn(&A, B) -> B
        requires
            right_callable(*f, self@),
        ensures
            fold_right_rel(right_step(*f), z, self@, r),
        decreases self,
    {
        match self {
            FingerTree::Empty => {
                proof {
                    lemma_fold_right_empty(right_step(*f), z, self@);
                }
                z
            },
            FingerTree::Single(a) => a.fold_right_by(z, f),
            FingerTree::Deep(pr, m, sf) => {
                proof {
                    lemma_right_callable_split(*f, pr@ + m.leaves(), sf@);
                    lemma_right_callable_split(*f, pr@, m.leaves());
                }
                let m2 = sf.fold_right_by(z, f);
                let m1 = m.fold_right_by(m2, f);
                let r = pr.fold_right_by(m1, f);
                proof {
                    lemma_fold_right_append(right_step(*f), m2, pr@, m1, m.leaves(), r);
                    lemma_fold_right_append(right_step(*f), z, pr@ + m.leaves(), m2, sf@, r);
                }
                r
            },
        }
    }
}

impl<A> Clone for FingerTree<A> {
    /// Copies the top level only: the middle tree is shared.
    fn clone(&self) -> (r: Self)
        ensures
            r == *self,
    {
        match self {
            FingerTree::Empty => FingerTree::Empty,
            FingerTree::Single(a) => FingerTree::Single(a.clone()),
            FingerTree::Deep(pr, m, sf) => FingerTree::Deep(pr.clone(), m.clone(), sf.clone()),
        }
    }
}

impl<A> Foldable<A> for FingerTree<A> {
    open spec fn elements(&self) -> Seq<A> {
        self@
    }

    fn foldl<B, F>(&self, z: B, f: F) -> (r: B) where F: Fn(B, &A) -> B {
        self.fold_left_by(z, &f)
    }

    fn foldr<B, F>(&self, z: B, f: F) -> (r: B) where F: Fn(&A, B) -> B {
        self.fold_right_by(z, &f)
    }
}

} // verus!
