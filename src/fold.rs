//! Folds over sequences, stated as relations over the steps a combining closure may take.
use vstd::prelude::*;

verus! {

/// One step of a left fold by `f`: from accumulator `b` and element `a`, `f` may return `r`.
pub open spec fn left_step<A, B, F: Fn(B, &A) -> B>(f: F) -> spec_fn(B, A, B) -> bool {
    |b: B, a: A, r: B| f.ensures((b, &a), r)
}

/// One step of a right fold by `f`: from element `a` and accumulator `b`, `f` may return `r`.
pub open spec fn right_step<A, B, F: Fn(&A, B) -> B>(f: F) -> spec_fn(A, B, B) -> bool {
    |a: A, b: B, r: B| f.ensures((&a, b), r)
}

/// `acc` lists the accumulators of a left fold of `s` by `step`: `acc[0]` is the start and
/// each `acc[i + 1]` is a possible result of the step from `acc[i]` over `s[i]`.
pub open spec fn is_left_chain<A, B>(step: spec_fn(B, A, B) -> bool, s: Seq<A>, acc: Seq<B>) -> bool {
    &&& acc.len() == s.len() + 1
    &&& forall|i: int| 0 <= i < s.len() ==> #[trigger] step(acc[i], s[i], acc[i + 1])
}

/// `acc` lists the accumulators of a right fold of `s` by `step`: `acc[s.len()]` is the start
/// and each `acc[i]` is a possible result of the step over `s[i]` from `acc[i + 1]`.
pub open spec fn is_right_chain<A, B>(step: spec_fn(A, B, B) -> bool, s: Seq<A>, acc: Seq<B>) -> bool {
    &&& acc.len() == s.len() + 1
    &&& forall|i: int| 0 <= i < s.len() ==> #[trigger] step(s[i], acc[i + 1], acc[i])
}

/// `r` is a possible result of folding `s` from the left, starting from `z`.
pub open spec fn fold_left_rel<A, B>(step: spec_fn(B, A, B) -> bool, z: B, s: Seq<A>, r: B) -> bool {
    exists|acc: Seq<B>| #[trigger] is_left_chain(step, s, acc) && acc[0] == z && acc[s.len() as int] == r
}

/// `r` is a possible result of folding `s` from the right, starting from `z`.
pub open spec fn fold_right_rel<A, B>(step: spec_fn(A, B, B) -> bool, z: B, s: Seq<A>, r: B) -> bool {
    exists|acc: Seq<B>| #[trigger] is_right_chain(step, s, acc) && acc[s.len() as int] == z && acc[0] == r
}

/// `f` may be called with any accumulator and any element of `s`, from the left.
pub open spec fn left_callable<A, B, F: Fn(B, &A) -> B>(f: F, s: Seq<A>) -> bool {
    forall|b: B, i: int| 0 <= i < s.len() ==> #[trigger] f.requires((b, &s[i]))
}

/// `f` may be called with any element of `s` and any accumulator, from the right.
pub open spec fn right_callable<A, B, F: Fn(&A, B) -> B>(f: F, s: Seq<A>) -> bool {
    forall|b: B, i: int| 0 <= i < s.len() ==> #[trigger] f.requires((&s[i], b))
}

/// What may be called over a sequence may be called over each of its two parts.
pub proof fn lemma_left_callable_split<A, B, F: Fn(B, &A) -> B>(f: F, s1: Seq<A>, s2: Seq<A>)
    requires
        left_callable(f, s1 + s2),
    ensures
        left_callable(f, s1),
        left_callable(f, s2),
{
    assert forall|b: B, i: int| 0 <= i < s1.len() implies #[trigger] f.requires((b, &s1[i])) by {
        assert((s1 + s2)[i] == s1[i]);
    }
    assert forall|b: B, i: int| 0 <= i < s2.len() implies #[trigger] f.requires((b, &s2[i])) by {
        assert((s1 + s2)[i + s1.len()] == s2[i]);
    }
}

/// What may be called over a sequence may be called over each of its two parts.
pub proof fn lemma_right_callable_split<A, B, F: Fn(&A, B) -> B>(f: F, s1: Seq<A>, s2: Seq<A>)
    requires
        right_callable(f, s1 + s2),
    ensures
        right_callable(f, s1),
        right_callable(f, s2),
{
    assert forall|b: B, i: int| 0 <= i < s1.len() implies #[trigger] f.requires((&s1[i], b)) by {
        assert((s1 + s2)[i] == s1[i]);
    }
    assert forall|b: B, i: int| 0 <= i < s2.len() implies #[trigger] f.requires((&s2[i], b)) by {
        assert((s1 + s2)[i + s1.len()] == s2[i]);
    }
}

/// A left fold over no element gives its start.
pub proof fn lemma_fold_left_empty<A, B>(step: spec_fn(B, A, B) -> bool, z: B, s: Seq<A>)
    requires
        s.len() == 0,
    ensures
        fold_left_rel(step, z, s, z),
{
    assert(is_left_chain(step, s, seq![z]));
}

/// A right fold over no element gives its start.
pub proof fn lemma_fold_right_empty<A, B>(step: spec_fn(A, B, B) -> bool, z: B, s: Seq<A>)
    requires
        s.len() == 0,
    ensures
        fold_right_rel(step, z, s, z),
{
    assert(is_right_chain(step, s, seq![z]));
}

/// A left fold over one element is one step.
pub proof fn lemma_fold_left_one<A, B>(step: spec_fn(B, A, B) -> bool, z: B, s: Seq<A>, r: B)
    requires
        s.len() == 1,
        step(z, s[0], r),
    ensures
        fold_left_rel(step, z, s, r),
{
    let acc = seq![z, r];
    assert(step(acc[0], s[0], acc[1]));
    assert(is_left_chain(step, s, acc));
}

/// A right fold over one element is one step.
pub proof fn lemma_fold_right_one<A, B>(step: spec_fn(A, B, B) -> bool, z: B, s: Seq<A>, r: B)
    requires
        s.len() == 1,
        step(s[0], z, r),
    ensures
        fold_right_rel(step, z, s, r),
{
    let acc = seq![r, z];
    assert(step(s[0], acc[1], acc[0]));
    assert(is_right_chain(step, s, acc));
}

/// Folding `s1` and then `s2` from the left is folding `s1 + s2`.
pub proof fn lemma_fold_left_append<A, B>(
    step: spec_fn(B, A, B) -> bool,
    z: B,
    s1: Seq<A>,
    m: B,
    s2: Seq<A>,
    r: B,
)
    requires
        fold_left_rel(step, z, s1, m),
        fold_left_rel(step, m, s2, r),
    ensures
        fold_left_rel(step, z, s1 + s2, r),
{
    let acc1 = choose|acc: Seq<B>| #[trigger] is_left_chain(step, s1, acc) && acc[0] == z && acc[s1.len() as int] == m;
    let acc2 = choose|acc: Seq<B>| #[trigger] is_left_chain(step, s2, acc) && acc[0] == m && acc[s2.len() as int] == r;
    let s = s1 + s2;
    let acc = acc1 + acc2.drop_first();
    assert forall|i: int| 0 <= i < s.len() implies #[trigger] step(acc[i], s[i], acc[i + 1]) by {
        if i < s1.len() {
            assert(step(acc1[i], s1[i], acc1[i + 1]));
        } else {
            let j = i - s1.len();
            assert(step(acc2[j], s2[j], acc2[j + 1]));
        }
    }
    assert(is_left_chain(step, s, acc));
}

/// Folding `s2` and then `s1` from the right is folding `s1 + s2`.
pub proof fn lemma_fold_right_append<A, B>(
    step: spec_fn(A, B, B) -> bool,
    z: B,
    s1: Seq<A>,
    m: B,
    s2: Seq<A>,
    r: B,
)
    requires
        fold_right_rel(step, z, s2, m),
        fold_right_rel(step, m, s1, r),
    ensures
        fold_right_rel(step, z, s1 + s2, r),
{
    let acc2 = choose|acc: Seq<B>| #[trigger] is_right_chain(step, s2, acc) && acc[s2.len() as int] == z && acc[0] == m;
    let acc1 = choose|acc: Seq<B>| #[trigger] is_right_chain(step, s1, acc) && acc[s1.len() as int] == m && acc[0] == r;
    let s = s1 + s2;
    let acc = acc1 + acc2.drop_first();
    assert forall|i: int| 0 <= i < s.len() implies #[trigger] step(s[i], acc[i + 1], acc[i]) by {
        if i < s1.len() {
            assert(step(s1[i], acc1[i + 1], acc1[i]));
        } else {
            let j = i - s1.len();
            assert(step(s2[j], acc2[j + 1], acc2[j]));
        }
    }
    assert(is_right_chain(step, s, acc));
}

/// The left step that takes a right step's arguments in the other order.
pub open spec fn flipped<A, B>(step: spec_fn(A, B, B) -> bool) -> spec_fn(B, A, B) -> bool {
    |b: B, a: A, r: B| step(a, b, r)
}

proof fn lemma_chain_prefix<A, B>(
    step: spec_fn(B, A, B) -> bool,
    g: spec_fn(B, A) -> B,
    s: Seq<A>,
    acc: Seq<B>,
    k: int,
)
    requires
        forall|b: B, a: A, r: B| #[trigger] step(b, a, r) ==> r == g(b, a),
        is_left_chain(step, s, acc),
        0 <= k <= s.len(),
    ensures
        acc[k] == s.subrange(0, k).fold_left(acc[0], g),
    decreases k,
{
    if k > 0 {
        lemma_chain_prefix(step, g, s, acc, k - 1);
        let i = k - 1;
        assert(step(acc[i], s[i], acc[i + 1]));
        assert(s.subrange(0, k).drop_last() =~= s.subrange(0, k - 1));
    } else {
        assert(s.subrange(0, 0) =~= Seq::<A>::empty());
    }
}

/// Where each step can give only `g` of its arguments, the left fold is `Seq::fold_left` by `g`.
pub proof fn lemma_fold_left_functional<A, B>(
    step: spec_fn(B, A, B) -> bool,
    g: spec_fn(B, A) -> B,
    z: B,
    s: Seq<A>,
    r: B,
)
    requires
        forall|b: B, a: A, r: B| #[trigger] step(b, a, r) ==> r == g(b, a),
        fold_left_rel(step, z, s, r),
    ensures
        r == s.fold_left(z, g),
{
    let acc = choose|acc: Seq<B>| #[trigger] is_left_chain(step, s, acc) && acc[0] == z && acc[s.len() as int] == r;
    lemma_chain_prefix(step, g, s, acc, s.len() as int);
    assert(s.subrange(0, s.len() as int) =~= s);
}

proof fn lemma_chain_collects<A, B>(
    step: spec_fn(B, A, B) -> bool,
    v: spec_fn(B) -> Seq<A>,
    s: Seq<A>,
    acc: Seq<B>,
    k: int,
)
    requires
        forall|b: B, a: A, r: B| #[trigger] step(b, a, r) ==> v(r) == v(b).push(a),
        is_left_chain(step, s, acc),
        v(acc[0]) == Seq::<A>::empty(),
        0 <= k <= s.len(),
    ensures
        v(acc[k]) == s.subrange(0, k),
    decreases k,
{
    if k > 0 {
        lemma_chain_collects(step, v, s, acc, k - 1);
        let i = k - 1;
        assert(step(acc[i], s[i], acc[i + 1]));
        assert(s.subrange(0, k) =~= s.subrange(0, i).push(s[i]));
    } else {
        assert(s.subrange(0, 0) =~= Seq::<A>::empty());
    }
}

/// A left fold whose every step puts the element at the back of the accumulator's sequence `v`,
/// started from an accumulator whose sequence is empty, ends with the folded elements in order.
pub proof fn lemma_fold_left_collects<A, B>(
    step: spec_fn(B, A, B) -> bool,
    v: spec_fn(B) -> Seq<A>,
    z: B,
    s: Seq<A>,
    r: B,
)
    requires
        forall|b: B, a: A, r: B| #[trigger] step(b, a, r) ==> v(r) == v(b).push(a),
        v(z) == Seq::<A>::empty(),
        fold_left_rel(step, z, s, r),
    ensures
        v(r) == s,
{
    let acc = choose|acc: Seq<B>| #[trigger] is_left_chain(step, s, acc) && acc[0] == z && acc[s.len() as int] == r;
    lemma_chain_collects(step, v, s, acc, s.len() as int);
    assert(s.subrange(0, s.len() as int) =~= s);
}

proof fn lemma_reverse_index<A>(s: Seq<A>)
    ensures
        s.reverse().len() == s.len(),
        forall|i: int| 0 <= i < s.len() ==> #[trigger] s.reverse()[i] == s[s.len() - 1 - i],
{
}

/// A right fold of `s` is a left fold, by the same step, of `s` reversed.
pub proof fn lemma_fold_right_is_reversed_fold_left<A, B>(
    step: spec_fn(A, B, B) -> bool,
    z: B,
    s: Seq<A>,
    r: B,
)
    ensures
        fold_right_rel(step, z, s, r) == fold_left_rel(flipped(step), z, s.reverse(), r),
{
    let n = s.len() as int;
    let rs = s.reverse();
    lemma_reverse_index(s);
    if fold_right_rel(step, z, s, r) {
        let acc = choose|acc: Seq<B>| #[trigger] is_right_chain(step, s, acc) && acc[n] == z && acc[0] == r;
        let racc = Seq::new((n + 1) as nat, |j: int| acc[n - j]);
        assert forall|j: int| 0 <= j < rs.len() implies #[trigger] flipped(step)(racc[j], rs[j], racc[j + 1]) by {
            assert(step(s[n - 1 - j], acc[n - 1 - j + 1], acc[n - 1 - j]));
        }
        assert(is_left_chain(flipped(step), rs, racc));
    }
    if fold_left_rel(flipped(step), z, rs, r) {
        let racc = choose|acc: Seq<B>| #[trigger] is_left_chain(flipped(step), rs, acc) && acc[0] == z && acc[n] == r;
        let acc = Seq::new((n + 1) as nat, |i: int| racc[n - i]);
        assert forall|i: int| 0 <= i < s.len() implies #[trigger] step(s[i], acc[i + 1], acc[i]) by {
            let j = n - 1 - i;
            assert(flipped(step)(racc[j], rs[j], racc[j + 1]));
        }
        assert(is_right_chain(step, s, acc));
    }
}

/// A structure whose elements can be folded over in order, from either end.
pub trait Foldable<A> {
    /// The elements, in order from first to last.
    spec fn elements(&self) -> Seq<A>;

    /// Folds the elements from first to last, threading the accumulator through `f`.
    fn foldl<B, F>(&self, z: B, f: F) -> (r: B) where F: Fn(B, &A) -> B
        requires
            left_callable(f, self.elements()),
        ensures
            fold_left_rel(left_step(f), z, self.elements(), r),
    ;

    /// Folds the elements from last to first, threading the accumulator through `f`.
    fn foldr<B, F>(&self, z: B, f: F) -> (r: B) where F: Fn(&A, B) -> B
        requires
            right_callable(f, self.elements()),
        ensures
            fold_right_rel(right_step(f), z, self.elements(), r),
    ;
}

} // verus!
