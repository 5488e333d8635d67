use fingers::{Digit, FingerTree, Foldable, Node};
use std::collections::VecDeque;
use std::rc::Rc;

fn collect(t: &FingerTree<i32>) -> Vec<i32> {
    t.foldl(Vec::new(), |mut acc: Vec<i32>, a: &i32| {
        acc.push(*a);
        acc
    })
}

fn collect_right(t: &FingerTree<i32>) -> Vec<i32> {
    t.foldr(Vec::new(), |a: &i32, mut acc: Vec<i32>| {
        acc.push(*a);
        acc
    })
}

fn pushed_back(n: i32) -> FingerTree<i32> {
    let mut t = FingerTree::new();
    for i in 0..n {
        t = t.push_back(i);
    }
    t
}

fn digit_arity<A>(d: &Digit<A>) -> usize {
    match d {
        Digit::One(..) => 1,
        Digit::Two(..) => 2,
        Digit::Three(..) => 3,
        Digit::Four(..) => 4,
    }
}

fn node_depth<A>(n: &Node<A>) -> Option<usize> {
    match n {
        Node::Leaf(_) => Some(0),
        Node::Node2(a, b) => {
            let d = node_depth(a)?;
            if node_depth(b)? == d { Some(d + 1) } else { None }
        }
        Node::Node3(a, b, c) => {
            let d = node_depth(a)?;
            if node_depth(b)? == d && node_depth(c)? == d { Some(d + 1) } else { None }
        }
    }
}

fn digit_nodes<A>(d: &Digit<A>) -> Vec<&Node<A>> {
    match d {
        Digit::One(a) => vec![a],
        Digit::Two(a, b) => vec![a, b],
        Digit::Three(a, b, c) => vec![a, b, c],
        Digit::Four(a, b, c, e) => vec![a, b, c, e],
    }
}

// Checks every level: digits hold one to four nodes, and nodes have the level's depth.
fn shape_ok<A>(t: &FingerTree<A>, depth: usize) -> bool {
    match t {
        FingerTree::Empty => true,
        FingerTree::Single(n) => node_depth(n) == Some(depth),
        FingerTree::Deep(pr, m, sf) => {
            (1..=4).contains(&digit_arity(pr))
                && (1..=4).contains(&digit_arity(sf))
                && digit_nodes(pr).iter().all(|n| node_depth(n) == Some(depth))
                && digit_nodes(sf).iter().all(|n| node_depth(n) == Some(depth))
                && shape_ok(m, depth + 1)
        }
    }
}

#[test]
fn scenario_sum_front_back_and_more_pushes() {
    let t = FingerTree::new().push_back(0).push_back(1).push_back(2).push_back(3).push_back(4);
    assert_eq!(t.foldl(0, |a, b: &i32| a + b), 10);
    assert_eq!(t.front(), Some(&0));
    assert_eq!(t.back(), Some(&4));
    assert_eq!(collect(&t.push_front(0).push_back(6)), vec![0, 0, 1, 2, 3, 4, 6]);
}

#[test]
fn order_of_mixed_pushes() {
    let t = FingerTree::new().push_back(1).push_back(2).push_front(0);
    assert_eq!(collect(&t), vec![0, 1, 2]);
}

#[test]
fn order_of_many_pushes_at_both_ends() {
    let mut t = FingerTree::new();
    let mut model = VecDeque::new();
    for i in 0..500 {
        if i % 3 == 0 {
            t = t.push_front(i);
            model.push_front(i);
        } else {
            t = t.push_back(i);
            model.push_back(i);
        }
    }
    assert_eq!(collect(&t), model.into_iter().collect::<Vec<_>>());
}

#[test]
fn foldr_is_foldl_of_reversed() {
    let t = pushed_back(40).push_front(-1).push_front(-2);
    let mut left = collect(&t);
    left.reverse();
    assert_eq!(collect_right(&t), left);
}

#[test]
fn foldr_of_strings_concatenates_from_the_right() {
    let t = FingerTree::new().push_back("a").push_back("b").push_back("c");
    let s = t.foldr(String::new(), |a: &&str, acc: String| acc + a);
    assert_eq!(s, "cba");
    let s = t.foldl(String::new(), |acc: String, a: &&str| acc + a);
    assert_eq!(s, "abc");
}

#[test]
fn front_and_back_match_first_and_last() {
    let empty: FingerTree<i32> = FingerTree::new();
    assert_eq!(empty.front(), None);
    assert_eq!(empty.back(), None);
    for n in 1..60 {
        let t = pushed_back(n);
        assert_eq!(t.front(), Some(&0));
        assert_eq!(t.back(), Some(&(n - 1)));
        let u = t.push_front(-5);
        assert_eq!(u.front(), Some(&-5));
        assert_eq!(u.back(), Some(&(n - 1)));
    }
}

#[test]
fn single_element_tree() {
    let t = FingerTree::new().push_front(7);
    assert!(matches!(t, FingerTree::Single(_)));
    assert_eq!(t.front(), Some(&7));
    assert_eq!(t.back(), Some(&7));
    assert_eq!(collect(&t), vec![7]);
}

#[test]
fn folds_of_empty_tree_give_start() {
    let t: FingerTree<i32> = FingerTree::new();
    assert_eq!(t.foldl(42, |a, b: &i32| a + b), 42);
    assert_eq!(t.foldr(42, |b: &i32, a| a + b), 42);
}

#[test]
fn pushing_leaves_old_version_unchanged() {
    let t = pushed_back(9);
    let before = collect(&t);
    let t2 = t.push_back(100);
    let t3 = t.push_front(-100);
    assert_eq!(collect(&t), before);
    assert_eq!(collect(&t2), [before.clone(), vec![100]].concat());
    assert_eq!(collect(&t3), [vec![-100], before.clone()].concat());
    assert_eq!(t.foldl(0, |a, b: &i32| a + b), (0..9).sum::<i32>());
}

#[test]
fn pushing_shares_the_middle_tree() {
    let t = pushed_back(9);
    let t2 = t.push_back(100);
    match (&t, &t2) {
        (FingerTree::Deep(_, m1, _), FingerTree::Deep(_, m2, _)) => assert!(Rc::ptr_eq(m1, m2)),
        _ => panic!("expected deep trees"),
    }
}

#[test]
fn from_iter_matches_repeated_push_back() {
    let items: Vec<i32> = (0..37).collect();
    let t = FingerTree::from_iter(items.clone());
    assert_eq!(collect(&t), items);
    assert_eq!(collect(&t), collect(&pushed_back(37)));
    let empty: FingerTree<i32> = FingerTree::from_iter(Vec::new());
    assert!(matches!(empty, FingerTree::Empty));
}

#[test]
fn digits_stay_between_one_and_four() {
    let mut t = FingerTree::new();
    for i in 0..300 {
        t = if i % 5 == 0 { t.push_front(i) } else { t.push_back(i) };
        assert!(shape_ok(&t, 0));
    }
}

#[test]
fn fifth_push_back_groups_three_into_middle() {
    let t = pushed_back(6);
    match &t {
        FingerTree::Deep(pr, m, sf) => {
            assert_eq!(digit_arity(pr), 1);
            assert_eq!(digit_arity(sf), 2);
            assert!(matches!(**m, FingerTree::Single(Node::Node3(..))));
        }
        _ => panic!("expected a deep tree"),
    }
}

#[test]
fn node_and_digit_folds_follow_leaf_order() {
    let leaf = |x: i32| Rc::new(Node::Leaf(Rc::new(x)));
    let n = Node::Node3(leaf(1), Rc::new(Node::Node2(leaf(2), leaf(3))), leaf(4));
    let digits = |acc: String, a: &i32| format!("{}{}", acc, a);
    assert_eq!(n.foldl(String::new(), digits), "1234");
    assert_eq!(n.foldr(String::new(), |a: &i32, acc: String| format!("{}{}", acc, a)), "4321");
    let d = Digit::Two(Node::Leaf(Rc::new(9)), n);
    assert_eq!(d.foldl(String::new(), digits), "91234");
    assert_eq!(d.foldr(0, |a: &i32, acc: i32| acc * 10 + a), 43219);
}

fn leaf(x: i32) -> Node<i32> {
    Node::Leaf(Rc::new(x))
}

fn node3(a: Node<i32>, b: Node<i32>, c: Node<i32>) -> Node<i32> {
    Node::Node3(Rc::new(a), Rc::new(b), Rc::new(c))
}

#[test]
fn from_iter_builds_one_and_four() {
    let t = FingerTree::from_iter(vec![0, 1, 2, 3, 4]);
    let expected = FingerTree::Deep(
        Digit::One(leaf(0)),
        Rc::new(FingerTree::Empty),
        Digit::Four(leaf(1), leaf(2), leaf(3), leaf(4)),
    );
    assert_eq!(t, expected);
    assert_eq!(t, pushed_back(5));
}

#[test]
fn from_iter_builds_same_tree_as_push_back() {
    for n in 0..40 {
        let items: Vec<i32> = (0..n).collect();
        assert_eq!(FingerTree::from_iter(items), pushed_back(n));
    }
}

#[test]
fn full_suffix_sends_first_three_into_middle() {
    let t = pushed_back(5).push_back(5);
    let expected = FingerTree::Deep(
        Digit::One(leaf(0)),
        Rc::new(FingerTree::Single(node3(leaf(1), leaf(2), leaf(3)))),
        Digit::Two(leaf(4), leaf(5)),
    );
    assert_eq!(t, expected);
}

#[test]
fn full_prefix_sends_last_three_into_middle() {
    let t = FingerTree::new().push_front(5).push_front(4).push_front(3).push_front(2).push_front(1);
    let full = FingerTree::Deep(
        Digit::Four(leaf(1), leaf(2), leaf(3), leaf(4)),
        Rc::new(FingerTree::Empty),
        Digit::One(leaf(5)),
    );
    assert_eq!(t, full);
    let expected = FingerTree::Deep(
        Digit::Two(leaf(0), leaf(1)),
        Rc::new(FingerTree::Single(node3(leaf(2), leaf(3), leaf(4)))),
        Digit::One(leaf(5)),
    );
    assert_eq!(t.push_front(0), expected);
}

#[test]
fn push_onto_empty_and_single() {
    let e: FingerTree<i32> = FingerTree::new();
    assert_eq!(e, FingerTree::Empty);
    assert_eq!(e.push_back(1), FingerTree::Single(leaf(1)));
    assert_eq!(
        e.push_back(1).push_back(2),
        FingerTree::Deep(Digit::One(leaf(1)), Rc::new(FingerTree::Empty), Digit::One(leaf(2)))
    );
    assert_eq!(
        e.push_front(1).push_front(2),
        FingerTree::Deep(Digit::One(leaf(2)), Rc::new(FingerTree::Empty), Digit::One(leaf(1)))
    );
}

// Every grouping built by pushes holds three children.
fn node_in_threes<A>(n: &Node<A>) -> bool {
    match n {
        Node::Leaf(_) => true,
        Node::Node2(..) => false,
        Node::Node3(a, b, c) => node_in_threes(a) && node_in_threes(b) && node_in_threes(c),
    }
}

fn tree_in_threes<A>(t: &FingerTree<A>) -> bool {
    match t {
        FingerTree::Empty => true,
        FingerTree::Single(n) => node_in_threes(n),
        FingerTree::Deep(pr, m, sf) => {
            digit_nodes(pr).iter().all(|n| node_in_threes(n))
                && digit_nodes(sf).iter().all(|n| node_in_threes(n))
                && tree_in_threes(m)
        }
    }
}

#[test]
fn pushes_build_only_groups_of_three() {
    let mut t = FingerTree::new();
    for i in 0..400 {
        t = if i % 4 == 1 { t.push_front(i) } else { t.push_back(i) };
        assert!(tree_in_threes(&t));
    }
}
