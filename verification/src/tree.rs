use vstd::prelude::*;

use crate::model::{
    almost_no_red_red, black_balanced, black_height, depth_of, is_red_opt, lemma_flip_props,
    lemma_num_lt_all, lemma_num_lt_le, lemma_num_lt_none, lemma_num_lt_one, lemma_num_lt_split,
    lemma_open_ordered, lemma_ordered_distinct, lemma_rotate_left_props, lemma_rotate_right_props, lemma_same_shape_refl,
    lemma_seq_dom, no_red_red, no_red_right, node_key_seq, node_map, node_ordered, num_lt,
    opt_key_seq, opt_map, ordered, rb_ok, same_shape_except_val,
};
use crate::node::{Color, Node};
use crate::order::{Cmp, TotalOrder};

verus! {

/// Whether the link into `x` is red; an absent child counts as black.
fn is_red<K, V>(x: &Option<Box<Node<K, V>>>) -> (r: bool)
    ensures
        r == is_red_opt(*x),
{
    match x {
        None => false,
        Some(n) => n.is_red(),
    }
}

/// Recursive insert-or-overwrite: a standard search-tree insert at the
/// bottom, then the fixed repair sequence (lean left, split a doubled left
/// red, flip a 4-node) on the way back up. The repairs keep the black
/// balance and leave at most one left-leaning red-red pair at the root of
/// the returned subtree, and only when this subtree's own root was red.
#[verifier::rlimit(100)]
fn put<K: TotalOrder, V>(node: &mut Option<Box<Node<K, V>>>, key: K, val: V)
    requires
        ordered(*old(node)),
        rb_ok(*old(node)),
    ensures
        final(node).is_some(),
        ordered(*final(node)),
        opt_map(*final(node)) == opt_map(*old(node)).insert(key, val),
        no_red_right(*final(node)),
        black_balanced(*final(node)),
        black_height(*final(node)) == black_height(*old(node)),
        almost_no_red_red(*final(node)),
        !is_red_opt(*old(node)) ==> no_red_red(*final(node)),
        opt_map(*old(node)).dom().contains(key) ==> same_shape_except_val(
            *old(node),
            *final(node),
            key,
        ),
    decreases *old(node),
{
    let ghost x0: Option<Box<Node<K, V>>> = *node;
    match node.take() {
        None => {
            *node = Some(Box::new(Node::new(key, val, Color::Red)));
            proof {
                assert(opt_map(*node) =~= opt_map(x0).insert(key, val));
                assert(!opt_map(x0).dom().contains(key));
            }
        }
        Some(mut b) => {
            let ghost b0: Box<Node<K, V>> = b;
            proof {
                assert(x0 == Some(b0));
                assert(node_ordered(*b0));
                lemma_open_ordered(*b0);
                assert(!is_red_opt(b0.right));
                assert(no_red_right(b0.left) && no_red_right(b0.right));
                assert(no_red_red(b0.left) && no_red_red(b0.right));
                assert(b0.color is Red ==> !is_red_opt(b0.left));
                assert(black_balanced(b0.left) && black_balanced(b0.right));
                assert(black_height(b0.left) == black_height(b0.right));
            }
            let ghost m1: Map<K, V> = node_map(*b0).insert(key, val);
            match key.cmp_keys(&b.key) {
                Cmp::Less => {
                    put(&mut b.left, key, val);
                    proof {
                        assert(!opt_map(b0.right).dom().contains(key));
                        assert(node_map(*b) =~= m1);
                        assert forall|k: K| #[trigger]
                            opt_map(b.left).dom().contains(k) implies k.ord() < b.key.ord() by {
                            if k != key {
                                assert(opt_map(b0.left).dom().contains(k));
                            }
                        }
                        assert(node_ordered(*b));
                        assert(!is_red_opt(b.right));
                        assert(no_red_right(b.left) && no_red_right(b.right));
                        assert(no_red_red(b.right) && almost_no_red_red(b.left));
                        assert(!is_red_opt(b0.left) ==> no_red_red(b.left));
                        assert(black_balanced(b.left) && black_balanced(b.right));
                        assert(black_height(b.left) == black_height(b.right));
                        if opt_map(x0).dom().contains(key) {
                            assert(opt_map(b0.left).dom().contains(key));
                            assert(same_shape_except_val(b0.left, b.left, key));
                            assert(b0.left is Some && b.left is Some);
                            let a = *b0.left.unwrap();
                            let c = *b.left.unwrap();
                            assert(b0.left == Some(b0.left.unwrap()));
                            assert(b.left == Some(b.left.unwrap()));
                            assert(c.color == a.color);
                            assert(is_red_opt(b.left) == is_red_opt(b0.left));
                            if is_red_opt(b.left) {
                                assert(same_shape_except_val(a.left, c.left, key));
                                assert(no_red_red(b0.left));
                                assert(!is_red_opt(a.left));
                                if a.left is Some {
                                    assert(a.left == Some(a.left.unwrap()));
                                }
                                assert(!is_red_opt(c.left));
                            }
                        }
                    }
                }
                Cmp::Greater => {
                    put(&mut b.right, key, val);
                    proof {
                        assert(!opt_map(b0.left).dom().contains(key));
                        assert(node_map(*b) =~= m1);
                        assert forall|k: K| #[trigger]
                            opt_map(b.right).dom().contains(k) implies k.ord() > b.key.ord() by {
                            if k != key {
                                assert(opt_map(b0.right).dom().contains(k));
                            }
                        }
                        assert(node_ordered(*b));
                        assert(no_red_right(b.left) && no_red_right(b.right));
                        assert(no_red_red(b.left) && no_red_red(b.right));
                        assert(black_balanced(b.left) && black_balanced(b.right));
                        assert(black_height(b.left) == black_height(b.right));
                        assert(is_red_opt(b.left) ==> !is_red_opt(b.left.unwrap().left)) by {
                            if is_red_opt(b.left) {
                                assert(b.left == Some(b.left.unwrap()));
                            }
                        }
                        if opt_map(x0).dom().contains(key) {
                            assert(opt_map(b0.right).dom().contains(key));
                            assert(same_shape_except_val(b0.right, b.right, key));
                            assert(b0.right is Some && b.right is Some);
                            assert(b0.right == Some(b0.right.unwrap()));
                            assert(b.right == Some(b.right.unwrap()));
                            assert(b.right.unwrap().color == b0.right.unwrap().color);
                            assert(!is_red_opt(b.right));
                        }
                    }
                }
                Cmp::Equal => {
                    b.val = val;
                    proof {
                        assert(!opt_map(b0.left).dom().contains(key));
                        assert(!opt_map(b0.right).dom().contains(key));
                        assert(node_map(*b) =~= m1);
                        assert(node_ordered(*b));
                        assert(!is_red_opt(b.right));
                        assert(no_red_right(b.left) && no_red_right(b.right));
                        assert(no_red_red(b.left) && no_red_red(b.right));
                        assert(black_balanced(b.left) && black_balanced(b.right));
                        assert(black_height(b.left) == black_height(b.right));
                        assert(opt_map(x0).dom().contains(key));
                        assert(is_red_opt(b.left) ==> !is_red_opt(b.left.unwrap().left)) by {
                            if is_red_opt(b.left) {
                                assert(b.left == Some(b.left.unwrap()));
                            }
                        }
                    }
                }
            }
            if is_red(&b.right) && !is_red(&b.left) {
                let ghost p: Node<K, V> = *b;
                b.rotate_left();
                proof {
                    lemma_rotate_left_props(p, *b);
                    assert(!opt_map(x0).dom().contains(key));
                    assert(node_map(*b) == m1);
                    let n2 = *p.right.unwrap();
                    let l = *b.left.unwrap();
                    assert(l.left == p.left && l.right == n2.left && l.color is Red);
                    assert(b.right == n2.right && b.color == p.color);
                    assert(no_red_red(p.right) && no_red_right(p.right) && black_balanced(
                        p.right,
                    ));
                    assert(!is_red_opt(n2.left) && !is_red_opt(n2.right));
                    assert(no_red_right(b.left) && no_red_right(b.right));
                    assert(no_red_red(b.left) && no_red_red(b.right));
                    assert(black_height(n2.left) == black_height(p.left));
                    assert(black_balanced(b.left) && black_balanced(b.right));
                    assert(black_height(b.left) == black_height(p.left));
                    assert(black_height(b.left) == black_height(b.right));
                    assert(!is_red_opt(b.right));
                    assert(!is_red_opt(l.left));
                }
            }
            if is_red(&b.left) && is_red(&b.left.as_ref().unwrap().left) {
                let ghost p: Node<K, V> = *b;
                b.rotate_right();
                proof {
                    lemma_rotate_right_props(p, *b);
                    assert(!opt_map(x0).dom().contains(key));
                    assert(node_map(*b) == m1);
                    let lq = *p.left.unwrap();
                    let r2 = *b.right.unwrap();
                    assert(b.left == lq.left && b.color == p.color);
                    assert(r2.left == lq.right && r2.right == p.right && r2.color is Red);
                    assert(is_red_opt(p.left) && is_red_opt(lq.left));
                    assert(no_red_right(p.left) && almost_no_red_red(p.left));
                    assert(!is_red_opt(lq.right) && !is_red_opt(p.right));
                    assert(no_red_right(b.left) && no_red_right(b.right));
                    assert(no_red_red(b.left) && no_red_red(b.right));
                    assert(black_height(b.left) == black_height(lq.right));
                    assert(black_balanced(b.left) && black_balanced(b.right));
                    assert(black_height(b.left) == black_height(b.right));
                    assert(is_red_opt(b.left) && is_red_opt(b.right));
                }
            }
            if is_red(&b.left) && is_red(&b.right) {
                proof {
                    assert(b.color is Black);
                }
                let ghost p: Node<K, V> = *b;
                b.flip_color();
                proof {
                    lemma_flip_props(p, *b);
                    assert(!opt_map(x0).dom().contains(key));
                    assert(node_map(*b) == m1);
                    let pl = *p.left.unwrap();
                    let pr = *p.right.unwrap();
                    let ql = *b.left.unwrap();
                    let qr = *b.right.unwrap();
                    assert(!is_red_opt(b.left) && !is_red_opt(b.right));
                    assert(no_red_right(b.left)) by {
                        assert(no_red_right(p.left));
                        assert(!is_red_opt(ql.right) && no_red_right(ql.left) && no_red_right(
                            ql.right,
                        ));
                    }
                    assert(no_red_right(b.right)) by {
                        assert(no_red_right(p.right));
                        assert(!is_red_opt(qr.right) && no_red_right(qr.left) && no_red_right(
                            qr.right,
                        ));
                    }
                    assert(no_red_red(b.left)) by {
                        assert(almost_no_red_red(p.left));
                        assert(no_red_red(ql.left) && no_red_red(ql.right));
                    }
                    assert(no_red_red(b.right)) by {
                        assert(no_red_red(p.right));
                        assert(no_red_red(qr.left) && no_red_red(qr.right));
                    }
                    assert(black_height(b.left) == black_height(p.left) + 1) by {
                        assert(black_height(ql.left) == black_height(pl.left));
                    }
                    assert(black_height(b.right) == black_height(p.right) + 1) by {
                        assert(black_height(qr.left) == black_height(pr.left));
                    }
                    assert(black_balanced(b.left)) by {
                        assert(black_balanced(p.left));
                        assert(black_balanced(ql.left) && black_balanced(ql.right));
                        assert(black_height(ql.left) == black_height(ql.right));
                    }
                    assert(black_balanced(b.right)) by {
                        assert(black_balanced(p.right));
                        assert(black_balanced(qr.left) && black_balanced(qr.right));
                        assert(black_height(qr.left) == black_height(qr.right));
                    }
                    assert(black_height(b.left) == black_height(b.right));
                }
            }
            proof {
                assert(node_ordered(*b));
                assert(node_map(*b) == m1);
                assert(!is_red_opt(b.right));
                assert(no_red_right(b.left) && no_red_right(b.right));
                assert(no_red_red(b.left) && no_red_red(b.right));
                assert(black_balanced(b.left) && black_balanced(b.right));
                assert(black_height(b.left) == black_height(b.right));
                assert(black_height(b.left) + (if b.color is Black {
                    1int
                } else {
                    0int
                }) == black_height(x0));
                assert(!is_red_opt(x0) ==> (b.color is Red ==> !is_red_opt(b.left)));
                lemma_same_shape_refl(b0.left, key);
                lemma_same_shape_refl(b0.right, key);
                if opt_map(x0).dom().contains(key) {
                    assert(b.key == b0.key && b.color == b0.color);
                    assert(same_shape_except_val(b0.left, b.left, key));
                    assert(same_shape_except_val(b0.right, b.right, key));
                    assert(same_shape_except_val(x0, Some(b), key));
                }
            }
            let ghost bf: Box<Node<K, V>> = b;
            *node = Some(b);
            proof {
                assert(*node == Some(bf));
                assert(opt_map(*node) == node_map(*bf));
                assert(opt_map(x0) == node_map(*b0));
                assert(ordered(*node));
                assert(no_red_right(*node));
                assert(black_balanced(*node));
                assert(black_height(*node) == black_height(x0));
                assert(almost_no_red_red(*node));
                assert(!is_red_opt(x0) ==> no_red_red(*node));
                assert(opt_map(x0).dom().contains(key) ==> same_shape_except_val(
                    x0,
                    *node,
                    key,
                ));
            }
        }
    }
}

/// Recursive lookup by comparison.
fn get_rec<'a, K: TotalOrder, V>(x: &'a Option<Box<Node<K, V>>>, key: &K) -> (r: Option<&'a V>)
    requires
        ordered(*x),
    ensures
        match r {
            Some(v) => opt_map(*x).dom().contains(*key) && opt_map(*x)[*key] == *v,
            None => !opt_map(*x).dom().contains(*key),
        },
    decreases *x,
{
    match x {
        None => None,
        Some(n) => {
            proof {
                lemma_open_ordered(**n);
            }
            match key.cmp_keys(&n.key) {
                Cmp::Less => {
                    proof {
                        assert(!opt_map(n.right).dom().contains(*key));
                    }
                    get_rec(&n.left, key)
                }
                Cmp::Greater => {
                    proof {
                        assert(!opt_map(n.left).dom().contains(*key));
                    }
                    get_rec(&n.right, key)
                }
                Cmp::Equal => {
                    proof {
                        assert(!opt_map(n.left).dom().contains(*key));
                        assert(!opt_map(n.right).dom().contains(*key));
                    }
                    Some(&n.val)
                }
            }
        }
    }
}

/// In-order traversal, appending every key of `x` to `out`.
fn inorder<K: TotalOrder, V>(x: &Option<Box<Node<K, V>>>, out: &mut Vec<K>)
    ensures
        final(out)@ == old(out)@ + opt_key_seq(*x),
    decreases *x,
{
    match x {
        None => {
            proof {
                assert(out@ =~= old(out)@ + opt_key_seq(*x));
            }
        }
        Some(n) => {
            inorder(&n.left, out);
            out.push(n.key);
            inorder(&n.right, out);
            proof {
                assert(opt_key_seq(*x) == node_key_seq(**n));
                assert(out@ =~= old(out)@ + opt_key_seq(*x));
            }
        }
    }
}

/// Descend left links to the node with the least key.
fn find_min<'a, K: TotalOrder, V>(x: &'a Option<Box<Node<K, V>>>) -> (r: Option<&'a Node<K, V>>)
    requires
        ordered(*x),
    ensures
        match r {
            Some(m) => opt_map(*x).dom().contains(m.key) && opt_map(*x)[m.key] == m.val && forall|
                k: K,
            | #[trigger] opt_map(*x).dom().contains(k) ==> m.key.ord() <= k.ord(),
            None => *x is None,
        },
    decreases *x,
{
    match x {
        None => None,
        Some(n) => {
            proof {
                lemma_open_ordered(**n);
            }
            match &n.left {
                None => {
                    proof {
                        assert(!opt_map(n.right).dom().contains(n.key));
                        assert(opt_map(*x) == node_map(**n));
                    }
                    Some(&**n)
                }
                Some(_) => {
                    let m = find_min(&n.left);
                    proof {
                        let mk = m.unwrap().key;
                        assert(opt_map(n.left).dom().contains(mk));
                        assert(mk.ord() < n.key.ord());
                        assert(!opt_map(n.right).dom().contains(mk));
                        assert(opt_map(*x) == node_map(**n));
                        assert(opt_map(*x)[mk] == opt_map(n.left)[mk]);
                    }
                    m
                }
            }
        }
    }
}

/// Descend right links to the node with the greatest key.
fn find_max<'a, K: TotalOrder, V>(x: &'a Option<Box<Node<K, V>>>) -> (r: Option<&'a Node<K, V>>)
    requires
        ordered(*x),
    ensures
        match r {
            Some(m) => opt_map(*x).dom().contains(m.key) && opt_map(*x)[m.key] == m.val && forall|
                k: K,
            | #[trigger] opt_map(*x).dom().contains(k) ==> m.key.ord() >= k.ord(),
            None => *x is None,
        },
    decreases *x,
{
    match x {
        None => None,
        Some(n) => {
            proof {
                lemma_open_ordered(**n);
            }
            match &n.right {
                None => {
                    proof {
                        assert(!opt_map(n.left).dom().contains(n.key));
                        assert(opt_map(*x) == node_map(**n));
                    }
                    Some(&**n)
                }
                Some(_) => {
                    let m = find_max(&n.right);
                    proof {
                        let mk = m.unwrap().key;
                        assert(opt_map(n.right).dom().contains(mk));
                        assert(mk.ord() > n.key.ord());
                        assert(!opt_map(n.left).dom().contains(mk));
                        assert(opt_map(*x) == node_map(**n));
                        assert(opt_map(*x)[mk] == opt_map(n.right)[mk]);
                    }
                    m
                }
            }
        }
    }
}

/// Largest key standing at or below `key`, with the node that holds it.
fn floor<'a, K: TotalOrder, V>(x: &'a Option<Box<Node<K, V>>>, key: &K) -> (r: Option<
    &'a Node<K, V>,
>)
    requires
        ordered(*x),
    ensures
        match r {
            Some(m) => opt_map(*x).dom().contains(m.key) && m.key.ord() <= key.ord() && forall|
                k: K,
            | #[trigger] opt_map(*x).dom().contains(k) && k.ord() <= key.ord() ==> k.ord()
                <= m.key.ord(),
            None => forall|k: K| #[trigger] opt_map(*x).dom().contains(k) ==> k.ord() > key.ord(),
        },
    decreases *x,
{
    match x {
        None => None,
        Some(n) => {
            proof {
                lemma_open_ordered(**n);
                assert(opt_map(*x) == node_map(**n));
            }
            match key.cmp_keys(&n.key) {
                Cmp::Equal => {
                    proof {
                        assert(opt_map(*x).dom().contains(n.key));
                    }
                    Some(&**n)
                }
                Cmp::Less => {
                    let t = floor(&n.left, key);
                    proof {
                        if t is Some {
                            let mk = t.unwrap().key;
                            assert(opt_map(n.left).dom().contains(mk));
                            assert forall|k: K| #[trigger]
                                opt_map(*x).dom().contains(k) && k.ord() <= key.ord() implies k.ord()
                                <= mk.ord() by {
                                if !opt_map(n.left).dom().contains(k) {
                                    assert(k == n.key || opt_map(n.right).dom().contains(k));
                                }
                            }
                        } else {
                            assert forall|k: K| #[trigger]
                                opt_map(*x).dom().contains(k) implies k.ord() > key.ord() by {
                                if !opt_map(n.left).dom().contains(k) {
                                    assert(k == n.key || opt_map(n.right).dom().contains(k));
                                }
                            }
                        }
                    }
                    t
                },
                Cmp::Greater => {
                    let t = floor(&n.right, key);
                    match t {
                        Some(_) => {
                            proof {
                                let mk = t.unwrap().key;
                                assert(opt_map(n.right).dom().contains(mk));
                                assert(mk.ord() > n.key.ord());
                                assert forall|k: K| #[trigger]
                                    opt_map(*x).dom().contains(k) && k.ord()
                                    <= key.ord() implies k.ord() <= mk.ord() by {
                                    if !opt_map(n.right).dom().contains(k) {
                                        assert(k == n.key || opt_map(n.left).dom().contains(k));
                                    }
                                }
                            }
                            t
                        }
                        None => {
                            proof {
                                assert(opt_map(*x).dom().contains(n.key));
                                assert forall|k: K| #[trigger]
                                    opt_map(*x).dom().contains(k) && k.ord()
                                    <= key.ord() implies k.ord() <= n.key.ord() by {
                                    if !opt_map(n.left).dom().contains(k) && k != n.key {
                                        assert(opt_map(n.right).dom().contains(k));
                                    }
                                }
                            }
                            Some(&**n)
                        }
                    }
                }
            }
        }
    }
}

/// Least key standing at or above `key`, with the node that holds it.
fn ceiling<'a, K: TotalOrder, V>(x: &'a Option<Box<Node<K, V>>>, key: &K) -> (r: Option<
    &'a Node<K, V>,
>)
    requires
        ordered(*x),
    ensures
        match r {
            Some(m) => opt_map(*x).dom().contains(m.key) && m.key.ord() >= key.ord() && forall|
                k: K,
            | #[trigger] opt_map(*x).dom().contains(k) && k.ord() >= key.ord() ==> k.ord()
                >= m.key.ord(),
            None => forall|k: K| #[trigger] opt_map(*x).dom().contains(k) ==> k.ord() < key.ord(),
        },
    decreases *x,
{
    match x {
        None => None,
        Some(n) => {
            proof {
                lemma_open_ordered(**n);
                assert(opt_map(*x) == node_map(**n));
            }
            match key.cmp_keys(&n.key) {
                Cmp::Equal => {
                    proof {
                        assert(opt_map(*x).dom().contains(n.key));
                    }
                    Some(&**n)
                }
                Cmp::Greater => {
                    let t = ceiling(&n.right, key);
                    proof {
                        if t is Some {
                            let mk = t.unwrap().key;
                            assert(opt_map(n.right).dom().contains(mk));
                            assert forall|k: K| #[trigger]
                                opt_map(*x).dom().contains(k) && k.ord() >= key.ord() implies k.ord()
                                >= mk.ord() by {
                                if !opt_map(n.right).dom().contains(k) {
                                    assert(k == n.key || opt_map(n.left).dom().contains(k));
                                }
                            }
                        } else {
                            assert forall|k: K| #[trigger]
                                opt_map(*x).dom().contains(k) implies k.ord() < key.ord() by {
                                if !opt_map(n.right).dom().contains(k) {
                                    assert(k == n.key || opt_map(n.left).dom().contains(k));
                                }
                            }
                        }
                    }
                    t
                },
                Cmp::Less => {
                    let t = ceiling(&n.left, key);
                    match t {
                        Some(_) => {
                            proof {
                                let mk = t.unwrap().key;
                                assert(opt_map(n.left).dom().contains(mk));
                                assert(mk.ord() < n.key.ord());
                                assert forall|k: K| #[trigger]
                                    opt_map(*x).dom().contains(k) && k.ord()
                                    >= key.ord() implies k.ord() >= mk.ord() by {
                                    if !opt_map(n.left).dom().contains(k) {
                                        assert(k == n.key || opt_map(n.right).dom().contains(k));
                                    }
                                }
                            }
                            t
                        }
                        None => {
                            proof {
                                assert(opt_map(*x).dom().contains(n.key));
                                assert forall|k: K| #[trigger]
                                    opt_map(*x).dom().contains(k) && k.ord()
                                    >= key.ord() implies k.ord() >= n.key.ord() by {
                                    if !opt_map(n.right).dom().contains(k) && k != n.key {
                                        assert(opt_map(n.left).dom().contains(k));
                                    }
                                }
                            }
                            Some(&**n)
                        }
                    }
                }
            }
        }
    }
}

/// Splice out the least node: the subtree is rewritten without it, and the
/// removed node itself is handed back with both children detached. No color
/// repair is attempted.
fn delete_min<K: TotalOrder, V>(node: &mut Option<Box<Node<K, V>>>) -> (d: Option<
    Box<Node<K, V>>,
>)
    requires
        ordered(*old(node)),
    ensures
        *old(node) is None ==> *final(node) is None && d is None,
        *old(node) is Some ==> d is Some && {
            let m = *d.unwrap();
            &&& m.left is None
            &&& m.right is None
            &&& opt_map(*old(node)).dom().contains(m.key)
            &&& opt_map(*old(node))[m.key] == m.val
            &&& (forall|k: K| #[trigger] opt_map(*old(node)).dom().contains(k) ==> m.key.ord()
                <= k.ord())
            &&& ordered(*final(node))
            &&& opt_map(*final(node)) == opt_map(*old(node)).remove(m.key)
        },
    decreases *old(node),
{
    let ghost x0: Option<Box<Node<K, V>>> = *node;
    match node.take() {
        None => None,
        Some(mut b) => {
            let ghost b0: Box<Node<K, V>> = b;
            proof {
                assert(x0 == Some(b0));
                assert(node_ordered(*b0));
                lemma_open_ordered(*b0);
            }
            match b.left.take() {
                None => {
                    *node = b.right.take();
                    proof {
                        assert(!opt_map(b0.right).dom().contains(b0.key));
                        assert(opt_map(x0) == node_map(*b0));
                        assert(opt_map(*node) =~= opt_map(x0).remove(b0.key));
                        assert(opt_map(x0)[b0.key] == b0.val);
                    }
                    Some(b)
                }
                mut left @ Some(_) => {
                    let d = delete_min(&mut left);
                    b.left = left;
                    proof {
                        let m = *d.unwrap();
                        assert(opt_map(b0.left).dom().contains(m.key));
                        assert(m.key.ord() < b0.key.ord());
                        assert(!opt_map(b0.right).dom().contains(m.key));
                        assert(opt_map(x0) == node_map(*b0));
                        assert forall|k: K| #[trigger]
                            opt_map(b.left).dom().contains(k) implies k.ord() < b.key.ord() by {
                            assert(opt_map(b0.left).dom().contains(k));
                        }
                        assert(node_ordered(*b));
                        assert(node_map(*b) =~= opt_map(x0).remove(m.key));
                        assert(opt_map(x0)[m.key] == opt_map(b0.left)[m.key]);
                    }
                    *node = Some(b);
                    d
                }
            }
        }
    }
}

/// Splice out the greatest node, the mirror image of `delete_min`.
fn delete_max<K: TotalOrder, V>(node: &mut Option<Box<Node<K, V>>>) -> (d: Option<
    Box<Node<K, V>>,
>)
    requires
        ordered(*old(node)),
    ensures
        *old(node) is None ==> *final(node) is None && d is None,
        *old(node) is Some ==> d is Some && {
            let m = *d.unwrap();
            &&& m.left is None
            &&& m.right is None
            &&& opt_map(*old(node)).dom().contains(m.key)
            &&& opt_map(*old(node))[m.key] == m.val
            &&& (forall|k: K| #[trigger] opt_map(*old(node)).dom().contains(k) ==> m.key.ord()
                >= k.ord())
            &&& ordered(*final(node))
            &&& opt_map(*final(node)) == opt_map(*old(node)).remove(m.key)
        },
    decreases *old(node),
{
    let ghost x0: Option<Box<Node<K, V>>> = *node;
    match node.take() {
        None => None,
        Some(mut b) => {
            let ghost b0: Box<Node<K, V>> = b;
            proof {
                assert(x0 == Some(b0));
                assert(node_ordered(*b0));
                lemma_open_ordered(*b0);
            }
            match b.right.take() {
                None => {
                    *node = b.left.take();
                    proof {
                        assert(!opt_map(b0.left).dom().contains(b0.key));
                        assert(opt_map(x0) == node_map(*b0));
                        assert(opt_map(*node) =~= opt_map(x0).remove(b0.key));
                        assert(opt_map(x0)[b0.key] == b0.val);
                    }
                    Some(b)
                }
                mut right @ Some(_) => {
                    let d = delete_max(&mut right);
                    b.right = right;
                    proof {
                        let m = *d.unwrap();
                        assert(opt_map(b0.right).dom().contains(m.key));
                        assert(m.key.ord() > b0.key.ord());
                        assert(!opt_map(b0.left).dom().contains(m.key));
                        assert(opt_map(x0) == node_map(*b0));
                        assert forall|k: K| #[trigger]
                            opt_map(b.right).dom().contains(k) implies k.ord() > b.key.ord() by {
                            assert(opt_map(b0.right).dom().contains(k));
                        }
                        assert(node_ordered(*b));
                        assert(node_map(*b) =~= opt_map(x0).remove(m.key));
                        assert(opt_map(x0)[m.key] == opt_map(b0.right)[m.key]);
                    }
                    *node = Some(b);
                    d
                }
            }
        }
    }
}

/// Recursive removal by plain splicing: a matched node is replaced by its
/// only child, or by its in-order successor (the least node of its right
/// subtree). The search-tree order and the contents are exact; no color
/// repair runs here.
fn delete<K: TotalOrder, V>(node: &mut Option<Box<Node<K, V>>>, key: &K)
    requires
        ordered(*old(node)),
    ensures
        ordered(*final(node)),
        opt_map(*final(node)) == opt_map(*old(node)).remove(*key),
    decreases *old(node),
{
    let ghost x0: Option<Box<Node<K, V>>> = *node;
    match node.take() {
        None => {
            proof {
                assert(opt_map(*node) =~= opt_map(x0).remove(*key));
            }
        }
        Some(mut b) => {
            let ghost b0: Box<Node<K, V>> = b;
            proof {
                assert(x0 == Some(b0));
                assert(node_ordered(*b0));
                lemma_open_ordered(*b0);
                assert(opt_map(x0) == node_map(*b0));
            }
            match key.cmp_keys(&b.key) {
                Cmp::Less => {
                    delete(&mut b.left, key);
                    proof {
                        assert(!opt_map(b0.right).dom().contains(*key));
                        assert forall|k: K| #[trigger]
                            opt_map(b.left).dom().contains(k) implies k.ord() < b.key.ord() by {
                            assert(opt_map(b0.left).dom().contains(k));
                        }
                        assert(node_ordered(*b));
                        assert(node_map(*b) =~= opt_map(x0).remove(*key));
                    }
                    *node = Some(b);
                }
                Cmp::Greater => {
                    delete(&mut b.right, key);
                    proof {
                        assert(!opt_map(b0.left).dom().contains(*key));
                        assert forall|k: K| #[trigger]
                            opt_map(b.right).dom().contains(k) implies k.ord() > b.key.ord() by {
                            assert(opt_map(b0.right).dom().contains(k));
                        }
                        assert(node_ordered(*b));
                        assert(node_map(*b) =~= opt_map(x0).remove(*key));
                    }
                    *node = Some(b);
                }
                Cmp::Equal => {
                    proof {
                        assert(!opt_map(b0.left).dom().contains(*key));
                        assert(!opt_map(b0.right).dom().contains(*key));
                    }
                    if b.right.is_none() {
                        *node = b.left.take();
                        proof {
                            assert(opt_map(*node) =~= opt_map(x0).remove(*key));
                        }
                    } else if b.left.is_none() {
                        *node = b.right.take();
                        proof {
                            assert(opt_map(*node) =~= opt_map(x0).remove(*key));
                        }
                    } else {
                        let d = delete_min(&mut b.right);
                        let mut s = d.unwrap();
                        proof {
                            lemma_ordered_distinct(b0.right);
                        }
                        s.left = b.left.take();
                        s.right = b.right.take();
                        let ghost sf: Box<Node<K, V>> = s;
                        *node = Some(s);
                        proof {
                            assert(opt_map(b0.right).dom().contains(sf.key));
                            assert(sf.key.ord() > b0.key.ord());
                            assert forall|k: K| #[trigger]
                                opt_map(sf.left).dom().contains(k) implies k.ord()
                                < sf.key.ord() by {
                                assert(opt_map(b0.left).dom().contains(k));
                            }
                            assert forall|k: K| #[trigger]
                                opt_map(sf.right).dom().contains(k) implies k.ord()
                                > sf.key.ord() by {
                                assert(opt_map(b0.right).dom().contains(k));
                                assert(k != sf.key);
                                assert(k.ord() != sf.key.ord());
                            }
                            assert(node_ordered(*sf));
                            assert(opt_map(b0.right)[sf.key] == sf.val);
                            assert(node_map(*sf) =~= opt_map(x0).remove(*key));
                        }
                    }
                }
            }
        }
    }
}

/// Count of keys strictly below `key`: descend by comparison, adding the
/// left subtree's size and one for the node itself when stepping right.
fn rank_helper<K: TotalOrder, V>(x: &Option<Box<Node<K, V>>>, key: &K) -> (r: usize)
    requires
        ordered(*x),
        opt_key_seq(*x).len() <= usize::MAX,
    ensures
        r == num_lt(opt_key_seq(*x), key.ord()),
    decreases *x,
{
    match x {
        None => {
            proof {
                lemma_num_lt_none(opt_key_seq(*x), key.ord());
            }
            0
        }
        Some(n) => {
            let ghost ksl = opt_key_seq(n.left);
            let ghost ksr = opt_key_seq(n.right);
            let ghost b = key.ord();
            proof {
                lemma_open_ordered(**n);
                lemma_seq_dom::<K, V>(n.left);
                lemma_seq_dom::<K, V>(n.right);
                assert(opt_key_seq(*x) == (ksl + seq![n.key]) + ksr);
                lemma_num_lt_split(ksl + seq![n.key], ksr, b);
                lemma_num_lt_split(ksl, seq![n.key], b);
                lemma_num_lt_one(n.key, b);
            }
            match key.cmp_keys(&n.key) {
                Cmp::Less => {
                    proof {
                        assert forall|i: int| 0 <= i < ksr.len() implies (#[trigger] ksr[i].ord())
                            >= b by {
                            assert(opt_map(n.right).dom().contains(ksr[i]));
                        }
                        lemma_num_lt_none(ksr, b);
                    }
                    rank_helper(&n.left, key)
                }
                Cmp::Greater => {
                    proof {
                        assert forall|i: int| 0 <= i < ksl.len() implies (#[trigger] ksl[i].ord())
                            < b by {
                            assert(opt_map(n.left).dom().contains(ksl[i]));
                        }
                        lemma_num_lt_all(ksl, b);
                        lemma_num_lt_le(ksr, b);
                    }
                    let mut r: usize = 1;
                    if n.left.is_some() {
                        r += n.left.as_ref().unwrap().size();
                    }
                    r += rank_helper(&n.right, key);
                    r
                }
                Cmp::Equal => {
                    proof {
                        assert forall|i: int| 0 <= i < ksl.len() implies (#[trigger] ksl[i].ord())
                            < b by {
                            assert(opt_map(n.left).dom().contains(ksl[i]));
                        }
                        lemma_num_lt_all(ksl, b);
                        assert forall|i: int| 0 <= i < ksr.len() implies (#[trigger] ksr[i].ord())
                            >= b by {
                            assert(opt_map(n.right).dom().contains(ksr[i]));
                        }
                        lemma_num_lt_none(ksr, b);
                    }
                    match &n.left {
                        None => 0,
                        Some(l) => l.size(),
                    }
                }
            }
        }
    }
}

/// An ordered symbol table backed by a left-leaning red-black tree.
pub struct RedBlackBST<K, V> {
    pub root: Option<Box<Node<K, V>>>,
}

impl<K, V> View for RedBlackBST<K, V> {
    type V = Map<K, V>;

    open spec fn view(&self) -> Map<K, V> {
        opt_map(self.root)
    }
}

impl<K: TotalOrder, V> RedBlackBST<K, V> {
    /// The in-order sequence of the keys.
    pub open spec fn key_seq(self) -> Seq<K> {
        opt_key_seq(self.root)
    }

    /// The search-tree order invariant; every operation preserves it.
    pub open spec fn well_formed(self) -> bool {
        ordered(self.root)
    }

    /// The color discipline of a left-leaning red-black tree with a black
    /// root: red links lean left, no two reds in a row, perfect black
    /// balance. `new` establishes it and `put` preserves it; the splicing
    /// deletions do not promise to keep it (see `delete`).
    pub open spec fn red_black_ok(self) -> bool {
        rb_ok(self.root) && !is_red_opt(self.root)
    }

    /// Longest count of nodes on a downward path.
    pub open spec fn depth_spec(self) -> nat {
        depth_of(self.root)
    }

    /// An empty table.
    pub fn new() -> (t: Self)
        ensures
            t@ == Map::<K, V>::empty(),
            t.key_seq() == Seq::<K>::empty(),
            t.well_formed(),
            t.red_black_ok(),
    {
        RedBlackBST { root: None }
    }

    /// Insert `key` with `val`, or overwrite the value stored at `key`.
    /// Requires the color discipline: the splitting step of the repair
    /// sequence insists on it, so a tree whose colors were disturbed by a
    /// deletion is no longer a valid input.
    pub fn put(&mut self, key: K, val: V)
        requires
            old(self).well_formed(),
            old(self).red_black_ok(),
        ensures
            final(self).well_formed(),
            final(self).red_black_ok(),
            final(self)@ == old(self)@.insert(key, val),
            old(self)@.dom().contains(key) ==> same_shape_except_val(
                old(self).root,
                final(self).root,
                key,
            ),
    {
        put(&mut self.root, key, val);
        let mut r = self.root.take().unwrap();
        let ghost p: Box<Node<K, V>> = r;
        r.color = Color::Black;
        let ghost rf: Box<Node<K, V>> = r;
        self.root = Some(r);
        proof {
            assert(node_ordered(*p));
            assert(node_map(*rf) == node_map(*p));
            assert(node_ordered(*rf));
            assert(ordered(self.root));
            assert(no_red_right(self.root));
            assert(no_red_red(self.root));
            assert(black_balanced(self.root));
            assert(self@ == old(self)@.insert(key, val));
            if old(self)@.dom().contains(key) {
                assert(same_shape_except_val(old(self).root, Some(p), key));
                assert(old(self).root is Some);
                assert(old(self).root == Some(old(self).root.unwrap()));
                assert(p.color == old(self).root.unwrap().color);
                assert(!is_red_opt(old(self).root));
                assert(p.color is Black);
                assert(*rf == *p);
                assert(same_shape_except_val(old(self).root, self.root, key));
            }
        }
    }

    /// Look up the value stored at `key`.
    pub fn get(&self, key: &K) -> (r: Option<&V>)
        requires
            self.well_formed(),
        ensures
            match r {
                Some(v) => self@.dom().contains(*key) && self@[*key] == *v,
                None => !self@.dom().contains(*key),
            },
    {
        get_rec(&self.root, key)
    }

    /// Whether the table holds no key.
    pub fn is_empty(&self) -> (r: bool)
        ensures
            r == (self@ == Map::<K, V>::empty()),
    {
        proof {
            if self.root is Some {
                let n = *self.root.unwrap();
                assert(self@.dom().contains(n.key));
                assert(!Map::<K, V>::empty().dom().contains(n.key));
            }
        }
        self.root.is_none()
    }

    /// Number of key-value pairs in the table.
    pub fn size(&self) -> (r: usize)
        requires
            self.key_seq().len() <= usize::MAX,
        ensures
            r == self.key_seq().len(),
    {
        match &self.root {
            None => 0,
            Some(n) => {
                proof {
                    assert(self.key_seq() == node_key_seq(**n));
                }
                n.size()
            },
        }
    }

    /// Longest count of nodes from the root down to a leaf; a diagnostic
    /// companion to the height bound that the color discipline grants.
    pub fn depth(&self) -> (r: usize)
        requires
            self.depth_spec() <= usize::MAX,
        ensures
            r == self.depth_spec(),
    {
        match &self.root {
            None => 0,
            Some(n) => n.depth(),
        }
    }

    /// All keys of the table, in ascending order.
    pub fn keys(&self) -> (r: Vec<K>)
        ensures
            r@ == self.key_seq(),
    {
        let mut queue: Vec<K> = Vec::new();
        inorder(&self.root, &mut queue);
        proof {
            assert(queue@ =~= self.key_seq());
        }
        queue
    }

    /// The least key, if any.
    pub fn min(&self) -> (r: Option<&K>)
        requires
            self.well_formed(),
        ensures
            match r {
                Some(k) => self@.dom().contains(*k) && forall|q: K| #[trigger]
                    self@.dom().contains(q) ==> k.ord() <= q.ord(),
                None => self@ == Map::<K, V>::empty(),
            },
    {
        match find_min(&self.root) {
            None => None,
            Some(n) => Some(&n.key),
        }
    }

    /// The greatest key, if any.
    pub fn max(&self) -> (r: Option<&K>)
        requires
            self.well_formed(),
        ensures
            match r {
                Some(k) => self@.dom().contains(*k) && forall|q: K| #[trigger]
                    self@.dom().contains(q) ==> k.ord() >= q.ord(),
                None => self@ == Map::<K, V>::empty(),
            },
    {
        match find_max(&self.root) {
            None => None,
            Some(n) => Some(&n.key),
        }
    }

    /// The greatest key standing at or below `key`, if any.
    pub fn floor(&self, key: &K) -> (r: Option<&K>)
        requires
            self.well_formed(),
        ensures
            match r {
                Some(f) => self@.dom().contains(*f) && f.ord() <= key.ord() && forall|q: K|
                    #[trigger] self@.dom().contains(q) && q.ord() <= key.ord() ==> q.ord()
                    <= f.ord(),
                None => forall|q: K| #[trigger] self@.dom().contains(q) ==> q.ord() > key.ord(),
            },
    {
        match floor(&self.root, key) {
            None => None,
            Some(n) => Some(&n.key),
        }
    }

    /// The least key standing at or above `key`, if any.
    pub fn ceiling(&self, key: &K) -> (r: Option<&K>)
        requires
            self.well_formed(),
        ensures
            match r {
                Some(f) => self@.dom().contains(*f) && f.ord() >= key.ord() && forall|q: K|
                    #[trigger] self@.dom().contains(q) && q.ord() >= key.ord() ==> q.ord()
                    >= f.ord(),
                None => forall|q: K| #[trigger] self@.dom().contains(q) ==> q.ord() < key.ord(),
            },
    {
        match ceiling(&self.root, key) {
            None => None,
            Some(n) => Some(&n.key),
        }
    }

    /// Remove `key` if present; no effect when it is absent.
    ///
    /// Deletion splices nodes out without color repair: the order invariant
    /// and the contents are exact, but the red-black discipline
    /// (`red_black_ok`) is not promised to survive, so a later `put` on a
    /// tree that went through a deletion is outside `put`'s contract.
    pub fn delete(&mut self, key: &K)
        requires
            old(self).well_formed(),
        ensures
            final(self).well_formed(),
            final(self)@ == old(self)@.remove(*key),
    {
        delete(&mut self.root, key);
    }

    /// Count of keys strictly below `key`.
    pub fn rank(&self, key: &K) -> (r: usize)
        requires
            self.well_formed(),
            self.key_seq().len() <= usize::MAX,
        ensures
            r == num_lt(self.key_seq(), key.ord()),
    {
        rank_helper(&self.root, key)
    }

    /// The key of rank `k`: the entry at position `k` of the ascending key
    /// sequence, if `k` is within range.
    pub fn select(&self, k: usize) -> (r: Option<K>)
        requires
            self.well_formed(),
        ensures
            r == if k < self.key_seq().len() {
                Some(self.key_seq()[k as int])
            } else {
                None::<K>
            },
    {
        let ks = self.keys();
        if k < ks.len() {
            Some(ks[k])
        } else {
            None
        }
    }

    /// Remove the least key, if any; no effect on an empty table.
    pub fn delete_min(&mut self)
        requires
            old(self).well_formed(),
        ensures
            final(self).well_formed(),
            old(self)@ == Map::<K, V>::empty() ==> final(self)@ == old(self)@,
            old(self)@ != Map::<K, V>::empty() ==> exists|m: K|
                {
                    &&& #[trigger] old(self)@.dom().contains(m)
                    &&& (forall|k: K| #[trigger] old(self)@.dom().contains(k) ==> m.ord()
                        <= k.ord())
                    &&& final(self)@ == old(self)@.remove(m)
                },
    {
        let d = delete_min(&mut self.root);
        proof {
            if old(self).root is Some {
                let m = *d.unwrap();
                assert(old(self)@.dom().contains(m.key));
                assert(old(self)@ != Map::<K, V>::empty());
            } else {
                assert(old(self)@ =~= Map::<K, V>::empty());
            }
        }
    }

    /// Remove the greatest key, if any; no effect on an empty table.
    pub fn delete_max(&mut self)
        requires
            old(self).well_formed(),
        ensures
            final(self).well_formed(),
            old(self)@ == Map::<K, V>::empty() ==> final(self)@ == old(self)@,
            old(self)@ != Map::<K, V>::empty() ==> exists|m: K|
                {
                    &&& #[trigger] old(self)@.dom().contains(m)
                    &&& (forall|k: K| #[trigger] old(self)@.dom().contains(k) ==> m.ord()
                        >= k.ord())
                    &&& final(self)@ == old(self)@.remove(m)
                },
    {
        let d = delete_max(&mut self.root);
        proof {
            if old(self).root is Some {
                let m = *d.unwrap();
                assert(old(self)@.dom().contains(m.key));
                assert(old(self)@ != Map::<K, V>::empty());
            } else {
                assert(old(self)@ =~= Map::<K, V>::empty());
            }
        }
    }
}

} // verus!
