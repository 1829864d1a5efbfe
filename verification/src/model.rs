use vstd::prelude::*;

use crate::node::{Color, Node};
use crate::order::TotalOrder;

verus! {

/// The key-value map held by an optional subtree.
pub open spec fn opt_map<K, V>(x: Option<Box<Node<K, V>>>) -> Map<K, V>
    decreases x,
{
    match x {
        None => Map::empty(),
        Some(n) => node_map(*n),
    }
}

/// The key-value map held by the subtree rooted at `n`.
pub open spec fn node_map<K, V>(n: Node<K, V>) -> Map<K, V>
    decreases n,
{
    opt_map(n.left).union_prefer_right(opt_map(n.right)).insert(n.key, n.val)
}

/// The in-order sequence of keys of an optional subtree.
pub open spec fn opt_key_seq<K, V>(x: Option<Box<Node<K, V>>>) -> Seq<K>
    decreases x,
{
    match x {
        None => Seq::empty(),
        Some(n) => node_key_seq(*n),
    }
}

/// The in-order sequence of keys of the subtree rooted at `n`.
pub open spec fn node_key_seq<K, V>(n: Node<K, V>) -> Seq<K>
    decreases n,
{
    opt_key_seq(n.left) + seq![n.key] + opt_key_seq(n.right)
}

/// The binary-search-tree order invariant: at every node, all keys of the
/// left subtree stand strictly below the node's key and all keys of the
/// right subtree strictly above it.
pub open spec fn ordered<K: TotalOrder, V>(x: Option<Box<Node<K, V>>>) -> bool
    decreases x,
{
    match x {
        None => true,
        Some(n) => node_ordered(*n),
    }
}

/// The order invariant at a node.
pub open spec fn node_ordered<K: TotalOrder, V>(n: Node<K, V>) -> bool
    decreases n,
{
    &&& ordered(n.left)
    &&& ordered(n.right)
    &&& forall|k: K| #[trigger] opt_map(n.left).dom().contains(k) ==> k.ord() < n.key.ord()
    &&& forall|k: K| #[trigger] opt_map(n.right).dom().contains(k) ==> k.ord() > n.key.ord()
}

/// Whether the link into an optional subtree is red (an absent child counts
/// as black).
pub open spec fn is_red_opt<K, V>(x: Option<Box<Node<K, V>>>) -> bool {
    match x {
        None => false,
        Some(n) => n.color is Red,
    }
}

/// No red link leans right anywhere in the subtree.
pub open spec fn no_red_right<K, V>(x: Option<Box<Node<K, V>>>) -> bool
    decreases x,
{
    match x {
        None => true,
        Some(n) => !is_red_opt(n.right) && no_red_right(n.left) && no_red_right(n.right),
    }
}

/// No two consecutive red links on a downward path: every red node has only
/// black children.
pub open spec fn no_red_red<K, V>(x: Option<Box<Node<K, V>>>) -> bool
    decreases x,
{
    match x {
        None => true,
        Some(n) => {
            &&& (n.color is Red ==> !is_red_opt(n.left) && !is_red_opt(n.right))
            &&& no_red_red(n.left)
            &&& no_red_red(n.right)
        },
    }
}

/// The no-double-red discipline holds inside both subtrees of the root of
/// `x`; the link from the root of `x` to its left child is left free. This
/// is the state `put` hands up: at most one left-leaning red-red pair, at
/// the root.
pub open spec fn almost_no_red_red<K, V>(x: Option<Box<Node<K, V>>>) -> bool {
    match x {
        None => true,
        Some(n) => no_red_red(n.left) && no_red_red(n.right),
    }
}

/// `y` is `x` with, at most, the value stored at `key` replaced: the same
/// keys, links and colors everywhere. This is what an overwriting `put`
/// leaves behind: an update in place, not an insert.
pub open spec fn same_shape_except_val<K, V>(
    x: Option<Box<Node<K, V>>>,
    y: Option<Box<Node<K, V>>>,
    key: K,
) -> bool
    decreases x,
{
    match x {
        None => y is None,
        Some(a) => match y {
            None => false,
            Some(b) => {
                &&& b.key == a.key
                &&& b.color == a.color
                &&& (a.key != key ==> b.val == a.val)
                &&& same_shape_except_val(a.left, b.left, key)
                &&& same_shape_except_val(a.right, b.right, key)
            },
        },
    }
}

/// An unchanged subtree is shape-same for any exempted key.
pub proof fn lemma_same_shape_refl<K, V>(x: Option<Box<Node<K, V>>>, key: K)
    ensures
        same_shape_except_val(x, x, key),
    decreases x,
{
    if x is Some {
        let n = *x.unwrap();
        assert(x == Some(x.unwrap()));
        lemma_same_shape_refl(n.left, key);
        lemma_same_shape_refl(n.right, key);
    }
}

/// Count of black nodes on a path from this subtree down to an absent
/// child, following left links; under `black_balanced` every path gives the
/// same count.
pub open spec fn black_height<K, V>(x: Option<Box<Node<K, V>>>) -> nat
    decreases x,
{
    match x {
        None => 0,
        Some(n) => black_height(n.left) + if n.color is Black {
            1nat
        } else {
            0nat
        },
    }
}

/// Perfect black balance: at every node, the left and the right subtree
/// carry the same count of black nodes on their paths.
pub open spec fn black_balanced<K, V>(x: Option<Box<Node<K, V>>>) -> bool
    decreases x,
{
    match x {
        None => true,
        Some(n) => black_balanced(n.left) && black_balanced(n.right) && black_height(n.left)
            == black_height(n.right),
    }
}

/// The full left-leaning red-black color discipline of a subtree, leaving
/// the color of its own root free.
pub open spec fn rb_ok<K, V>(x: Option<Box<Node<K, V>>>) -> bool {
    no_red_right(x) && no_red_red(x) && black_balanced(x)
}

/// Longest count of nodes on a downward path of an optional subtree.
pub open spec fn depth_of<K, V>(x: Option<Box<Node<K, V>>>) -> nat
    decreases x,
{
    match x {
        None => 0,
        Some(n) => 1 + if depth_of(n.left) >= depth_of(n.right) {
            depth_of(n.left)
        } else {
            depth_of(n.right)
        },
    }
}

/// The predicate "stands strictly below position `b` of the order".
pub open spec fn lt_ord<K: TotalOrder>(b: int) -> spec_fn(K) -> bool {
    |k: K| k.ord() < b
}

/// How many keys of `s` stand strictly below position `b` of the order.
pub open spec fn num_lt<K: TotalOrder>(s: Seq<K>, b: int) -> nat {
    s.filter(lt_ord(b)).len()
}

/// The keys of `s` appear in strictly ascending order.
pub open spec fn sorted_ords<K: TotalOrder>(s: Seq<K>) -> bool {
    forall|i: int, j: int|
        0 <= i < j < s.len() ==> #[trigger] s[i].ord() < #[trigger] s[j].ord()
}

/// Shape relation of a left rotation: `post` is `pre` with the red right
/// child lifted to the local root.
pub open spec fn rotated_left<K, V>(pre: Node<K, V>, post: Node<K, V>) -> bool {
    &&& pre.right is Some
    &&& post.key == pre.right.unwrap().key
    &&& post.val == pre.right.unwrap().val
    &&& post.color == pre.color
    &&& post.right == pre.right.unwrap().right
    &&& post.left is Some
    &&& post.left.unwrap().key == pre.key
    &&& post.left.unwrap().val == pre.val
    &&& post.left.unwrap().color is Red
    &&& post.left.unwrap().left == pre.left
    &&& post.left.unwrap().right == pre.right.unwrap().left
}

/// Shape relation of a right rotation: `post` is `pre` with the red left
/// child lifted to the local root.
pub open spec fn rotated_right<K, V>(pre: Node<K, V>, post: Node<K, V>) -> bool {
    &&& pre.left is Some
    &&& post.key == pre.left.unwrap().key
    &&& post.val == pre.left.unwrap().val
    &&& post.color == pre.color
    &&& post.left == pre.left.unwrap().left
    &&& post.right is Some
    &&& post.right.unwrap().key == pre.key
    &&& post.right.unwrap().val == pre.val
    &&& post.right.unwrap().color is Red
    &&& post.right.unwrap().right == pre.right
    &&& post.right.unwrap().left == pre.left.unwrap().right
}

/// Shape relation of a color flip: `post` is `pre` recolored red with both
/// children recolored black, everything else unchanged.
pub open spec fn flipped<K, V>(pre: Node<K, V>, post: Node<K, V>) -> bool {
    &&& pre.left is Some
    &&& pre.right is Some
    &&& post.key == pre.key
    &&& post.val == pre.val
    &&& post.color is Red
    &&& post.left is Some
    &&& post.right is Some
    &&& post.left.unwrap().key == pre.left.unwrap().key
    &&& post.left.unwrap().val == pre.left.unwrap().val
    &&& post.left.unwrap().color is Black
    &&& post.left.unwrap().left == pre.left.unwrap().left
    &&& post.left.unwrap().right == pre.left.unwrap().right
    &&& post.right.unwrap().key == pre.right.unwrap().key
    &&& post.right.unwrap().val == pre.right.unwrap().val
    &&& post.right.unwrap().color is Black
    &&& post.right.unwrap().left == pre.right.unwrap().left
    &&& post.right.unwrap().right == pre.right.unwrap().right
}

/// Opens the order invariant of a node one level: the invariant of both
/// children and the key bounds become visible.
pub proof fn lemma_open_ordered<K: TotalOrder, V>(n: Node<K, V>)
    requires
        node_ordered(n),
    ensures
        ordered(n.left),
        ordered(n.right),
        n.left is Some ==> node_ordered(*n.left.unwrap()),
        n.right is Some ==> node_ordered(*n.right.unwrap()),
        forall|k: K| #[trigger] opt_map(n.left).dom().contains(k) ==> k.ord() < n.key.ord(),
        forall|k: K| #[trigger] opt_map(n.right).dom().contains(k) ==> k.ord() > n.key.ord(),
{
    assert(ordered(n.left));
    assert(ordered(n.right));
    if n.left is Some {
        assert(n.left == Some(n.left.unwrap()));
        assert(node_ordered(*n.left.unwrap()));
    }
    if n.right is Some {
        assert(n.right == Some(n.right.unwrap()));
        assert(node_ordered(*n.right.unwrap()));
    }
}

/// Counting below a bound distributes over concatenation.
pub proof fn lemma_num_lt_split<K: TotalOrder>(s1: Seq<K>, s2: Seq<K>, b: int)
    ensures
        num_lt(s1 + s2, b) == num_lt(s1, b) + num_lt(s2, b),
{
    Seq::<K>::filter_distributes_over_add(s1, s2, lt_ord(b));
}

/// A single key counts as one exactly when it stands below the bound.
pub proof fn lemma_num_lt_one<K: TotalOrder>(k: K, b: int)
    ensures
        num_lt(seq![k], b) == if k.ord() < b {
            1nat
        } else {
            0nat
        },
{
    reveal_with_fuel(Seq::filter, 2);
    assert(lt_ord(b)(k) == (k.ord() < b));
    assert(seq![k].drop_last() =~= Seq::<K>::empty());
    assert(seq![k].last() == k);
    assert(Seq::<K>::empty().filter(lt_ord(b)) =~= Seq::<K>::empty());
}

/// When every key of `s` stands below `b`, all of them are counted.
pub proof fn lemma_num_lt_all<K: TotalOrder>(s: Seq<K>, b: int)
    requires
        forall|i: int| 0 <= i < s.len() ==> (#[trigger] s[i].ord()) < b,
    ensures
        num_lt(s, b) == s.len(),
    decreases s.len(),
{
    reveal(Seq::filter);
    if s.len() > 0 {
        lemma_num_lt_all(s.drop_last(), b);
        assert(s.last().ord() < b);
    }
}

/// When no key of `s` stands below `b`, none is counted.
pub proof fn lemma_num_lt_none<K: TotalOrder>(s: Seq<K>, b: int)
    requires
        forall|i: int| 0 <= i < s.len() ==> (#[trigger] s[i].ord()) >= b,
    ensures
        num_lt(s, b) == 0,
    decreases s.len(),
{
    reveal(Seq::filter);
    if s.len() > 0 {
        lemma_num_lt_none(s.drop_last(), b);
        assert(s.last().ord() >= b);
    }
}

/// No more keys are counted than there are.
pub proof fn lemma_num_lt_le<K: TotalOrder>(s: Seq<K>, b: int)
    ensures
        num_lt(s, b) <= s.len(),
{
    s.lemma_filter_len(lt_ord(b));
}

/// In a strictly ascending sequence, the count of keys below a given key of
/// the sequence is exactly its index.
pub proof fn lemma_num_lt_index<K: TotalOrder>(s: Seq<K>, i: int)
    requires
        sorted_ords(s),
        0 <= i < s.len(),
    ensures
        num_lt(s, s[i].ord()) == i,
{
    let b = s[i].ord();
    let fore = s.subrange(0, i);
    let aft = s.subrange(i, s.len() as int);
    assert(s =~= fore + aft);
    lemma_num_lt_split(fore, aft, b);
    assert forall|j: int| 0 <= j < fore.len() implies (#[trigger] fore[j].ord()) < b by {
        assert(fore[j] == s[j]);
    }
    lemma_num_lt_all(fore, b);
    assert forall|j: int| 0 <= j < aft.len() implies (#[trigger] aft[j].ord()) >= b by {
        assert(aft[j] == s[i + j]);
    }
    lemma_num_lt_none(aft, b);
}

/// The in-order key sequence of an ordered subtree enumerates exactly the
/// keys of its map: strictly ascending, without repetition, one entry for
/// each key.
pub proof fn lemma_seq_dom<K: TotalOrder, V>(x: Option<Box<Node<K, V>>>)
    requires
        ordered(x),
    ensures
        opt_map(x).dom().finite(),
        opt_key_seq(x).to_set() == opt_map(x).dom(),
        opt_key_seq(x).len() == opt_map(x).dom().len(),
        forall|i: int|
            0 <= i < opt_key_seq(x).len() ==> opt_map(x).dom().contains(
                #[trigger] opt_key_seq(x)[i],
            ),
        sorted_ords(opt_key_seq(x)),
        opt_key_seq(x).no_duplicates(),
    decreases x,
{
    broadcast use vstd::seq_lib::seq_to_set_is_finite;

    let ks = opt_key_seq(x);
    if x is None {
        assert(ks.to_set() =~= Set::<K>::empty());
        assert(opt_map(x).dom() =~= Set::<K>::empty());
    } else {
        let n = *x.unwrap();
        assert(x == Some(x.unwrap()));
        assert(node_ordered(n));
        lemma_open_ordered(n);
        lemma_seq_dom::<K, V>(n.left);
        lemma_seq_dom::<K, V>(n.right);
        let ksl = opt_key_seq(n.left);
        let ksr = opt_key_seq(n.right);
        assert(opt_map(x) == node_map(n));
        assert(ks == ksl + seq![n.key] + ksr);
        assert(ks.len() == ksl.len() + 1 + ksr.len());
        assert forall|i: int| 0 <= i < ks.len() implies opt_map(x).dom().contains(
            #[trigger] ks[i],
        ) by {
            if i < ksl.len() {
                assert(ks[i] == ksl[i]);
            } else if i == ksl.len() {
                assert(ks[i] == n.key);
            } else {
                assert(ks[i] == ksr[i - ksl.len() - 1]);
            }
        }
        assert forall|i: int, j: int| 0 <= i < j < ks.len() implies (#[trigger] ks[i].ord())
            < (#[trigger] ks[j].ord()) by {
            if i < ksl.len() {
                assert(ks[i] == ksl[i]);
                assert(opt_map(n.left).dom().contains(ksl[i]));
            } else if i == ksl.len() {
                assert(ks[i] == n.key);
            } else {
                assert(ks[i] == ksr[i - ksl.len() - 1]);
                assert(opt_map(n.right).dom().contains(ksr[i - ksl.len() - 1]));
            }
            if j < ksl.len() {
                assert(ks[j] == ksl[j]);
                assert(opt_map(n.left).dom().contains(ksl[j]));
            } else if j == ksl.len() {
                assert(ks[j] == n.key);
            } else {
                assert(ks[j] == ksr[j - ksl.len() - 1]);
                assert(opt_map(n.right).dom().contains(ksr[j - ksl.len() - 1]));
            }
        }
        assert(sorted_ords(ks));
        assert forall|i: int, j: int|
            0 <= i < ks.len() && 0 <= j < ks.len() && i != j implies ks[i] != ks[j] by {
            if i < j {
                assert(ks[i].ord() < ks[j].ord());
            } else {
                assert(ks[j].ord() < ks[i].ord());
            }
        }
        assert(ks.no_duplicates());
        assert(ks.to_set() =~= opt_map(x).dom()) by {
            assert forall|k: K| #[trigger] opt_map(x).dom().contains(k) implies ks.to_set().contains(
                k,
            ) by {
                if opt_map(n.left).dom().contains(k) {
                    assert(ksl.to_set().contains(k));
                    let i = choose|i: int| 0 <= i < ksl.len() && ksl[i] == k;
                    assert(ks[i] == k);
                    assert(ks.contains(k));
                } else if opt_map(n.right).dom().contains(k) {
                    assert(ksr.to_set().contains(k));
                    let i = choose|i: int| 0 <= i < ksr.len() && ksr[i] == k;
                    assert(ks[ksl.len() + 1 + i] == k);
                    assert(ks.contains(k));
                } else {
                    assert(k == n.key);
                    assert(ks[ksl.len() as int] == k);
                    assert(ks.contains(k));
                }
            }
        }
        ks.unique_seq_to_set();
    }
}

/// In an ordered subtree no two distinct keys share a position of the
/// order: any two of them are separated by some ancestor's key.
pub proof fn lemma_ordered_distinct<K: TotalOrder, V>(x: Option<Box<Node<K, V>>>)
    requires
        ordered(x),
    ensures
        forall|k1: K, k2: K|
            #[trigger] opt_map(x).dom().contains(k1) && #[trigger] opt_map(x).dom().contains(k2)
                && k1 != k2 ==> k1.ord() != k2.ord(),
    decreases x,
{
    if x is Some {
        let n = *x.unwrap();
        assert(x == Some(x.unwrap()));
        assert(node_ordered(n));
        lemma_open_ordered(n);
        lemma_ordered_distinct(n.left);
        lemma_ordered_distinct(n.right);
        assert(opt_map(x) == node_map(n));
        assert forall|k1: K, k2: K|
            #[trigger] opt_map(x).dom().contains(k1) && #[trigger] opt_map(x).dom().contains(k2)
                && k1 != k2 implies k1.ord() != k2.ord() by {
            if opt_map(n.left).dom().contains(k1) && opt_map(n.left).dom().contains(k2) {
            } else if opt_map(n.right).dom().contains(k1) && opt_map(n.right).dom().contains(k2) {
            }
        }
    }
}

/// A rotation rearranges links but keeps the key-value contents and the
/// order invariant of the subtree intact.
pub proof fn lemma_rotate_left_props<K: TotalOrder, V>(pre: Node<K, V>, post: Node<K, V>)
    requires
        rotated_left(pre, post),
        node_ordered(pre),
    ensures
        node_ordered(post),
        node_map(post) == node_map(pre),
{
    let r = *pre.right.unwrap();
    let l = *post.left.unwrap();
    lemma_open_ordered(pre);
    assert(node_ordered(r));
    lemma_open_ordered(r);
    assert(pre.right == Some(pre.right.unwrap()));
    assert(post.left == Some(post.left.unwrap()));
    assert(opt_map(pre.right) == node_map(r));
    assert(opt_map(post.left) == node_map(l));
    assert(opt_map(pre.right).dom().contains(r.key));
    assert(pre.key.ord() < r.key.ord());
    assert forall|k: K| #[trigger] opt_map(r.left).dom().contains(k) implies opt_map(
        pre.right,
    ).dom().contains(k) by {}
    assert forall|k: K| #[trigger] opt_map(r.right).dom().contains(k) implies opt_map(
        pre.right,
    ).dom().contains(k) by {}
    assert forall|k: K| #[trigger] opt_map(l.right).dom().contains(k) implies k.ord()
        > l.key.ord() by {}
    assert(node_ordered(l));
    assert(node_map(l) == opt_map(pre.left).union_prefer_right(opt_map(r.left)).insert(
        pre.key,
        pre.val,
    ));
    assert forall|k: K| #[trigger] opt_map(post.left).dom().contains(k) implies k.ord()
        < post.key.ord() by {
        if k != pre.key && !opt_map(pre.left).dom().contains(k) {
            assert(opt_map(r.left).dom().contains(k));
        }
    }
    assert(node_ordered(post));
    assert(node_map(post) =~= node_map(pre)) by {
        assert(node_map(pre) == opt_map(pre.left).union_prefer_right(node_map(r)).insert(
            pre.key,
            pre.val,
        ));
        assert(node_map(r) == opt_map(r.left).union_prefer_right(opt_map(r.right)).insert(
            r.key,
            r.val,
        ));
        assert(!opt_map(pre.left).dom().contains(pre.key));
        assert(!opt_map(r.left).dom().contains(pre.key));
        assert(!opt_map(r.right).dom().contains(pre.key));
        assert(!opt_map(r.left).dom().contains(r.key));
        assert(!opt_map(r.right).dom().contains(r.key));
        assert(!opt_map(pre.left).dom().contains(r.key));
    }
}

/// Mirror image of `lemma_rotate_left_props`.
pub proof fn lemma_rotate_right_props<K: TotalOrder, V>(pre: Node<K, V>, post: Node<K, V>)
    requires
        rotated_right(pre, post),
        node_ordered(pre),
    ensures
        node_ordered(post),
        node_map(post) == node_map(pre),
{
    let r = *pre.left.unwrap();
    let l = *post.right.unwrap();
    lemma_open_ordered(pre);
    assert(node_ordered(r));
    lemma_open_ordered(r);
    assert(pre.left == Some(pre.left.unwrap()));
    assert(post.right == Some(post.right.unwrap()));
    assert(opt_map(pre.left) == node_map(r));
    assert(opt_map(post.right) == node_map(l));
    assert(opt_map(pre.left).dom().contains(r.key));
    assert(pre.key.ord() > r.key.ord());
    assert forall|k: K| #[trigger] opt_map(r.left).dom().contains(k) implies opt_map(
        pre.left,
    ).dom().contains(k) by {}
    assert forall|k: K| #[trigger] opt_map(r.right).dom().contains(k) implies opt_map(
        pre.left,
    ).dom().contains(k) by {}
    assert forall|k: K| #[trigger] opt_map(l.left).dom().contains(k) implies k.ord()
        < l.key.ord() by {}
    assert(node_ordered(l));
    assert(node_map(l) == opt_map(r.right).union_prefer_right(opt_map(pre.right)).insert(
        pre.key,
        pre.val,
    ));
    assert forall|k: K| #[trigger] opt_map(post.right).dom().contains(k) implies k.ord()
        > post.key.ord() by {
        if k != pre.key && !opt_map(pre.right).dom().contains(k) {
            assert(opt_map(r.right).dom().contains(k));
        }
    }
    assert(node_ordered(post));
    assert(node_map(post) =~= node_map(pre)) by {
        assert(node_map(pre) == node_map(r).union_prefer_right(opt_map(pre.right)).insert(
            pre.key,
            pre.val,
        ));
        assert(node_map(r) == opt_map(r.left).union_prefer_right(opt_map(r.right)).insert(
            r.key,
            r.val,
        ));
        assert(!opt_map(pre.right).dom().contains(pre.key));
        assert(!opt_map(r.left).dom().contains(pre.key));
        assert(!opt_map(r.right).dom().contains(pre.key));
        assert(!opt_map(r.left).dom().contains(r.key));
        assert(!opt_map(r.right).dom().contains(r.key));
        assert(!opt_map(pre.right).dom().contains(r.key));
    }
}

/// A color flip touches no key, value or link, so the contents and the
/// order invariant are untouched.
pub proof fn lemma_flip_props<K: TotalOrder, V>(pre: Node<K, V>, post: Node<K, V>)
    requires
        flipped(pre, post),
        node_ordered(pre),
    ensures
        node_ordered(post),
        node_map(post) == node_map(pre),
{
    let pl = *pre.left.unwrap();
    let ql = *post.left.unwrap();
    let pr = *pre.right.unwrap();
    let qr = *post.right.unwrap();
    lemma_open_ordered(pre);
    assert(node_ordered(pl));
    assert(node_ordered(pr));
    lemma_open_ordered(pl);
    lemma_open_ordered(pr);
    assert(pre.left == Some(pre.left.unwrap()));
    assert(post.left == Some(post.left.unwrap()));
    assert(pre.right == Some(pre.right.unwrap()));
    assert(post.right == Some(post.right.unwrap()));
    assert(node_map(ql) == node_map(pl));
    assert(node_map(qr) == node_map(pr));
    assert(node_ordered(ql));
    assert(node_ordered(qr));
    assert(opt_map(post.left) == opt_map(pre.left));
    assert(opt_map(post.right) == opt_map(pre.right));
    assert(ordered(post.left));
    assert(ordered(post.right));
    assert(node_ordered(post));
    assert(node_map(post) =~= node_map(pre));
}

} // verus!
