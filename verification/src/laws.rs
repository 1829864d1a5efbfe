use vstd::arithmetic::power2::{
    lemma2_to64, lemma_pow2_adds, lemma_pow2_pos, lemma_pow2_strictly_increases, pow2,
};
use vstd::prelude::*;

use crate::model::{
    black_balanced, black_height, depth_of, is_red_opt, lemma_num_lt_index, lemma_seq_dom,
    no_red_red, num_lt, opt_key_seq, sorted_ords,
};
use crate::node::Node;
use crate::order::TotalOrder;
use crate::tree::RedBlackBST;

verus! {

/// Order invariant: in a well-formed tree — and every tree built by `put`
/// calls is one — the in-order key sequence, which `keys` returns, is
/// strictly ascending, with no repeated key.
pub proof fn lemma_inorder_sorted<K: TotalOrder, V>(t: RedBlackBST<K, V>)
    requires
        t.well_formed(),
    ensures
        sorted_ords(t.key_seq()),
        t.key_seq().no_duplicates(),
{
    lemma_seq_dom(t.root);
}

/// Size consistency: the count that `size` returns — the length of the key
/// sequence that `keys` produces — is the cardinality of the key set of the
/// map the tree stands for.
pub proof fn lemma_size_consistency<K: TotalOrder, V>(t: RedBlackBST<K, V>)
    requires
        t.well_formed(),
    ensures
        t@.dom().finite(),
        t.key_seq().len() == t@.dom().len(),
        t.key_seq().to_set() == t@.dom(),
{
    lemma_seq_dom(t.root);
}

/// Black balance: under the color discipline, which `new` establishes and
/// `put` preserves, every path from a node to an absent child crosses the
/// same count of black links. The splicing deletions do not preserve the
/// discipline, so nothing is claimed of a tree after `delete`.
pub proof fn lemma_black_balance<K: TotalOrder, V>(t: RedBlackBST<K, V>)
    requires
        t.red_black_ok(),
    ensures
        black_balanced(t.root),
{
}

/// With no two reds in a row, a path can at most double the count of black
/// nodes on it (plus one more step when the root itself is red).
proof fn lemma_depth_le_twice_bh<K, V>(x: Option<Box<Node<K, V>>>)
    requires
        no_red_red(x),
        black_balanced(x),
    ensures
        depth_of(x) <= 2 * black_height(x) + if is_red_opt(x) {
            1nat
        } else {
            0nat
        },
    decreases x,
{
    if x is Some {
        let n = *x.unwrap();
        assert(x == Some(x.unwrap()));
        lemma_depth_le_twice_bh(n.left);
        lemma_depth_le_twice_bh(n.right);
    }
}

/// A black-balanced subtree holds at least `2^h - 1` keys, where `h` is its
/// black height.
proof fn lemma_size_ge_pow2_bh<K, V>(x: Option<Box<Node<K, V>>>)
    requires
        black_balanced(x),
    ensures
        opt_key_seq(x).len() + 1 >= pow2(black_height(x)),
    decreases x,
{
    lemma_pow2_pos(black_height(x));
    lemma2_to64();
    if x is Some {
        let n = *x.unwrap();
        assert(x == Some(x.unwrap()));
        lemma_size_ge_pow2_bh(n.left);
        lemma_size_ge_pow2_bh(n.right);
        let h = black_height(n.left);
        lemma_pow2_adds(h, 1);
        assert(pow2(h + 1) == pow2(h) * 2);
        assert(black_height(n.right) == h);
        assert(opt_key_seq(n.left).len() + 1 >= pow2(h));
        assert(opt_key_seq(n.right).len() + 1 >= pow2(h));
        assert(opt_key_seq(x).len() == opt_key_seq(n.left).len() + 1 + opt_key_seq(n.right).len());
        assert(opt_key_seq(x).len() + 1 >= pow2(h) * 2);
        if n.color is Black {
            assert(black_height(x) == h + 1);
        } else {
            assert(black_height(x) == h);
            lemma_pow2_strictly_increases(h, h + 1);
        }
    }
}

/// Height bound: after any run of `put` calls alone the tree keeps the
/// color discipline, and its depth `d` with `n` keys obeys
/// `2^d <= (n + 1)^2`, that is, `d <= 2 * log2(n + 1)`.
pub proof fn lemma_height_bound<K: TotalOrder, V>(t: RedBlackBST<K, V>)
    requires
        t.red_black_ok(),
    ensures
        pow2(t.depth_spec()) <= (t.key_seq().len() + 1) * (t.key_seq().len() + 1),
{
    let h = black_height(t.root);
    let d = t.depth_spec();
    let n = t.key_seq().len();
    lemma_depth_le_twice_bh(t.root);
    lemma_size_ge_pow2_bh(t.root);
    assert(d <= 2 * h);
    if d < 2 * h {
        lemma_pow2_strictly_increases(d, 2 * h);
    }
    lemma_pow2_adds(h, h);
    lemma_pow2_pos(h);
    assert(pow2(h) * pow2(h) <= (n + 1) * (n + 1)) by (nonlinear_arith)
        requires
            pow2(h) >= 1,
            n + 1 >= pow2(h),
    ;
}

/// Round trip, over the map view that `put`, `get` and `delete` speak of:
/// inserting `k` with `v` makes `k` present with value `v` — what `get`
/// returns — and it stays so under any operation that keeps the entry; a
/// later removal of `k` leaves every other key untouched and makes `get`
/// answer nothing for `k`.
pub proof fn lemma_round_trip<K: TotalOrder, V>(m: Map<K, V>, k: K, v: V)
    ensures
        m.insert(k, v).dom().contains(k),
        m.insert(k, v)[k] == v,
        !m.insert(k, v).remove(k).dom().contains(k),
        forall|q: K| q != k ==> #[trigger] m.insert(k, v).remove(k).dom().contains(q)
            == m.dom().contains(q),
        forall|q: K| q != k && #[trigger] m.dom().contains(q) ==> m.insert(k, v).remove(k)[q]
            == m[q],
{
}

/// Rank/select duality: for every key of the tree, the entry of the key
/// sequence at the key's rank is the key itself, so `select(rank(k))`
/// answers `Some(k)`.
pub proof fn lemma_rank_select<K: TotalOrder, V>(t: RedBlackBST<K, V>, key: K)
    requires
        t.well_formed(),
        t@.dom().contains(key),
    ensures
        num_lt(t.key_seq(), key.ord()) < t.key_seq().len(),
        t.key_seq()[num_lt(t.key_seq(), key.ord()) as int] == key,
{
    lemma_seq_dom(t.root);
    let ks = t.key_seq();
    assert(ks.to_set().contains(key));
    assert(ks.contains(key));
    let i = choose|i: int| 0 <= i < ks.len() && ks[i] == key;
    lemma_num_lt_index(ks, i);
}

} // verus!
