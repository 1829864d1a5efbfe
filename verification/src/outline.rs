//! The diagnostic outline of a tree: each node on a line of its own,
//! indented by depth, a red link marked `==` and a black one `--`. It is a
//! picture for debugging, not a stable format. Verified code cannot go
//! through std's formatting machinery, so keys and values are rendered
//! through the small `ToText` trait instead, and the outline itself is
//! specified by the spec functions `line_of` and `outline_of`.

use vstd::prelude::*;

use crate::node::Node;
use crate::tree::RedBlackBST;

verus! {

/// Relies on String::push_str: appends the characters of `s` to `out`.
#[verifier::external_body]
fn push_str(out: &mut String, s: &str)
    ensures
        final(out)@ == old(out)@ + s@,
{
    out.push_str(s);
}

/// Relies on String::push: appends the character `c` to `out`.
#[verifier::external_body]
fn push_char(out: &mut String, c: char)
    ensures
        final(out)@ == old(out)@.push(c),
{
    out.push(c);
}

/// A short rendering of a value for the diagnostic outline.
pub trait ToText {
    /// The character sequence that `to_text` yields for this value.
    spec fn text(&self) -> Seq<char>;

    /// The text standing for this value in the outline.
    fn to_text(&self) -> (r: String)
        ensures
            r@ == self.text(),
    ;
}

/// The character of a single decimal digit.
pub open spec fn digit_char(d: nat) -> char {
    if d == 0 {
        '0'
    } else if d == 1 {
        '1'
    } else if d == 2 {
        '2'
    } else if d == 3 {
        '3'
    } else if d == 4 {
        '4'
    } else if d == 5 {
        '5'
    } else if d == 6 {
        '6'
    } else if d == 7 {
        '7'
    } else if d == 8 {
        '8'
    } else {
        '9'
    }
}

/// The decimal rendering of a number: most significant digit first, a
/// single `'0'` for zero.
pub open spec fn decimal_of(n: nat) -> Seq<char>
    decreases n,
{
    if n < 10 {
        seq![digit_char(n)]
    } else {
        decimal_of(n / 10).push(digit_char(n % 10))
    }
}

/// The character of the digit `d`.
fn digit_char_exec(d: u64) -> (c: char)
    requires
        d < 10,
    ensures
        c == digit_char(d as nat),
{
    if d == 0 {
        '0'
    } else if d == 1 {
        '1'
    } else if d == 2 {
        '2'
    } else if d == 3 {
        '3'
    } else if d == 4 {
        '4'
    } else if d == 5 {
        '5'
    } else if d == 6 {
        '6'
    } else if d == 7 {
        '7'
    } else if d == 8 {
        '8'
    } else {
        '9'
    }
}

/// Decimal rendering of an unsigned number.
fn decimal_text(n: u64) -> (r: String)
    ensures
        r@ == decimal_of(n as nat),
    decreases n,
{
    if n < 10 {
        let mut out = String::new();
        push_char(&mut out, digit_char_exec(n));
        proof {
            assert(out@ =~= decimal_of(n as nat));
        }
        out
    } else {
        let mut out = decimal_text(n / 10);
        push_char(&mut out, digit_char_exec(n % 10));
        proof {
            assert(out@ =~= decimal_of(n as nat));
        }
        out
    }
}

impl ToText for u64 {
    open spec fn text(&self) -> Seq<char> {
        decimal_of(*self as nat)
    }

    fn to_text(&self) -> (r: String) {
        decimal_text(*self)
    }
}

impl ToText for usize {
    open spec fn text(&self) -> Seq<char> {
        decimal_of(*self as nat)
    }

    fn to_text(&self) -> (r: String) {
        decimal_text(*self as u64)
    }
}

impl ToText for i32 {
    open spec fn text(&self) -> Seq<char> {
        if *self < 0 {
            seq!['-'] + decimal_of((0 - *self as int) as nat)
        } else {
            decimal_of(*self as nat)
        }
    }

    fn to_text(&self) -> (r: String) {
        if *self < 0 {
            let mut out = String::new();
            push_char(&mut out, '-');
            let m = -(*self as i64);
            push_str(&mut out, decimal_text(m as u64).as_str());
            proof {
                assert(out@ =~= self.text());
            }
            out
        } else {
            decimal_text(*self as u64)
        }
    }
}

impl ToText for char {
    open spec fn text(&self) -> Seq<char> {
        seq![*self]
    }

    fn to_text(&self) -> (r: String) {
        let mut out = String::new();
        push_char(&mut out, *self);
        proof {
            assert(out@ =~= seq![*self]);
        }
        out
    }
}

impl ToText for () {
    open spec fn text(&self) -> Seq<char> {
        Seq::empty()
    }

    fn to_text(&self) -> (r: String) {
        let out = String::new();
        proof {
            assert(out@ =~= Seq::<char>::empty());
        }
        out
    }
}

/// The indentation of a line at `depth`: `depth - 1` columns of `"|  "`.
pub open spec fn indent_of(depth: nat) -> Seq<char>
    decreases depth,
{
    if depth <= 1 {
        Seq::empty()
    } else {
        indent_of((depth - 1) as nat) + seq!['|', ' ', ' ']
    }
}

/// One line of the outline: at the root a bare `key[val]` on a fresh line,
/// further down the indentation, the link symbol, and the mark of the link
/// color — `==` for a red link, `--` for a black one — before `key[val]`.
pub open spec fn line_of<K: ToText, V: ToText>(n: Node<K, V>, depth: nat, symbol: char) -> Seq<
    char,
> {
    if depth == 0 {
        seq!['\n'] + n.key.text() + seq!['['] + n.val.text() + seq![']', '\n']
    } else {
        indent_of(depth) + seq![symbol] + (if n.color is Red {
            seq!['=', '=']
        } else {
            seq!['-', '-']
        }) + n.key.text() + seq!['['] + n.val.text() + seq![']', '\n']
    }
}

/// The outline of a subtree: the node's own line, then the left subtree
/// under the mark `'+'` and the right under `` '`' ``, one level deeper.
pub open spec fn outline_of<K: ToText, V: ToText>(
    n: Node<K, V>,
    depth: nat,
    symbol: char,
) -> Seq<char>
    decreases n,
{
    line_of(n, depth, symbol) + (match n.left {
        Some(l) => outline_of(*l, depth + 1, '+'),
        None => Seq::empty(),
    }) + (match n.right {
        Some(r) => outline_of(*r, depth + 1, '`'),
        None => Seq::empty(),
    })
}

impl<K: ToText, V: ToText> Node<K, V> {
    /// One line for this node — indentation, the link mark, key and value —
    /// then the lines of both subtrees.
    #[verifier::rlimit(100)]
    pub(crate) fn dump(&self, depth: usize, out: &mut String, symbol: char)
        requires
            depth + 1 + crate::model::depth_of(self.left) <= usize::MAX,
            depth + 1 + crate::model::depth_of(self.right) <= usize::MAX,
        ensures
            final(out)@ == old(out)@ + outline_of(*self, depth as nat, symbol),
        decreases *self,
    {
        if depth == 0 {
            push_char(out, '\n');
            push_str(out, self.key.to_text().as_str());
            push_char(out, '[');
            push_str(out, self.val.to_text().as_str());
            push_str(out, "]\n");
        } else {
            let mut i: usize = 1;
            proof {
                assert(out@ =~= old(out)@ + indent_of(1nat));
            }
            while i < depth
                invariant
                    1 <= i <= depth,
                    out@ == old(out)@ + indent_of(i as nat),
                decreases depth - i,
            {
                push_str(out, "|  ");
                proof {
                    reveal_strlit("|  ");
                    assert(out@ =~= old(out)@ + indent_of((i + 1) as nat));
                }
                i += 1;
            }
            push_char(out, symbol);
            if self.is_red() {
                push_str(out, "==");
            } else {
                push_str(out, "--");
            }
            push_str(out, self.key.to_text().as_str());
            push_char(out, '[');
            push_str(out, self.val.to_text().as_str());
            push_str(out, "]\n");
        }
        proof {
            reveal_strlit("==");
            reveal_strlit("--");
            reveal_strlit("]\n");
            assert(out@ =~= old(out)@ + line_of(*self, depth as nat, symbol));
        }
        let ghost mid = out@;
        if self.left.is_some() {
            self.left.as_ref().unwrap().dump(depth + 1, out, '+');
        }
        let ghost after_left = out@;
        if self.right.is_some() {
            self.right.as_ref().unwrap().dump(depth + 1, out, '`');
        }
        proof {
            assert(self.left is Some ==> after_left == mid + outline_of(
                *self.left.unwrap(),
                depth as nat + 1,
                '+',
            ));
            assert(out@ =~= old(out)@ + outline_of(*self, depth as nat, symbol));
        }
    }
}

impl<K: ToText, V: ToText> RedBlackBST<K, V> {
    /// The whole tree as an indented outline; a diagnostic picture, not a
    /// stable format.
    pub fn to_outline(&self) -> (r: String)
        requires
            1 + crate::model::depth_of(self.root) <= usize::MAX,
        ensures
            self.root is None ==> r@ == "<empty tree>"@,
            self.root is Some ==> r@ == outline_of(*self.root.unwrap(), 0, ' '),
    {
        match &self.root {
            None => "<empty tree>".to_owned(),
            Some(n) => {
                let mut out = String::new();
                n.dump(0, &mut out, ' ');
                proof {
                    assert(out@ =~= Seq::<char>::empty() + outline_of(**n, 0, ' '));
                    assert(out@ =~= outline_of(*self.root.unwrap(), 0, ' '));
                }
                out
            },
        }
    }
}

} // verus!
