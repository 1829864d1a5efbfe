use vstd::prelude::*;

use crate::model::{depth_of, flipped, is_red_opt, opt_key_seq, rotated_left, rotated_right};

verus! {

/// Color of the link that leads into a node: a red link binds the node to
/// its parent as part of one conceptual 3- or 4-node, a black link is an
/// ordinary tree edge.
#[derive(Clone, Copy, PartialEq, Eq, Structural)]
pub enum Color {
    Red,
    Black,
}

/// The recursive unit of the tree: a key, its value, up to two exclusively
/// owned subtrees, and the color of the incoming link.
pub struct Node<K, V> {
    pub key: K,
    pub val: V,
    pub left: Option<Box<Node<K, V>>>,
    pub right: Option<Box<Node<K, V>>>,
    pub color: Color,
}

impl<K, V> Node<K, V> {
    /// A fresh node with no children.
    pub fn new(key: K, val: V, color: Color) -> (n: Node<K, V>)
        ensures
            n.key == key,
            n.val == val,
            n.color == color,
            n.left is None,
            n.right is None,
    {
        Node { key, val, left: None, right: None, color }
    }

    /// Whether the link into this node is red.
    pub(crate) fn is_red(&self) -> (r: bool)
        ensures
            r == (self.color is Red),
    {
        self.color == Color::Red
    }

    /// Longest count of nodes on a path from this node down to a leaf.
    pub(crate) fn depth(&self) -> (r: usize)
        requires
            depth_of(self.left) < usize::MAX,
            depth_of(self.right) < usize::MAX,
        ensures
            r == 1 + (if depth_of(self.left) >= depth_of(self.right) {
                depth_of(self.left)
            } else {
                depth_of(self.right)
            }),
        decreases *self,
    {
        let mut ret: usize = 1;
        if self.left.is_some() {
            ret += self.left.as_ref().unwrap().depth();
        }
        if self.right.is_some() {
            let rsz = self.right.as_ref().unwrap().depth();
            if rsz >= ret {
                ret = 1 + rsz;
            }
        }
        ret
    }

    /// Number of nodes in the subtree rooted here.
    pub(crate) fn size(&self) -> (r: usize)
        requires
            opt_key_seq(self.left).len() + 1 + opt_key_seq(self.right).len() <= usize::MAX,
        ensures
            r == opt_key_seq(self.left).len() + 1 + opt_key_seq(self.right).len(),
        decreases *self,
    {
        let mut ret: usize = 1;
        if self.left.is_some() {
            ret += self.left.as_ref().unwrap().size();
        }
        if self.right.is_some() {
            ret += self.right.as_ref().unwrap().size();
        }
        ret
    }

    /// Left rotation: orient a (temporarily) right-leaning red link to lean
    /// left. The right child becomes the local root and takes over this
    /// node's color; the old root is recolored red below it.
    pub(crate) fn rotate_left(&mut self)
        requires
            is_red_opt(old(self).right),
        ensures
            rotated_left(*old(self), *final(self)),
    {
        let mut x: Box<Node<K, V>> = self.right.take().unwrap();
        self.right = x.left.take();
        x.color = self.color;
        self.color = Color::Red;
        std::mem::swap(self, &mut *x);
        self.left = Some(x);
    }

    /// Right rotation: orient a left-leaning red link to (temporarily) lean
    /// right, so that a doubled left red can be inspected and split.
    pub(crate) fn rotate_right(&mut self)
        requires
            is_red_opt(old(self).left),
        ensures
            rotated_right(*old(self), *final(self)),
    {
        let mut x: Box<Node<K, V>> = self.left.take().unwrap();
        self.left = x.right.take();
        x.color = self.color;
        self.color = Color::Red;
        std::mem::swap(self, &mut *x);
        self.right = Some(x);
    }

    /// Color flip: split a temporary 4-node by recoloring the node red and
    /// both of its children black.
    pub(crate) fn flip_color(&mut self)
        requires
            old(self).color is Black,
            is_red_opt(old(self).left),
            is_red_opt(old(self).right),
        ensures
            flipped(*old(self), *final(self)),
    {
        self.color = Color::Red;
        let mut l: Box<Node<K, V>> = self.left.take().unwrap();
        l.color = Color::Black;
        self.left = Some(l);
        let mut r: Box<Node<K, V>> = self.right.take().unwrap();
        r.color = Color::Black;
        self.right = Some(r);
    }
}

} // verus!
