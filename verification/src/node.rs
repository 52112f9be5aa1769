//! Nodes of the tree, what a subtree stands for, and the invariants that
//! make it a search tree and a red-black tree.
use vstd::prelude::*;
use crate::order::le;
use vstd::arithmetic::power2::{pow2, lemma_pow2, lemma_pow2_unfold};
use vstd::arithmetic::power::pow;

verus! {

/// The colour of a node.
#[derive(Debug, Clone, Copy, PartialEq, Eq, Structural)]
pub enum Color {
    Red,
    Black,
}

/// One node of the tree: an entry, its colour and its two subtrees.
pub struct RBTreeNode<K, V> {
    pub color: Color,
    pub left: Option<Box<RBTreeNode<K, V>>>,
    pub right: Option<Box<RBTreeNode<K, V>>>,
    pub key: K,
    pub value: V,
}

/// The entries of a subtree in in-order (ascending key order).
pub open spec fn inorder<K, V>(t: Option<Box<RBTreeNode<K, V>>>) -> Seq<(K, V)>
    decreases t,
{
    match t {
        None => Seq::empty(),
        Some(n) => inorder(n.left) + seq![(n.key, n.value)] + inorder(n.right),
    }
}

/// Every key of `s` is at most `k`.
pub open spec fn all_le<K: Ord, V>(s: Seq<(K, V)>, k: K) -> bool {
    forall|i: int| 0 <= i < s.len() ==> le(#[trigger] s[i].0, k)
}

/// Every key of `s` is at least `k`.
pub open spec fn all_ge<K: Ord, V>(s: Seq<(K, V)>, k: K) -> bool {
    forall|i: int| 0 <= i < s.len() ==> le(k, #[trigger] s[i].0)
}

/// The entries of `s` are in ascending key order.
pub open spec fn sorted<K: Ord, V>(s: Seq<(K, V)>) -> bool {
    forall|i: int, j: int| 0 <= i < j < s.len() ==> le(#[trigger] s[i].0, #[trigger] s[j].0)
}

/// The root of the subtree is a red node (an empty subtree is black).
pub open spec fn is_red<K, V>(t: Option<Box<RBTreeNode<K, V>>>) -> bool {
    match t {
        None => false,
        Some(n) => n.color == Color::Red,
    }
}

/// The number of black nodes on the leftmost path of the subtree.
pub open spec fn black_height<K, V>(t: Option<Box<RBTreeNode<K, V>>>) -> nat
    decreases t,
{
    match t {
        None => 0,
        Some(n) => black_height(n.left) + if n.color == Color::Black {
            1nat
        } else {
            0nat
        },
    }
}

/// Below the root, no red node has a red child, and every path from a node
/// down to an empty subtree meets the same number of black nodes.
pub open spec fn rb_below<K, V>(t: Option<Box<RBTreeNode<K, V>>>) -> bool {
    match t {
        None => true,
        Some(n) => {
            &&& rb(n.left)
            &&& rb(n.right)
            &&& black_height(n.left) == black_height(n.right)
        },
    }
}

/// The red-black properties: no red node has a red child, and every path
/// from a node down to an empty subtree meets the same number of black nodes.
pub open spec fn rb<K, V>(t: Option<Box<RBTreeNode<K, V>>>) -> bool
    decreases t,
{
    match t {
        None => true,
        Some(n) => {
            &&& rb(n.left)
            &&& rb(n.right)
            &&& black_height(n.left) == black_height(n.right)
            &&& (n.color == Color::Red ==> !is_red(n.left) && !is_red(n.right))
        },
    }
}

/// The entries of a subtree with their colours, in pre-order: each node
/// before its left subtree, and that before its right subtree.
pub open spec fn preorder<K, V>(t: Option<Box<RBTreeNode<K, V>>>) -> Seq<(K, V, Color)>
    decreases t,
{
    match t {
        None => Seq::empty(),
        Some(n) => seq![(n.key, n.value, n.color)] + preorder(n.left) + preorder(n.right),
    }
}

/// The number of nodes on the longest path from the root down.
pub open spec fn height<K, V>(t: Option<Box<RBTreeNode<K, V>>>) -> nat
    decreases t,
{
    match t {
        None => 0,
        Some(n) => 1 + if height(n.left) >= height(n.right) {
            height(n.left)
        } else {
            height(n.right)
        },
    }
}

/// The subtree with its root coloured black (an empty subtree stays empty).
pub open spec fn blackened<K, V>(t: Option<Box<RBTreeNode<K, V>>>) -> Option<Box<RBTreeNode<K, V>>> {
    match t {
        None => None,
        Some(n) => Some(Box::new(RBTreeNode { color: Color::Black, ..*n })),
    }
}

/// The node `x` rotated left: its right child `y` on top, `x` as `y`'s left
/// child, and `y`'s former left subtree as `x`'s right one.
pub open spec fn rotated_left<K, V>(x: Box<RBTreeNode<K, V>>) -> Box<RBTreeNode<K, V>> {
    let y = x.right.unwrap();
    Box::new(RBTreeNode { left: Some(Box::new(RBTreeNode { right: y.left, ..*x })), ..*y })
}

/// The node `x` rotated right: its left child `y` on top, `x` as `y`'s right
/// child, and `y`'s former right subtree as `x`'s left one.
pub open spec fn rotated_right<K, V>(x: Box<RBTreeNode<K, V>>) -> Box<RBTreeNode<K, V>> {
    let y = x.left.unwrap();
    Box::new(RBTreeNode { right: Some(Box::new(RBTreeNode { left: y.right, ..*x })), ..*y })
}

/// `b` is a copy of `a` node by node in which every node is black: the same
/// shape, each key and value a clone of the one in the same place.
pub open spec fn black_clone_of<K: Clone, V: Clone>(
    a: Option<Box<RBTreeNode<K, V>>>,
    b: Option<Box<RBTreeNode<K, V>>>,
) -> bool
    decreases a,
{
    match (a, b) {
        (None, None) => true,
        (Some(x), Some(y)) => {
            &&& y.color == Color::Black
            &&& cloned(x.key, y.key)
            &&& cloned(x.value, y.value)
            &&& black_clone_of(x.left, y.left)
            &&& black_clone_of(x.right, y.right)
        },
        _ => false,
    }
}

/// No node of the subtree is red.
pub open spec fn all_black<K, V>(t: Option<Box<RBTreeNode<K, V>>>) -> bool
    decreases t,
{
    match t {
        None => true,
        Some(n) => n.color == Color::Black && all_black(n.left) && all_black(n.right),
    }
}

/// The pre-order listing has one item for each entry.
pub proof fn lemma_preorder_len<K, V>(t: Option<Box<RBTreeNode<K, V>>>)
    ensures
        preorder(t).len() == inorder(t).len(),
    decreases t,
{
    match t {
        None => {},
        Some(n) => {
            lemma_preorder_len(n.left);
            lemma_preorder_len(n.right);
        },
    }
}

/// A non-empty subtree with a black root has a positive black height.
pub proof fn lemma_black_root_height<K, V>(t: Option<Box<RBTreeNode<K, V>>>)
    ensures
        t is Some && !is_red(t) ==> black_height(t) >= 1,
{
}

/// A red-black subtree of black height `b` holds at least `2^b - 1`
/// entries, and its height is at most `2b`, plus one when its root is red.
pub proof fn lemma_rb_size_height<K, V>(t: Option<Box<RBTreeNode<K, V>>>)
    requires
        rb(t),
    ensures
        inorder(t).len() + 1 >= pow2(black_height(t)),
        height(t) <= 2 * black_height(t) + (if is_red(t) { 1int } else { 0int }),
    decreases t,
{
    match t {
        None => {
            reveal(pow);
            lemma_pow2(0);
        },
        Some(n) => {
            lemma_rb_size_height(n.left);
            lemma_rb_size_height(n.right);
            let b = black_height(n.left);
            assert(inorder(t).len() == inorder(n.left).len() + 1 + inorder(n.right).len());
            if n.color == Color::Black {
                lemma_pow2_unfold(b + 1);
                assert(black_height(t) == b + 1);
            }
        },
    }
}

impl<K, V> RBTreeNode<K, V> {
    /// A new black node with no children.
    pub fn new(k: K, v: V) -> (n: Self)
        ensures
            n.color == Color::Black,
            n.left is None,
            n.right is None,
            n.key == k,
            n.value == v,
    {
        RBTreeNode { color: Color::Black, left: None, right: None, key: k, value: v }
    }

    /// The node's entry.
    pub fn pair(self) -> (r: (K, V))
        ensures
            r == (self.key, self.value),
    {
        (self.key, self.value)
    }
}

/// Whether the subtree's root is red; an empty subtree is black.
pub fn is_red_color<K, V>(t: &Option<Box<RBTreeNode<K, V>>>) -> (r: bool)
    ensures
        r == is_red(*t),
{
    match t {
        None => false,
        Some(n) => n.color == Color::Red,
    }
}

/// Whether the subtree's root is black; an empty subtree is black.
pub fn is_black_color<K, V>(t: &Option<Box<RBTreeNode<K, V>>>) -> (r: bool)
    ensures
        r == !is_red(*t),
{
    !is_red_color(t)
}

/// Sets the colour of the subtree's root; an empty subtree stays empty.
pub fn set_color<K, V>(t: &mut Option<Box<RBTreeNode<K, V>>>, c: Color)
    ensures
        match *old(t) {
            None => *final(t) is None,
            Some(n) => *final(t) == Some(Box::new(RBTreeNode { color: c, ..*n })),
        },
{
    match t {
        None => {},
        Some(n) => {
            n.color = c;
        },
    }
}

/// Makes the subtree's root black; an empty subtree stays empty.
pub fn set_black_color<K, V>(t: &mut Option<Box<RBTreeNode<K, V>>>)
    ensures
        *final(t) == blackened(*old(t)),
{
    set_color(t, Color::Black);
}

/// Rotates left around `x`: its right child `y` takes its place, `x` becomes
/// `y`'s left child and `y`'s former left subtree becomes `x`'s right one.
/// Colours stay with their nodes, and the in-order entries are unchanged.
pub fn left_rotate<K, V>(x: Box<RBTreeNode<K, V>>) -> (r: Box<RBTreeNode<K, V>>)
    requires
        x.right is Some,
    ensures
        ({
            let y = x.right.unwrap();
            &&& r.color == y.color
            &&& r.key == y.key
            &&& r.value == y.value
            &&& r.right == y.right
            &&& r.left == Some(Box::new(RBTreeNode { right: y.left, ..*x }))
        }),
        inorder(Some(r)) == inorder(Some(x)),
        r == rotated_left(x),
{
    let ghost x0 = x;
    let mut x = x;
    let mut y = match x.right.take() {
        Some(y) => y,
        None => {
            proof {
                assert(false);
            }
            return x;
        },
    };
    x.right = y.left.take();
    y.left = Some(x);
    proof {
        let a = inorder(x0.left);
        let b = inorder(x0.right.unwrap().left);
        let c = inorder(x0.right.unwrap().right);
        let ex = seq![(x0.key, x0.value)];
        let ey = seq![(y.key, y.value)];
        assert(inorder(x0.right) == b + ey + c);
        assert(inorder(y.left) == a + ex + b);
        assert(inorder(Some(y)) == (a + ex + b) + ey + c);
        assert(inorder(Some(x0)) == a + ex + (b + ey + c));
        assert((a + ex + b) + ey + c =~= a + ex + (b + ey + c));
    }
    y
}

/// Rotates right around `x`: its left child `y` takes its place, `x` becomes
/// `y`'s right child and `y`'s former right subtree becomes `x`'s left one.
/// Colours stay with their nodes, and the in-order entries are unchanged.
pub fn right_rotate<K, V>(x: Box<RBTreeNode<K, V>>) -> (r: Box<RBTreeNode<K, V>>)
    requires
        x.left is Some,
    ensures
        ({
            let y = x.left.unwrap();
            &&& r.color == y.color
            &&& r.key == y.key
            &&& r.value == y.value
            &&& r.left == y.left
            &&& r.right == Some(Box::new(RBTreeNode { left: y.right, ..*x }))
        }),
        inorder(Some(r)) == inorder(Some(x)),
        r == rotated_right(x),
{
    let ghost x0 = x;
    let mut x = x;
    let mut y = match x.left.take() {
        Some(y) => y,
        None => {
            proof {
                assert(false);
            }
            return x;
        },
    };
    x.left = y.right.take();
    y.right = Some(x);
    proof {
        let a = inorder(x0.left.unwrap().left);
        let b = inorder(x0.left.unwrap().right);
        let c = inorder(x0.right);
        let ex = seq![(x0.key, x0.value)];
        let ey = seq![(y.key, y.value)];
        assert(inorder(x0.left) == a + ey + b);
        assert(inorder(y.right) == b + ex + c);
        assert(inorder(Some(y)) == a + ey + (b + ex + c));
        assert(inorder(Some(x0)) == (a + ey + b) + ex + c);
        assert(a + ey + (b + ex + c) =~= (a + ey + b) + ex + c);
    }
    y
}

/// Appends the entries of the subtree, with their colours, in pre-order to
/// `out`.
pub fn tree_print<'a, K, V>(t: &'a Option<Box<RBTreeNode<K, V>>>, out: &mut Vec<(&'a K, &'a V, Color)>)
    ensures
        final(out)@.len() == old(out)@.len() + preorder(*t).len(),
        forall|i: int| 0 <= i < old(out)@.len() ==> #[trigger] final(out)@[i] == old(out)@[i],
        forall|i: int|
            0 <= i < preorder(*t).len() ==> ({
                let e = #[trigger] final(out)@[old(out)@.len() + i];
                (*e.0, *e.1, e.2) == preorder(*t)[i]
            }),
    decreases t,
{
    match t {
        None => {},
        Some(n) => {
            let ghost o0 = out@;
            out.push((&n.key, &n.value, n.color));
            let ghost o1 = out@;
            tree_print(&n.left, out);
            let ghost o2 = out@;
            tree_print(&n.right, out);
            proof {
                let p = preorder(*t);
                let pl = preorder(n.left);
                let pr = preorder(n.right);
                assert(p == seq![(n.key, n.value, n.color)] + pl + pr);
                assert forall|i: int| 0 <= i < p.len() implies ({
                    let e = #[trigger] out@[o0.len() + i];
                    (*e.0, *e.1, e.2) == p[i]
                }) by {
                    if i == 0 {
                        assert(out@[o0.len() + i] == o1[o0.len() as int]);
                    } else if i < 1 + pl.len() {
                        assert(out@[o0.len() + i] == o2[o1.len() + (i - 1)]);
                        assert(p[i] == pl[i - 1]);
                    } else {
                        assert(out@[o0.len() + i] == out@[o2.len() + (i - 1 - pl.len())]);
                        assert(p[i] == pr[i - 1 - pl.len()]);
                    }
                }
            }
        },
    }
}

/// Each entry of `b` is a clone of the entry at the same place in `a`.
pub open spec fn entries_cloned<K: Clone, V: Clone>(a: Seq<(K, V)>, b: Seq<(K, V)>) -> bool {
    &&& a.len() == b.len()
    &&& forall|i: int|
        0 <= i < a.len() ==> cloned(a[i].0, #[trigger] b[i].0) && cloned(a[i].1, b[i].1)
}

/// Clones a subtree node by node: the same shape, each key and value
/// cloned, and every node of the copy black (each copy is made by
/// `RBTreeNode::new`).
pub fn deep_clone<K: Clone, V: Clone>(t: &Option<Box<RBTreeNode<K, V>>>) -> (r: Option<
    Box<RBTreeNode<K, V>>,
>)
    ensures
        black_clone_of(*t, r),
        entries_cloned(inorder(*t), inorder(r)),
        all_black(r),
        all_black(*t) ==> rb(r) == rb(*t) && black_height(r) == black_height(*t),
    decreases t,
{
    match t {
        None => None,
        Some(n) => {
            let left = deep_clone(&n.left);
            let right = deep_clone(&n.right);
            let mut r = RBTreeNode::new(n.key.clone(), n.value.clone());
            r.left = left;
            r.right = right;
            proof {
                let a = inorder(n.left);
                let c = inorder(n.right);
                let a2 = inorder(r.left);
                let c2 = inorder(r.right);
                let s = inorder(*t);
                let s2 = inorder(Some(Box::new(r)));
                assert(s == a + seq![(n.key, n.value)] + c);
                assert(s2 == a2 + seq![(r.key, r.value)] + c2);
                assert forall|i: int| 0 <= i < s.len() implies cloned(s[i].0, #[trigger] s2[i].0)
                    && cloned(s[i].1, s2[i].1) by {
                    if i < a.len() {
                        assert(s[i] == a[i] && s2[i] == a2[i]);
                    } else if i == a.len() {
                    } else {
                        assert(s[i] == c[i - a.len() - 1] && s2[i] == c2[i - a.len() - 1]);
                    }
                }
            }
            Some(Box::new(r))
        },
    }
}

} // verus!
