//! Deletion: the entry is taken out of the tree (an entry with two subtrees
//! is replaced by its in-order successor), and a lost black node is made up
//! for on the way back up by recolouring and rotations.
use vstd::prelude::*;
use crate::order::{KeyOrder, compare, key_order, total_order};
use crate::node::{
    RBTreeNode, Color, inorder, is_red, rb, black_height, is_red_color, is_black_color,
    set_black_color, left_rotate, right_rotate, lemma_black_root_height, blackened, rotated_left,
    rotated_right,
};
use crate::search::{find_index, lemma_find_index_found};

verus! {

/// What `fixup_black_sibling` makes of `p` (see there), and whether the
/// loss of a black node moves up.
pub open spec fn black_sibling_fixed<K, V>(p: Box<RBTreeNode<K, V>>, left_side: bool) -> (
    Box<RBTreeNode<K, V>>,
    bool,
) {
    if left_side {
        let w = p.right.unwrap();
        if !is_red(w.left) && !is_red(w.right) {
            let w1 = Box::new(RBTreeNode { color: Color::Red, ..*w });
            if p.color == Color::Red {
                (Box::new(RBTreeNode { color: Color::Black, right: Some(w1), ..*p }), false)
            } else {
                (Box::new(RBTreeNode { right: Some(w1), ..*p }), true)
            }
        } else {
            let w2 = if !is_red(w.right) {
                rotated_right(
                    Box::new(RBTreeNode { color: Color::Red, left: blackened(w.left), ..*w }),
                )
            } else {
                w
            };
            let w3 = Box::new(RBTreeNode { color: p.color, right: blackened(w2.right), ..*w2 });
            (rotated_left(Box::new(RBTreeNode { color: Color::Black, right: Some(w3), ..*p })), false)
        }
    } else {
        let w = p.left.unwrap();
        if !is_red(w.left) && !is_red(w.right) {
            let w1 = Box::new(RBTreeNode { color: Color::Red, ..*w });
            if p.color == Color::Red {
                (Box::new(RBTreeNode { color: Color::Black, left: Some(w1), ..*p }), false)
            } else {
                (Box::new(RBTreeNode { left: Some(w1), ..*p }), true)
            }
        } else {
            let w2 = if !is_red(w.left) {
                rotated_left(
                    Box::new(RBTreeNode { color: Color::Red, right: blackened(w.right), ..*w }),
                )
            } else {
                w
            };
            let w3 = Box::new(RBTreeNode { color: p.color, left: blackened(w2.left), ..*w2 });
            (rotated_right(Box::new(RBTreeNode { color: Color::Black, left: Some(w3), ..*p })), false)
        }
    }
}

/// What `delete_fixup` makes of `p` (see there), and whether the loss of a
/// black node moves up.
pub open spec fn delete_fixed<K, V>(p: Box<RBTreeNode<K, V>>, left_side: bool) -> (
    Box<RBTreeNode<K, V>>,
    bool,
) {
    if left_side {
        if is_red(p.right) {
            let q = rotated_left(
                Box::new(RBTreeNode { color: Color::Red, right: blackened(p.right), ..*p }),
            );
            (
                Box::new(
                    RBTreeNode { left: Some(black_sibling_fixed(q.left.unwrap(), true).0), ..*q },
                ),
                false,
            )
        } else {
            black_sibling_fixed(p, true)
        }
    } else {
        if is_red(p.left) {
            let q = rotated_right(
                Box::new(RBTreeNode { color: Color::Red, left: blackened(p.left), ..*p }),
            );
            (
                Box::new(
                    RBTreeNode { right: Some(black_sibling_fixed(q.right.unwrap(), false).0), ..*q },
                ),
                false,
            )
        } else {
            black_sibling_fixed(p, false)
        }
    }
}

/// What `delete_min` gives for the subtree rooted at `n` (see there).
pub open spec fn min_removed<K, V>(n: Box<RBTreeNode<K, V>>) -> (
    Option<Box<RBTreeNode<K, V>>>,
    (K, V),
    bool,
)
    decreases n,
{
    match n.left {
        None => (blackened(n.right), (n.key, n.value), n.right is None && n.color == Color::Black),
        Some(l) => {
            let (nl, pair, s) = min_removed(l);
            let n2 = Box::new(RBTreeNode { left: nl, ..*n });
            if s {
                let (r, s2) = delete_fixed(n2, true);
                (Some(r), pair, s2)
            } else {
                (Some(n2), pair, false)
            }
        },
    }
}

/// What `delete_max` gives for the subtree rooted at `n` (see there).
pub open spec fn max_removed<K, V>(n: Box<RBTreeNode<K, V>>) -> (
    Option<Box<RBTreeNode<K, V>>>,
    (K, V),
    bool,
)
    decreases n,
{
    match n.right {
        None => (blackened(n.left), (n.key, n.value), n.left is None && n.color == Color::Black),
        Some(r) => {
            let (nr, pair, s) = max_removed(r);
            let n2 = Box::new(RBTreeNode { right: nr, ..*n });
            if s {
                let (r2, s2) = delete_fixed(n2, false);
                (Some(r2), pair, s2)
            } else {
                (Some(n2), pair, false)
            }
        },
    }
}

/// What `delete` gives for the subtree rooted at `n` (see there).
pub open spec fn root_removed<K, V>(n: Box<RBTreeNode<K, V>>) -> (
    Option<Box<RBTreeNode<K, V>>>,
    (K, V),
    bool,
) {
    let pair = (n.key, n.value);
    match (n.left, n.right) {
        (Some(l), Some(r)) => {
            let (nr, succ, s) = min_removed(r);
            let n2 = Box::new(RBTreeNode { key: succ.0, value: succ.1, right: nr, ..*n });
            if s {
                let (r2, s2) = delete_fixed(n2, false);
                (Some(r2), pair, s2)
            } else {
                (Some(n2), pair, false)
            }
        },
        (Some(l), None) => (blackened(n.left), pair, false),
        (None, Some(r)) => (blackened(n.right), pair, false),
        (None, None) => (None, pair, n.color == Color::Black),
    }
}

/// What `remove_key` gives for the subtree `t` and the key `k` (see there).
pub open spec fn key_removed<K: Ord, V>(t: Option<Box<RBTreeNode<K, V>>>, k: K) -> (
    Option<Box<RBTreeNode<K, V>>>,
    Option<(K, V)>,
    bool,
)
    decreases t,
{
    match t {
        None => (None, None, false),
        Some(n) => match key_order(k, n.key) {
            KeyOrder::Less => {
                let (nl, rem, s) = key_removed(n.left, k);
                let n2 = Box::new(RBTreeNode { left: nl, ..*n });
                if rem is Some && s {
                    let (r, s2) = delete_fixed(n2, true);
                    (Some(r), rem, s2)
                } else {
                    (Some(n2), rem, false)
                }
            },
            KeyOrder::Greater => {
                let (nr, rem, s) = key_removed(n.right, k);
                let n2 = Box::new(RBTreeNode { right: nr, ..*n });
                if rem is Some && s {
                    let (r, s2) = delete_fixed(n2, false);
                    (Some(r), rem, s2)
                } else {
                    (Some(n2), rem, false)
                }
            },
            KeyOrder::Equal => {
                let (r, pair, s) = root_removed(n);
                (r, Some(pair), s)
            },
        },
    }
}

/// Restores the black height at `p`, whose child on the `left_side` (the
/// "short" side) lost one black node, when the sibling on the other side is
/// black. Either the sibling turns red and the loss moves up (reported by
/// the returned flag) unless `p` was red and turns black, or rotations
/// borrow a black node from the sibling's side.
pub fn fixup_black_sibling<K, V>(p: Box<RBTreeNode<K, V>>, left_side: bool) -> (res: (
    Box<RBTreeNode<K, V>>,
    bool,
))
    requires
        ({
            let x = if left_side { p.left } else { p.right };
            let w = if left_side { p.right } else { p.left };
            &&& rb(x)
            &&& !is_red(x)
            &&& rb(w)
            &&& !is_red(w)
            &&& black_height(x) + 1 == black_height(w)
        }),
    ensures
        inorder(Some(res.0)) == inorder(Some(p)),
        rb(Some(res.0)),
        is_red(Some(res.0)) ==> p.color == Color::Red,
        black_height(Some(res.0)) + (if res.1 { 1int } else { 0int }) == black_height(
            if left_side { p.right } else { p.left },
        ) + (if p.color == Color::Black { 1int } else { 0int }),
        res.1 ==> !is_red(Some(res.0)),
        p.color == Color::Red ==> !res.1,
        res == black_sibling_fixed(p, left_side),
{
    let ghost p0 = p;
    let mut p = p;
    if left_side {
        let mut w = match p.right.take() {
            Some(w) => w,
            None => {
                proof {
                    assert(false);
                }
                return (p, false);
            },
        };
        let ghost w0 = w;
        if is_black_color(&w.left) && is_black_color(&w.right) {
            // Both of the sibling's children are black: the sibling turns red.
            w.color = Color::Red;
            proof {
                assert(inorder(Some(w)) == inorder(Some(w0)));
                assert(black_height(Some(w)) + 1 == black_height(Some(w0)));
                assert(rb(Some(w)));
            }
            p.right = Some(w);
            if p.color == Color::Red {
                p.color = Color::Black;
                proof {
                    assert(inorder(Some(p)) == inorder(Some(p0)));
                }
                return (p, false);
            }
            proof {
                assert(inorder(Some(p)) == inorder(Some(p0)));
            }
            return (p, true);
        }
        if is_black_color(&w.right) {
            // The sibling's near child is red, its far child black: rotate the
            // red child up so that the far child becomes red.
            set_black_color(&mut w.left);
            w.color = Color::Red;
            let ghost w1 = w;
            proof {
                assert(inorder(w1.left) == inorder(w0.left));
                assert(inorder(Some(w1)) == inorder(Some(w0)));
                let z = w0.left.unwrap();
                assert(rb(Some(w0)));
                assert(rb(w0.left));
                assert(w0.left == Some(z));
                assert(rb(Some(z)));
                assert(is_red(w0.left));
                assert(rb(z.right) && !is_red(z.right));
                assert(rb(z.left) && !is_red(z.left));
                assert(black_height(z.right) == black_height(w0.right));
                assert(black_height(z.left) == black_height(w0.right));
                assert(w1.left.unwrap().right == z.right);
                assert(w1.left.unwrap().left == z.left);
            }
            w = right_rotate(w);
            proof {
                assert(rb(w.right));
                assert(black_height(w.right) == black_height(w.left));
            }
        }
        let ghost w2 = w;
        // The sibling's far child is red.
        w.color = p.color;
        p.color = Color::Black;
        set_black_color(&mut w.right);
        proof {
            assert(inorder(w.right) == inorder(w2.right));
            assert(inorder(Some(w)) == inorder(Some(w2)));
        }
        p.right = Some(w);
        proof {
            assert(inorder(Some(p)) == inorder(Some(p0)));
        }
        let r = left_rotate(p);
        proof {
            assert(rb(r.left));
            assert(rb(w2.right));
            assert(rb(r.right));
            assert(black_height(r.left) == black_height(r.right));
        }
        (r, false)
    } else {
        let mut w = match p.left.take() {
            Some(w) => w,
            None => {
                proof {
                    assert(false);
                }
                return (p, false);
            },
        };
        let ghost w0 = w;
        if is_black_color(&w.left) && is_black_color(&w.right) {
            // Both of the sibling's children are black: the sibling turns red.
            w.color = Color::Red;
            proof {
                assert(inorder(Some(w)) == inorder(Some(w0)));
                assert(black_height(Some(w)) + 1 == black_height(Some(w0)));
                assert(rb(Some(w)));
            }
            p.left = Some(w);
            if p.color == Color::Red {
                p.color = Color::Black;
                proof {
                    assert(inorder(Some(p)) == inorder(Some(p0)));
                }
                return (p, false);
            }
            proof {
                assert(inorder(Some(p)) == inorder(Some(p0)));
            }
            return (p, true);
        }
        if is_black_color(&w.left) {
            // The sibling's near child is red, its far child black: rotate the
            // red child up so that the far child becomes red.
            set_black_color(&mut w.right);
            w.color = Color::Red;
            let ghost w1 = w;
            proof {
                assert(inorder(w1.right) == inorder(w0.right));
                assert(inorder(Some(w1)) == inorder(Some(w0)));
                let z = w0.right.unwrap();
                assert(rb(Some(w0)));
                assert(rb(w0.right));
                assert(w0.right == Some(z));
                assert(rb(Some(z)));
                assert(is_red(w0.right));
                assert(rb(z.left) && !is_red(z.left));
                assert(rb(z.right) && !is_red(z.right));
                assert(black_height(z.left) == black_height(w0.left));
                assert(black_height(z.right) == black_height(w0.left));
                assert(w1.right.unwrap().left == z.left);
                assert(w1.right.unwrap().right == z.right);
            }
            w = left_rotate(w);
            proof {
                assert(rb(w.left));
                assert(black_height(w.right) == black_height(w.left));
            }
        }
        let ghost w2 = w;
        // The sibling's far child is red.
        w.color = p.color;
        p.color = Color::Black;
        set_black_color(&mut w.left);
        proof {
            assert(inorder(w.left) == inorder(w2.left));
            assert(inorder(Some(w)) == inorder(Some(w2)));
        }
        p.left = Some(w);
        proof {
            assert(inorder(Some(p)) == inorder(Some(p0)));
        }
        let r = right_rotate(p);
        proof {
            assert(rb(r.right));
            assert(rb(w2.left));
            assert(rb(r.left));
            assert(black_height(r.left) == black_height(r.right));
        }
        (r, false)
    }
}

/// Restores the black height at `p`, whose child on the `left_side` lost one
/// black node. A red sibling is first rotated up (it turns black and `p`
/// red), which leaves a black sibling; then `fixup_black_sibling` finishes.
/// The returned flag tells whether `p`'s subtree as a whole lost a black
/// node.
pub fn delete_fixup<K, V>(p: Box<RBTreeNode<K, V>>, left_side: bool) -> (res: (
    Box<RBTreeNode<K, V>>,
    bool,
))
    requires
        ({
            let x = if left_side { p.left } else { p.right };
            let w = if left_side { p.right } else { p.left };
            &&& rb(x)
            &&& !is_red(x)
            &&& rb(w)
            &&& black_height(x) + 1 == black_height(w)
            &&& p.color == Color::Red ==> !is_red(w)
        }),
    ensures
        inorder(Some(res.0)) == inorder(Some(p)),
        rb(Some(res.0)),
        is_red(Some(res.0)) ==> p.color == Color::Red,
        black_height(Some(res.0)) + (if res.1 { 1int } else { 0int }) == black_height(
            if left_side { p.right } else { p.left },
        ) + (if p.color == Color::Black { 1int } else { 0int }),
        res.1 ==> !is_red(Some(res.0)),
        res == delete_fixed(p, left_side),
{
    let ghost p0 = p;
    let mut p = p;
    if left_side {
        if is_red_color(&p.right) {
            // Red sibling: rotate it up so that the sibling becomes black.
            set_black_color(&mut p.right);
            p.color = Color::Red;
            proof {
                assert(inorder(p.right) == inorder(p0.right));
                assert(inorder(Some(p)) == inorder(Some(p0)));
                let w = p0.right.unwrap();
                assert(rb(Some(w)));
                assert(rb(w.left) && rb(w.right) && !is_red(w.left) && !is_red(w.right));
            }
            let mut q = left_rotate(p);
            let pl = match q.left.take() {
                Some(pl) => pl,
                None => {
                    proof {
                        assert(false);
                    }
                    return (q, false);
                },
            };
            let (pl2, shrunk) = fixup_black_sibling(pl, true);
            q.left = Some(pl2);
            proof {
                assert(!shrunk);
                assert(rb(q.right));
                assert(black_height(q.left) == black_height(q.right));
            }
            (q, false)
        } else {
            fixup_black_sibling(p, true)
        }
    } else {
        if is_red_color(&p.left) {
            // Red sibling: rotate it up so that the sibling becomes black.
            set_black_color(&mut p.left);
            p.color = Color::Red;
            proof {
                assert(inorder(p.left) == inorder(p0.left));
                assert(inorder(Some(p)) == inorder(Some(p0)));
                let w = p0.left.unwrap();
                assert(rb(Some(w)));
                assert(rb(w.left) && rb(w.right) && !is_red(w.left) && !is_red(w.right));
            }
            let mut q = right_rotate(p);
            let pr = match q.right.take() {
                Some(pr) => pr,
                None => {
                    proof {
                        assert(false);
                    }
                    return (q, false);
                },
            };
            let (pr2, shrunk) = fixup_black_sibling(pr, false);
            q.right = Some(pr2);
            proof {
                assert(!shrunk);
                assert(rb(q.left));
                assert(black_height(q.left) == black_height(q.right));
            }
            (q, false)
        } else {
            fixup_black_sibling(p, false)
        }
    }
}

/// Removes the first (leftmost) entry of the subtree rooted at `n`. Returns
/// the new subtree, the removed entry, and whether the subtree lost a black
/// node on its paths.
pub fn delete_min<K, V>(n: Box<RBTreeNode<K, V>>) -> (res: (
    Option<Box<RBTreeNode<K, V>>>,
    (K, V),
    bool,
))
    requires
        rb(Some(n)),
    ensures
        inorder(res.0) == inorder(Some(n)).drop_first(),
        res.1 == inorder(Some(n))[0],
        rb(res.0),
        is_red(res.0) ==> n.color == Color::Red,
        black_height(res.0) + (if res.2 { 1int } else { 0int }) == black_height(Some(n)),
        res.2 ==> !is_red(res.0),
        res == min_removed(n),
    decreases n,
{
    let ghost n0 = n;
    let mut n = n;
    let l = n.left.take();
    match l {
        None => {
            let right = n.right.take();
            let was_black = n.color == Color::Black;
            let pair = (*n).pair();
            proof {
                assert(inorder(n0.left) =~= Seq::<(K, V)>::empty());
                assert(inorder(Some(n0)) =~= seq![pair] + inorder(right));
                assert(black_height(right) == 0);
                assert(rb(right));
            }
            match right {
                Some(c) => {
                    let ghost c0 = c;
                    let mut c = c;
                    proof {
                        lemma_black_root_height(Some(c0));
                        assert(is_red(Some(c0)));
                        assert(black_height(c0.left) == 0);
                        assert(black_height(c0.right) == 0);
                        assert(!is_red(c0.left) && !is_red(c0.right));
                        lemma_black_root_height(c0.left);
                        lemma_black_root_height(c0.right);
                        assert(c0.left is None && c0.right is None);
                    }
                    c.color = Color::Black;
                    proof {
                        assert(inorder(Some(c)) == inorder(Some(c0)));
                    }
                    (Some(c), pair, false)
                },
                None => {
                    (None, pair, was_black)
                },
            }
        },
        Some(l) => {
            let (nl, pair, shrunk) = delete_min(l);
            n.left = nl;
            proof {
                let a = inorder(n0.left);
                let e = seq![(n0.key, n0.value)];
                let c = inorder(n0.right);
                assert(a.len() > 0);
                assert(inorder(Some(n)) == a.drop_first() + e + c);
                assert(a.drop_first() + e + c =~= (a + e + c).drop_first());
                assert((a + e + c)[0] == a[0]);
            }
            if shrunk {
                let (r, s2) = delete_fixup(n, true);
                (Some(r), pair, s2)
            } else {
                (Some(n), pair, false)
            }
        },
    }
}

/// Removes the last (rightmost) entry of the subtree rooted at `n`. Returns
/// the new subtree, the removed entry, and whether the subtree lost a black
/// node on its paths.
pub fn delete_max<K, V>(n: Box<RBTreeNode<K, V>>) -> (res: (
    Option<Box<RBTreeNode<K, V>>>,
    (K, V),
    bool,
))
    requires
        rb(Some(n)),
    ensures
        inorder(res.0) == inorder(Some(n)).drop_last(),
        res.1 == inorder(Some(n)).last(),
        rb(res.0),
        is_red(res.0) ==> n.color == Color::Red,
        black_height(res.0) + (if res.2 { 1int } else { 0int }) == black_height(Some(n)),
        res.2 ==> !is_red(res.0),
        res == max_removed(n),
    decreases n,
{
    let ghost n0 = n;
    let mut n = n;
    let r = n.right.take();
    match r {
        None => {
            let left = n.left.take();
            let was_black = n.color == Color::Black;
            let pair = (*n).pair();
            proof {
                assert(inorder(n0.right) =~= Seq::<(K, V)>::empty());
                assert(inorder(Some(n0)) =~= inorder(left) + seq![pair]);
                assert(black_height(left) == 0);
                assert(rb(left));
            }
            match left {
                Some(c) => {
                    let ghost c0 = c;
                    let mut c = c;
                    proof {
                        lemma_black_root_height(Some(c0));
                        assert(is_red(Some(c0)));
                        assert(black_height(c0.left) == 0);
                        assert(black_height(c0.right) == 0);
                        assert(!is_red(c0.left) && !is_red(c0.right));
                        lemma_black_root_height(c0.left);
                        lemma_black_root_height(c0.right);
                        assert(c0.left is None && c0.right is None);
                    }
                    c.color = Color::Black;
                    proof {
                        assert(inorder(Some(c)) == inorder(Some(c0)));
                    }
                    (Some(c), pair, false)
                },
                None => {
                    (None, pair, was_black)
                },
            }
        },
        Some(r) => {
            let (nr, pair, shrunk) = delete_max(r);
            n.right = nr;
            proof {
                let a = inorder(n0.left);
                let e = seq![(n0.key, n0.value)];
                let c = inorder(n0.right);
                assert(c.len() > 0);
                assert(inorder(Some(n)) == a + e + c.drop_last());
                assert(a + e + c.drop_last() =~= (a + e + c).drop_last());
                assert((a + e + c).last() == c.last());
            }
            if shrunk {
                let (r, s2) = delete_fixup(n, false);
                (Some(r), pair, s2)
            } else {
                (Some(n), pair, false)
            }
        },
    }
}

/// Removes the entry at the root of the subtree `n`. An entry with two
/// subtrees is replaced by its in-order successor, taken out of the right
/// subtree; one with a single subtree is replaced by it. Returns the new
/// subtree, the removed entry, and whether the subtree lost a black node on
/// its paths.
pub fn delete<K, V>(n: Box<RBTreeNode<K, V>>) -> (res: (
    Option<Box<RBTreeNode<K, V>>>,
    (K, V),
    bool,
))
    requires
        rb(Some(n)),
    ensures
        inorder(res.0) == inorder(Some(n)).remove(inorder(n.left).len() as int),
        res.1 == (n.key, n.value),
        rb(res.0),
        is_red(res.0) ==> n.color == Color::Red,
        black_height(res.0) + (if res.2 { 1int } else { 0int }) == black_height(Some(n)),
        res.2 ==> !is_red(res.0),
        res == root_removed(n),
{
    let ghost n0 = n;
    let mut n = n;
    let ghost a = inorder(n0.left);
    let ghost e = seq![(n0.key, n0.value)];
    let ghost c = inorder(n0.right);
    let l = n.left.take();
    let rt = n.right.take();
    match (l, rt) {
        (Some(l), Some(rt)) => {
            // Two subtrees: the successor takes this node's place.
            let (nr, succ, shrunk) = delete_min(rt);
            let (mut sk, mut sv) = succ;
            std::mem::swap(&mut n.key, &mut sk);
            std::mem::swap(&mut n.value, &mut sv);
            n.left = Some(l);
            n.right = nr;
            proof {
                assert(c.len() > 0);
                assert(inorder(Some(n)) == a + seq![c[0]] + c.drop_first());
                assert(a + seq![c[0]] + c.drop_first() =~= (a + e + c).remove(
                    a.len() as int,
                ));
                assert((a + e + c)[a.len() as int] == (n0.key, n0.value));
            }
            if shrunk {
                let (r, s2) = delete_fixup(n, false);
                (Some(r), (sk, sv), s2)
            } else {
                proof {
                    assert(n.left == n0.left);
                    assert(rb(n.left) && rb(n.right));
                    assert(black_height(n.left) == black_height(n.right));
                    assert(rb(Some(n)));
                }
                (Some(n), (sk, sv), false)
            }
        },
        (Some(l), None) => {
            // A single subtree, which is one red node: it turns black.
            let ghost l0 = l;
            let mut l = l;
            proof {
                lemma_black_root_height(Some(l0));
                assert(black_height(Some(l0)) == 0);
                assert(is_red(Some(l0)));
                assert(n0.color == Color::Black);
            }
            l.color = Color::Black;
            let pair = (*n).pair();
            proof {
                assert(inorder(Some(l)) == inorder(Some(l0)));
                assert(c =~= Seq::<(K, V)>::empty());
                assert(a =~= (a + e + c).remove(a.len() as int));
            }
            proof {
                assert(rb(Some(l0)));
                assert(rb(Some(l)));
            }
            (Some(l), pair, false)
        },
        (None, Some(rt)) => {
            // A single subtree, which is one red node: it turns black.
            let ghost r0 = rt;
            let mut rt = rt;
            proof {
                lemma_black_root_height(Some(r0));
                assert(black_height(Some(r0)) == 0);
                assert(is_red(Some(r0)));
                assert(n0.color == Color::Black);
            }
            rt.color = Color::Black;
            let pair = (*n).pair();
            proof {
                assert(inorder(Some(rt)) == inorder(Some(r0)));
                assert(a =~= Seq::<(K, V)>::empty());
                assert(c =~= (a + e + c).remove(a.len() as int));
            }
            proof {
                assert(rb(Some(r0)));
                assert(rb(Some(rt)));
            }
            (Some(rt), pair, false)
        },
        (None, None) => {
            let was_black = n.color == Color::Black;
            let pair = (*n).pair();
            proof {
                assert(a =~= Seq::<(K, V)>::empty());
                assert(c =~= Seq::<(K, V)>::empty());
                assert(inorder(None::<Box<RBTreeNode<K, V>>>) =~= (a + e
                    + c).remove(0));
            }
            (None, pair, was_black)
        },
    }
}

/// Removes from the subtree `t` the entry at which the search for `k` stops
/// (see `find_index`). Returns the new subtree, the removed entry
/// (`None` when no key compares equal to `k` along the search path), and
/// whether the subtree lost a black node on its paths.
pub fn remove_key<K: Ord, V>(t: Option<Box<RBTreeNode<K, V>>>, k: &K) -> (res: (
    Option<Box<RBTreeNode<K, V>>>,
    Option<(K, V)>,
    bool,
))
    requires
        total_order::<K>(),
        rb(t),
    ensures
        find_index(t, *k) < 0 ==> res.0 == t && res.1 is None && !res.2,
        find_index(t, *k) >= 0 ==> res.1 == Some(inorder(t)[find_index(t, *k)]) && inorder(res.0)
            == inorder(t).remove(find_index(t, *k)),
        rb(res.0),
        is_red(res.0) ==> is_red(t),
        black_height(res.0) + (if res.2 { 1int } else { 0int }) == black_height(t),
        res.2 ==> !is_red(res.0),
        res == key_removed(t, *k),
    decreases t,
{
    proof {
        lemma_find_index_found(t, *k);
    }
    match t {
        None => (None, None, false),
        Some(n) => {
            let ghost n0 = n;
            let mut n = n;
            proof {
                lemma_find_index_found(n0.left, *k);
                lemma_find_index_found(n0.right, *k);
            }
            let ghost a = inorder(n0.left);
            let ghost e = seq![(n0.key, n0.value)];
            let ghost c = inorder(n0.right);
            match compare(k, &n.key) {
                KeyOrder::Less => {
                    let l = n.left.take();
                    let (nl, removed, shrunk) = remove_key(l, k);
                    n.left = nl;
                    match removed {
                        None => (Some(n), None, false),
                        Some(pair) => {
                            proof {
                                let i = find_index(n0.left, *k);
                                assert(inorder(Some(n)) == a.remove(i) + e + c);
                                assert(a.remove(i) + e + c =~= (a + e + c).remove(i));
                                assert((a + e + c)[i] == a[i]);
                            }
                            if shrunk {
                                let (r, s2) = delete_fixup(n, true);
                                (Some(r), Some(pair), s2)
                            } else {
                                (Some(n), Some(pair), false)
                            }
                        },
                    }
                },
                KeyOrder::Greater => {
                    let rt = n.right.take();
                    let (nr, removed, shrunk) = remove_key(rt, k);
                    n.right = nr;
                    match removed {
                        None => (Some(n), None, false),
                        Some(pair) => {
                            proof {
                                let i = find_index(n0.right, *k);
                                assert(inorder(Some(n)) == a + e + c.remove(i));
                                assert(a + e + c.remove(i) =~= (a + e + c).remove(a.len() + 1 + i));
                                assert((a + e + c)[a.len() + 1 + i] == c[i]);
                            }
                            if shrunk {
                                let (r, s2) = delete_fixup(n, false);
                                (Some(r), Some(pair), s2)
                            } else {
                                (Some(n), Some(pair), false)
                            }
                        },
                    }
                },
                KeyOrder::Equal => {
                    let (r, pair, shrunk) = delete(n);
                    (r, Some(pair), shrunk)
                },
            }
        },
    }
}

} // verus!
