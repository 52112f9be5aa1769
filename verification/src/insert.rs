//! Insertion: a new red leaf goes where the search for its key ends, and the
//! red-red conflicts it may cause are repaired at each grandparent on the way
//! back up, by recolouring or by rotations.
use vstd::prelude::*;
use crate::order::{KeyOrder, compare, key_order, total_order, order_facts, le, lt};
use crate::node::{
    RBTreeNode, Color, inorder, sorted, is_red, rb, rb_below, black_height, is_red_color,
    set_black_color, left_rotate, right_rotate, blackened, rotated_left, rotated_right,
};
use crate::seqs::lemma_sorted_node;

verus! {

/// The in-order position at which inserting `k` into `t` places the new
/// entry: after every entry whose key is at most `k`.
pub open spec fn ins_pos<K: Ord, V>(t: Option<Box<RBTreeNode<K, V>>>, k: K) -> int
    decreases t,
{
    match t {
        None => 0,
        Some(n) => if key_order(k, n.key) == KeyOrder::Less {
            ins_pos(n.left, k)
        } else {
            inorder(n.left).len() + 1 + ins_pos(n.right, k)
        },
    }
}

/// The insertion position lies within the subtree's entries.
pub proof fn lemma_ins_pos_range<K: Ord, V>(t: Option<Box<RBTreeNode<K, V>>>, k: K)
    ensures
        0 <= ins_pos(t, k) <= inorder(t).len(),
    decreases t,
{
    match t {
        None => {},
        Some(n) => {
            lemma_ins_pos_range(n.left, k);
            lemma_ins_pos_range(n.right, k);
        },
    }
}

/// In a sorted subtree, the insertion position of `k` splits the entries
/// into those with a key at most `k` and those with a greater key.
pub proof fn lemma_ins_pos<K: Ord, V>(t: Option<Box<RBTreeNode<K, V>>>, k: K)
    requires
        order_facts::<K>(),
        sorted(inorder(t)),
    ensures
        0 <= ins_pos(t, k) <= inorder(t).len(),
        forall|i: int| 0 <= i < ins_pos(t, k) ==> le(#[trigger] inorder(t)[i].0, k),
        forall|i: int| ins_pos(t, k) <= i < inorder(t).len() ==> lt(k, #[trigger] inorder(t)[i].0),
    decreases t,
{
    match t {
        None => {},
        Some(n) => {
            lemma_sorted_node(n);
            let l = inorder(n.left);
            let r = inorder(n.right);
            let s = inorder(t);
            assert(s == l + seq![(n.key, n.value)] + r);
            lemma_ins_pos(n.left, k);
            lemma_ins_pos(n.right, k);
            let p = ins_pos(t, k);
            if key_order(k, n.key) == KeyOrder::Less {
                assert forall|i: int| 0 <= i < p implies le(#[trigger] s[i].0, k) by {
                    assert(s[i] == l[i]);
                }
                assert forall|i: int| p <= i < s.len() implies lt(k, #[trigger] s[i].0) by {
                    if i < l.len() {
                        assert(s[i] == l[i]);
                    } else if i == l.len() {
                    } else {
                        assert(s[i] == r[i - l.len() - 1]);
                        assert(le(n.key, r[i - l.len() - 1].0));
                    }
                }
            } else {
                assert(le(n.key, k));
                assert forall|i: int| 0 <= i < p implies le(#[trigger] s[i].0, k) by {
                    if i < l.len() {
                        assert(s[i] == l[i]);
                        assert(le(l[i].0, n.key));
                    } else if i == l.len() {
                    } else {
                        assert(s[i] == r[i - l.len() - 1]);
                    }
                }
                assert forall|i: int| p <= i < s.len() implies lt(k, #[trigger] s[i].0) by {
                    assert(s[i] == r[i - l.len() - 1]);
                }
            }
        },
    }
}

/// What `insert_fixup` makes of the grandparent `g` (see there).
pub open spec fn insert_fixed<K, V>(g: Box<RBTreeNode<K, V>>, left_side: bool) -> Box<
    RBTreeNode<K, V>,
> {
    if g.color == Color::Red {
        g
    } else if left_side {
        match g.left {
            None => g,
            Some(p) => if !(p.color == Color::Red && (is_red(p.left) || is_red(p.right))) {
                g
            } else if is_red(g.right) {
                Box::new(
                    RBTreeNode {
                        color: Color::Red,
                        left: blackened(g.left),
                        right: blackened(g.right),
                        ..*g
                    },
                )
            } else {
                let p1 = if is_red(p.right) { rotated_left(p) } else { p };
                rotated_right(
                    Box::new(
                        RBTreeNode {
                            color: Color::Red,
                            left: Some(Box::new(RBTreeNode { color: Color::Black, ..*p1 })),
                            ..*g
                        },
                    ),
                )
            },
        }
    } else {
        match g.right {
            None => g,
            Some(p) => if !(p.color == Color::Red && (is_red(p.left) || is_red(p.right))) {
                g
            } else if is_red(g.left) {
                Box::new(
                    RBTreeNode {
                        color: Color::Red,
                        left: blackened(g.left),
                        right: blackened(g.right),
                        ..*g
                    },
                )
            } else {
                let p1 = if is_red(p.left) { rotated_right(p) } else { p };
                rotated_left(
                    Box::new(
                        RBTreeNode {
                            color: Color::Red,
                            right: Some(Box::new(RBTreeNode { color: Color::Black, ..*p1 })),
                            ..*g
                        },
                    ),
                )
            },
        }
    }
}

/// The subtree that inserting `(k, v)` into `t` gives (see `insert_node`):
/// a red leaf where the search for `k` ends, repaired at each node on the
/// way back up.
pub open spec fn inserted<K: Ord, V>(t: Option<Box<RBTreeNode<K, V>>>, k: K, v: V) -> Box<
    RBTreeNode<K, V>,
>
    decreases t,
{
    match t {
        None => Box::new(RBTreeNode { color: Color::Red, left: None, right: None, key: k, value: v }),
        Some(n) => if key_order(k, n.key) == KeyOrder::Less {
            insert_fixed(Box::new(RBTreeNode { left: Some(inserted(n.left, k, v)), ..*n }), true)
        } else {
            insert_fixed(Box::new(RBTreeNode { right: Some(inserted(n.right, k, v)), ..*n }), false)
        },
    }
}

/// Repairs, at the grandparent `g`, a red-red conflict between the child of
/// `g` on the side that just grew and that child's own child. With a red
/// uncle, the parent and the uncle turn black and `g` red (the conflict may
/// move up to `g`); with a black uncle, one or two rotations bring the middle
/// key of the three to the top, black, with two red children. A red `g` is
/// left as it is: its parent repairs the conflict.
pub fn insert_fixup<K, V>(g: Box<RBTreeNode<K, V>>, left_side: bool) -> (r: Box<RBTreeNode<K, V>>)
    requires
        ({
            let c = if left_side { g.left } else { g.right };
            let u = if left_side { g.right } else { g.left };
            &&& c is Some
            &&& rb_below(c)
            &&& is_red(c) ==> !(is_red(c.unwrap().left) && is_red(c.unwrap().right))
            &&& rb(u)
            &&& black_height(c) == black_height(u)
            &&& g.color == Color::Red ==> rb(c) && !is_red(u)
        }),
    ensures
        inorder(Some(r)) == inorder(Some(g)),
        black_height(Some(r)) == black_height(Some(g)),
        g.color == Color::Black ==> rb(Some(r)),
        g.color == Color::Red ==> r == g,
        r == insert_fixed(g, left_side),
{
    let ghost g0 = g;
    let mut g = g;
    if g.color == Color::Red {
        return g;
    }
    if left_side {
        let conflict = match &g.left {
            None => false,
            Some(p) => p.color == Color::Red && (is_red_color(&p.left) || is_red_color(&p.right)),
        };
        if !conflict {
            proof {
                assert(rb(g.left));
            }
            return g;
        }
        if is_red_color(&g.right) {
            // The uncle is red: recolour.
            set_black_color(&mut g.left);
            set_black_color(&mut g.right);
            g.color = Color::Red;
            proof {
                assert(inorder(g.left) == inorder(g0.left));
                assert(inorder(g.right) == inorder(g0.right));
                assert(black_height(g.left) == black_height(g0.left) + 1);
                assert(black_height(g.right) == black_height(g0.right) + 1);
                assert(rb(g.left));
                assert(rb(g.right));
            }
            return g;
        }
        // The uncle is black: rotate.
        let mut p = match g.left.take() {
            Some(p) => p,
            None => {
                proof {
                    assert(false);
                }
                return g;
            },
        };
        let ghost p0 = p;
        if is_red_color(&p.right) {
            p = left_rotate(p);
            proof {
                let y = p0.right.unwrap();
                assert(!is_red(p0.left));
                assert(rb(y.left) && rb(y.right));
                assert(black_height(y.left) == black_height(p0.left));
                assert(rb(p.left));
                assert(black_height(p.left) == black_height(p0.left));
            }
        }
        let ghost p1 = p;
        p.color = Color::Black;
        proof {
            assert(inorder(Some(p)) == inorder(Some(p1)));
            assert(rb(p.left) && is_red(p.left));
            assert(!is_red(p.right) && rb(p.right));
            assert(black_height(p.left) == black_height(p.right));
            assert(black_height(p.left) == black_height(g0.right));
        }
        g.left = Some(p);
        g.color = Color::Red;
        proof {
            assert(inorder(g.left) == inorder(g0.left));
            assert(inorder(Some(g)) == inorder(Some(g0)));
        }
        let r = right_rotate(g);
        proof {
            assert(rb(r.right));
            assert(black_height(r.right) == black_height(r.left));
        }
        r
    } else {
        let conflict = match &g.right {
            None => false,
            Some(p) => p.color == Color::Red && (is_red_color(&p.left) || is_red_color(&p.right)),
        };
        if !conflict {
            proof {
                assert(rb(g.right));
            }
            return g;
        }
        if is_red_color(&g.left) {
            // The uncle is red: recolour.
            set_black_color(&mut g.left);
            set_black_color(&mut g.right);
            g.color = Color::Red;
            proof {
                assert(inorder(g.left) == inorder(g0.left));
                assert(inorder(g.right) == inorder(g0.right));
                assert(black_height(g.left) == black_height(g0.left) + 1);
                assert(black_height(g.right) == black_height(g0.right) + 1);
                assert(rb(g.left));
                assert(rb(g.right));
            }
            return g;
        }
        // The uncle is black: rotate.
        let mut p = match g.right.take() {
            Some(p) => p,
            None => {
                proof {
                    assert(false);
                }
                return g;
            },
        };
        let ghost p0 = p;
        if is_red_color(&p.left) {
            p = right_rotate(p);
            proof {
                let y = p0.left.unwrap();
                assert(!is_red(p0.right));
                assert(rb(y.left) && rb(y.right));
                assert(black_height(y.right) == black_height(p0.right));
                assert(rb(p.right));
                assert(black_height(p.right) == black_height(p0.right));
            }
        }
        let ghost p1 = p;
        p.color = Color::Black;
        proof {
            assert(inorder(Some(p)) == inorder(Some(p1)));
            assert(rb(p.right) && is_red(p.right));
            assert(!is_red(p.left) && rb(p.left));
            assert(black_height(p.left) == black_height(p.right));
            assert(black_height(p.right) == black_height(g0.left));
        }
        g.right = Some(p);
        g.color = Color::Red;
        proof {
            assert(inorder(g.right) == inorder(g0.right));
            assert(inorder(Some(g)) == inorder(Some(g0)));
        }
        let r = left_rotate(g);
        proof {
            assert(rb(r.left));
            assert(black_height(r.right) == black_height(r.left));
        }
        r
    }
}

/// Inserts the entry `(k, v)` into the subtree `t` and returns the new
/// subtree. The entry lands after every entry whose key is at most `k`; the
/// black height does not change; a subtree with a black root comes back a
/// red-black tree, and one with a red root comes back with a red root whose
/// subtrees are red-black trees, at most one of them with a red root.
pub fn insert_node<K: Ord, V>(t: Option<Box<RBTreeNode<K, V>>>, k: K, v: V) -> (r: Box<
    RBTreeNode<K, V>,
>)
    requires
        total_order::<K>(),
        rb(t),
    ensures
        inorder(Some(r)) == inorder(t).insert(ins_pos(t, k), (k, v)),
        black_height(Some(r)) == black_height(t),
        !is_red(t) ==> rb(Some(r)),
        is_red(t) ==> r.color == Color::Red && rb_below(Some(r)) && !(is_red(r.left) && is_red(
            r.right,
        )),
        r == inserted(t, k, v),
    decreases t,
{
    match t {
        None => {
            let mut r = Box::new(RBTreeNode::new(k, v));
            r.color = Color::Red;
            proof {
                assert(inorder(r.left) =~= Seq::<(K, V)>::empty());
            }
            proof {
                assert(inorder(Some(r)) =~= inorder(t).insert(0, (k, v)));
            }
            r
        },
        Some(n) => {
            let ghost n0 = n;
            let mut n = n;
            proof {
                lemma_ins_pos_range(n0.left, k);
                lemma_ins_pos_range(n0.right, k);
            }
            if compare(&k, &n.key) == KeyOrder::Less {
                let l = n.left.take();
                let nl = insert_node(l, k, v);
                n.left = Some(nl);
                proof {
                    let a = inorder(n0.left);
                    let e = seq![(n0.key, n0.value)];
                    let c = inorder(n0.right);
                    assert(inorder(Some(n)) == a.insert(ins_pos(n0.left, k), (k, v)) + e + c);
                    assert(a.insert(ins_pos(n0.left, k), (k, v)) + e + c =~= (a + e + c).insert(
                        ins_pos(n0.left, k),
                        (k, v),
                    ));
                }
                insert_fixup(n, true)
            } else {
                let rt = n.right.take();
                let nr = insert_node(rt, k, v);
                n.right = Some(nr);
                proof {
                    let a = inorder(n0.left);
                    let e = seq![(n0.key, n0.value)];
                    let c = inorder(n0.right);
                    assert(inorder(Some(n)) == a + e + c.insert(ins_pos(n0.right, k), (k, v)));
                    assert(a + e + c.insert(ins_pos(n0.right, k), (k, v)) =~= (a + e + c).insert(
                        a.len() + 1 + ins_pos(n0.right, k),
                        (k, v),
                    ));
                }
                insert_fixup(n, false)
            }
        },
    }
}

} // verus!
