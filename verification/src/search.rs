//! Searching a subtree for a key.
use vstd::prelude::*;
use crate::order::{KeyOrder, compare, key_order, total_order, eqk, order_facts, lt, le};
use crate::node::{RBTreeNode, inorder, sorted, rb, black_height, is_red};
use crate::seqs::lemma_sorted_node;

verus! {

/// The in-order index of the entry that a search for `k` stops at: at each
/// node it goes left when `k` is less than the node's key, right when it is
/// greater, and stops when they compare equal. `-1` when the search falls
/// off the tree.
pub open spec fn find_index<K: Ord, V>(t: Option<Box<RBTreeNode<K, V>>>, k: K) -> int
    decreases t,
{
    match t {
        None => -1,
        Some(n) => match key_order(k, n.key) {
            KeyOrder::Less => find_index(n.left, k),
            KeyOrder::Equal => inorder(n.left).len() as int,
            KeyOrder::Greater => {
                let i = find_index(n.right, k);
                if i < 0 {
                    -1
                } else {
                    inorder(n.left).len() + 1 + i
                }
            },
        },
    }
}

/// Some entry of `s` has a key that compares equal to `k`.
pub open spec fn has_key<K: Ord, V>(s: Seq<(K, V)>, k: K) -> bool {
    exists|i: int| 0 <= i < s.len() && eqk(#[trigger] s[i].0, k)
}

/// A search that stops, stops at an entry whose key compares equal to `k`.
pub proof fn lemma_find_index_found<K: Ord, V>(t: Option<Box<RBTreeNode<K, V>>>, k: K)
    ensures
        -1 <= find_index(t, k) < inorder(t).len(),
        find_index(t, k) >= 0 ==> key_order(k, inorder(t)[find_index(t, k)].0) == KeyOrder::Equal,
    decreases t,
{
    match t {
        None => {},
        Some(n) => {
            lemma_find_index_found(n.left, k);
            lemma_find_index_found(n.right, k);
            let l = inorder(n.left);
            let r = inorder(n.right);
            let s = inorder(t);
            assert(s == l + seq![(n.key, n.value)] + r);
            let i = find_index(t, k);
            if i >= 0 {
                match key_order(k, n.key) {
                    KeyOrder::Less => {
                        assert(s[i] == l[i]);
                    },
                    KeyOrder::Equal => {
                        assert(s[i].0 == n.key);
                    },
                    KeyOrder::Greater => {
                        assert(s[i] == r[i - l.len() - 1]);
                    },
                }
            }
        },
    }
}

/// In a sorted subtree, a search that falls off the tree means that no key
/// compares equal to `k`, and one that stops finds a key equal to `k`.
pub proof fn lemma_find_index<K: Ord, V>(t: Option<Box<RBTreeNode<K, V>>>, k: K)
    requires
        order_facts::<K>(),
        sorted(inorder(t)),
    ensures
        -1 <= find_index(t, k) < inorder(t).len(),
        find_index(t, k) >= 0 <==> has_key(inorder(t), k),
        find_index(t, k) >= 0 ==> eqk(inorder(t)[find_index(t, k)].0, k),
    decreases t,
{
    lemma_find_index_found(t, k);
    match t {
        None => {},
        Some(n) => {
            lemma_sorted_node(n);
            lemma_find_index(n.left, k);
            lemma_find_index(n.right, k);
            let l = inorder(n.left);
            let r = inorder(n.right);
            let s = inorder(t);
            assert(s == l + seq![(n.key, n.value)] + r);
            let i = find_index(t, k);
            if i >= 0 {
                assert(eqk(k, s[i].0));
                assert(eqk(s[i].0, k));
            } else {
                assert forall|j: int| 0 <= j < s.len() implies !eqk(#[trigger] s[j].0, k) by {
                    if j < l.len() {
                        assert(s[j] == l[j]);
                        if key_order(k, n.key) == KeyOrder::Less {
                            assert(!has_key(l, k));
                        } else {
                            assert(le(l[j].0, n.key));
                            assert(lt(n.key, k));
                            assert(lt(l[j].0, k));
                        }
                    } else if j == l.len() {
                        assert(s[j].0 == n.key);
                    } else {
                        assert(s[j] == r[j - l.len() - 1]);
                        if key_order(k, n.key) == KeyOrder::Less {
                            assert(le(n.key, r[j - l.len() - 1].0));
                            assert(lt(k, r[j - l.len() - 1].0));
                        } else {
                            assert(!has_key(r, k));
                        }
                    }
                }
            }
        },
    }
}

/// The subtree `t` with the value of its `i`-th entry (in in-order) set to
/// `v`; keys, colours and shape stay as they are.
pub open spec fn with_value_at<K, V>(t: Option<Box<RBTreeNode<K, V>>>, i: int, v: V) -> Option<
    Box<RBTreeNode<K, V>>,
>
    decreases t,
{
    match t {
        None => None,
        Some(n) => {
            let ll = inorder(n.left).len() as int;
            if i < ll {
                Some(Box::new(RBTreeNode { left: with_value_at(n.left, i, v), ..*n }))
            } else if i == ll {
                Some(Box::new(RBTreeNode { value: v, ..*n }))
            } else {
                Some(Box::new(RBTreeNode { right: with_value_at(n.right, i - ll - 1, v), ..*n }))
            }
        },
    }
}

/// Setting one value changes that entry only, and keeps the red-black
/// properties, the black height, the root's colour and every search.
pub proof fn lemma_with_value_at<K: Ord, V>(t: Option<Box<RBTreeNode<K, V>>>, i: int, v: V, k: K)
    requires
        0 <= i < inorder(t).len(),
    ensures
        inorder(with_value_at(t, i, v)) == inorder(t).update(i, (inorder(t)[i].0, v)),
        rb(with_value_at(t, i, v)) == rb(t),
        black_height(with_value_at(t, i, v)) == black_height(t),
        is_red(with_value_at(t, i, v)) == is_red(t),
        find_index(with_value_at(t, i, v), k) == find_index(t, k),
    decreases t,
{
    match t {
        None => {},
        Some(n) => {
            let a = inorder(n.left);
            let e = seq![(n.key, n.value)];
            let c = inorder(n.right);
            let ll = a.len() as int;
            let s = inorder(t);
            assert(s == a + e + c);
            if i < ll {
                lemma_with_value_at(n.left, i, v, k);
                assert(a.update(i, (a[i].0, v)) + e + c =~= s.update(i, (s[i].0, v)));
            } else if i == ll {
                assert(a + seq![(n.key, v)] + c =~= s.update(i, (s[i].0, v)));
            } else {
                lemma_with_value_at(n.right, i - ll - 1, v, k);
                assert(a + e + c.update(i - ll - 1, (c[i - ll - 1].0, v)) =~= s.update(
                    i,
                    (s[i].0, v),
                ));
            }
        },
    }
}

/// Finds the node at which the search for `k` stops, if any.
pub fn find_node<'a, K: Ord, V>(t: &'a Option<Box<RBTreeNode<K, V>>>, k: &K) -> (r: Option<
    &'a RBTreeNode<K, V>,
>)
    requires
        total_order::<K>(),
    ensures
        find_index(*t, *k) < 0 ==> r is None,
        find_index(*t, *k) >= 0 ==> r is Some && (r.unwrap().key, r.unwrap().value) == inorder(
            *t,
        )[find_index(*t, *k)],
    decreases t,
{
    proof {
        lemma_find_index_found(*t, *k);
    }
    match t {
        None => None,
        Some(n) => {
            proof {
                let a = inorder(n.left);
                let e = seq![(n.key, n.value)];
                let c = inorder(n.right);
                assert(inorder(*t) == a + e + c);
                lemma_find_index_found(n.left, *k);
                lemma_find_index_found(n.right, *k);
            }
            match compare(k, &n.key) {
                KeyOrder::Less => find_node(&n.left, k),
                KeyOrder::Equal => Some(&**n),
                KeyOrder::Greater => find_node(&n.right, k),
            }
        },
    }
}

/// The value of the entry at which the search for `k` stops, if any, for
/// changing in place.
pub fn find_value_mut<'a, K: Ord, V>(t: &'a mut Option<Box<RBTreeNode<K, V>>>, k: &K) -> (r: Option<
    &'a mut V,
>)
    requires
        total_order::<K>(),
    ensures
        find_index(*old(t), *k) < 0 ==> r is None && *final(t) == *old(t),
        find_index(*old(t), *k) >= 0 ==> match r {
            None => false,
            Some(v) => {
                &&& *v == inorder(*old(t))[find_index(*old(t), *k)].1
                &&& *final(t) == with_value_at(*old(t), find_index(*old(t), *k), *final(v))
            },
        },
    decreases *old(t),
{
    proof {
        lemma_find_index_found(*old(t), *k);
    }
    match t {
        None => None,
        Some(n) => {
            proof {
                let a = inorder(n.left);
                let e = seq![(n.key, n.value)];
                let c = inorder(n.right);
                assert(inorder(*old(t)) == a + e + c);
                lemma_find_index_found(n.left, *k);
                lemma_find_index_found(n.right, *k);
            }
            match compare(k, &n.key) {
                KeyOrder::Less => find_value_mut(&mut n.left, k),
                KeyOrder::Equal => Some(&mut n.value),
                KeyOrder::Greater => find_value_mut(&mut n.right, k),
            }
        },
    }
}

/// The first (leftmost) entry of the subtree, if any.
pub fn first_child<'a, K, V>(t: &'a Option<Box<RBTreeNode<K, V>>>) -> (r: Option<(&'a K, &'a V)>)
    ensures
        inorder(*t).len() == 0 ==> r is None,
        inorder(*t).len() > 0 ==> r is Some && (*r.unwrap().0, *r.unwrap().1) == inorder(*t)[0],
    decreases t,
{
    match t {
        None => None,
        Some(n) => {
            proof {
                assert(inorder(*t) == inorder(n.left) + seq![(n.key, n.value)] + inorder(n.right));
            }
            if n.left.is_none() {
                Some((&n.key, &n.value))
            } else {
                first_child(&n.left)
            }
        },
    }
}

/// The last (rightmost) entry of the subtree, if any.
pub fn last_child<'a, K, V>(t: &'a Option<Box<RBTreeNode<K, V>>>) -> (r: Option<(&'a K, &'a V)>)
    ensures
        inorder(*t).len() == 0 ==> r is None,
        inorder(*t).len() > 0 ==> r is Some && (*r.unwrap().0, *r.unwrap().1) == inorder(*t).last(),
    decreases t,
{
    match t {
        None => None,
        Some(n) => {
            proof {
                assert(inorder(*t) == inorder(n.left) + seq![(n.key, n.value)] + inorder(n.right));
            }
            if n.right.is_none() {
                Some((&n.key, &n.value))
            } else {
                last_child(&n.right)
            }
        },
    }
}

/// The first (leftmost) entry of the subtree, if any, with its value for
/// changing in place.
pub fn first_child_mut<'a, K, V>(t: &'a mut Option<Box<RBTreeNode<K, V>>>) -> (r: Option<
    (&'a K, &'a mut V),
>)
    ensures
        inorder(*old(t)).len() == 0 ==> r is None && *final(t) == *old(t),
        inorder(*old(t)).len() > 0 ==> match r {
            None => false,
            Some((kr, vr)) => {
                &&& (*kr, *vr) == inorder(*old(t))[0]
                &&& *final(t) == with_value_at(*old(t), 0, *final(vr))
            },
        },
    decreases *old(t),
{
    match t {
        None => None,
        Some(n) => {
            proof {
                assert(inorder(*old(t)) == inorder(n.left) + seq![(n.key, n.value)] + inorder(
                    n.right,
                ));
            }
            if n.left.is_none() {
                Some((&n.key, &mut n.value))
            } else {
                first_child_mut(&mut n.left)
            }
        },
    }
}

/// The last (rightmost) entry of the subtree, if any, with its value for
/// changing in place.
pub fn last_child_mut<'a, K, V>(t: &'a mut Option<Box<RBTreeNode<K, V>>>) -> (r: Option<
    (&'a K, &'a mut V),
>)
    ensures
        inorder(*old(t)).len() == 0 ==> r is None && *final(t) == *old(t),
        inorder(*old(t)).len() > 0 ==> match r {
            None => false,
            Some((kr, vr)) => {
                &&& (*kr, *vr) == inorder(*old(t)).last()
                &&& *final(t) == with_value_at(
                    *old(t),
                    inorder(*old(t)).len() - 1,
                    *final(vr),
                )
            },
        },
    decreases *old(t),
{
    match t {
        None => None,
        Some(n) => {
            proof {
                assert(inorder(*old(t)) == inorder(n.left) + seq![(n.key, n.value)] + inorder(
                    n.right,
                ));
            }
            if n.right.is_none() {
                Some((&n.key, &mut n.value))
            } else {
                last_child_mut(&mut n.right)
            }
        },
    }
}

} // verus!
