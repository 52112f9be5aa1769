//! Facts about sorted sequences of entries and about the entries of a node.
use vstd::prelude::*;
use crate::order::{le, lt, order_facts};
use crate::node::{RBTreeNode, inorder, sorted, all_le, all_ge};

verus! {

/// In a sorted node, both subtrees are sorted, the keys on the left are at
/// most the node's key and the keys on the right at least.
pub proof fn lemma_sorted_node<K: Ord, V>(n: Box<RBTreeNode<K, V>>)
    requires
        sorted(inorder(Some(n))),
    ensures
        sorted(inorder(n.left)),
        sorted(inorder(n.right)),
        all_le(inorder(n.left), n.key),
        all_ge(inorder(n.right), n.key),
{
    let l = inorder(n.left);
    let r = inorder(n.right);
    let s = inorder(Some(n));
    assert(s == l + seq![(n.key, n.value)] + r);
    assert(s[l.len() as int].0 == n.key);
    assert forall|i: int, j: int| 0 <= i < j < l.len() implies le(#[trigger] l[i].0, #[trigger] l[j].0) by {
        assert(s[i] == l[i] && s[j] == l[j]);
    }
    assert forall|i: int, j: int| 0 <= i < j < r.len() implies le(#[trigger] r[i].0, #[trigger] r[j].0) by {
        assert(s[l.len() + 1 + i] == r[i] && s[l.len() + 1 + j] == r[j]);
    }
    assert forall|i: int| 0 <= i < l.len() implies le(#[trigger] l[i].0, n.key) by {
        assert(s[i] == l[i]);
    }
    assert forall|i: int| 0 <= i < r.len() implies le(n.key, #[trigger] r[i].0) by {
        assert(s[l.len() + 1 + i] == r[i]);
    }
}

/// Inserting an entry at a place where everything before has a key at most
/// its key and everything after a greater key keeps a sequence sorted.
pub proof fn lemma_sorted_insert<K: Ord, V>(s: Seq<(K, V)>, p: int, e: (K, V))
    requires
        order_facts::<K>(),
        sorted(s),
        0 <= p <= s.len(),
        forall|i: int| 0 <= i < p ==> le(#[trigger] s[i].0, e.0),
        forall|i: int| p <= i < s.len() ==> lt(e.0, #[trigger] s[i].0),
    ensures
        sorted(s.insert(p, e)),
{
    let t = s.insert(p, e);
    assert forall|i: int, j: int| 0 <= i < j < t.len() implies le(#[trigger] t[i].0, #[trigger] t[j].0) by {
        if j < p {
            assert(t[i] == s[i] && t[j] == s[j]);
        } else if j == p {
            assert(t[i] == s[i]);
        } else if i < p {
            assert(t[i] == s[i] && t[j] == s[j - 1]);
        } else if i == p {
            assert(t[j] == s[j - 1]);
            assert(lt(e.0, s[j - 1].0));
        } else {
            assert(t[i] == s[i - 1] && t[j] == s[j - 1]);
        }
    }
}

/// Removing an entry keeps a sequence sorted.
pub proof fn lemma_sorted_remove<K: Ord, V>(s: Seq<(K, V)>, p: int)
    requires
        sorted(s),
        0 <= p < s.len(),
    ensures
        sorted(s.remove(p)),
{
    let t = s.remove(p);
    assert forall|i: int, j: int| 0 <= i < j < t.len() implies le(#[trigger] t[i].0, #[trigger] t[j].0) by {
        let oi = if i < p { i } else { i + 1 };
        let oj = if j < p { j } else { j + 1 };
        assert(t[i] == s[oi] && t[j] == s[oj]);
    }
}

/// Changing the value of one entry keeps a sequence sorted.
pub proof fn lemma_sorted_update_value<K: Ord, V>(s: Seq<(K, V)>, p: int, v: V)
    requires
        sorted(s),
        0 <= p < s.len(),
    ensures
        sorted(s.update(p, (s[p].0, v))),
{
    let t = s.update(p, (s[p].0, v));
    assert forall|i: int, j: int| 0 <= i < j < t.len() implies le(#[trigger] t[i].0, #[trigger] t[j].0) by {
        assert(t[i].0 == s[i].0 && t[j].0 == s[j].0);
    }
}

} // verus!
