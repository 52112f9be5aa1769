//! The red-black tree map: an ordered sequence of entries, kept sorted by
//! key and balanced.
use vstd::prelude::*;
use crate::order::{eqk, le, lt, total_order, lemma_order_facts};
use crate::node::{RBTreeNode, Color, inorder, sorted, rb, is_red, black_height, lemma_rb_size_height, preorder, tree_print, deep_clone, entries_cloned, blackened, black_clone_of, all_black, lemma_preorder_len};
use vstd::arithmetic::power2::{pow2, lemma_pow2_strictly_increases};
use crate::seqs::{lemma_sorted_insert, lemma_sorted_remove, lemma_sorted_update_value};
use crate::insert::{insert_node, ins_pos, lemma_ins_pos, inserted};
use crate::search::{
    find_index, has_key, lemma_find_index, lemma_with_value_at, with_value_at, find_node, find_value_mut,
    first_child, last_child, first_child_mut, last_child_mut,
};
use crate::sorting::{
    is_insert_position, insert_sorted, lemma_insert_sorted_position, lemma_insert_position_unique,
    insertion_sorted, with_key, lemma_insertion_sorted, unique_keys, lemma_unique_keys_insert,
    lemma_unique_keys_update,
};
use crate::delete::{delete_min, delete_max, remove_key, min_removed, max_removed, key_removed};

verus! {

/// A map from keys to values, kept as a red-black tree. Entries are ordered
/// by key; `insert` allows several entries with keys that compare equal,
/// `check_and_insert` replaces the value of an existing one.
pub struct RedBlackTree<K: Ord, V> {
    root: Option<Box<RBTreeNode<K, V>>>,
    len: usize,
}

impl<K: Ord, V> View for RedBlackTree<K, V> {
    type V = Seq<(K, V)>;

    /// The entries of the tree in ascending key order.
    open spec fn view(&self) -> Seq<(K, V)> {
        inorder(self.tree())
    }
}

impl<K: Ord, V> RedBlackTree<K, V> {
    /// The number of entries the tree records, which `len` returns.
    pub closed spec fn length(&self) -> nat {
        self.len as nat
    }

    /// A valid tree records exactly as many entries as it holds.
    pub proof fn lemma_length(&self)
        requires
            self.wf(),
        ensures
            self.length() == self@.len(),
    {
    }

    /// The tree itself: its nodes, their colours and its shape.
    pub closed spec fn tree(&self) -> Option<Box<RBTreeNode<K, V>>> {
        self.root
    }

    /// The tree's invariant: the key type is totally ordered, the entries
    /// are sorted, the red-black properties hold with a black root, and the
    /// stored length is the number of entries.
    pub closed spec fn wf(&self) -> bool {
        &&& total_order::<K>()
        &&& sorted(inorder(self.root))
        &&& rb(self.root)
        &&& !is_red(self.root)
        &&& self.len == inorder(self.root).len()
    }

    /// The index (in `self@`) of the entry at which a search for `k` stops,
    /// or `-1`. Among entries whose keys compare equal to `k`, this is the
    /// one that `get`, `get_mut`, `check_and_insert` and `del_node` act on.
    pub open spec fn search_index(&self, k: K) -> int {
        find_index(self.tree(), k)
    }

    /// The number of nodes on the longest path from the root down.
    pub open spec fn height(&self) -> nat {
        crate::node::height(self.tree())
    }

    /// The tree's entries are always in ascending key order, and its key
    /// type is totally ordered.
    pub proof fn lemma_sorted(&self)
        requires
            self.wf(),
        ensures
            sorted(self@),
            total_order::<K>(),
    {
    }

    /// The tree stays balanced: a tree of height `h` holds at least
    /// `2^ceil(h/2) - 1` entries, so its height is at most twice the base-2
    /// logarithm of its number of entries plus one.
    pub proof fn lemma_balanced(&self)
        requires
            self.wf(),
        ensures
            pow2((self.height() + 1) / 2) <= self@.len() + 1,
    {
        lemma_rb_size_height(self.root);
        let b = black_height(self.root);
        let h = (self.height() + 1) / 2;
        assert(h <= b);
        if h < b {
            lemma_pow2_strictly_increases(h, b);
        }
    }

    /// A search for `k` stops at an entry exactly when some entry's key
    /// compares equal to `k`, and then at such an entry.
    pub proof fn lemma_search_index(&self, k: K)
        requires
            self.wf(),
        ensures
            has_key(self@, k) <==> self.search_index(k) >= 0,
            has_key(self@, k) ==> 0 <= self.search_index(k) < self@.len() && eqk(
                self@[self.search_index(k)].0,
                k,
            ),
            !has_key(self@, k) ==> self.search_index(k) == -1,
    {
        lemma_order_facts::<K>();
        lemma_find_index(self.root, k);
    }

    /// When exactly one entry's key compares equal to `k`, the search for
    /// `k` stops at that entry.
    pub proof fn lemma_search_index_unique(&self, k: K, i: int)
        requires
            self.wf(),
            0 <= i < self@.len(),
            eqk(self@[i].0, k),
            forall|j: int| 0 <= j < self@.len() && j != i ==> !eqk(#[trigger] self@[j].0, k),
        ensures
            self.search_index(k) == i,
    {
        self.lemma_search_index(k);
    }

    /// Removing a key that was just inserted, when no key equal to it was
    /// there before, gives back the inserted value and the entries there
    /// were before.
    pub proof fn lemma_remove_undoes_insert(before: &Self, after: &Self, k: K, v: V)
        requires
            before.wf(),
            after.wf(),
            !has_key(before@, k),
            exists|p: int|
                is_insert_position(before@, k, p) && after@ == before@.insert(p, (k, v)),
        ensures
            has_key(after@, k),
            after@[after.search_index(k)] == (k, v),
            after@.remove(after.search_index(k)) == before@,
    {
        lemma_order_facts::<K>();
        let p = choose|p: int| is_insert_position(before@, k, p) && after@ == before@.insert(p, (k, v));
        let s = before@;
        let t = after@;
        assert(t[p] == (k, v));
        assert(eqk(k, k));
        assert(eqk(t[p].0, k));
        assert forall|j: int| 0 <= j < t.len() && j != p implies !eqk(#[trigger] t[j].0, k) by {
            if j < p {
                assert(t[j] == s[j]);
            } else {
                assert(t[j] == s[j - 1]);
            }
            if eqk(t[j].0, k) {
                assert(has_key(s, k));
            }
        }
        after.lemma_search_index_unique(k, p);
        assert(t.remove(p) =~= s);
    }

    /// A tree that holds the entries inserted one by one with `insert` (see
    /// `insert`'s contract and `lemma_insertion_sorted_push`) holds them
    /// sorted stably by key; `pop_first` then returns them in that order.
    pub proof fn lemma_inserts_sort(&self, entries: Seq<(K, V)>)
        requires
            self.wf(),
            self@ == insertion_sorted(entries),
        ensures
            sorted(self@),
            self@.len() == entries.len(),
            forall|k: K| #[trigger] with_key(self@, k) == with_key(entries, k),
    {
        lemma_insertion_sorted(entries);
    }

    /// Inserting a key less than every key in the tree puts its entry
    /// first: `pop_first` then returns it and leaves the entries there were
    /// before.
    pub proof fn lemma_insert_least(before: &Self, after: &Self, k: K, v: V)
        requires
            before.wf(),
            forall|i: int| 0 <= i < before@.len() ==> lt(k, #[trigger] before@[i].0),
            after@ == insert_sorted(before@, (k, v)),
        ensures
            after@[0] == (k, v),
            after@.drop_first() == before@,
    {
        lemma_order_facts::<K>();
        let s = before@;
        let p = lemma_insert_sorted_position(s, (k, v));
        assert(is_insert_position(s, k, 0));
        lemma_insert_position_unique(s, k, p, 0);
        assert(s.insert(0, (k, v)).drop_first() =~= s);
    }

    /// Creates an empty `RedBlackTree`.
    pub fn new() -> (t: RedBlackTree<K, V>)
        requires
            total_order::<K>(),
        ensures
            t.wf(),
            t@ == Seq::<(K, V)>::empty(),
            t.tree() is None,
            unique_keys(t@),
    {
        RedBlackTree { root: None, len: 0 }
    }

    /// Returns the len of `RedBlackTree`.
    pub fn len(&self) -> (r: usize)
        ensures
            r == self.length(),
            self.wf() ==> r == self@.len(),
    {
        self.len
    }

    /// Returns `true` if the `RedBlackTree` is empty.
    pub fn is_empty(&self) -> (r: bool)
        requires
            self.wf(),
        ensures
            r == (self@.len() == 0),
    {
        self.root.is_none()
    }

    /// Inserts the entry `(k, v)`, after every entry whose key is at most
    /// `k`. An entry with an equal key is not replaced: both stay.
    pub fn insert(&mut self, k: K, v: V)
        requires
            old(self).wf(),
            old(self)@.len() < usize::MAX,
        ensures
            final(self).wf(),
            exists|p: int|
                is_insert_position(old(self)@, k, p) && final(self)@ == old(self)@.insert(p, (k, v)),
            has_key(final(self)@, k),
            final(self)@.len() == old(self)@.len() + 1,
            final(self)@ == insert_sorted(old(self)@, (k, v)),
            final(self).tree() == blackened(Some(inserted(old(self).tree(), k, v))),
    {
        proof {
            lemma_order_facts::<K>();
            lemma_ins_pos(self.root, k);
            lemma_sorted_insert(inorder(self.root), ins_pos(self.root, k), (k, v));
        }
        let ghost p = ins_pos(self.root, k);
        let ghost s = inorder(self.root);
        self.len = self.len + 1;
        let root = self.root.take();
        let ghost kk = k;
        let mut r = insert_node(root, k, v);
        r.color = Color::Black;
        self.root = Some(r);
        proof {
            assert(inorder(self.root) == s.insert(p, (kk, v)));
            assert(is_insert_position(s, kk, p));
            assert(s.insert(p, (kk, v))[p].0 == kk);
            assert(eqk(kk, kk));
            let q = lemma_insert_sorted_position(s, (kk, v));
            lemma_insert_position_unique(s, kk, p, q);
        }
    }

    /// If an entry whose key compares equal to `k` is found, replaces its
    /// value with `v` and returns the old value; otherwise inserts `(k, v)`
    /// and returns `None`.
    pub fn check_and_insert(&mut self, k: K, v: V) -> (r: Option<V>)
        requires
            old(self).wf(),
            !has_key(old(self)@, k) ==> old(self)@.len() < usize::MAX,
        ensures
            final(self).wf(),
            has_key(old(self)@, k) ==> {
                let i = old(self).search_index(k);
                &&& r == Some(old(self)@[i].1)
                &&& final(self)@ == old(self)@.update(i, (old(self)@[i].0, v))
                &&& final(self).search_index(k) == i
                &&& final(self).tree() == with_value_at(old(self).tree(), i, v)
            },
            !has_key(old(self)@, k) ==> {
                &&& r is None
                &&& final(self)@ == insert_sorted(old(self)@, (k, v))
                &&& final(self).tree() == blackened(Some(inserted(old(self).tree(), k, v)))
                &&& exists|p: int|
                    is_insert_position(old(self)@, k, p) && final(self)@ == old(self)@.insert(
                        p,
                        (k, v),
                    )
            },
            has_key(final(self)@, k),
            eqk(final(self)@[final(self).search_index(k)].0, k),
            final(self)@[final(self).search_index(k)].1 == v,
            unique_keys(old(self)@) ==> unique_keys(final(self)@),
    {
        proof {
            lemma_order_facts::<K>();
            lemma_find_index(self.root, k);
        }
        let ghost s = inorder(self.root);
        let ghost i = find_index(self.root, k);
        let found = find_value_mut(&mut self.root, &k);
        match found {
            Some(slot) => {
                let mut v = v;
                std::mem::swap(slot, &mut v);
                proof {
                    lemma_with_value_at(old(self).root, i, *slot, k);
                    lemma_sorted_update_value(s, i, *slot);
                    assert(self.root == crate::search::with_value_at(old(self).root, i, *slot));
                }
                proof {
                    lemma_find_index(self.root, k);
                    if unique_keys(s) {
                        lemma_unique_keys_update(s, i, *slot);
                    }
                }
                Some(v)
            },
            None => {
                let ghost kk = k;
                self.insert(k, v);
                proof {
                    lemma_find_index(self.root, kk);
                    let t = inorder(self.root);
                    let p = choose|p: int|
                        is_insert_position(s, kk, p) && t == s.insert(p, (kk, v));
                    let j = find_index(self.root, kk);
                    assert(eqk(t[j].0, kk));
                    if j != p {
                        if j < p {
                            assert(t[j] == s[j]);
                            assert(has_key(s, kk));
                        } else {
                            assert(t[j] == s[j - 1]);
                            assert(has_key(s, kk));
                        }
                    }
                    if unique_keys(s) {
                        lemma_unique_keys_insert(s, p, (kk, v));
                    }
                }
                None
            },
        }
    }

    /// Finds the node at which the search for `k` stops (see
    /// `search_index`), if any.
    fn find_node(&self, k: &K) -> (r: Option<&RBTreeNode<K, V>>)
        requires
            self.wf(),
        ensures
            has_key(self@, *k) ==> r is Some && (r.unwrap().key, r.unwrap().value)
                == self@[self.search_index(*k)],
            !has_key(self@, *k) ==> r is None,
    {
        proof {
            lemma_order_facts::<K>();
            lemma_find_index(self.root, *k);
        }
        find_node(&self.root, k)
    }

    /// The value of the entry whose key compares equal to `k`, if any.
    pub fn get(&self, k: &K) -> (r: Option<&V>)
        requires
            self.wf(),
        ensures
            has_key(self@, *k) ==> r is Some && *r.unwrap() == self@[self.search_index(*k)].1,
            !has_key(self@, *k) ==> r is None,
    {
        match self.find_node(k) {
            None => None,
            Some(n) => Some(&n.value),
        }
    }

    /// Whether some entry's key compares equal to `k`.
    pub fn contains_key(&self, k: &K) -> (r: bool)
        requires
            self.wf(),
        ensures
            r == has_key(self@, *k),
    {
        let node = self.find_node(k);
        if node.is_none() {
            return false;
        }
        true
    }

    /// The value of the entry whose key compares equal to `k`, if any, for
    /// changing in place; the entry's key and place stay.
    pub fn get_mut(&mut self, k: &K) -> (r: Option<&mut V>)
        requires
            old(self).wf(),
        ensures
            final(self).wf(),
            !has_key(old(self)@, *k) ==> r is None && final(self).tree() == old(self).tree(),
            has_key(old(self)@, *k) ==> match r {
                None => false,
                Some(v) => {
                    let i = old(self).search_index(*k);
                    &&& *v == old(self)@[i].1
                    &&& final(self)@ == old(self)@.update(i, (old(self)@[i].0, *final(v)))
                    &&& final(self).search_index(*k) == i
                    &&& final(self).tree() == with_value_at(old(self).tree(), i, *final(v))
                },
            },
    {
        proof {
            lemma_order_facts::<K>();
            lemma_find_index(self.root, *k);
        }
        let ghost s = inorder(self.root);
        let ghost i = find_index(self.root, *k);
        let ghost len = self.len;
        match find_value_mut(&mut self.root, k) {
            None => None,
            Some(v) => {
                proof {
                    lemma_with_value_at(old(self).root, i, *final(v), *k);
                    lemma_sorted_update_value(s, i, *final(v));
                }
                Some(v)
            },
        }
    }

    /// The first entry (one with the least key), if any.
    pub fn get_first(&self) -> (r: Option<(&K, &V)>)
        requires
            self.wf(),
        ensures
            self@.len() == 0 ==> r is None,
            self@.len() > 0 ==> r is Some && (*r.unwrap().0, *r.unwrap().1) == self@[0],
            r is Some ==> forall|i: int| 0 <= i < self@.len() ==> le(*r.unwrap().0, #[trigger] self@[i].0),
    {
        let r = first_child(&self.root);
        proof {
            lemma_order_facts::<K>();
        }
        r
    }

    /// The last entry (one with the greatest key), if any.
    pub fn get_last(&self) -> (r: Option<(&K, &V)>)
        requires
            self.wf(),
        ensures
            self@.len() == 0 ==> r is None,
            self@.len() > 0 ==> r is Some && (*r.unwrap().0, *r.unwrap().1) == self@.last(),
            r is Some ==> forall|i: int| 0 <= i < self@.len() ==> le(#[trigger] self@[i].0, *r.unwrap().0),
    {
        let r = last_child(&self.root);
        proof {
            lemma_order_facts::<K>();
        }
        r
    }

    /// The first entry (one with the least key), if any, with its value for
    /// changing in place.
    pub fn get_first_mut(&mut self) -> (r: Option<(&K, &mut V)>)
        requires
            old(self).wf(),
        ensures
            final(self).wf(),
            old(self)@.len() == 0 ==> r is None && final(self).tree() == old(self).tree(),
            old(self)@.len() > 0 ==> match r {
                None => false,
                Some((kr, vr)) => {
                    &&& (*kr, *vr) == old(self)@[0]
                    &&& final(self)@ == old(self)@.update(0, (old(self)@[0].0, *final(vr)))
                    &&& final(self).tree() == with_value_at(old(self).tree(), 0, *final(vr))
                },
            },
    {
        let ghost s = inorder(self.root);
        match first_child_mut(&mut self.root) {
            None => None,
            Some((kr, vr)) => {
                proof {
                    lemma_with_value_at(old(self).root, 0, *final(vr), *kr);
                    lemma_sorted_update_value(s, 0, *final(vr));
                }
                Some((kr, vr))
            },
        }
    }

    /// The last entry (one with the greatest key), if any, with its value
    /// for changing in place.
    pub fn get_last_mut(&mut self) -> (r: Option<(&K, &mut V)>)
        requires
            old(self).wf(),
        ensures
            final(self).wf(),
            old(self)@.len() == 0 ==> r is None && final(self).tree() == old(self).tree(),
            old(self)@.len() > 0 ==> match r {
                None => false,
                Some((kr, vr)) => {
                    let i = old(self)@.len() - 1;
                    &&& (*kr, *vr) == old(self)@[i]
                    &&& final(self)@ == old(self)@.update(i, (old(self)@[i].0, *final(vr)))
                    &&& final(self).tree() == with_value_at(old(self).tree(), i, *final(vr))
                },
            },
    {
        let ghost s = inorder(self.root);
        match last_child_mut(&mut self.root) {
            None => None,
            Some((kr, vr)) => {
                proof {
                    lemma_with_value_at(old(self).root, s.len() - 1, *final(vr), *kr);
                    lemma_sorted_update_value(s, s.len() - 1, *final(vr));
                }
                Some((kr, vr))
            },
        }
    }

    /// Removes and returns the first entry (one with the least key), if any.
    pub fn pop_first(&mut self) -> (r: Option<(K, V)>)
        requires
            old(self).wf(),
        ensures
            final(self).wf(),
            old(self)@.len() == 0 ==> r is None && final(self).tree() == old(self).tree(),
            old(self)@.len() > 0 ==> r == Some(old(self)@[0]) && final(self)@ == old(self)@.drop_first(),
            old(self)@.len() > 0 ==> final(self).tree() == min_removed(old(self).tree().unwrap()).0,
            r is Some ==> forall|i: int|
                0 <= i < old(self)@.len() ==> le(r.unwrap().0, #[trigger] old(self)@[i].0),
    {
        let root = self.root.take();
        match root {
            None => None,
            Some(n) => {
                let (r, pair, _shrunk) = delete_min(n);
                self.root = r;
                self.len = self.len - 1;
                proof {
                    lemma_order_facts::<K>();
                    lemma_sorted_remove(old(self)@, 0);
                    assert(old(self)@.remove(0) =~= old(self)@.drop_first());
                }
                Some(pair)
            },
        }
    }

    /// Removes and returns the last entry (one with the greatest key), if any.
    pub fn pop_last(&mut self) -> (r: Option<(K, V)>)
        requires
            old(self).wf(),
        ensures
            final(self).wf(),
            old(self)@.len() == 0 ==> r is None && final(self).tree() == old(self).tree(),
            old(self)@.len() > 0 ==> r == Some(old(self)@.last()) && final(self)@ == old(self)@.drop_last(),
            old(self)@.len() > 0 ==> final(self).tree() == max_removed(old(self).tree().unwrap()).0,
            r is Some ==> forall|i: int|
                0 <= i < old(self)@.len() ==> le(#[trigger] old(self)@[i].0, r.unwrap().0),
    {
        let root = self.root.take();
        match root {
            None => None,
            Some(n) => {
                let (r, pair, _shrunk) = delete_max(n);
                self.root = r;
                self.len = self.len - 1;
                proof {
                    lemma_order_facts::<K>();
                    lemma_sorted_remove(old(self)@, old(self)@.len() - 1);
                    assert(old(self)@.remove(old(self)@.len() - 1) =~= old(self)@.drop_last());
                }
                Some(pair)
            },
        }
    }

    /// The value of the entry whose key compares equal to `k`, which must
    /// exist.
    pub fn index(&self, k: &K) -> (r: &V)
        requires
            self.wf(),
            has_key(self@, *k),
        ensures
            *r == self@[self.search_index(*k)].1,
    {
        self.get(k).unwrap()
    }

    /// The entries with their colours, in pre-order (each node before its
    /// left subtree, and that before its right subtree).
    pub open spec fn preorder_view(&self) -> Seq<(K, V, Color)> {
        preorder(self.tree())
    }

    /// Lists the entries with their colours, in pre-order (each node before
    /// its left subtree, and that before its right subtree).
    pub fn preorder(&self) -> (r: Vec<(&K, &V, Color)>)
        ensures
            r@.len() == self.preorder_view().len(),
            r@.len() == self@.len(),
            forall|i: int|
                0 <= i < r@.len() ==> (*(#[trigger] r@[i]).0, *r@[i].1, r@[i].2)
                    == self.preorder_view()[i],
    {
        let mut out: Vec<(&K, &V, Color)> = Vec::new();
        tree_print(&self.root, &mut out);
        proof {
            lemma_preorder_len(self.root);
            assert forall|i: int| 0 <= i < out@.len() implies (*(#[trigger] out@[i]).0, *out@[i].1, out@[i].2)
                == self.preorder_view()[i] by {
                assert(out@[0 + i] == out@[i]);
            }
        }
        out
    }

    /// Removes every entry.
    pub fn clear(&mut self)
        requires
            old(self).wf(),
        ensures
            final(self).wf(),
            final(self)@ == Seq::<(K, V)>::empty(),
            final(self).tree() is None,
    {
        self.root = None;
        self.len = 0;
    }

    /// Removes the entry whose key compares equal to `k` (see
    /// `search_index`) and returns its value; `None`, with the tree
    /// unchanged, when there is none.
    pub fn del_node(&mut self, k: &K) -> (r: Option<V>)
        requires
            old(self).wf(),
        ensures
            final(self).wf(),
            !has_key(old(self)@, *k) ==> r is None && final(self).tree() == old(self).tree(),
            has_key(old(self)@, *k) ==> {
                let i = old(self).search_index(*k);
                &&& r == Some(old(self)@[i].1)
                &&& final(self)@ == old(self)@.remove(i)
            },
            final(self).tree() == key_removed(old(self).tree(), *k).0,
    {
        proof {
            lemma_order_facts::<K>();
            lemma_find_index(self.root, *k);
        }
        let root = self.root.take();
        let (r, removed, _shrunk) = remove_key(root, k);
        self.root = r;
        match removed {
            None => None,
            Some(pair) => {
                self.len = self.len - 1;
                proof {
                    lemma_sorted_remove(old(self)@, old(self).search_index(*k));
                }
                Some(pair.1)
            },
        }
    }
}

impl<K: Ord + Clone, V: Clone> Clone for RedBlackTree<K, V> {
    /// A copy of the tree, node by node, with each key and value cloned and
    /// every node of the copy black. A copy of a tree with a red node thus
    /// has unequal black heights and is no red-black tree; when the tree has
    /// no red node and the keys' clones equal them, the copy satisfies the
    /// tree's invariant.
    fn clone(&self) -> (r: Self)
        ensures
            black_clone_of(self.tree(), r.tree()),
            entries_cloned(self@, r@),
            r@.len() == self@.len(),
            r.length() == self.length(),
            self.wf() ==> r.length() == self@.len() && r.length() == r@.len(),
            self.wf() && all_black(self.tree()) && (forall|i: int|
                0 <= i < self@.len() ==> #[trigger] r@[i].0 == self@[i].0) ==> r.wf(),
    {
        let root = deep_clone(&self.root);
        let r = RedBlackTree { root, len: self.len };
        proof {
            if self.wf() && all_black(self.root) && (forall|i: int|
                0 <= i < self@.len() ==> #[trigger] r@[i].0 == self@[i].0) {
                assert(sorted(inorder(r.root))) by {
                    let rs = inorder(r.root);
                    assert forall|i: int, j: int| 0 <= i < j < rs.len() implies le(
                        #[trigger] rs[i].0,
                        #[trigger] rs[j].0,
                    ) by {
                        assert(r@[i].0 == self@[i].0 && r@[j].0 == self@[j].0);
                        assert(sorted(inorder(self.root)));
                        assert(le(inorder(self.root)[i].0, inorder(self.root)[j].0));
                    }
                }
            }
        }
        r
    }
}

} // verus!
