//! Inserting entries one by one sorts them stably: this is what a sequence
//! of `insert` calls does to the tree's entries.
use vstd::prelude::*;
use crate::order::{eqk, lt, le, order_facts, total_order, lemma_order_facts};
use crate::node::sorted;
use crate::seqs::lemma_sorted_insert;
use crate::search::has_key;

verus! {

/// `p` is where inserting an entry with key `k` into `s` puts it: after
/// every entry whose key is at most `k`, before every entry whose key is
/// greater.
pub open spec fn is_insert_position<K: Ord, V>(s: Seq<(K, V)>, k: K, p: int) -> bool {
    &&& 0 <= p <= s.len()
    &&& forall|i: int| 0 <= i < p ==> le(#[trigger] s[i].0, k)
    &&& forall|i: int| p <= i < s.len() ==> lt(k, #[trigger] s[i].0)
}

/// `s` with `e` inserted after every entry whose key is at most `e`'s key
/// (found by walking back from the end).
pub open spec fn insert_sorted<K: Ord, V>(s: Seq<(K, V)>, e: (K, V)) -> Seq<(K, V)>
    decreases s.len(),
{
    if s.len() == 0 {
        seq![e]
    } else if lt(e.0, s.last().0) {
        insert_sorted(s.drop_last(), e).push(s.last())
    } else {
        s.push(e)
    }
}

/// The entries of `s` inserted one by one, first to last, into an empty
/// sequence with `insert_sorted`.
pub open spec fn insertion_sorted<K: Ord, V>(s: Seq<(K, V)>) -> Seq<(K, V)>
    decreases s.len(),
{
    if s.len() == 0 {
        Seq::empty()
    } else {
        insert_sorted(insertion_sorted(s.drop_last()), s.last())
    }
}

/// The entries of `s` whose keys compare equal to `k`, in their order in `s`.
pub open spec fn with_key<K: Ord, V>(s: Seq<(K, V)>, k: K) -> Seq<(K, V)> {
    s.filter(|e: (K, V)| eqk(e.0, k))
}

/// Inserting one more entry extends the one-by-one insertion.
pub proof fn lemma_insertion_sorted_push<K: Ord, V>(s: Seq<(K, V)>, e: (K, V))
    ensures
        insertion_sorted(s.push(e)) == insert_sorted(insertion_sorted(s), e),
{
    assert(s.push(e).drop_last() =~= s);
}

/// In a sorted sequence there is only one insertion position for a key.
pub proof fn lemma_insert_position_unique<K: Ord, V>(s: Seq<(K, V)>, k: K, p: int, q: int)
    requires
        is_insert_position(s, k, p),
        is_insert_position(s, k, q),
    ensures
        p == q,
{
    if p < q {
        assert(le(s[p].0, k) && lt(k, s[p].0));
    } else if q < p {
        assert(le(s[q].0, k) && lt(k, s[q].0));
    }
}

/// In a sorted sequence, `insert_sorted` inserts at the insertion position.
pub proof fn lemma_insert_sorted_position<K: Ord, V>(s: Seq<(K, V)>, e: (K, V)) -> (p: int)
    requires
        order_facts::<K>(),
        sorted(s),
    ensures
        is_insert_position(s, e.0, p),
        insert_sorted(s, e) == s.insert(p, e),
    decreases s.len(),
{
    if s.len() == 0 {
        assert(seq![e] =~= s.insert(0, e));
        0
    } else if lt(e.0, s.last().0) {
        let d = s.drop_last();
        assert forall|i: int, j: int| 0 <= i < j < d.len() implies le(#[trigger] d[i].0, #[trigger] d[j].0) by {
            assert(d[i] == s[i] && d[j] == s[j]);
        }
        let q = lemma_insert_sorted_position(d, e);
        assert(d.insert(q, e).push(s.last()) =~= s.insert(q, e));
        assert forall|i: int| q <= i < s.len() implies lt(e.0, #[trigger] s[i].0) by {
            if i < d.len() {
                assert(s[i] == d[i]);
            }
        }
        assert forall|i: int| 0 <= i < q implies le(#[trigger] s[i].0, e.0) by {
            assert(s[i] == d[i]);
        }
        q
    } else {
        assert forall|i: int| 0 <= i < s.len() implies le(#[trigger] s[i].0, e.0) by {
            if i < s.len() - 1 {
                assert(le(s[i].0, s[s.len() - 1].0));
            }
        }
        assert(s.push(e) =~= s.insert(s.len() as int, e));
        s.len() as int
    }
}

/// The entries with a key equal to `k` after `insert_sorted` are those
/// before, followed by `e` when its key is equal to `k`.
pub proof fn lemma_with_key_insert_sorted<K: Ord, V>(s: Seq<(K, V)>, e: (K, V), k: K)
    requires
        order_facts::<K>(),
    ensures
        with_key(insert_sorted(s, e), k) == if eqk(e.0, k) {
            with_key(s, k).push(e)
        } else {
            with_key(s, k)
        },
    decreases s.len(),
{
    let pred = |x: (K, V)| eqk(x.0, k);
    if s.len() == 0 {
        Seq::<(K, V)>::empty().lemma_filter_push(e, pred);
        assert(Seq::<(K, V)>::empty().push(e) =~= seq![e]);
        assert(s =~= Seq::<(K, V)>::empty());
        reveal(Seq::filter);
    } else if lt(e.0, s.last().0) {
        let d = s.drop_last();
        lemma_with_key_insert_sorted(d, e, k);
        insert_sorted(d, e).lemma_filter_push(s.last(), pred);
        d.lemma_filter_push(s.last(), pred);
        assert(d.push(s.last()) =~= s);
        if eqk(e.0, k) {
            assert(eqk(k, e.0));
            assert(lt(k, s.last().0));
            assert(!eqk(s.last().0, k));
        }
    } else {
        s.lemma_filter_push(e, pred);
    }
}

/// Inserting entries one by one sorts them stably: the result is sorted by
/// key, has as many entries, and for every key the entries with a key equal
/// to it come in the order in which they were inserted (so the result is a
/// permutation of the entries).
pub proof fn lemma_insertion_sorted<K: Ord, V>(s: Seq<(K, V)>)
    requires
        total_order::<K>(),
    ensures
        sorted(insertion_sorted(s)),
        insertion_sorted(s).len() == s.len(),
        forall|k: K| #[trigger] with_key(insertion_sorted(s), k) == with_key(s, k),
    decreases s.len(),
{
    lemma_order_facts::<K>();
    if s.len() > 0 {
        let d = s.drop_last();
        let e = s.last();
        lemma_insertion_sorted(d);
        let out = insertion_sorted(d);
        let p = lemma_insert_sorted_position(out, e);
        lemma_sorted_insert(out, p, e);
        assert(d.push(e) =~= s);
        assert forall|k: K| #[trigger] with_key(insertion_sorted(s), k) == with_key(s, k) by {
            lemma_with_key_insert_sorted(out, e, k);
            d.lemma_filter_push(e, |x: (K, V)| eqk(x.0, k));
            assert(with_key(out, k) == with_key(d, k));
        }
    }
}

/// No two entries of `s` have keys that compare equal: `s` is a map.
pub open spec fn unique_keys<K: Ord, V>(s: Seq<(K, V)>) -> bool {
    forall|i: int, j: int| 0 <= i < j < s.len() ==> !eqk(#[trigger] s[i].0, #[trigger] s[j].0)
}

/// Inserting an entry whose key compares equal to no key of `s` keeps the
/// keys distinct.
pub proof fn lemma_unique_keys_insert<K: Ord, V>(s: Seq<(K, V)>, p: int, e: (K, V))
    requires
        order_facts::<K>(),
        unique_keys(s),
        !has_key(s, e.0),
        0 <= p <= s.len(),
    ensures
        unique_keys(s.insert(p, e)),
{
    let t = s.insert(p, e);
    assert forall|i: int, j: int| 0 <= i < j < t.len() implies !eqk(#[trigger] t[i].0, #[trigger] t[j].0) by {
        if i == p {
            assert(t[j] == s[j - 1]);
            if eqk(t[i].0, t[j].0) {
                assert(eqk(s[j - 1].0, e.0));
            }
        } else if j == p {
            assert(t[i] == s[i]);
        } else {
            let oi = if i < p { i } else { i - 1 };
            let oj = if j < p { j } else { j - 1 };
            assert(t[i] == s[oi] && t[j] == s[oj]);
        }
    }
}

/// Changing the value of one entry keeps the keys distinct.
pub proof fn lemma_unique_keys_update<K: Ord, V>(s: Seq<(K, V)>, i: int, v: V)
    requires
        unique_keys(s),
        0 <= i < s.len(),
    ensures
        unique_keys(s.update(i, (s[i].0, v))),
{
    let t = s.update(i, (s[i].0, v));
    assert forall|a: int, b: int| 0 <= a < b < t.len() implies !eqk(#[trigger] t[a].0, #[trigger] t[b].0) by {
        assert(t[a].0 == s[a].0 && t[b].0 == s[b].0);
    }
}

} // verus!
