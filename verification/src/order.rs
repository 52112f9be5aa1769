//! The order on keys: what `Ord` promises, stated over `cmp_spec`, and an
//! executable three-way comparison that reports it.
use vstd::prelude::*;
use vstd::laws_cmp::obeys_cmp;
use vstd::laws_cmp::obeys_partial_cmp_spec_properties;
use vstd::laws_cmp::obeys_cmp_ord;
use vstd::laws_eq::obeys_eq_spec_properties;
use core::cmp::Ordering;
use vstd::std_specs::cmp::OrdSpec;
use vstd::std_specs::cmp::PartialOrdSpec;

verus! {

/// The result of comparing two keys.
#[derive(Debug, Clone, Copy, PartialEq, Eq, Structural)]
pub enum KeyOrder {
    Less,
    Equal,
    Greater,
}

/// The key type's `Ord` implementation is a total order, as `Ord` documents.
pub open spec fn total_order<K: Ord>() -> bool {
    obeys_cmp::<K>()
}

/// `a` comes strictly before `b`.
pub open spec fn lt<K: Ord>(a: K, b: K) -> bool {
    a.cmp_spec(&b) == Ordering::Less
}

/// `a` and `b` compare equal.
pub open spec fn eqk<K: Ord>(a: K, b: K) -> bool {
    a.cmp_spec(&b) == Ordering::Equal
}

/// `a` does not come after `b`.
pub open spec fn le<K: Ord>(a: K, b: K) -> bool {
    !lt(b, a)
}

/// What comparing `a` with `b` gives.
pub open spec fn key_order<K: Ord>(a: K, b: K) -> KeyOrder {
    if lt(a, b) {
        KeyOrder::Less
    } else if eqk(a, b) {
        KeyOrder::Equal
    } else {
        KeyOrder::Greater
    }
}

/// The facts about a total order that the tree's proofs use.
pub open spec fn order_facts<K: Ord>() -> bool {
    &&& forall|a: K| #[trigger] eqk(a, a)
    &&& forall|a: K, b: K| #[trigger] lt(a, b) ==> !eqk(a, b) && !lt(b, a)
    &&& forall|a: K, b: K| #[trigger] eqk(a, b) ==> eqk(b, a)
    &&& forall|a: K, b: K| lt(a, b) || eqk(a, b) || #[trigger] lt(b, a)
    &&& forall|a: K, b: K, c: K| #[trigger] le(a, b) && #[trigger] le(b, c) ==> le(a, c)
    &&& forall|a: K, b: K, c: K| #[trigger] lt(a, b) && #[trigger] le(b, c) ==> lt(a, c)
    &&& forall|a: K, b: K, c: K| #[trigger] le(a, b) && #[trigger] lt(b, c) ==> lt(a, c)
    &&& forall|a: K, b: K, c: K| #[trigger] eqk(a, b) && #[trigger] lt(b, c) ==> lt(a, c)
    &&& forall|a: K, b: K, c: K| #[trigger] lt(a, b) && #[trigger] eqk(b, c) ==> lt(a, c)
}

/// For any three keys, `partial_cmp` agrees with `cmp` on each ordered pair.
proof fn lemma_orders_agree<K: Ord>(a: K, b: K, c: K)
    requires
        total_order::<K>(),
    ensures
        a.partial_cmp_spec(&b) == Some(a.cmp_spec(&b)),
        b.partial_cmp_spec(&a) == Some(b.cmp_spec(&a)),
        b.partial_cmp_spec(&c) == Some(b.cmp_spec(&c)),
        c.partial_cmp_spec(&b) == Some(c.cmp_spec(&b)),
        a.partial_cmp_spec(&c) == Some(a.cmp_spec(&c)),
        c.partial_cmp_spec(&a) == Some(c.cmp_spec(&a)),
{
    reveal(obeys_cmp_ord);
}

/// A total order has the facts above.
pub proof fn lemma_order_facts<K: Ord>()
    requires
        total_order::<K>(),
    ensures
        order_facts::<K>(),
{
    reveal(obeys_partial_cmp_spec_properties);
    reveal(obeys_eq_spec_properties);
    assert forall|a: K| #[trigger] eqk(a, a) by {
        lemma_orders_agree(a, a, a);
    }
    assert forall|a: K, b: K| #[trigger] lt(a, b) implies !eqk(a, b) && !lt(b, a) by {
        lemma_orders_agree(a, b, b);
    }
    assert forall|a: K, b: K| #[trigger] eqk(a, b) implies eqk(b, a) by {
        lemma_orders_agree(a, b, b);
    }
    assert forall|a: K, b: K| lt(a, b) || eqk(a, b) || #[trigger] lt(b, a) by {
        lemma_orders_agree(a, b, b);
    }
    assert forall|a: K, b: K, c: K| #[trigger] lt(a, b) && #[trigger] le(b, c) implies lt(a, c) by {
        lemma_orders_agree(a, b, c);
    }
    assert forall|a: K, b: K, c: K| #[trigger] le(a, b) && #[trigger] lt(b, c) implies lt(a, c) by {
        lemma_orders_agree(a, b, c);
    }
    assert forall|a: K, b: K, c: K| #[trigger] le(a, b) && #[trigger] le(b, c) implies le(a, c) by {
        lemma_orders_agree(a, b, c);
    }
    assert forall|a: K, b: K, c: K| #[trigger] eqk(a, b) && #[trigger] lt(b, c) implies lt(a, c) by {
        lemma_orders_agree(a, b, c);
    }
    assert forall|a: K, b: K, c: K| #[trigger] lt(a, b) && #[trigger] eqk(b, c) implies lt(a, c) by {
        lemma_orders_agree(a, b, c);
    }
}

/// Compares two keys with their `Ord` implementation.
pub fn compare<K: Ord>(a: &K, b: &K) -> (r: KeyOrder)
    requires
        total_order::<K>(),
    ensures
        r == key_order(*a, *b),
{
    proof {
        reveal(obeys_cmp_ord);
    }
    match a.cmp(b) {
        Ordering::Less => KeyOrder::Less,
        Ordering::Equal => KeyOrder::Equal,
        Ordering::Greater => KeyOrder::Greater,
    }
}

} // verus!
