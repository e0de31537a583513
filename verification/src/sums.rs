//! Weighted sums over finite maps.
//!
//! The book engine's accounting invariants all say that some counter equals
//! a sum over the live orders: a side's depth is the sum of every resting
//! order's remaining shares, and a price bucket is the same sum restricted
//! to one price. [`map_fsum`] is that sum, weighted by an arbitrary
//! function, and the lemmas here say how it moves under insert, remove and
//! update.

use vstd::prelude::*;

verus! {

/// The sum of `f` over the values of a finite map (0 on infinite maps,
/// which never arise here).
pub open spec fn map_fsum<K, V>(m: Map<K, V>, f: spec_fn(V) -> int) -> int
    decreases m.dom().len(),
    when m.dom().finite()
{
    if m.dom().finite() && m.dom().len() > 0 {
        let k = m.dom().choose();
        f(m[k]) + map_fsum(m.remove(k), f)
    } else {
        0
    }
}

/// Any key's weight can be split off the sum, not just the chosen one.
pub proof fn lemma_map_fsum_remove<K, V>(m: Map<K, V>, f: spec_fn(V) -> int, k: K)
    requires
        m.dom().finite(),
        m.dom().contains(k),
    ensures
        map_fsum(m, f) == f(m[k]) + map_fsum(m.remove(k), f),
    decreases m.dom().len(),
{
    let c = m.dom().choose();
    assert(m.dom().contains(c));
    if c == k {
    } else {
        lemma_map_fsum_remove(m.remove(c), f, k);
        lemma_map_fsum_remove(m.remove(k), f, c);
        assert(m.remove(c).remove(k) =~= m.remove(k).remove(c));
    }
}

/// Inserting a fresh key adds its weight to the sum.
pub proof fn lemma_map_fsum_insert<K, V>(m: Map<K, V>, f: spec_fn(V) -> int, k: K, v: V)
    requires
        m.dom().finite(),
        !m.dom().contains(k),
    ensures
        map_fsum(m.insert(k, v), f) == map_fsum(m, f) + f(v),
{
    lemma_map_fsum_remove(m.insert(k, v), f, k);
    assert(m.insert(k, v).remove(k) =~= m);
}

/// Overwriting a present key moves the sum by the difference of weights.
pub proof fn lemma_map_fsum_update<K, V>(m: Map<K, V>, f: spec_fn(V) -> int, k: K, v: V)
    requires
        m.dom().finite(),
        m.dom().contains(k),
    ensures
        map_fsum(m.insert(k, v), f) == map_fsum(m, f) - f(m[k]) + f(v),
{
    lemma_map_fsum_remove(m, f, k);
    lemma_map_fsum_insert(m.remove(k), f, k, v);
    assert(m.remove(k).insert(k, v) =~= m.insert(k, v));
}

/// A sum of nonnegative weights is nonnegative.
pub proof fn lemma_map_fsum_nonneg<K, V>(m: Map<K, V>, f: spec_fn(V) -> int)
    requires
        m.dom().finite(),
        forall|k: K| m.dom().contains(k) ==> #[trigger] f(m[k]) >= 0,
    ensures
        map_fsum(m, f) >= 0,
    decreases m.dom().len(),
{
    if m.dom().len() > 0 {
        let c = m.dom().choose();
        assert(m.dom().contains(c));
        assert(forall|k: K|
            m.remove(c).dom().contains(k) ==> #[trigger] f(m.remove(c)[k]) >= 0);
        lemma_map_fsum_nonneg(m.remove(c), f);
    }
}

/// With nonnegative weights, the sum dominates any single key's weight.
pub proof fn lemma_map_fsum_bounds_member<K, V>(m: Map<K, V>, f: spec_fn(V) -> int, k: K)
    requires
        m.dom().finite(),
        m.dom().contains(k),
        forall|j: K| m.dom().contains(j) ==> #[trigger] f(m[j]) >= 0,
    ensures
        map_fsum(m, f) >= f(m[k]),
{
    lemma_map_fsum_remove(m, f, k);
    assert(forall|j: K| m.remove(k).dom().contains(j) ==> #[trigger] f(m.remove(k)[j]) >= 0);
    lemma_map_fsum_nonneg(m.remove(k), f);
}

/// Pointwise smaller weights give a smaller sum.
pub proof fn lemma_map_fsum_le<K, V>(m: Map<K, V>, f: spec_fn(V) -> int, g: spec_fn(V) -> int)
    requires
        m.dom().finite(),
        forall|k: K| m.dom().contains(k) ==> #[trigger] f(m[k]) <= #[trigger] g(m[k]),
    ensures
        map_fsum(m, f) <= map_fsum(m, g),
    decreases m.dom().len(),
{
    if m.dom().len() > 0 {
        let c = m.dom().choose();
        assert(m.dom().contains(c));
        assert(forall|k: K|
            m.remove(c).dom().contains(k) ==> #[trigger] f(m.remove(c)[k]) <= #[trigger] g(
                m.remove(c)[k],
            ));
        lemma_map_fsum_le(m.remove(c), f, g);
        lemma_map_fsum_remove(m, g, c);
    }
}

} // verus!
