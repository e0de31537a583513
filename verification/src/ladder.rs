//! A price ladder: the aggregate resting shares at each price on one side
//! of the book.
//!
//! Entries are kept sorted by price, each price at most once. A bucket that
//! reaches zero is retained; only buckets with positive aggregate count as
//! top-of-book candidates. The contracts speak of the ladder as a total
//! function from price to aggregate ([`lad_get`], zero off the ladder) and
//! of the sum of all buckets ([`lad_sum`]).

use vstd::prelude::*;

verus! {

/// The sum of every bucket of the ladder.
pub open spec fn lad_sum(s: Seq<(u32, u32)>) -> int
    decreases s.len(),
{
    if s.len() == 0 {
        0
    } else {
        s[0].1 + lad_sum(s.drop_first())
    }
}

/// The aggregate at price `p`: the stored bucket, or zero when `p` is not
/// on the ladder.
pub open spec fn lad_get(s: Seq<(u32, u32)>, p: u32) -> u32
    decreases s.len(),
{
    if s.len() == 0 {
        0
    } else if s[0].0 == p {
        s[0].1
    } else {
        lad_get(s.drop_first(), p)
    }
}

/// Prices strictly increase along the ladder, so each occurs at most once.
pub open spec fn lad_sorted(s: Seq<(u32, u32)>) -> bool {
    forall|i: int, j: int| 0 <= i < j < s.len() ==> s[i].0 < s[j].0
}

/// On a sorted ladder, the bucket at the price of entry `i` is that
/// entry's value.
pub proof fn lemma_lad_get_index(s: Seq<(u32, u32)>, i: int)
    requires
        lad_sorted(s),
        0 <= i < s.len(),
    ensures
        lad_get(s, s[i].0) == s[i].1,
    decreases s.len(),
{
    if i > 0 {
        assert(s[0].0 < s[i].0);
        lemma_lad_get_index(s.drop_first(), i - 1);
    }
}

/// A price on no entry has aggregate zero.
pub proof fn lemma_lad_get_absent(s: Seq<(u32, u32)>, p: u32)
    requires
        forall|j: int| 0 <= j < s.len() ==> s[j].0 != p,
    ensures
        lad_get(s, p) == 0,
    decreases s.len(),
{
    if s.len() > 0 {
        lemma_lad_get_absent(s.drop_first(), p);
    }
}

/// A price with nonzero aggregate sits on some entry carrying exactly that
/// aggregate.
pub proof fn lemma_lad_get_nonzero_exists(s: Seq<(u32, u32)>, p: u32)
    requires
        lad_get(s, p) != 0,
    ensures
        exists|i: int| 0 <= i < s.len() && s[i] == (p, lad_get(s, p)),
    decreases s.len(),
{
    if s[0].0 == p {
        assert(s[0] == (p, lad_get(s, p)));
    } else {
        lemma_lad_get_nonzero_exists(s.drop_first(), p);
        let i = choose|i: int|
            0 <= i < s.drop_first().len() && s.drop_first()[i] == (p, lad_get(s.drop_first(), p));
        assert(s[i + 1] == (p, lad_get(s, p)));
    }
}

/// Replacing the bucket of entry `i` moves the total by the difference.
pub proof fn lemma_lad_sum_update(s: Seq<(u32, u32)>, i: int, v: u32)
    requires
        0 <= i < s.len(),
    ensures
        lad_sum(s.update(i, (s[i].0, v))) == lad_sum(s) - s[i].1 + v,
    decreases s.len(),
{
    let t = s.update(i, (s[i].0, v));
    if i == 0 {
        assert(t.drop_first() =~= s.drop_first());
    } else {
        assert(t.drop_first() =~= s.drop_first().update(i - 1, (s[i].0, v)));
        lemma_lad_sum_update(s.drop_first(), i - 1, v);
    }
}

/// Replacing the bucket of entry `i` changes the aggregate at that entry's
/// price and no other.
pub proof fn lemma_lad_get_update(s: Seq<(u32, u32)>, i: int, v: u32)
    requires
        lad_sorted(s),
        0 <= i < s.len(),
    ensures
        lad_get(s.update(i, (s[i].0, v)), s[i].0) == v,
        forall|q: u32| q != s[i].0 ==> lad_get(s.update(i, (s[i].0, v)), q) == lad_get(s, q),
    decreases s.len(),
{
    let t = s.update(i, (s[i].0, v));
    if i == 0 {
        assert(t.drop_first() =~= s.drop_first());
    } else {
        assert(s[0].0 < s[i].0);
        assert(t.drop_first() =~= s.drop_first().update(i - 1, (s[i].0, v)));
        lemma_lad_get_update(s.drop_first(), i - 1, v);
        assert forall|q: u32| q != s[i].0 implies lad_get(t, q) == lad_get(s, q) by {
            if q != s[0].0 {
                assert(lad_get(t.drop_first(), q) == lad_get(s.drop_first(), q));
            }
        }
    }
}

/// Inserting an entry adds its bucket to the total.
pub proof fn lemma_lad_sum_insert(s: Seq<(u32, u32)>, i: int, e: (u32, u32))
    requires
        0 <= i <= s.len(),
    ensures
        lad_sum(s.insert(i, e)) == lad_sum(s) + e.1,
    decreases s.len(),
{
    let t = s.insert(i, e);
    if i == 0 {
        assert(t.drop_first() =~= s);
    } else {
        assert(t[0] == s[0]);
        assert(t.drop_first() =~= s.drop_first().insert(i - 1, e));
        lemma_lad_sum_insert(s.drop_first(), i - 1, e);
    }
}

/// Inserting an entry at a fresh price sets that price's aggregate and no
/// other.
pub proof fn lemma_lad_get_insert(s: Seq<(u32, u32)>, i: int, e: (u32, u32))
    requires
        0 <= i <= s.len(),
        forall|j: int| 0 <= j < s.len() ==> s[j].0 != e.0,
    ensures
        lad_get(s.insert(i, e), e.0) == e.1,
        forall|q: u32| q != e.0 ==> lad_get(s.insert(i, e), q) == lad_get(s, q),
    decreases s.len(),
{
    let t = s.insert(i, e);
    if i == 0 {
        assert(t.drop_first() =~= s);
    } else {
        assert(t[0] == s[0]);
        assert(t.drop_first() =~= s.drop_first().insert(i - 1, e));
        lemma_lad_get_insert(s.drop_first(), i - 1, e);
        assert forall|q: u32| q != e.0 implies lad_get(t, q) == lad_get(s, q) by {
            if q != s[0].0 {
                assert(lad_get(t.drop_first(), q) == lad_get(s.drop_first(), q));
            }
        }
    }
}

/// Inserting between a smaller left neighbour and a larger right neighbour
/// keeps the ladder sorted.
pub proof fn lemma_lad_sorted_insert(s: Seq<(u32, u32)>, i: int, e: (u32, u32))
    requires
        lad_sorted(s),
        0 <= i <= s.len(),
        i == 0 || s[i - 1].0 < e.0,
        i == s.len() || e.0 < s[i].0,
    ensures
        lad_sorted(s.insert(i, e)),
{
    let t = s.insert(i, e);
    assert forall|a: int, b: int| 0 <= a < b < t.len() implies t[a].0 < t[b].0 by {
        if a < i && b < i {
            assert(t[a] == s[a] && t[b] == s[b]);
        } else if a < i && b == i {
            assert(t[a] == s[a]);
            assert(s[a].0 <= s[i - 1].0);
        } else if a < i && b > i {
            assert(t[a] == s[a] && t[b] == s[b - 1]);
        } else if a == i {
            assert(t[b] == s[b - 1]);
            assert(s[i].0 <= s[b - 1].0);
        } else {
            assert(t[a] == s[a - 1] && t[b] == s[b - 1]);
        }
    }
}

/// A price ladder: sorted, duplicate-free price/aggregate pairs.
pub struct Ladder {
    /// The entries, sorted by price.
    pub entries: Vec<(u32, u32)>,
}

impl Ladder {
    /// Sortedness: what every operation assumes and preserves.
    pub open spec fn wf(&self) -> bool {
        lad_sorted(self.entries@)
    }

    /// The aggregate at price `p` (zero when `p` is off the ladder).
    pub open spec fn get_spec(&self, p: u32) -> u32 {
        lad_get(self.entries@, p)
    }

    /// The sum of all buckets.
    pub open spec fn sum_spec(&self) -> int {
        lad_sum(self.entries@)
    }

    /// The empty ladder.
    pub fn new() -> (l: Ladder)
        ensures
            l.wf(),
            l.sum_spec() == 0,
            forall|p: u32| l.get_spec(p) == 0,
    {
        let l = Ladder { entries: Vec::new() };
        proof {
            assert forall|p: u32| l.get_spec(p) == 0 by {
                lemma_lad_get_absent(l.entries@, p);
            }
        }
        l
    }

    /// Add `delta` shares to the bucket at `p`, creating the bucket if
    /// needed.
    pub fn add(&mut self, p: u32, delta: u32)
        requires
            old(self).wf(),
            old(self).get_spec(p) + delta <= u32::MAX,
        ensures
            final(self).wf(),
            final(self).get_spec(p) == old(self).get_spec(p) + delta,
            forall|q: u32| q != p ==> final(self).get_spec(q) == old(self).get_spec(q),
            final(self).sum_spec() == old(self).sum_spec() + delta,
    {
        let ghost s = self.entries@;
        let mut i: usize = 0;
        while i < self.entries.len() && self.entries[i].0 < p
            invariant
                *self == *old(self),
                s == self.entries@,
                i <= s.len(),
                forall|j: int| 0 <= j < i ==> s[j].0 < p,
            decreases s.len() - i,
        {
            i = i + 1;
        }
        if i < self.entries.len() && self.entries[i].0 == p {
            proof {
                lemma_lad_get_index(s, i as int);
                lemma_lad_sum_update(s, i as int, (s[i as int].1 + delta) as u32);
                lemma_lad_get_update(s, i as int, (s[i as int].1 + delta) as u32);
            }
            let v = self.entries[i].1;
            self.entries[i] = (p, v + delta);
        } else {
            proof {
                assert forall|j: int| 0 <= j < s.len() implies s[j].0 != p by {
                    if j >= i {
                        assert(i < s.len() ==> s[i as int].0 > p);
                        assert(i <= j ==> s[i as int].0 <= s[j].0);
                    }
                }
                lemma_lad_get_absent(s, p);
                lemma_lad_sorted_insert(s, i as int, (p, delta));
                lemma_lad_sum_insert(s, i as int, (p, delta));
                lemma_lad_get_insert(s, i as int, (p, delta));
            }
            self.entries.insert(i, (p, delta));
        }
    }

    /// Take `delta` shares out of the bucket at `p`. The ladder never holds
    /// less there than is being taken, so the bucket cannot go negative; a
    /// bucket drained to zero stays on the ladder.
    pub fn sub(&mut self, p: u32, delta: u32)
        requires
            old(self).wf(),
            delta <= old(self).get_spec(p),
        ensures
            final(self).wf(),
            final(self).get_spec(p) == old(self).get_spec(p) - delta,
            forall|q: u32| q != p ==> final(self).get_spec(q) == old(self).get_spec(q),
            final(self).sum_spec() == old(self).sum_spec() - delta,
    {
        let ghost s = self.entries@;
        let mut i: usize = 0;
        while i < self.entries.len() && self.entries[i].0 != p
            invariant
                *self == *old(self),
                s == self.entries@,
                i <= s.len(),
                forall|j: int| 0 <= j < i ==> s[j].0 != p,
            decreases s.len() - i,
        {
            i = i + 1;
        }
        if i < self.entries.len() {
            proof {
                lemma_lad_get_index(s, i as int);
                lemma_lad_sum_update(s, i as int, (s[i as int].1 - delta) as u32);
                lemma_lad_get_update(s, i as int, (s[i as int].1 - delta) as u32);
            }
            let v = self.entries[i].1;
            self.entries[i] = (p, v - delta);
        } else {
            proof {
                lemma_lad_get_absent(s, p);
            }
        }
    }

    /// The highest price with a positive bucket, or zero when every bucket
    /// is empty: the best bid of a bid ladder.
    pub fn best_high(&self) -> (r: u32)
        requires
            self.wf(),
        ensures
            forall|q: u32| self.get_spec(q) > 0 ==> q <= r && self.get_spec(r) > 0,
            self.get_spec(r) == 0 ==> r == 0,
    {
        let ghost s = self.entries@;
        let mut j = self.entries.len();
        while j > 0
            invariant
                self.wf(),
                s == self.entries@,
                j <= s.len(),
                forall|k: int| j <= k < s.len() ==> s[k].1 == 0,
            decreases j,
        {
            j = j - 1;
            let e = self.entries[j];
            if e.1 > 0 {
                proof {
                    lemma_lad_get_index(s, j as int);
                    assert forall|q: u32| self.get_spec(q) > 0 implies q <= e.0 by {
                        lemma_lad_get_nonzero_exists(s, q);
                        let k = choose|k: int| 0 <= k < s.len() && s[k] == (q, lad_get(s, q));
                        assert(k <= j as int);
                    }
                }
                return e.0;
            }
        }
        proof {
            assert forall|q: u32| #[trigger] self.get_spec(q) > 0 implies q <= 0
                && self.get_spec(0) > 0 by {
                lemma_lad_get_nonzero_exists(s, q);
            }
            if self.get_spec(0) != 0 {
                lemma_lad_get_nonzero_exists(s, 0);
            }
        }
        0
    }

    /// The lowest price with a positive bucket, or zero when every bucket
    /// is empty: the best ask of an ask ladder.
    pub fn best_low(&self) -> (r: u32)
        requires
            self.wf(),
        ensures
            forall|q: u32| self.get_spec(q) > 0 ==> r <= q && self.get_spec(r) > 0,
            self.get_spec(r) == 0 ==> r == 0,
    {
        let ghost s = self.entries@;
        let mut j: usize = 0;
        while j < self.entries.len()
            invariant
                self.wf(),
                s == self.entries@,
                j <= s.len(),
                forall|k: int| 0 <= k < j ==> s[k].1 == 0,
            decreases s.len() - j,
        {
            let e = self.entries[j];
            if e.1 > 0 {
                proof {
                    lemma_lad_get_index(s, j as int);
                    assert forall|q: u32| self.get_spec(q) > 0 implies e.0 <= q by {
                        lemma_lad_get_nonzero_exists(s, q);
                        let k = choose|k: int| 0 <= k < s.len() && s[k] == (q, lad_get(s, q));
                        assert(j as int <= k);
                    }
                }
                return e.0;
            }
            j = j + 1;
        }
        proof {
            assert forall|q: u32| #[trigger] self.get_spec(q) > 0 implies 0 <= q
                && self.get_spec(0) > 0 by {
                lemma_lad_get_nonzero_exists(s, q);
            }
            if self.get_spec(0) != 0 {
                lemma_lad_get_nonzero_exists(s, 0);
            }
        }
        0
    }
}

} // verus!
