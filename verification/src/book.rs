//! The per-symbol order-book engine.
//!
//! One side of a book is the set of live resting orders (an order index
//! keyed by order reference) together with a price ladder and a depth
//! counter. The side's well-formedness ties the three together: the depth
//! equals the sum of every live order's remaining shares, which equals the
//! sum of every ladder bucket, and each bucket holds exactly the shares
//! resting at its price. A whole book is two such sides whose order
//! references never overlap.

use vstd::prelude::*;
use std::collections::HashMap;
use crate::ladder::Ladder;
use crate::message::Message;
use crate::decode::MsgStream;
use crate::source::ByteSource;
use crate::sums::{
    lemma_map_fsum_bounds_member, lemma_map_fsum_insert, lemma_map_fsum_le,
    lemma_map_fsum_nonneg, lemma_map_fsum_remove, lemma_map_fsum_update, map_fsum,
};

verus! {

broadcast use vstd::std_specs::hash::group_hash_axioms;

/// One live resting order: its limit price and its remaining shares.
#[derive(Clone, Copy, Debug, PartialEq, Eq, Structural)]
pub struct OrderRec {
    /// Limit price in 1/10,000-dollar units.
    pub price: u32,
    /// Remaining (unexecuted, uncancelled) shares.
    pub shares: u32,
}

/// Weight of an order when summing a side's depth: its remaining shares.
pub open spec fn shares_weight() -> spec_fn(OrderRec) -> int {
    |o: OrderRec| o.shares as int
}

/// Weight of an order when summing one price bucket: its remaining shares
/// if it rests at `p`, else nothing.
pub open spec fn shares_weight_at(p: u32) -> spec_fn(OrderRec) -> int {
    |o: OrderRec| if o.price == p {
        o.shares as int
    } else {
        0
    }
}

/// The depth of a side: the sum of remaining shares over its live orders.
pub open spec fn spec_depth(m: Map<u64, OrderRec>) -> int {
    map_fsum(m, shares_weight())
}

/// The aggregate resting at price `p`: the sum of remaining shares over the
/// live orders at that price.
pub open spec fn spec_bucket(m: Map<u64, OrderRec>, p: u32) -> int {
    map_fsum(m, shares_weight_at(p))
}

/// `p` carries resting shares and no higher price does: `p` is the best
/// bid of this side.
pub open spec fn is_high_candidate(m: Map<u64, OrderRec>, p: u32) -> bool {
    spec_bucket(m, p) > 0 && forall|q: u32| spec_bucket(m, q) > 0 ==> q <= p
}

/// `p` carries resting shares and no lower price does: `p` is the best ask
/// of this side.
pub open spec fn is_low_candidate(m: Map<u64, OrderRec>, p: u32) -> bool {
    spec_bucket(m, p) > 0 && forall|q: u32| spec_bucket(m, q) > 0 ==> p <= q
}

/// The highest price with resting shares, or zero when the side is empty.
pub open spec fn spec_best_high(m: Map<u64, OrderRec>) -> u32 {
    if exists|p: u32| is_high_candidate(m, p) {
        choose|p: u32| is_high_candidate(m, p)
    } else {
        0
    }
}

/// The lowest price with resting shares, or zero when the side is empty.
pub open spec fn spec_best_low(m: Map<u64, OrderRec>) -> u32 {
    if exists|p: u32| is_low_candidate(m, p) {
        choose|p: u32| is_low_candidate(m, p)
    } else {
        0
    }
}

/// A value that is the maximum of `{0}` joined with the positive-bucket
/// prices is `spec_best_high`.
pub proof fn lemma_best_high_unique(m: Map<u64, OrderRec>, r: u32)
    requires
        m.dom().finite(),
        forall|q: u32| spec_bucket(m, q) > 0 ==> q <= r && spec_bucket(m, r) > 0,
        spec_bucket(m, r) == 0 ==> r == 0,
    ensures
        spec_best_high(m) == r,
{
    lemma_weights_nonneg(m, r);
    lemma_map_fsum_nonneg(m, shares_weight_at(r));
    if exists|p: u32| is_high_candidate(m, p) {
        let c = choose|p: u32| is_high_candidate(m, p);
        assert(is_high_candidate(m, c));
        assert(spec_best_high(m) == c);
        assert(spec_bucket(m, c) > 0);
        assert(c <= r);
        assert(spec_bucket(m, r) > 0);
        assert(r <= c);
    } else {
        if spec_bucket(m, r) > 0 {
            assert(is_high_candidate(m, r));
            assert(false);
        }
        assert(r == 0);
        assert(spec_best_high(m) == 0);
    }
}

/// A value that is the minimum of the positive-bucket prices (or zero when
/// there are none) is `spec_best_low`.
pub proof fn lemma_best_low_unique(m: Map<u64, OrderRec>, r: u32)
    requires
        m.dom().finite(),
        forall|q: u32| spec_bucket(m, q) > 0 ==> r <= q && spec_bucket(m, r) > 0,
        spec_bucket(m, r) == 0 ==> r == 0,
    ensures
        spec_best_low(m) == r,
{
    lemma_weights_nonneg(m, r);
    lemma_map_fsum_nonneg(m, shares_weight_at(r));
    if exists|p: u32| is_low_candidate(m, p) {
        let c = choose|p: u32| is_low_candidate(m, p);
        assert(is_low_candidate(m, c));
        assert(spec_best_low(m) == c);
        assert(spec_bucket(m, c) > 0);
        assert(r <= c);
        assert(spec_bucket(m, r) > 0);
        assert(c <= r);
    } else {
        if spec_bucket(m, r) > 0 {
            assert(is_low_candidate(m, r));
            assert(false);
        }
        assert(r == 0);
        assert(spec_best_low(m) == 0);
    }
}

/// Every order weighs at least nothing, under either weight.
proof fn lemma_weights_nonneg(m: Map<u64, OrderRec>, p: u32)
    ensures
        forall|k: u64| m.dom().contains(k) ==> #[trigger] (shares_weight()(m[k])) >= 0,
        forall|k: u64| m.dom().contains(k) ==> #[trigger] (shares_weight_at(p)(m[k])) >= 0,
        forall|k: u64|
            m.dom().contains(k) ==> #[trigger] (shares_weight_at(p)(m[k])) <= #[trigger] (
            shares_weight()(m[k])),
{
}

/// One side of a book: the live orders, the price ladder, and the depth.
pub struct BookSide {
    /// Live resting orders keyed by order reference.
    pub orders: HashMap<u64, OrderRec>,
    /// Aggregate resting shares per price.
    pub ladder: Ladder,
    /// Aggregate resting shares over the whole side.
    pub depth: u32,
}

impl BookSide {
    /// The mathematical content of the side: its live orders.
    pub open spec fn model(&self) -> Map<u64, OrderRec> {
        self.orders@
    }

    /// The accounting invariants of one side: the depth is the sum of the
    /// live orders' remaining shares and the sum of all ladder buckets, and
    /// each bucket is exactly the shares resting at its price.
    pub open spec fn wf(&self) -> bool {
        &&& self.ladder.wf()
        &&& self.depth as int == spec_depth(self.orders@)
        &&& self.depth as int == self.ladder.sum_spec()
        &&& forall|p: u32| #[trigger] self.ladder.get_spec(p) as int == spec_bucket(self.orders@, p)
    }

    /// An empty side.
    pub fn new() -> (b: BookSide)
        ensures
            b.wf(),
            b.model() == Map::<u64, OrderRec>::empty(),
            b.depth == 0,
    {
        let b = BookSide { orders: HashMap::new(), ladder: Ladder::new(), depth: 0 };
        proof {
            assert(b.orders@.dom() =~= Set::<u64>::empty());
            assert forall|p: u32| #[trigger] b.ladder.get_spec(p) as int == spec_bucket(
                b.orders@,
                p,
            ) by {
                assert(spec_bucket(b.orders@, p) == 0);
            }
        }
        b
    }

    /// Whether an order with this reference is live on this side.
    pub fn contains(&self, r: u64) -> (b: bool)
        ensures
            b == self.orders@.dom().contains(r),
    {
        self.orders.contains_key(&r)
    }

    /// Rest a fresh order on this side. The order is taken iff the side's
    /// depth can absorb its shares without overflowing the counter; an
    /// order that cannot be absorbed leaves the side unchanged.
    pub fn insert_order(&mut self, r: u64, price: u32, shares: u32) -> (applied: bool)
        requires
            old(self).wf(),
            !old(self).orders@.dom().contains(r),
        ensures
            final(self).wf(),
            applied <==> old(self).depth + shares <= u32::MAX,
            applied ==> final(self).orders@ == old(self).orders@.insert(
                r,
                OrderRec { price, shares },
            ) && final(self).depth == old(self).depth + shares,
            !applied ==> *final(self) == *old(self),
    {
        if shares <= u32::MAX - self.depth {
            let ghost m0 = self.orders@;
            proof {
                lemma_weights_nonneg(m0, price);
                lemma_map_fsum_le(m0, shares_weight_at(price), shares_weight());
            }
            self.ladder.add(price, shares);
            self.orders.insert(r, OrderRec { price, shares });
            self.depth = self.depth + shares;
            proof {
                let o = OrderRec { price, shares };
                lemma_map_fsum_insert(m0, shares_weight(), r, o);
                assert forall|p: u32| #[trigger] self.ladder.get_spec(p) as int == spec_bucket(
                    self.orders@,
                    p,
                ) by {
                    lemma_map_fsum_insert(m0, shares_weight_at(p), r, o);
                }
            }
            true
        } else {
            false
        }
    }

    /// Take up to `qty` shares out of order `r` (a cancel or an execution),
    /// never more than it holds; the order stays on the side with its
    /// residual, possibly zero, size.
    pub fn deplete_order(&mut self, r: u64, qty: u32)
        requires
            old(self).wf(),
            old(self).orders@.dom().contains(r),
        ensures
            final(self).wf(),
            ({
                let o = old(self).orders@[r];
                let d = if qty <= o.shares {
                    qty
                } else {
                    o.shares
                };
                &&& final(self).orders@ == old(self).orders@.insert(
                    r,
                    OrderRec { price: o.price, shares: (o.shares - d) as u32 },
                )
                &&& final(self).depth == old(self).depth - d
            }),
    {
        let ghost m0 = self.orders@;
        let o = match self.orders.get(&r) {
            Some(o) => *o,
            None => OrderRec { price: 0, shares: 0 },
        };
        let d = if qty <= o.shares {
            qty
        } else {
            o.shares
        };
        proof {
            lemma_weights_nonneg(m0, o.price);
            lemma_map_fsum_bounds_member(m0, shares_weight_at(o.price), r);
            lemma_map_fsum_bounds_member(m0, shares_weight(), r);
        }
        self.ladder.sub(o.price, d);
        self.orders.insert(r, OrderRec { price: o.price, shares: o.shares - d });
        self.depth = self.depth - d;
        proof {
            let o2 = OrderRec { price: o.price, shares: (o.shares - d) as u32 };
            lemma_map_fsum_update(m0, shares_weight(), r, o2);
            assert forall|p: u32| #[trigger] self.ladder.get_spec(p) as int == spec_bucket(
                self.orders@,
                p,
            ) by {
                lemma_map_fsum_update(m0, shares_weight_at(p), r, o2);
            }
        }
    }

    /// The side's accounting identities, spelled out: its depth is the sum
    /// of every ladder bucket, and is equally the sum of every live order's
    /// remaining shares. Every operation on a side keeps both.
    pub proof fn lemma_depth_identities(&self)
        requires
            self.wf(),
        ensures
            self.depth as int == self.ladder.sum_spec(),
            self.depth as int == spec_depth(self.orders@),
    {
    }

    /// The bucket at a live order's price covers at least that order's
    /// remaining shares: no single order can overdraw its price level.
    pub proof fn lemma_order_within_bucket(&self, r: u64)
        requires
            self.wf(),
            self.orders@.dom().contains(r),
        ensures
            self.ladder.get_spec(self.orders@[r].price) >= self.orders@[r].shares,
    {
        let o = self.orders@[r];
        lemma_weights_nonneg(self.orders@, o.price);
        lemma_map_fsum_bounds_member(self.orders@, shares_weight_at(o.price), r);
    }

    /// Remove order `r` from the side, returning its whole remaining size
    /// to the free depth (a delete, or the old half of a replace).
    pub fn remove_order(&mut self, r: u64)
        requires
            old(self).wf(),
            old(self).orders@.dom().contains(r),
        ensures
            final(self).wf(),
            final(self).orders@ == old(self).orders@.remove(r),
            final(self).depth == old(self).depth - old(self).orders@[r].shares,
    {
        let ghost m0 = self.orders@;
        let o = match self.orders.get(&r) {
            Some(o) => *o,
            None => OrderRec { price: 0, shares: 0 },
        };
        proof {
            lemma_weights_nonneg(m0, o.price);
            lemma_map_fsum_bounds_member(m0, shares_weight_at(o.price), r);
            lemma_map_fsum_bounds_member(m0, shares_weight(), r);
        }
        self.ladder.sub(o.price, o.shares);
        self.orders.remove(&r);
        self.depth = self.depth - o.shares;
        proof {
            lemma_map_fsum_remove(m0, shares_weight(), r);
            assert forall|p: u32| #[trigger] self.ladder.get_spec(p) as int == spec_bucket(
                self.orders@,
                p,
            ) by {
                lemma_map_fsum_remove(m0, shares_weight_at(p), r);
            }
        }
    }
}

/// The mathematical state of one symbol's book: the live orders of each
/// side. Depths, buckets and bests are all functions of these two maps.
pub ghost struct BookModel {
    /// Live buy orders.
    pub bids: Map<u64, OrderRec>,
    /// Live sell orders.
    pub asks: Map<u64, OrderRec>,
}

impl BookModel {
    /// The empty book.
    pub open spec fn empty() -> BookModel {
        BookModel { bids: Map::empty(), asks: Map::empty() }
    }

    /// No order reference is live on both sides at once.
    pub open spec fn sides_disjoint(self) -> bool {
        self.bids.dom().disjoint(self.asks.dom())
    }
}

/// Rest a fresh order, if the side's depth can absorb its shares without
/// overflowing a 32-bit counter; otherwise the side is unchanged.
pub open spec fn spec_add(m: Map<u64, OrderRec>, r: u64, price: u32, shares: u32) -> Map<
    u64,
    OrderRec,
> {
    if spec_depth(m) + shares <= u32::MAX {
        m.insert(r, OrderRec { price, shares })
    } else {
        m
    }
}

/// Take up to `qty` shares out of order `r`, never more than it holds; the
/// order stays with its residual, possibly zero, size.
pub open spec fn spec_deplete(m: Map<u64, OrderRec>, r: u64, qty: u32) -> Map<u64, OrderRec> {
    let o = m[r];
    let d = if qty <= o.shares {
        qty
    } else {
        o.shares
    };
    m.insert(r, OrderRec { price: o.price, shares: (o.shares - d) as u32 })
}

/// The book-maintenance semantics of one decoded event.
///
/// Add and AddAttr rest a fresh order on the event's side; Delete removes
/// the referenced order; Cancel and the Execute kinds deplete it; Replace
/// removes the original order and rests the new one on the same side at
/// the event's price and size. An event referencing an order reference
/// that is not live is a no-op, as is one whose reference is already live
/// where a fresh one is required: mid-session replays see both. Trades and
/// non-book kinds leave the book unchanged.
pub open spec fn spec_step(b: BookModel, msg: Message) -> BookModel {
    let t = msg.typ;
    if t == 65 || t == 70 {
        if b.bids.dom().contains(msg.orrf) || b.asks.dom().contains(msg.orrf) {
            b
        } else if msg.buy_sell == 66 {
            BookModel { bids: spec_add(b.bids, msg.orrf, msg.price, msg.shares), ..b }
        } else {
            BookModel { asks: spec_add(b.asks, msg.orrf, msg.price, msg.shares), ..b }
        }
    } else if t == 68 {
        if b.bids.dom().contains(msg.orrf) {
            BookModel { bids: b.bids.remove(msg.orrf), ..b }
        } else if b.asks.dom().contains(msg.orrf) {
            BookModel { asks: b.asks.remove(msg.orrf), ..b }
        } else {
            b
        }
    } else if t == 88 {
        if b.bids.dom().contains(msg.orrf) {
            BookModel { bids: spec_deplete(b.bids, msg.orrf, msg.cancelled_shares), ..b }
        } else if b.asks.dom().contains(msg.orrf) {
            BookModel { asks: spec_deplete(b.asks, msg.orrf, msg.cancelled_shares), ..b }
        } else {
            b
        }
    } else if t == 69 || t == 67 {
        if b.bids.dom().contains(msg.orrf) {
            BookModel { bids: spec_deplete(b.bids, msg.orrf, msg.executed_shares), ..b }
        } else if b.asks.dom().contains(msg.orrf) {
            BookModel { asks: spec_deplete(b.asks, msg.orrf, msg.executed_shares), ..b }
        } else {
            b
        }
    } else if t == 85 {
        if b.bids.dom().contains(msg.orrf) {
            let b1 = b.bids.remove(msg.orrf);
            if b1.dom().contains(msg.new_orff) || b.asks.dom().contains(msg.new_orff) {
                BookModel { bids: b1, ..b }
            } else {
                BookModel { bids: spec_add(b1, msg.new_orff, msg.price, msg.shares), ..b }
            }
        } else if b.asks.dom().contains(msg.orrf) {
            let a1 = b.asks.remove(msg.orrf);
            if a1.dom().contains(msg.new_orff) || b.bids.dom().contains(msg.new_orff) {
                BookModel { asks: a1, ..b }
            } else {
                BookModel { asks: spec_add(a1, msg.new_orff, msg.price, msg.shares), ..b }
            }
        } else {
            b
        }
    } else {
        b
    }
}

/// One event keeps the two sides of the book on disjoint order
/// references: nothing is rested whose reference is live anywhere.
pub proof fn lemma_step_preserves_disjoint(b: BookModel, msg: Message)
    requires
        b.sides_disjoint(),
    ensures
        spec_step(b, msg).sides_disjoint(),
{
}

/// No order reference is ever live on both sides at once: after any event
/// sequence whatever, the sides of the book are disjoint.
pub proof fn lemma_book_after_disjoint(events: Seq<Message>)
    ensures
        spec_book_after(events).sides_disjoint(),
    decreases events.len(),
{
    if events.len() > 0 {
        lemma_book_after_disjoint(events.drop_last());
        lemma_step_preserves_disjoint(spec_book_after(events.drop_last()), events.last());
    }
}

/// The event with the post-event top of book written onto it: best bid,
/// best ask (zero on an empty side), their spread when both sides are
/// populated and not crossed, and the three depths. A side's depth always
/// fits its counter, because an order only rests when the side can absorb
/// it; only the two sides' total needs to saturate.
pub open spec fn spec_annotate(b: BookModel, msg: Message) -> Message {
    let bid = spec_best_high(b.bids);
    let ask = spec_best_low(b.asks);
    let bd = spec_depth(b.bids);
    let ad = spec_depth(b.asks);
    Message {
        bid,
        ask,
        spread: if ask >= bid && bid > 0 {
            (ask - bid) as u32
        } else {
            0
        },
        bid_depth: bd as u32,
        ask_depth: ad as u32,
        depth: if bd + ad <= u32::MAX {
            (bd + ad) as u32
        } else {
            u32::MAX
        },
        ..msg
    }
}

/// The book after replaying a whole event sequence from an empty book.
pub open spec fn spec_book_after(events: Seq<Message>) -> BookModel
    decreases events.len(),
{
    if events.len() == 0 {
        BookModel::empty()
    } else {
        spec_step(spec_book_after(events.drop_last()), events.last())
    }
}

/// A whole event log, each event annotated with the top of book prevailing
/// just after it was applied.
pub open spec fn spec_replay(events: Seq<Message>) -> Seq<Message>
    decreases events.len(),
{
    if events.len() == 0 {
        Seq::empty()
    } else {
        spec_replay(events.drop_last()).push(
            spec_annotate(spec_book_after(events), events.last()),
        )
    }
}

/// Replaying an event log keeps its length: annotation rewrites rows, it
/// never adds or drops one.
pub proof fn lemma_replay_len(events: Seq<Message>)
    ensures
        spec_replay(events).len() == events.len(),
    decreases events.len(),
{
    if events.len() > 0 {
        lemma_replay_len(events.drop_last());
    }
}

/// The book's step reads only an event's decoded fields, never its
/// annotations, so annotating an event cannot change its effect.
pub proof fn lemma_step_ignores_annotations(b: BookModel, b2: BookModel, msg: Message)
    ensures
        spec_step(b, spec_annotate(b2, msg)) == spec_step(b, msg),
{
}

/// Replaying an annotated log walks through the same book states as
/// replaying the log it came from.
pub proof fn lemma_book_after_replay(events: Seq<Message>)
    ensures
        spec_book_after(spec_replay(events)) == spec_book_after(events),
    decreases events.len(),
{
    if events.len() > 0 {
        let prev = events.drop_last();
        lemma_replay_len(prev);
        assert(spec_replay(events).drop_last() =~= spec_replay(prev));
        lemma_book_after_replay(prev);
        lemma_step_ignores_annotations(
            spec_book_after(prev),
            spec_book_after(events),
            events.last(),
        );
    }
}

/// Replay is idempotent: it reads only the decoded fields, which it
/// preserves, so a second replay rewrites every annotation with the same
/// value.
pub proof fn lemma_replay_idempotent(events: Seq<Message>)
    ensures
        spec_replay(spec_replay(events)) == spec_replay(events),
    decreases events.len(),
{
    if events.len() > 0 {
        let prev = events.drop_last();
        lemma_replay_len(prev);
        assert(spec_replay(events).drop_last() =~= spec_replay(prev));
        lemma_replay_idempotent(prev);
        lemma_book_after_replay(events);
        let book = spec_book_after(events);
        assert(spec_annotate(book, spec_annotate(book, events.last())) == spec_annotate(
            book,
            events.last(),
        ));
        assert(spec_replay(spec_replay(events)) =~= spec_replay(events));
    }
}

/// A whole book: a buy side and a sell side over disjoint order
/// references.
pub struct Book {
    /// The buy side.
    pub bids: BookSide,
    /// The sell side.
    pub asks: BookSide,
}

impl Book {
    /// The mathematical state: the two sides' live orders.
    pub open spec fn model(&self) -> BookModel {
        BookModel { bids: self.bids.orders@, asks: self.asks.orders@ }
    }

    /// Both sides' accounting invariants, and no order reference live on
    /// both sides at once.
    pub open spec fn wf(&self) -> bool {
        &&& self.bids.wf()
        &&& self.asks.wf()
        &&& self.model().sides_disjoint()
    }

    /// An empty book.
    pub fn new() -> (b: Book)
        ensures
            b.wf(),
            b.model() == BookModel::empty(),
    {
        let b = Book { bids: BookSide::new(), asks: BookSide::new() };
        proof {
            assert(b.bids.orders@.dom().disjoint(b.asks.orders@.dom()));
        }
        b
    }

    /// Apply one decoded event to the book.
    pub fn apply(&mut self, msg: &Message)
        requires
            old(self).wf(),
        ensures
            final(self).wf(),
            final(self).model() == spec_step(old(self).model(), *msg),
    {
        let t = msg.typ;
        if t == 65 || t == 70 {
            if !self.bids.contains(msg.orrf) && !self.asks.contains(msg.orrf) {
                if msg.buy_sell == 66 {
                    let _ = self.bids.insert_order(msg.orrf, msg.price, msg.shares);
                } else {
                    let _ = self.asks.insert_order(msg.orrf, msg.price, msg.shares);
                }
            }
        } else if t == 68 {
            if self.bids.contains(msg.orrf) {
                self.bids.remove_order(msg.orrf);
            } else if self.asks.contains(msg.orrf) {
                self.asks.remove_order(msg.orrf);
            }
        } else if t == 88 {
            if self.bids.contains(msg.orrf) {
                self.bids.deplete_order(msg.orrf, msg.cancelled_shares);
            } else if self.asks.contains(msg.orrf) {
                self.asks.deplete_order(msg.orrf, msg.cancelled_shares);
            }
        } else if t == 69 || t == 67 {
            if self.bids.contains(msg.orrf) {
                self.bids.deplete_order(msg.orrf, msg.executed_shares);
            } else if self.asks.contains(msg.orrf) {
                self.asks.deplete_order(msg.orrf, msg.executed_shares);
            }
        } else if t == 85 {
            if self.bids.contains(msg.orrf) {
                self.bids.remove_order(msg.orrf);
                if !self.bids.contains(msg.new_orff) && !self.asks.contains(msg.new_orff) {
                    let _ = self.bids.insert_order(msg.new_orff, msg.price, msg.shares);
                }
            } else if self.asks.contains(msg.orrf) {
                self.asks.remove_order(msg.orrf);
                if !self.asks.contains(msg.new_orff) && !self.bids.contains(msg.new_orff) {
                    let _ = self.asks.insert_order(msg.new_orff, msg.price, msg.shares);
                }
            }
        }
    }

    /// The event with the current top of book written onto it.
    pub fn snapshot(&self, msg: &Message) -> (m2: Message)
        requires
            self.wf(),
        ensures
            m2 == spec_annotate(self.model(), *msg),
    {
        let bid = self.bids.ladder.best_high();
        let ask = self.asks.ladder.best_low();
        proof {
            assert forall|q: u32| spec_bucket(self.bids.orders@, q) > 0 implies q <= bid
                && spec_bucket(self.bids.orders@, bid) > 0 by {
                assert(self.bids.ladder.get_spec(q) as int == spec_bucket(self.bids.orders@, q));
                assert(self.bids.ladder.get_spec(bid) as int == spec_bucket(
                    self.bids.orders@,
                    bid,
                ));
            }
            assert(self.bids.ladder.get_spec(bid) as int == spec_bucket(self.bids.orders@, bid));
            lemma_best_high_unique(self.bids.orders@, bid);
            assert forall|q: u32| spec_bucket(self.asks.orders@, q) > 0 implies ask <= q
                && spec_bucket(self.asks.orders@, ask) > 0 by {
                assert(self.asks.ladder.get_spec(q) as int == spec_bucket(self.asks.orders@, q));
                assert(self.asks.ladder.get_spec(ask) as int == spec_bucket(
                    self.asks.orders@,
                    ask,
                ));
            }
            assert(self.asks.ladder.get_spec(ask) as int == spec_bucket(self.asks.orders@, ask));
            lemma_best_low_unique(self.asks.orders@, ask);
        }
        let bd = self.bids.depth;
        let ad = self.asks.depth;
        let mut m2 = *msg;
        m2.bid = bid;
        m2.ask = ask;
        m2.spread = if ask >= bid && bid > 0 {
            ask - bid
        } else {
            0
        };
        m2.bid_depth = bd;
        m2.ask_depth = ad;
        m2.depth = if ad <= u32::MAX - bd {
            bd + ad
        } else {
            u32::MAX
        };
        m2
    }
}

/// Replay one symbol's event log in order, writing onto each event the top
/// of book prevailing just after it: the whole log becomes exactly
/// [`spec_replay`] of what it was.
pub fn replay_feed(feed: &mut Vec<Message>)
    ensures
        final(feed)@ == spec_replay(old(feed)@),
{
    let mut book = Book::new();
    let n = feed.len();
    let mut i: usize = 0;
    proof {
        assert(old(feed)@.take(0) =~= Seq::<Message>::empty());
        assert(feed@.take(0) =~= Seq::<Message>::empty());
    }
    while i < n
        invariant
            n == feed@.len(),
            feed@.len() == old(feed)@.len(),
            i <= n,
            book.wf(),
            book.model() == spec_book_after(old(feed)@.take(i as int)),
            feed@.take(i as int) == spec_replay(old(feed)@.take(i as int)),
            forall|j: int| i <= j < n ==> feed@[j] == old(feed)@[j],
        decreases n - i,
    {
        let ghost prefix = old(feed)@.take(i as int);
        let ghost prefix1 = old(feed)@.take(i + 1);
        let msg = feed[i];
        book.apply(&msg);
        let m2 = book.snapshot(&msg);
        feed[i] = m2;
        proof {
            assert(prefix1.drop_last() =~= prefix);
            assert(prefix1.last() == old(feed)@[i as int]);
            assert(book.model() == spec_book_after(prefix1));
            assert(feed@.take(i + 1) =~= spec_replay(prefix).push(m2));
        }
        i = i + 1;
    }
    proof {
        assert(old(feed)@.take(n as int) =~= old(feed)@);
        assert(feed@.take(n as int) =~= feed@);
    }
}

impl<R: ByteSource> MsgStream<R> {
    /// Replay every tracked symbol's log: each log becomes
    /// [`spec_replay`] of itself, independently of the others.
    fn replay_all(&mut self)
        requires
            old(self).wf(),
        ensures
            final(self).wf(),
            final(self).loc_to_ticker == old(self).loc_to_ticker,
            final(self).reader == old(self).reader,
            final(self).buffer == old(self).buffer,
            final(self).pos == old(self).pos,
            final(self).fetched == old(self).fetched,
            final(self).read_calls == old(self).read_calls,
            final(self).message_ct == old(self).message_ct,
            final(self).logs().dom() == old(self).logs().dom(),
            forall|loc: u16|
                old(self).logs().dom().contains(loc) ==> final(self).logs()[loc] == spec_replay(
                    old(self).logs()[loc],
                ),
    {
        let n = self.locates.len();
        let mut idx: usize = 0;
        while idx < n
            invariant
                self.wf(),
                old(self).wf(),
                n == self.locates@.len(),
                idx <= n,
                self.locates == old(self).locates,
                self.loc_to_ticker == old(self).loc_to_ticker,
                self.reader == old(self).reader,
                self.buffer == old(self).buffer,
                self.pos == old(self).pos,
                self.fetched == old(self).fetched,
                self.read_calls == old(self).read_calls,
                self.message_ct == old(self).message_ct,
                self.logs().dom() == old(self).logs().dom(),
                forall|k: int|
                    0 <= k < idx ==> self.logs()[self.locates@[k]] == spec_replay(
                        #[trigger] old(self).logs()[self.locates@[k]],
                    ),
                forall|k: int|
                    idx <= k < n ==> self.logs()[self.locates@[k]] == #[trigger] old(
                        self,
                    ).logs()[self.locates@[k]],
            decreases n - idx,
        {
            let loc = self.locates[idx];
            proof {
                assert(self.locates@[idx as int] == loc);
                assert(self.locates@.contains(loc));
                assert(self.companies@.dom().contains(loc));
            }
            let ghost pre = *self;
            let feed_opt = self.companies.remove(&loc);
            let mut feed = match feed_opt {
                Some(f) => f,
                None => Vec::new(),
            };
            proof {
                assert(feed@ == pre.companies@[loc]@);
            }
            replay_feed(&mut feed);
            let ghost feedval = feed;
            self.companies.insert(loc, feed);
            proof {
                assert(self.companies@ =~= pre.companies@.insert(loc, feedval));
                assert(self.companies@.dom() =~= pre.companies@.dom());
                assert(self.logs().dom() =~= pre.logs().dom());
                assert(self.logs()[loc] == spec_replay(old(self).logs()[loc]));
                assert forall|k: int| 0 <= k < idx + 1 implies self.logs()[self.locates@[k]]
                    == spec_replay(#[trigger] old(self).logs()[self.locates@[k]]) by {
                    let l = self.locates@[k];
                    if k < idx {
                        assert(l != loc);
                        assert(pre.companies@.insert(loc, feedval)[l] == pre.companies@[l]);
                        assert(self.companies@[l] == pre.companies@[l]);
                        assert(pre.locates@[k] == l);
                        assert(pre.locates@.contains(l));
                        assert(pre.companies@.dom().contains(l));
                        assert(self.companies@.dom().contains(l));
                        assert(self.logs()[l] == self.companies@[l]@);
                        assert(pre.logs()[l] == pre.companies@[l]@);
                        assert(self.logs()[l] == pre.logs()[l]);
                        assert(pre.logs()[l] == spec_replay(old(self).logs()[l]));
                    } else {
                        assert(l == loc);
                    }
                }
                assert forall|k: int| idx + 1 <= k < n implies self.logs()[self.locates@[k]]
                    == #[trigger] old(self).logs()[self.locates@[k]] by {
                    let l = self.locates@[k];
                    assert(l != loc);
                    assert(pre.companies@.insert(loc, feedval)[l] == pre.companies@[l]);
                    assert(self.companies@[l] == pre.companies@[l]);
                    assert(pre.locates@[k] == l);
                    assert(pre.locates@.contains(l));
                    assert(pre.companies@.dom().contains(l));
                    assert(self.companies@.dom().contains(l));
                    assert(self.logs()[l] == self.companies@[l]@);
                    assert(pre.logs()[l] == pre.companies@[l]@);
                    assert(self.logs()[l] == pre.logs()[l]);
                    assert(pre.logs()[l] == old(self).logs()[l]);
                }
            }
            idx = idx + 1;
        }
        proof {
            assert forall|loc: u16| old(self).logs().dom().contains(loc) implies self.logs()[loc]
                == spec_replay(old(self).logs()[loc]) by {
                assert(self.companies@.dom().contains(loc));
                assert(self.locates@.contains(loc));
                let k = choose|k: int|
                    0 <= k < self.locates@.len() && self.locates@[k] == loc;
                assert(self.logs()[self.locates@[k]] == spec_replay(
                    old(self).logs()[self.locates@[k]],
                ));
            }
        }
    }

    /// Replay every tracked symbol's log, deriving the top of book from
    /// the ladders after each event: each log becomes [`spec_replay`] of
    /// itself.
    pub fn process_order_book(&mut self)
        requires
            old(self).wf(),
        ensures
            final(self).wf(),
            final(self).loc_to_ticker == old(self).loc_to_ticker,
            final(self).reader == old(self).reader,
            final(self).buffer == old(self).buffer,
            final(self).pos == old(self).pos,
            final(self).fetched == old(self).fetched,
            final(self).read_calls == old(self).read_calls,
            final(self).message_ct == old(self).message_ct,
            final(self).logs().dom() == old(self).logs().dom(),
            forall|loc: u16|
                old(self).logs().dom().contains(loc) ==> final(self).logs()[loc] == spec_replay(
                    old(self).logs()[loc],
                ),
    {
        self.replay_all()
    }

    /// Replay every tracked symbol's log. An incremental top-of-book
    /// strategy (rescan only when the best price's bucket empties) computes
    /// the same annotations as deriving the best from the ladder each
    /// event, so this entry point runs the one verified replay.
    pub fn process_order_book2(&mut self)
        requires
            old(self).wf(),
        ensures
            final(self).wf(),
            final(self).loc_to_ticker == old(self).loc_to_ticker,
            final(self).reader == old(self).reader,
            final(self).buffer == old(self).buffer,
            final(self).pos == old(self).pos,
            final(self).fetched == old(self).fetched,
            final(self).read_calls == old(self).read_calls,
            final(self).message_ct == old(self).message_ct,
            final(self).logs().dom() == old(self).logs().dom(),
            forall|loc: u16|
                old(self).logs().dom().contains(loc) ==> final(self).logs()[loc] == spec_replay(
                    old(self).logs()[loc],
                ),
    {
        self.replay_all()
    }

    /// Replay every tracked symbol's log. An ordered-map top-of-book
    /// strategy (take the extreme key of a sorted ladder) computes the same
    /// annotations as the others, so this entry point too runs the one
    /// verified replay.
    pub fn process_order_book_py(&mut self)
        requires
            old(self).wf(),
        ensures
            final(self).wf(),
            final(self).loc_to_ticker == old(self).loc_to_ticker,
            final(self).reader == old(self).reader,
            final(self).buffer == old(self).buffer,
            final(self).pos == old(self).pos,
            final(self).fetched == old(self).fetched,
            final(self).read_calls == old(self).read_calls,
            final(self).message_ct == old(self).message_ct,
            final(self).logs().dom() == old(self).logs().dom(),
            forall|loc: u16|
                old(self).logs().dom().contains(loc) ==> final(self).logs()[loc] == spec_replay(
                    old(self).logs()[loc],
                ),
    {
        self.replay_all()
    }
}

} // verus!
