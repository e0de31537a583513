//! Order-book replay scenarios: every event's annotation is checked against
//! the spelled-out top of book.

use itch_parser::book::{replay_feed, Book, BookSide, OrderRec};
use itch_parser::ladder::Ladder;
use itch_parser::message::Message;

fn ev_add(orrf: u64, side: u8, shares: u32, price: u32) -> Message {
    let mut m = Message::empty();
    m.typ = 65;
    m.timestamp = 1;
    m.orrf = orrf;
    m.buy_sell = side;
    m.shares = shares;
    m.price = price;
    m
}

fn ev_delete(orrf: u64) -> Message {
    let mut m = Message::empty();
    m.typ = 68;
    m.orrf = orrf;
    m
}

fn ev_cancel(orrf: u64, cancelled: u32) -> Message {
    let mut m = Message::empty();
    m.typ = 88;
    m.orrf = orrf;
    m.cancelled_shares = cancelled;
    m
}

fn ev_execute(orrf: u64, executed: u32) -> Message {
    let mut m = Message::empty();
    m.typ = 69;
    m.orrf = orrf;
    m.executed_shares = executed;
    m
}

fn ev_replace(orig: u64, new: u64, shares: u32, price: u32) -> Message {
    let mut m = Message::empty();
    m.typ = 85;
    m.orrf = orig;
    m.new_orff = new;
    m.shares = shares;
    m.price = price;
    m
}

fn snap(m: &Message) -> (u32, u32, u32, u32, u32, u32) {
    (m.bid, m.ask, m.spread, m.bid_depth, m.ask_depth, m.depth)
}

#[test]
fn add_then_delete() {
    let mut feed = vec![
        ev_add(100, b'B', 200, 10000),
        ev_delete(100),
    ];
    replay_feed(&mut feed);
    assert_eq!(snap(&feed[0]), (10000, 0, 0, 200, 0, 200));
    assert_eq!(snap(&feed[1]), (0, 0, 0, 0, 0, 0));
}

#[test]
fn two_level_bid_stack() {
    let mut feed = vec![
        ev_add(1, b'B', 100, 10050),
        ev_add(2, b'B', 300, 10000),
        ev_delete(1),
    ];
    replay_feed(&mut feed);
    assert_eq!(feed[1].bid, 10050);
    assert_eq!(feed[1].bid_depth, 400);
    assert_eq!(feed[2].bid, 10000);
    assert_eq!(feed[2].bid_depth, 300);
}

#[test]
fn partial_execute() {
    let mut feed = vec![
        ev_add(7, b'S', 500, 10100),
        ev_execute(7, 200),
        ev_execute(7, 300),
    ];
    replay_feed(&mut feed);
    assert_eq!(feed[1].ask, 10100);
    assert_eq!(feed[1].ask_depth, 300);
    assert_eq!(feed[2].ask, 0);
    assert_eq!(feed[2].ask_depth, 0);
}

#[test]
fn cancel_to_zero_retained() {
    let mut feed = vec![
        ev_add(9, b'B', 100, 9900),
        ev_cancel(9, 100),
        ev_delete(9),
    ];
    replay_feed(&mut feed);
    assert_eq!(feed[1].bid_depth, 0);
    assert_eq!(feed[1].bid, 0);
    // a delete of the fully cancelled order is a no-op on depth
    assert_eq!(feed[2].bid_depth, 0);
    assert_eq!(feed[2].bid, 0);
}

#[test]
fn replace_crossing_best() {
    let mut feed = vec![
        ev_add(1, b'B', 200, 10000),
        ev_add(2, b'B', 100, 9900),
        ev_replace(1, 3, 50, 9800),
    ];
    replay_feed(&mut feed);
    assert_eq!(feed[2].bid, 9900);
    assert_eq!(feed[2].bid_depth, 150);
}

#[test]
fn cross_side_isolation_spread_positive() {
    // Interleaved adds on both sides of a non-crossing script: the spread
    // stays strictly positive at every step once both sides are populated.
    let mut feed = vec![
        ev_add(1, b'B', 100, 10000),
        ev_add(2, b'S', 100, 10100),
        ev_add(3, b'B', 50, 10050),
        ev_add(4, b'S', 80, 10080),
        ev_add(5, b'B', 20, 9900),
        ev_add(6, b'S', 30, 10200),
    ];
    replay_feed(&mut feed);
    for m in feed.iter().skip(1) {
        assert!(m.spread > 0);
        assert!(m.ask > m.bid);
    }
    assert_eq!(feed[5].bid, 10050);
    assert_eq!(feed[5].ask, 10080);
    assert_eq!(feed[5].spread, 30);
    assert_eq!(feed[5].bid_depth, 170);
    assert_eq!(feed[5].ask_depth, 210);
    assert_eq!(feed[5].depth, 380);
}

#[test]
fn unknown_ref_tolerated() {
    let mut feed = vec![ev_cancel(999, 10)];
    replay_feed(&mut feed);
    assert_eq!(snap(&feed[0]), (0, 0, 0, 0, 0, 0));
}

#[test]
fn unknown_refs_of_every_kind_tolerated() {
    let mut feed = vec![
        ev_delete(999),
        ev_execute(998, 5),
        ev_replace(997, 996, 10, 10000),
        ev_cancel(995, 1),
    ];
    replay_feed(&mut feed);
    for m in feed.iter() {
        assert_eq!(snap(m), (0, 0, 0, 0, 0, 0));
    }
}

#[test]
fn trade_print_does_not_touch_book() {
    let mut trade = Message::empty();
    trade.typ = 80;
    trade.orrf = 77;
    trade.buy_sell = b'B';
    trade.shares = 10;
    trade.price = 10000;
    let mut feed = vec![ev_add(1, b'B', 100, 10000), trade];
    replay_feed(&mut feed);
    assert_eq!(snap(&feed[1]), snap(&feed[0]));
}

#[test]
fn executed_price_recorded_but_book_uses_resting_price() {
    // A 'C' execution at a different price consumes liquidity at the
    // order's resting price.
    let mut exec_c = Message::empty();
    exec_c.typ = 67;
    exec_c.orrf = 5;
    exec_c.executed_shares = 40;
    exec_c.executed_price = 10090;
    let mut feed = vec![ev_add(5, b'S', 100, 10100), exec_c];
    replay_feed(&mut feed);
    assert_eq!(feed[1].ask, 10100);
    assert_eq!(feed[1].ask_depth, 60);
    assert_eq!(feed[1].executed_price, 10090);
}

#[test]
fn over_cancel_clamps_at_zero() {
    // Cancelling more shares than rest never drives anything negative.
    let mut feed = vec![ev_add(1, b'B', 50, 10000), ev_cancel(1, 80)];
    replay_feed(&mut feed);
    assert_eq!(feed[1].bid_depth, 0);
    assert_eq!(feed[1].bid, 0);
}

#[test]
fn ladder_tracks_buckets_and_bests() {
    let mut l = Ladder::new();
    l.add(10000, 100);
    l.add(10050, 40);
    l.add(10000, 60);
    assert_eq!(l.best_high(), 10050);
    assert_eq!(l.best_low(), 10000);
    l.sub(10050, 40);
    assert_eq!(l.best_high(), 10000);
    l.sub(10000, 160);
    assert_eq!(l.best_high(), 0);
    assert_eq!(l.best_low(), 0);
}

#[test]
fn book_side_accounting() {
    let mut side = BookSide::new();
    assert!(side.insert_order(1, 10000, 100));
    assert!(side.insert_order(2, 10000, 50));
    assert_eq!(side.depth, 150);
    side.deplete_order(1, 30);
    assert_eq!(side.depth, 120);
    side.remove_order(2);
    assert_eq!(side.depth, 70);
    assert!(side.contains(1));
    assert!(!side.contains(2));
}

#[test]
fn book_sides_stay_disjoint() {
    let mut book = Book::new();
    let add_b = ev_add(1, b'B', 100, 10000);
    let add_s_same_ref = ev_add(1, b'S', 100, 10100);
    book.apply(&add_b);
    book.apply(&add_s_same_ref); // same reference: must be ignored
    assert!(book.bids.contains(1));
    assert!(!book.asks.contains(1));
    let m = book.snapshot(&Message::empty());
    assert_eq!(m.bid, 10000);
    assert_eq!(m.ask, 0);
}

#[test]
fn add_with_attribution_rests_like_add() {
    let mut with_attr = ev_add(4, b'S', 120, 10100);
    with_attr.typ = 70;
    let mut feed = vec![with_attr];
    replay_feed(&mut feed);
    assert_eq!(feed[0].ask, 10100);
    assert_eq!(feed[0].ask_depth, 120);
}

#[test]
fn replace_on_sell_side() {
    let mut feed = vec![
        ev_add(1, b'S', 200, 10100),
        ev_add(2, b'S', 100, 10200),
        ev_replace(1, 3, 80, 10300),
    ];
    replay_feed(&mut feed);
    assert_eq!(feed[2].ask, 10200);
    assert_eq!(feed[2].ask_depth, 180);
}

#[test]
fn order_rec_fields() {
    let o = OrderRec { price: 10000, shares: 5 };
    assert_eq!(o.price, 10000);
    assert_eq!(o.shares, 5);
}
