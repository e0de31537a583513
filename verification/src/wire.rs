//! The ITCH wire format: message sizes and field extraction.
//!
//! A stream is an unframed concatenation of messages. Each message is one
//! discriminant byte followed by a fixed-size payload determined by that
//! byte; all offsets below are measured from the first payload byte.

use vstd::prelude::*;
use crate::bytes::{be_bytes, be_u16_at, be_u32_at, be_u48_at, be_u64_at, u8_at};
use crate::message::Message;

verus! {

/// Payload size (bytes after the discriminant) of each supported message
/// kind; `None` for an unrecognized discriminant.
pub open spec fn spec_payload_len(d: u8) -> Option<usize> {
    if d == 83 {
        Some(13usize)  // S: system event
    } else if d == 82 {
        Some(40usize)  // R: stock directory
    } else if d == 72 {
        Some(26usize)  // H: trading action
    } else if d == 89 {
        Some(21usize)  // Y: Reg SHO
    } else if d == 76 {
        Some(27usize)  // L: market participant
    } else if d == 86 {
        Some(36usize)  // V: MWCB decline
    } else if d == 87 {
        Some(13usize)  // W: MWCB breach
    } else if d == 75 {
        Some(36usize)  // K: LULD price band
    } else if d == 74 {
        Some(36usize)  // J: LULD auction collar
    } else if d == 104 {
        Some(22usize)  // h: operational halt
    } else if d == 81 {
        Some(41usize)  // Q: cross trade
    } else if d == 73 {
        Some(51usize)  // I: NOII
    } else if d == 78 {
        Some(21usize)  // N: RPII
    } else if d == 66 {
        Some(20usize)  // B: broken trade
    } else if d == 65 {
        Some(37usize)  // A: add order
    } else if d == 70 {
        Some(41usize)  // F: add order with attribution
    } else if d == 69 {
        Some(32usize)  // E: order executed
    } else if d == 67 {
        Some(37usize)  // C: order executed with price
    } else if d == 88 {
        Some(24usize)  // X: order cancel
    } else if d == 68 {
        Some(20usize)  // D: order delete
    } else if d == 85 {
        Some(36usize)  // U: order replace
    } else if d == 80 {
        Some(45usize)  // P: non-cross trade
    } else {
        None
    }
}

/// Payload size of each supported message kind, `None` for an unrecognized
/// discriminant.
pub fn payload_len(d: u8) -> (r: Option<usize>)
    ensures
        r == spec_payload_len(d),
{
    if d == 83 {
        Some(13)
    } else if d == 82 {
        Some(40)
    } else if d == 72 {
        Some(26)
    } else if d == 89 {
        Some(21)
    } else if d == 76 {
        Some(27)
    } else if d == 86 {
        Some(36)
    } else if d == 87 {
        Some(13)
    } else if d == 75 {
        Some(36)
    } else if d == 74 {
        Some(36)
    } else if d == 104 {
        Some(22)
    } else if d == 81 {
        Some(41)
    } else if d == 73 {
        Some(51)
    } else if d == 78 {
        Some(21)
    } else if d == 66 {
        Some(20)
    } else if d == 65 {
        Some(37)
    } else if d == 70 {
        Some(41)
    } else if d == 69 {
        Some(32)
    } else if d == 67 {
        Some(37)
    } else if d == 88 {
        Some(24)
    } else if d == 68 {
        Some(20)
    } else if d == 85 {
        Some(36)
    } else if d == 80 {
        Some(45)
    } else {
        None
    }
}

/// Whether messages of this kind carry order-book content and are appended
/// to a symbol's log (all others are skipped over).
pub open spec fn is_book_kind(d: u8) -> bool {
    d == 65 || d == 70 || d == 88 || d == 68 || d == 69 || d == 67 || d == 85 || d == 80
}

/// Whether messages of this kind carry order-book content.
pub fn book_kind(d: u8) -> (r: bool)
    ensures
        r == is_book_kind(d),
{
    d == 65 || d == 70 || d == 88 || d == 68 || d == 69 || d == 67 || d == 85 || d == 80
}

/// The locate code of the message whose payload starts at `i`.
pub open spec fn spec_locate(s: Seq<u8>, i: int) -> u16 {
    be_bytes(s, i, 2) as u16
}

/// The decoded record of a book-kind message whose payload starts at `i` in
/// `s`: the ITCH 5.0 field layout of the order messages, with the
/// annotation fields zero.
pub open spec fn spec_message(d: u8, s: Seq<u8>, i: int) -> Message {
    Message {
        typ: d,
        timestamp: be_bytes(s, i + 4, 6) as u64,
        orrf: be_bytes(s, i + 10, 8) as u64,
        buy_sell: if d == 65 || d == 70 || d == 80 {
            s[i + 18]
        } else {
            0
        },
        shares: if d == 65 || d == 70 || d == 80 {
            be_bytes(s, i + 19, 4) as u32
        } else if d == 85 {
            be_bytes(s, i + 26, 4) as u32
        } else {
            0
        },
        price: if d == 65 || d == 70 || d == 80 {
            be_bytes(s, i + 31, 4) as u32
        } else if d == 85 {
            be_bytes(s, i + 30, 4) as u32
        } else {
            0
        },
        executed_shares: if d == 69 || d == 67 {
            be_bytes(s, i + 18, 4) as u32
        } else {
            0
        },
        executed_price: if d == 67 {
            be_bytes(s, i + 31, 4) as u32
        } else {
            0
        },
        new_orff: if d == 85 {
            be_bytes(s, i + 18, 8) as u64
        } else {
            0
        },
        cancelled_shares: if d == 88 {
            be_bytes(s, i + 18, 4) as u32
        } else {
            0
        },
        bid: 0,
        ask: 0,
        spread: 0,
        ask_depth: 0,
        bid_depth: 0,
        depth: 0,
    }
}

/// Extract the record of one book-kind message whose payload starts at `at`.
pub fn parse_message(d: u8, buf: &Vec<u8>, at: usize) -> (m: Message)
    requires
        is_book_kind(d),
        spec_payload_len(d) matches Some(n) && at + n <= buf@.len(),
    ensures
        m == spec_message(d, buf@, at as int),
{
    let blen = buf.len();
    assert(at + 35 <= blen || !(d == 65 || d == 70 || d == 80 || d == 67));
    let mut m = Message::empty();
    m.typ = d;
    m.timestamp = be_u48_at(buf, at + 4);
    m.orrf = be_u64_at(buf, at + 10);
    if d == 65 || d == 70 || d == 80 {
        m.buy_sell = u8_at(buf, at + 18);
        m.shares = be_u32_at(buf, at + 19);
        m.price = be_u32_at(buf, at + 31);
    } else if d == 85 {
        m.new_orff = be_u64_at(buf, at + 18);
        m.shares = be_u32_at(buf, at + 26);
        m.price = be_u32_at(buf, at + 30);
    } else if d == 88 {
        m.cancelled_shares = be_u32_at(buf, at + 18);
    } else if d == 69 {
        m.executed_shares = be_u32_at(buf, at + 18);
    } else if d == 67 {
        m.executed_shares = be_u32_at(buf, at + 18);
        m.executed_price = be_u32_at(buf, at + 31);
    }
    m
}

/// Reading a field out of `s.skip(p)` is reading it out of `s` at the
/// shifted offset.
pub proof fn lemma_be_bytes_skip(s: Seq<u8>, p: int, off: int, n: nat)
    requires
        0 <= p <= s.len(),
        0 <= off,
        p + off + n <= s.len(),
    ensures
        be_bytes(s.skip(p), off, n) == be_bytes(s, p + off, n),
    decreases n,
{
    if n > 0 {
        lemma_be_bytes_skip(s, p, off, (n - 1) as nat);
        assert(s.skip(p)[off + (n - 1)] == s[p + off + (n - 1)]);
    }
}

/// A field wholly inside `a` reads the same out of `a + b`.
pub proof fn lemma_be_bytes_prefix(a: Seq<u8>, b: Seq<u8>, off: int, n: nat)
    requires
        0 <= off,
        off + n <= a.len(),
    ensures
        be_bytes(a + b, off, n) == be_bytes(a, off, n),
    decreases n,
{
    if n > 0 {
        lemma_be_bytes_prefix(a, b, off, (n - 1) as nat);
        assert((a + b)[off + (n - 1)] == a[off + (n - 1)]);
    }
}

/// A message record read out of `s.skip(p)` is the record read out of `s`
/// at the shifted offset.
pub proof fn lemma_message_skip(d: u8, s: Seq<u8>, p: int, i: int)
    requires
        is_book_kind(d),
        0 <= p <= s.len(),
        0 <= i,
        spec_payload_len(d) matches Some(n) && p + i + n <= s.len(),
    ensures
        spec_message(d, s.skip(p), i) == spec_message(d, s, p + i),
        spec_locate(s.skip(p), i) == spec_locate(s, p + i),
    decreases 0int,
{
    lemma_be_bytes_skip(s, p, i, 2);
    lemma_be_bytes_skip(s, p, i + 4, 6);
    lemma_be_bytes_skip(s, p, i + 10, 8);
    if d == 88 || d == 69 || d == 67 {
        lemma_be_bytes_skip(s, p, i + 18, 4);
    }
    if d == 65 || d == 70 || d == 80 {
        lemma_be_bytes_skip(s, p, i + 19, 4);
    }
    if d == 85 {
        lemma_be_bytes_skip(s, p, i + 18, 8);
        lemma_be_bytes_skip(s, p, i + 26, 4);
        lemma_be_bytes_skip(s, p, i + 30, 4);
    }
    if d == 65 || d == 70 || d == 80 || d == 67 {
        lemma_be_bytes_skip(s, p, i + 31, 4);
    }
    if d == 65 || d == 70 || d == 80 {
        assert(s.skip(p)[i + 18] == s[p + i + 18]);
    }
}

/// A message record wholly inside `a` reads the same out of `a + b`.
pub proof fn lemma_message_prefix(d: u8, a: Seq<u8>, b: Seq<u8>, i: int)
    requires
        is_book_kind(d),
        0 <= i,
        spec_payload_len(d) matches Some(n) && i + n <= a.len(),
    ensures
        spec_message(d, a + b, i) == spec_message(d, a, i),
        spec_locate(a + b, i) == spec_locate(a, i),
    decreases 0int,
{
    lemma_be_bytes_prefix(a, b, i, 2);
    lemma_be_bytes_prefix(a, b, i + 4, 6);
    lemma_be_bytes_prefix(a, b, i + 10, 8);
    if d == 88 || d == 69 || d == 67 {
        lemma_be_bytes_prefix(a, b, i + 18, 4);
    }
    if d == 65 || d == 70 || d == 80 {
        lemma_be_bytes_prefix(a, b, i + 19, 4);
    }
    if d == 85 {
        lemma_be_bytes_prefix(a, b, i + 18, 8);
        lemma_be_bytes_prefix(a, b, i + 26, 4);
        lemma_be_bytes_prefix(a, b, i + 30, 4);
    }
    if d == 65 || d == 70 || d == 80 || d == 67 {
        lemma_be_bytes_prefix(a, b, i + 31, 4);
    }
    if d == 65 || d == 70 || d == 80 {
        assert((a + b)[i + 18] == a[i + 18]);
    }
}

} // verus!
