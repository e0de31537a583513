//! The decoded event record and the decoder's error type.

use vstd::prelude::*;

verus! {

/// One decoded ITCH event, as appended to a symbol's log by the decoder and
/// annotated with the post-event book snapshot by the replay engine.
///
/// The record is flat: fields that a given message kind does not carry stay
/// zero. `typ` is the wire discriminant byte (`b'A'`, `b'D'`, ...).
#[derive(Clone, Copy, Debug, PartialEq, Eq, Structural)]
pub struct Message {
    /// Wire discriminant byte of the message kind.
    pub typ: u8,
    /// Nanoseconds since midnight, a 48-bit value stored in 64 bits.
    pub timestamp: u64,
    /// Order reference number (on Replace: the original reference).
    pub orrf: u64,
    /// `b'B'` or `b'S'`; zero on kinds that carry no side.
    pub buy_sell: u8,
    /// Resting size on Add, new size on Replace; zero otherwise.
    pub shares: u32,
    /// Limit price in 1/10,000-dollar units; zero on kinds without one.
    pub price: u32,
    /// Executed size on Execute kinds; zero otherwise.
    pub executed_shares: u32,
    /// Execution price on ExecuteWithPrice; zero otherwise.
    pub executed_price: u32,
    /// New order reference on Replace; zero otherwise.
    pub new_orff: u64,
    /// Cancelled size on Cancel; zero otherwise.
    pub cancelled_shares: u32,
    /// Annotation: best bid after the event (0 when no bids).
    pub bid: u32,
    /// Annotation: best ask after the event (0 when no asks).
    pub ask: u32,
    /// Annotation: `ask - bid` when `ask >= bid > 0`, else 0.
    pub spread: u32,
    /// Annotation: aggregate resting shares on the sell side.
    pub ask_depth: u32,
    /// Annotation: aggregate resting shares on the buy side.
    pub bid_depth: u32,
    /// Annotation: `bid_depth + ask_depth`, saturating at `u32::MAX`.
    pub depth: u32,
}

impl Message {
    /// The all-zero record that field extraction starts from.
    pub open spec fn spec_empty() -> Message {
        Message {
            typ: 0,
            timestamp: 0,
            orrf: 0,
            buy_sell: 0,
            shares: 0,
            price: 0,
            executed_shares: 0,
            executed_price: 0,
            new_orff: 0,
            cancelled_shares: 0,
            bid: 0,
            ask: 0,
            spread: 0,
            ask_depth: 0,
            bid_depth: 0,
            depth: 0,
        }
    }

    /// An all-zero record.
    pub fn empty() -> (m: Message)
        ensures
            m == Message::spec_empty(),
    {
        Message {
            typ: 0,
            timestamp: 0,
            orrf: 0,
            buy_sell: 0,
            shares: 0,
            price: 0,
            executed_shares: 0,
            executed_price: 0,
            new_orff: 0,
            cancelled_shares: 0,
            bid: 0,
            ask: 0,
            spread: 0,
            ask_depth: 0,
            bid_depth: 0,
            depth: 0,
        }
    }
}

/// Failure reading from the byte source.
#[derive(Clone, Copy, Debug, PartialEq, Eq, Structural)]
pub struct IoError {}

/// Why decoding stopped.
///
/// `UnknownMessage` and `TruncatedMessage` are fatal: the stream is
/// misaligned or ends mid-message. `Io` surfaces a byte-source failure.
#[derive(Clone, Copy, Debug, PartialEq, Eq, Structural)]
pub enum DecodeError {
    /// The byte source failed.
    Io,
    /// An unrecognized discriminant byte; the stream is misaligned.
    UnknownMessage(u8),
    /// The stream ended before a message's fixed payload completed.
    TruncatedMessage,
}

} // verus!
