//! The streaming demultiplexer: from a raw byte stream to per-symbol logs.
//!
//! [`spec_decode`] is the mathematical meaning of decoding: it walks an
//! unframed concatenation of messages, appending the record of every
//! book-kind message whose locate code is in the symbol table to that
//! symbol's log, and fails on a discriminant it does not know or on a
//! stream that ends mid-message. The executable decoder in
//! [`MsgStream::process_bytes`] consumes its source in chunks of any size
//! and is proved to produce exactly `spec_decode` of the staged bytes
//! followed by the source's whole remaining content, so the refill
//! schedule cannot show in the output.

use vstd::prelude::*;
use std::collections::HashMap;
use crate::bytes::be_u16_at;
use crate::message::{DecodeError, IoError, Message};
use crate::source::ByteSource;
use crate::wire::{
    book_kind, is_book_kind, lemma_message_prefix, lemma_message_skip, parse_message, payload_len,
    spec_locate, spec_message, spec_payload_len,
};

verus! {

broadcast use vstd::std_specs::hash::group_hash_axioms;

/// Capacity of one refill request to the byte source.
pub const BUFSIZE: usize = 65536;

/// Refill whenever fewer than this many bytes remain: one discriminant byte
/// plus the largest payload (51 bytes, kind `I`) always fit.
pub const REFILL_THRESHOLD: usize = 52;

/// The per-symbol logs as a mathematical map, one event sequence per locate
/// code.
pub open spec fn logs_view(m: Map<u16, Vec<Message>>) -> Map<u16, Seq<Message>> {
    Map::new(|loc: u16| m.dom().contains(loc), |loc: u16| m[loc]@)
}

/// The symbol table as a mathematical map from locate code to ticker
/// bytes.
pub open spec fn ticker_view(m: Map<u16, Vec<u8>>) -> Map<u16, Seq<u8>> {
    Map::new(|loc: u16| m.dom().contains(loc), |loc: u16| m[loc]@)
}

/// `logs` with `msg` appended to the log of `loc` (creating the log if this
/// is the symbol's first event).
pub open spec fn log_append(
    logs: Map<u16, Seq<Message>>,
    loc: u16,
    msg: Message,
) -> Map<u16, Seq<Message>> {
    if logs.dom().contains(loc) {
        logs.insert(loc, logs[loc].push(msg))
    } else {
        logs.insert(loc, seq![msg])
    }
}

/// The effect of the message at the head of `s` on the logs: appended to
/// its symbol's log if it is a book-kind message whose locate code is in
/// `table`, ignored otherwise.
pub open spec fn spec_accept(
    s: Seq<u8>,
    table: Set<u16>,
    logs: Map<u16, Seq<Message>>,
) -> Map<u16, Seq<Message>> {
    let d = s[0];
    if is_book_kind(d) && table.contains(spec_locate(s, 1)) {
        log_append(logs, spec_locate(s, 1), spec_message(d, s, 1))
    } else {
        logs
    }
}

/// Decode a whole byte stream into per-symbol logs.
///
/// The stream must be an exact concatenation of supported messages: an
/// unrecognized discriminant is fatal (the stream is misaligned), and so is
/// a stream that ends inside a message's fixed payload.
pub open spec fn spec_decode(
    s: Seq<u8>,
    table: Set<u16>,
    logs: Map<u16, Seq<Message>>,
) -> Result<Map<u16, Seq<Message>>, DecodeError>
    decreases s.len(),
{
    if s.len() == 0 {
        Ok(logs)
    } else {
        match spec_payload_len(s[0]) {
            Option::None => Err(DecodeError::UnknownMessage(s[0])),
            Option::Some(n) => {
                if s.len() < 1 + n {
                    Err(DecodeError::TruncatedMessage)
                } else {
                    spec_decode(s.skip(1 + n), table, spec_accept(s, table, logs))
                }
            },
        }
    }
}

/// Whether `s` is an exact concatenation of whole supported messages.
pub open spec fn is_message_concat(s: Seq<u8>) -> bool
    decreases s.len(),
{
    s.len() == 0 || (spec_payload_len(s[0]) matches Some(n) && s.len() >= 1 + n
        && is_message_concat(s.skip(1 + n)))
}

/// Framing: feeding an exact concatenation of supported messages, whatever
/// their kinds and order, decodes cleanly — every byte is consumed and no
/// error is possible.
pub proof fn lemma_decode_consumes_concat(
    s: Seq<u8>,
    table: Set<u16>,
    logs: Map<u16, Seq<Message>>,
)
    requires
        is_message_concat(s),
    ensures
        spec_decode(s, table, logs) is Ok,
    decreases s.len(),
{
    if s.len() > 0 {
        let n = spec_payload_len(s[0])->Some_0;
        lemma_decode_consumes_concat(s.skip(1 + n), table, spec_accept(s, table, logs));
    }
}

/// Termination measure of the refill loop: the source's budget, with one
/// extra step available until exhaustion has been observed.
pub open spec fn refill_measure(exhausted: bool, budget: nat) -> int {
    if exhausted {
        2 * (budget as int)
    } else {
        2 * (budget as int) + 1
    }
}

/// Consuming the whole message at the head of the remaining input advances
/// the decode by exactly that message's effect, whatever bytes follow it.
pub proof fn lemma_decode_step(
    rest: Seq<u8>,
    tail: Seq<u8>,
    table: Set<u16>,
    logs: Map<u16, Seq<Message>>,
)
    requires
        rest.len() >= 1,
        spec_payload_len(rest[0]) matches Some(n) && rest.len() >= 1 + n,
    ensures
        spec_payload_len(rest[0]) matches Some(n) ==> spec_decode(rest + tail, table, logs)
            == spec_decode(rest.skip(1 + n) + tail, table, spec_accept(rest, table, logs)),
{
    let d = rest[0];
    let n = spec_payload_len(d)->Some_0;
    let full = rest + tail;
    assert(full[0] == d);
    assert(full.len() >= 1 + n);
    if is_book_kind(d) {
        lemma_message_prefix(d, rest, tail, 1);
    }
    assert(spec_accept(full, table, logs) == spec_accept(rest, table, logs));
    assert(full.skip(1 + n) =~= rest.skip(1 + n) + tail);
}

/// The streaming decoder: a byte source, a staging buffer consumed by a
/// cursor and compacted on refill, the symbol table, and the per-symbol
/// event logs being built.
pub struct MsgStream<R> {
    /// The byte source.
    pub reader: R,
    /// Staging buffer; bytes before `pos` are already consumed.
    pub buffer: Vec<u8>,
    /// Cursor into `buffer`: the first unconsumed byte.
    pub pos: usize,
    /// Every byte the source has yielded so far, in order.
    pub fetched: Ghost<Seq<u8>>,
    /// How many times the source was asked for a chunk.
    pub read_calls: u32,
    /// How many messages have been consumed (accepted or skipped).
    pub message_ct: usize,
    /// Per-symbol event logs, keyed by locate code.
    pub companies: HashMap<u16, Vec<Message>>,
    /// The locate codes present in `companies`, in order of first event.
    pub locates: Vec<u16>,
    /// The symbol table: tracked locate codes and their (ASCII) tickers.
    pub loc_to_ticker: HashMap<u16, Vec<u8>>,
}

impl<R> MsgStream<R> {
    /// The bytes fetched but not yet consumed.
    pub open spec fn rest(&self) -> Seq<u8> {
        self.buffer@.skip(self.pos as int)
    }

    /// The per-symbol logs as a mathematical map.
    pub open spec fn logs(&self) -> Map<u16, Seq<Message>> {
        logs_view(self.companies@)
    }

    /// The set of tracked locate codes.
    pub open spec fn table(&self) -> Set<u16> {
        self.loc_to_ticker@.dom()
    }

    /// The symbol table: locate code to ticker bytes.
    pub open spec fn tickers(&self) -> Map<u16, Seq<u8>> {
        ticker_view(self.loc_to_ticker@)
    }

    /// The cursor is inside the buffer and `locates` lists exactly the keys
    /// of `companies`, each once.
    pub open spec fn wf(&self) -> bool {
        &&& self.pos <= self.buffer@.len()
        &&& self.locates@.no_duplicates()
        &&& forall|loc: u16|
            self.companies@.dom().contains(loc) <==> #[trigger] self.locates@.contains(loc)
    }
}

impl<R: ByteSource> MsgStream<R> {
    /// A decoder over `reader` with an empty symbol table and no events.
    pub fn new(reader: R) -> (s: MsgStream<R>)
        ensures
            s.wf(),
            s.reader == reader,
            s.rest() == Seq::<u8>::empty(),
            s.logs() == Map::<u16, Seq<Message>>::empty(),
            s.table() == Set::<u16>::empty(),
            s.fetched@ == Seq::<u8>::empty(),
            s.message_ct == 0,
            s.read_calls == 0,
    {
        let s = MsgStream {
            reader,
            buffer: Vec::new(),
            pos: 0,
            fetched: Ghost(Seq::empty()),
            read_calls: 0,
            message_ct: 0,
            companies: HashMap::new(),
            locates: Vec::new(),
            loc_to_ticker: HashMap::new(),
        };
        proof {
            assert(s.rest() =~= Seq::<u8>::empty());
            assert(s.logs() =~= Map::<u16, Seq<Message>>::empty());
            assert(s.table() =~= Set::<u16>::empty());
        }
        s
    }

    /// A decoder over `reader` with an empty symbol table and no events.
    pub fn from_reader(reader: R) -> (s: MsgStream<R>)
        ensures
            s.wf(),
            s.reader == reader,
            s.rest() == Seq::<u8>::empty(),
            s.logs() == Map::<u16, Seq<Message>>::empty(),
            s.table() == Set::<u16>::empty(),
            s.fetched@ == Seq::<u8>::empty(),
            s.message_ct == 0,
            s.read_calls == 0,
    {
        MsgStream::new(reader)
    }

    /// Track the symbol with this locate code: messages carrying it will be
    /// decoded into its log.
    pub fn insert_locate(&mut self, locate: u16, ticker: Vec<u8>)
        requires
            old(self).wf(),
        ensures
            final(self).wf(),
            final(self).tickers() == old(self).tickers().insert(locate, ticker@),
            final(self).table() == old(self).table().insert(locate),
            final(self).companies == old(self).companies,
            final(self).locates == old(self).locates,
            final(self).buffer == old(self).buffer,
            final(self).pos == old(self).pos,
            final(self).fetched == old(self).fetched,
            final(self).reader == old(self).reader,
            final(self).read_calls == old(self).read_calls,
            final(self).message_ct == old(self).message_ct,
    {
        self.loc_to_ticker.insert(locate, ticker);
        proof {
            assert(self.table() =~= old(self).table().insert(locate));
            assert(self.tickers() =~= old(self).tickers().insert(
                locate,
                old(self).loc_to_ticker@.insert(locate, ticker)[locate]@,
            ));
        }
    }

    /// Ask the source for one chunk and stage it. Returns how many bytes
    /// arrived; zero means the stream is exhausted.
    pub fn fetch_bytes(&mut self) -> (r: Result<usize, IoError>)
        ensures
            final(self).pos == old(self).pos,
            final(self).companies == old(self).companies,
            final(self).locates == old(self).locates,
            final(self).loc_to_ticker == old(self).loc_to_ticker,
            final(self).message_ct == old(self).message_ct,
            final(self).read_calls == old(self).read_calls.wrapping_add(1),
            match r {
                Ok(n) => {
                    &&& n <= BUFSIZE
                    &&& n <= old(self).reader.stream().len()
                    &&& final(self).buffer@.len() == old(self).buffer@.len() + n
                    &&& final(self).buffer@.take(old(self).buffer@.len() as int)
                        == old(self).buffer@
                    &&& final(self).buffer@.skip(old(self).buffer@.len() as int)
                        == old(self).reader.stream().take(n as int)
                    &&& final(self).fetched@ == old(self).fetched@ + final(self).buffer@.skip(
                        old(self).buffer@.len() as int,
                    )
                    &&& final(self).reader.stream() == old(self).reader.stream().skip(n as int)
                    &&& (n == 0 ==> old(self).reader.stream().len() == 0)
                },
                Err(_) => {
                    &&& final(self).buffer == old(self).buffer
                    &&& final(self).fetched == old(self).fetched
                    &&& old(self).reader.may_fail()
                },
            },
            final(self).reader.may_fail() ==> old(self).reader.may_fail(),
    {
        self.read_calls = self.read_calls.wrapping_add(1);
        let mut chunk = match self.reader.read_chunk(BUFSIZE) {
            Ok(c) => c,
            Err(e) => {
                return Err(e);
            },
        };
        let n = chunk.len();
        let ghost chunk_bytes = chunk@;
        self.buffer.append(&mut chunk);
        self.fetched = Ghost(self.fetched@ + chunk_bytes);
        proof {
            assert(self.buffer@.take(old(self).buffer@.len() as int) =~= old(self).buffer@);
            assert(self.buffer@.skip(old(self).buffer@.len() as int) =~= chunk_bytes);
        }
        Ok(n)
    }

    /// Drop the consumed prefix of the staging buffer and move the cursor
    /// back to its start.
    fn compact(&mut self)
        requires
            old(self).wf(),
        ensures
            final(self).wf(),
            final(self).pos == 0,
            final(self).rest() == old(self).rest(),
            final(self).fetched == old(self).fetched,
            final(self).companies == old(self).companies,
            final(self).locates == old(self).locates,
            final(self).loc_to_ticker == old(self).loc_to_ticker,
            final(self).message_ct == old(self).message_ct,
            final(self).read_calls == old(self).read_calls,
            final(self).reader == old(self).reader,
    {
        let mut nb: Vec<u8> = Vec::new();
        let mut i = self.pos;
        while i < self.buffer.len()
            invariant
                *self == *old(self),
                old(self).wf(),
                old(self).pos <= i <= self.buffer@.len(),
                nb@ == self.buffer@.subrange(old(self).pos as int, i as int),
            decreases self.buffer@.len() - i,
        {
            nb.push(self.buffer[i]);
            i = i + 1;
        }
        self.buffer = nb;
        self.pos = 0;
        proof {
            assert(self.buffer@ =~= old(self).rest());
            assert(self.rest() =~= self.buffer@);
        }
    }

    /// Append one decoded record to its symbol's log, creating the log on
    /// the symbol's first event.
    fn push_event(&mut self, loc: u16, msg: Message)
        requires
            old(self).wf(),
        ensures
            final(self).wf(),
            final(self).logs() == log_append(old(self).logs(), loc, msg),
            final(self).loc_to_ticker == old(self).loc_to_ticker,
            final(self).buffer == old(self).buffer,
            final(self).pos == old(self).pos,
            final(self).fetched == old(self).fetched,
            final(self).message_ct == old(self).message_ct,
            final(self).read_calls == old(self).read_calls,
            final(self).reader == old(self).reader,
    {
        if self.companies.contains_key(&loc) {
            let mut v = match self.companies.remove(&loc) {
                Some(v) => v,
                None => Vec::new(),
            };
            v.push(msg);
            self.companies.insert(loc, v);
            proof {
                assert(self.logs() =~= log_append(old(self).logs(), loc, msg));
            }
        } else {
            let mut v = Vec::new();
            v.push(msg);
            self.companies.insert(loc, v);
            self.locates.push(loc);
            proof {
                let ls = self.locates@;
                let ol = old(self).locates@;
                assert forall|l: u16| ls.contains(l) implies (ol.contains(l) || l == loc) by {
                    let i = choose|i: int| 0 <= i < ls.len() && ls[i] == l;
                    if i < ol.len() {
                        assert(ol[i] == l);
                    }
                }
                assert forall|l: u16| (ol.contains(l) || l == loc) implies ls.contains(l) by {
                    if l == loc {
                        assert(ls[ol.len() as int] == loc);
                    } else {
                        let i = choose|i: int| 0 <= i < ol.len() && ol[i] == l;
                        assert(ls[i] == l);
                    }
                }
                assert forall|i: int, j: int| 0 <= i < j < ls.len() implies ls[i] != ls[j] by {
                    if j == ls.len() - 1 {
                        assert(ol.contains(ol[i]));
                    }
                }
                assert(self.logs() =~= log_append(old(self).logs(), loc, msg));
            }
        }
    }

    /// Consume the whole stream: decode messages out of the staging buffer,
    /// refilling from the source whenever fewer bytes remain than the
    /// largest message needs, until the source is exhausted and the buffer
    /// fully consumed.
    ///
    /// Whatever chunk sizes the source happens to serve, the outcome is
    /// pinned by the staged bytes plus the source's remaining content: on
    /// success the logs are exactly [`spec_decode`] of that whole input and
    /// every byte of it was consumed; `UnknownMessage` and
    /// `TruncatedMessage` come exactly when `spec_decode` says the input is
    /// misaligned or ends mid-message; `Io` surfaces a source failure,
    /// which a source that cannot fail rules out.
    pub fn process_bytes(&mut self) -> (r: Result<(), DecodeError>)
        requires
            old(self).wf(),
        ensures
            final(self).wf(),
            final(self).loc_to_ticker == old(self).loc_to_ticker,
            final(self).fetched@.len() >= old(self).fetched@.len(),
            final(self).fetched@.take(old(self).fetched@.len() as int) == old(self).fetched@,
            forall|loc: u16|
                final(self).logs().dom().contains(loc) ==> old(self).logs().dom().contains(loc)
                    || old(self).table().contains(loc),
            ({
                let input = old(self).rest() + old(self).reader.stream();
                match r {
                    Ok(_) => {
                        &&& spec_decode(input, old(self).table(), old(self).logs())
                            == Ok::<Map<u16, Seq<Message>>, DecodeError>(final(self).logs())
                        &&& final(self).rest().len() == 0
                        &&& final(self).reader.stream().len() == 0
                    },
                    Err(e) => e is Io || spec_decode(input, old(self).table(), old(self).logs())
                        == Err::<Map<u16, Seq<Message>>, DecodeError>(e),
                }
            }),
            r == Err::<(), DecodeError>(DecodeError::Io) ==> old(self).reader.may_fail(),
    {
        let ghost table = old(self).table();
        let ghost logs0 = old(self).logs();
        let ghost input0 = old(self).rest() + old(self).reader.stream();
        let ghost fetched0 = old(self).fetched@;
        let mut exhausted = false;
        loop
            invariant
                self.wf(),
                self.loc_to_ticker == old(self).loc_to_ticker,
                table == old(self).table(),
                logs0 == old(self).logs(),
                input0 == old(self).rest() + old(self).reader.stream(),
                fetched0 == old(self).fetched@,
                self.fetched@.len() >= fetched0.len(),
                self.fetched@.take(fetched0.len() as int) == fetched0,
                self.reader.may_fail() ==> old(self).reader.may_fail(),
                exhausted ==> self.reader.stream().len() == 0,
                forall|loc: u16|
                    self.logs().dom().contains(loc) ==> logs0.dom().contains(loc)
                        || table.contains(loc),
                spec_decode(input0, table, logs0) == spec_decode(
                    self.rest() + self.reader.stream(),
                    table,
                    self.logs(),
                ),
            decreases self.reader.stream().len() + self.rest().len(),
        {
            let ghost m0 = self.reader.stream().len() + self.rest().len();
            while !exhausted && self.buffer.len() - self.pos < REFILL_THRESHOLD
                invariant
                    self.wf(),
                    self.loc_to_ticker == old(self).loc_to_ticker,
                    table == old(self).table(),
                    logs0 == old(self).logs(),
                    input0 == old(self).rest() + old(self).reader.stream(),
                    fetched0 == old(self).fetched@,
                    self.fetched@.len() >= fetched0.len(),
                    self.fetched@.take(fetched0.len() as int) == fetched0,
                    self.reader.may_fail() ==> old(self).reader.may_fail(),
                    exhausted ==> self.reader.stream().len() == 0,
                    forall|loc: u16|
                        self.logs().dom().contains(loc) ==> logs0.dom().contains(loc)
                            || table.contains(loc),
                    spec_decode(input0, table, logs0) == spec_decode(
                        self.rest() + self.reader.stream(),
                        table,
                        self.logs(),
                    ),
                    self.reader.stream().len() + self.rest().len() <= m0,
                decreases refill_measure(exhausted, self.reader.stream().len()),
            {
                self.compact();
                let ghost pre = *self;
                match self.fetch_bytes() {
                    Ok(n) => {
                        proof {
                            let chunk = self.buffer@.skip(pre.buffer@.len() as int);
                            assert(self.rest() =~= pre.rest() + chunk);
                            assert(self.fetched@.skip(fetched0.len() as int) =~= pre.fetched@.skip(
                                fetched0.len() as int,
                            ) + chunk);
                            assert(self.fetched@.take(fetched0.len() as int) =~= fetched0);
                            assert(self.rest() + self.reader.stream() =~= pre.rest()
                                + pre.reader.stream());
                        }
                        if n == 0 {
                            exhausted = true;
                        }
                    },
                    Err(_) => {
                        return Err(DecodeError::Io);
                    },
                }
            }
            let remaining = self.buffer.len() - self.pos;
            if remaining == 0 {
                proof {
                    assert(self.rest() + self.reader.stream() =~= Seq::<u8>::empty());
                    assert(spec_decode(input0, table, logs0)
                        == Ok::<Map<u16, Seq<Message>>, DecodeError>(self.logs()));
                }
                return Ok(());
            }
            let d = self.buffer[self.pos];
            proof {
                assert(self.rest()[0] == d);
                assert((self.rest() + self.reader.stream())[0] == d);
            }
            match payload_len(d) {
                None => {
                    proof {
                        assert(spec_decode(input0, table, logs0)
                            == Err::<Map<u16, Seq<Message>>, DecodeError>(
                            DecodeError::UnknownMessage(d),
                        ));
                    }
                    return Err(DecodeError::UnknownMessage(d));
                },
                Some(n) => {
                    if remaining < 1 + n {
                        proof {
                            assert(self.rest() + self.reader.stream() =~= self.rest());
                            assert(spec_decode(input0, table, logs0)
                                == Err::<Map<u16, Seq<Message>>, DecodeError>(
                                DecodeError::TruncatedMessage,
                            ));
                        }
                        return Err(DecodeError::TruncatedMessage);
                    }
                    let ghost pre = *self;
                    let loc = be_u16_at(&self.buffer, self.pos + 1);
                    if book_kind(d) && self.loc_to_ticker.contains_key(&loc) {
                        let msg = parse_message(d, &self.buffer, self.pos + 1);
                        proof {
                            lemma_message_skip(d, pre.buffer@, pre.pos as int, 1);
                        }
                        self.push_event(loc, msg);
                    } else {
                        proof {
                            if is_book_kind(d) {
                                lemma_message_skip(d, pre.buffer@, pre.pos as int, 1);
                            }
                        }
                    }
                    proof {
                        assert(self.logs() == spec_accept(pre.rest(), table, pre.logs()));
                        lemma_decode_step(pre.rest(), pre.reader.stream(), table, pre.logs());
                    }
                    self.pos = self.pos + 1 + n;
                    self.message_ct = self.message_ct.wrapping_add(1);
                    proof {
                        assert(self.rest() =~= pre.rest().skip(1 + n as int));
                    }
                },
            }
        }
    }

    /// Stage everything the source has: fetch until it reports exhaustion,
    /// so the source's whole remaining content ends up appended to the
    /// staging buffer in order. Each fetch bumps `read_calls`; how many are
    /// needed depends on the source's chunking and is not pinned here.
    pub fn read_all_bytes_in(&mut self) -> (r: Result<(), IoError>)
        ensures
            final(self).pos == old(self).pos,
            final(self).companies == old(self).companies,
            final(self).locates == old(self).locates,
            final(self).loc_to_ticker == old(self).loc_to_ticker,
            final(self).message_ct == old(self).message_ct,
            final(self).buffer@.len() >= old(self).buffer@.len(),
            final(self).buffer@.take(old(self).buffer@.len() as int) == old(self).buffer@,
            r matches Ok(_) ==> {
                &&& final(self).buffer@ == old(self).buffer@ + old(self).reader.stream()
                &&& final(self).reader.stream().len() == 0
                &&& final(self).fetched@ == old(self).fetched@ + old(self).reader.stream()
            },
            r is Err ==> old(self).reader.may_fail(),
            final(self).reader.may_fail() ==> old(self).reader.may_fail(),
    {
        loop
            invariant
                self.reader.may_fail() ==> old(self).reader.may_fail(),
                self.pos == old(self).pos,
                self.companies == old(self).companies,
                self.locates == old(self).locates,
                self.loc_to_ticker == old(self).loc_to_ticker,
                self.message_ct == old(self).message_ct,
                self.buffer@.len() >= old(self).buffer@.len(),
                self.buffer@.take(old(self).buffer@.len() as int) == old(self).buffer@,
                self.fetched@ == old(self).fetched@ + self.buffer@.skip(
                    old(self).buffer@.len() as int,
                ),
                old(self).reader.stream() == self.buffer@.skip(old(self).buffer@.len() as int)
                    + self.reader.stream(),
            decreases self.reader.stream().len(),
        {
            let ghost pre = *self;
            match self.fetch_bytes() {
                Ok(n) => {
                    proof {
                        let chunk = self.buffer@.skip(pre.buffer@.len() as int);
                        assert(self.buffer@.take(old(self).buffer@.len() as int)
                            =~= old(self).buffer@);
                        assert(self.buffer@.skip(old(self).buffer@.len() as int) =~= pre.buffer@.skip(
                            old(self).buffer@.len() as int,
                        ) + chunk);
                        assert(self.fetched@ =~= old(self).fetched@ + self.buffer@.skip(
                            old(self).buffer@.len() as int,
                        ));
                        assert(pre.reader.stream() =~= chunk + self.reader.stream());
                        assert(old(self).reader.stream() =~= self.buffer@.skip(
                            old(self).buffer@.len() as int,
                        ) + self.reader.stream());
                    }
                    if n == 0 {
                        proof {
                            assert(self.buffer@ =~= old(self).buffer@ + old(self).reader.stream());
                        }
                        return Ok(());
                    }
                },
                Err(e) => {
                    return Err(e);
                },
            }
        }
    }
}

} // verus!
