//! Decoder tests: framing, field extraction, filtering, and error cases.

use itch_parser::decode::MsgStream;
use itch_parser::message::DecodeError;
use itch_parser::source::SliceSource;

fn be16(out: &mut Vec<u8>, v: u16) {
    out.extend_from_slice(&v.to_be_bytes());
}

fn be32(out: &mut Vec<u8>, v: u32) {
    out.extend_from_slice(&v.to_be_bytes());
}

fn be48(out: &mut Vec<u8>, v: u64) {
    out.extend_from_slice(&v.to_be_bytes()[2..]);
}

fn be64(out: &mut Vec<u8>, v: u64) {
    out.extend_from_slice(&v.to_be_bytes());
}

fn pad(out: &mut Vec<u8>, n: usize) {
    out.extend(std::iter::repeat(0u8).take(n));
}

/// Header shared by the order messages: locate, tracking, timestamp.
fn header(out: &mut Vec<u8>, disc: u8, locate: u16, ts: u64) {
    out.push(disc);
    be16(out, locate);
    be16(out, 0);
    be48(out, ts);
}

fn msg_add(locate: u16, ts: u64, orrf: u64, side: u8, shares: u32, price: u32) -> Vec<u8> {
    let mut m = Vec::new();
    header(&mut m, b'A', locate, ts);
    be64(&mut m, orrf);
    m.push(side);
    be32(&mut m, shares);
    m.extend_from_slice(b"TESTSYM ");
    be32(&mut m, price);
    pad(&mut m, 2);
    m
}

fn msg_add_attr(locate: u16, ts: u64, orrf: u64, side: u8, shares: u32, price: u32) -> Vec<u8> {
    let mut m = msg_add(locate, ts, orrf, side, shares, price);
    m[0] = b'F';
    m.extend_from_slice(b"MPID");
    m
}

fn msg_delete(locate: u16, ts: u64, orrf: u64) -> Vec<u8> {
    let mut m = Vec::new();
    header(&mut m, b'D', locate, ts);
    be64(&mut m, orrf);
    pad(&mut m, 2);
    m
}

fn msg_cancel(locate: u16, ts: u64, orrf: u64, cancelled: u32) -> Vec<u8> {
    let mut m = Vec::new();
    header(&mut m, b'X', locate, ts);
    be64(&mut m, orrf);
    be32(&mut m, cancelled);
    pad(&mut m, 2);
    m
}

fn msg_execute(locate: u16, ts: u64, orrf: u64, executed: u32) -> Vec<u8> {
    let mut m = Vec::new();
    header(&mut m, b'E', locate, ts);
    be64(&mut m, orrf);
    be32(&mut m, executed);
    be64(&mut m, 777);
    pad(&mut m, 2);
    m
}

fn msg_execute_price(locate: u16, ts: u64, orrf: u64, executed: u32, price: u32) -> Vec<u8> {
    let mut m = Vec::new();
    header(&mut m, b'C', locate, ts);
    be64(&mut m, orrf);
    be32(&mut m, executed);
    be64(&mut m, 777);
    m.push(b'Y');
    be32(&mut m, price);
    pad(&mut m, 2);
    m
}

fn msg_replace(locate: u16, ts: u64, orig: u64, new: u64, shares: u32, price: u32) -> Vec<u8> {
    let mut m = Vec::new();
    header(&mut m, b'U', locate, ts);
    be64(&mut m, orig);
    be64(&mut m, new);
    be32(&mut m, shares);
    be32(&mut m, price);
    pad(&mut m, 2);
    m
}

fn msg_trade(locate: u16, ts: u64, orrf: u64, side: u8, shares: u32, price: u32) -> Vec<u8> {
    let mut m = Vec::new();
    header(&mut m, b'P', locate, ts);
    be64(&mut m, orrf);
    m.push(side);
    be32(&mut m, shares);
    m.extend_from_slice(b"TESTSYM ");
    be32(&mut m, price);
    pad(&mut m, 2);
    be64(&mut m, 777);
    m
}

/// A message of an informational kind: the discriminant plus a zero payload
/// of its fixed size.
fn msg_other(disc: u8, payload: usize) -> Vec<u8> {
    let mut m = vec![disc];
    pad(&mut m, payload);
    m
}

fn stream_with_table(data: Vec<u8>, chunk: usize) -> MsgStream<SliceSource> {
    let mut s = MsgStream::new(SliceSource::new(data, chunk));
    s.insert_locate(1, b"TESTSYM".to_vec());
    s
}

#[test]
fn every_discriminant_consumes_exactly() {
    // One message of every supported kind, in arbitrary order; the decoder
    // must consume exactly the sum of their (1 + payload) bytes.
    let kinds: [(u8, usize); 14] = [
        (b'S', 13),
        (b'R', 40),
        (b'H', 26),
        (b'Y', 21),
        (b'L', 27),
        (b'V', 36),
        (b'W', 13),
        (b'K', 36),
        (b'J', 36),
        (b'h', 22),
        (b'Q', 41),
        (b'I', 51),
        (b'N', 21),
        (b'B', 20),
    ];
    let mut data = Vec::new();
    let mut count = 0usize;
    for (d, p) in kinds.iter() {
        data.extend(msg_other(*d, *p));
        count += 1;
    }
    data.extend(msg_add(1, 5, 100, b'B', 200, 10000));
    data.extend(msg_add_attr(1, 6, 101, b'S', 300, 10100));
    data.extend(msg_execute(1, 7, 101, 50));
    data.extend(msg_execute_price(1, 8, 101, 50, 10050));
    data.extend(msg_cancel(1, 9, 100, 10));
    data.extend(msg_delete(1, 10, 100));
    data.extend(msg_replace(1, 11, 101, 102, 200, 10200));
    data.extend(msg_trade(1, 12, 9, b'B', 10, 10000));
    count += 8;
    let total = data.len();
    let mut s = stream_with_table(data, 65536);
    assert!(s.process_bytes().is_ok());
    assert_eq!(s.message_ct, count);
    // the source was drained and every staged byte was consumed
    assert_eq!(s.reader.pos, total);
    assert_eq!(s.pos, s.buffer.len());
    assert!(s.read_calls >= 1);
    let consumed: usize = kinds.iter().map(|(_, p)| 1 + p).sum::<usize>() + 38 + 42 + 33 + 38
        + 25 + 21 + 37 + 46;
    assert_eq!(consumed, total);
    let feed = s.companies.get(&1).unwrap();
    assert_eq!(feed.len(), 8);
}

#[test]
fn refill_every_51_bytes_matches_single_buffer() {
    // Byte-for-byte identical output whether the source hands the whole
    // stream at once or trickles it 51 bytes at a time.
    let mut data = Vec::new();
    data.extend(msg_add(1, 1, 100, b'B', 200, 10000));
    data.extend(msg_other(b'I', 51));
    data.extend(msg_add(1, 2, 101, b'S', 300, 10100));
    data.extend(msg_other(b'R', 40));
    data.extend(msg_execute(1, 3, 101, 120));
    data.extend(msg_cancel(1, 4, 100, 30));
    data.extend(msg_replace(1, 5, 100, 102, 60, 9900));
    data.extend(msg_delete(1, 6, 102));
    let mut one = stream_with_table(data.clone(), 65536);
    let mut tiny = stream_with_table(data, 51);
    assert!(one.process_bytes().is_ok());
    assert!(tiny.process_bytes().is_ok());
    assert_eq!(one.companies.get(&1), tiny.companies.get(&1));
    assert_eq!(one.message_ct, tiny.message_ct);
}

#[test]
fn add_fields_extracted_exactly() {
    let data = msg_add(1, 0x0123_4567_89AB, 0xDEAD_BEEF_0112_2334, b'B', 250, 123400);
    let mut s = stream_with_table(data, 65536);
    assert!(s.process_bytes().is_ok());
    let feed = s.companies.get(&1).unwrap();
    assert_eq!(feed.len(), 1);
    let m = feed[0];
    assert_eq!(m.typ, 65);
    assert_eq!(m.timestamp, 0x0123_4567_89AB);
    assert_eq!(m.orrf, 0xDEAD_BEEF_0112_2334);
    assert_eq!(m.buy_sell, 66);
    assert_eq!(m.shares, 250);
    assert_eq!(m.price, 123400);
    assert_eq!(m.new_orff, 0);
    assert_eq!(m.cancelled_shares, 0);
    assert_eq!(m.executed_shares, 0);
    assert_eq!(m.executed_price, 0);
}

#[test]
fn replace_and_cancel_fields_extracted_exactly() {
    let mut data = Vec::new();
    data.extend(msg_replace(1, 44, 900, 901, 75, 20200));
    data.extend(msg_cancel(1, 45, 900, 33));
    data.extend(msg_execute_price(1, 46, 901, 21, 20100));
    let mut s = stream_with_table(data, 65536);
    assert!(s.process_bytes().is_ok());
    let feed = s.companies.get(&1).unwrap();
    assert_eq!(feed.len(), 3);
    assert_eq!(feed[0].typ, 85);
    assert_eq!(feed[0].orrf, 900);
    assert_eq!(feed[0].new_orff, 901);
    assert_eq!(feed[0].shares, 75);
    assert_eq!(feed[0].price, 20200);
    assert_eq!(feed[1].typ, 88);
    assert_eq!(feed[1].cancelled_shares, 33);
    assert_eq!(feed[2].typ, 67);
    assert_eq!(feed[2].executed_shares, 21);
    assert_eq!(feed[2].executed_price, 20100);
}

#[test]
fn untracked_locate_is_skipped_whole() {
    // A message for a locate that is not in the table must be skipped and
    // its payload fully consumed, leaving the stream aligned.
    let mut data = Vec::new();
    data.extend(msg_add(2, 1, 100, b'B', 200, 10000)); // locate 2 untracked
    data.extend(msg_add(1, 2, 101, b'B', 300, 10100)); // tracked
    let mut s = stream_with_table(data, 65536);
    assert!(s.process_bytes().is_ok());
    assert!(s.companies.get(&2).is_none());
    let feed = s.companies.get(&1).unwrap();
    assert_eq!(feed.len(), 1);
    assert_eq!(feed[0].orrf, 101);
    assert_eq!(s.message_ct, 2);
}

#[test]
fn unknown_discriminant_is_fatal() {
    let mut data = msg_add(1, 1, 100, b'B', 200, 10000);
    data.push(0u8); // not a message kind
    let mut s = stream_with_table(data, 65536);
    assert_eq!(s.process_bytes(), Err(DecodeError::UnknownMessage(0)));
}

#[test]
fn truncated_message_is_fatal() {
    let mut data = msg_add(1, 1, 100, b'B', 200, 10000);
    let partial = msg_add(1, 2, 101, b'B', 50, 9900);
    data.extend_from_slice(&partial[..20]); // stream ends mid-payload
    let mut s = stream_with_table(data, 65536);
    assert_eq!(s.process_bytes(), Err(DecodeError::TruncatedMessage));
}

#[test]
fn empty_stream_decodes_to_nothing() {
    let mut s = stream_with_table(Vec::new(), 65536);
    assert!(s.process_bytes().is_ok());
    assert_eq!(s.message_ct, 0);
    assert!(s.companies.is_empty());
}

#[test]
fn read_all_bytes_in_stages_everything() {
    let data = msg_add(1, 1, 100, b'B', 200, 10000);
    let mut s = stream_with_table(data.clone(), 7);
    assert!(s.read_all_bytes_in().is_ok());
    assert_eq!(s.buffer, data);
    assert!(s.process_bytes().is_ok());
    assert_eq!(s.companies.get(&1).unwrap().len(), 1);
}
