//! End-to-end: wire bytes in, annotated per-symbol rows out.

use itch_parser::decode::MsgStream;
use itch_parser::message::DecodeError;
use itch_parser::source::{FailingSource, SliceSource};

fn push_be16(out: &mut Vec<u8>, v: u16) {
    out.extend_from_slice(&v.to_be_bytes());
}

fn push_be32(out: &mut Vec<u8>, v: u32) {
    out.extend_from_slice(&v.to_be_bytes());
}

fn push_be48(out: &mut Vec<u8>, v: u64) {
    out.extend_from_slice(&v.to_be_bytes()[2..]);
}

fn push_be64(out: &mut Vec<u8>, v: u64) {
    out.extend_from_slice(&v.to_be_bytes());
}

fn wire_add(locate: u16, ts: u64, orrf: u64, side: u8, shares: u32, price: u32) -> Vec<u8> {
    let mut m = vec![b'A'];
    push_be16(&mut m, locate);
    push_be16(&mut m, 0);
    push_be48(&mut m, ts);
    push_be64(&mut m, orrf);
    m.push(side);
    push_be32(&mut m, shares);
    m.extend_from_slice(b"TICKERXX");
    push_be32(&mut m, price);
    m.extend_from_slice(&[0, 0]);
    m
}

fn wire_delete(locate: u16, ts: u64, orrf: u64) -> Vec<u8> {
    let mut m = vec![b'D'];
    push_be16(&mut m, locate);
    push_be16(&mut m, 0);
    push_be48(&mut m, ts);
    push_be64(&mut m, orrf);
    m.extend_from_slice(&[0, 0]);
    m
}

#[test]
fn decode_then_replay_end_to_end() {
    let text = b"ALPHA,3\nBETA,5\n".to_vec();
    let focused = vec![b"ALPHA".to_vec(), b"BETA".to_vec()];
    let mut data = Vec::new();
    data.extend(wire_add(3, 1, 100, b'B', 200, 10000));
    data.extend(wire_add(5, 2, 200, b'S', 50, 30000));
    data.extend(wire_add(3, 3, 101, b'S', 70, 10100));
    data.extend(wire_delete(3, 4, 100));
    let mut s = MsgStream::from_reader(SliceSource::new(data, 64));
    s.get_locate_codes(&text, &focused);
    assert!(s.process_bytes().is_ok());
    s.process_order_book();
    let alpha = s.companies.get(&3).unwrap();
    assert_eq!(alpha.len(), 3);
    assert_eq!(alpha[0].bid, 10000);
    assert_eq!(alpha[0].bid_depth, 200);
    assert_eq!(alpha[1].ask, 10100);
    assert_eq!(alpha[1].spread, 100);
    assert_eq!(alpha[1].depth, 270);
    assert_eq!(alpha[2].bid, 0);
    assert_eq!(alpha[2].ask, 10100);
    assert_eq!(alpha[2].spread, 0); // no bids: spread reported as zero
    let beta = s.companies.get(&5).unwrap();
    assert_eq!(beta.len(), 1);
    assert_eq!(beta[0].ask, 30000);
    assert_eq!(beta[0].ask_depth, 50);
    assert_eq!(beta[0].bid_depth, 0);
}

#[test]
fn replay_strategies_agree() {
    let mut data = Vec::new();
    data.extend(wire_add(1, 1, 100, b'B', 200, 10000));
    data.extend(wire_add(1, 2, 101, b'S', 50, 10100));
    data.extend(wire_delete(1, 3, 100));
    let mut a = MsgStream::new(SliceSource::new(data.clone(), 65536));
    a.insert_locate(1, b"T".to_vec());
    assert!(a.process_bytes().is_ok());
    let mut b = MsgStream::new(SliceSource::new(data.clone(), 65536));
    b.insert_locate(1, b"T".to_vec());
    assert!(b.process_bytes().is_ok());
    let mut c = MsgStream::new(SliceSource::new(data, 65536));
    c.insert_locate(1, b"T".to_vec());
    assert!(c.process_bytes().is_ok());
    a.process_order_book();
    b.process_order_book2();
    c.process_order_book_py();
    assert_eq!(a.companies.get(&1), b.companies.get(&1));
    assert_eq!(b.companies.get(&1), c.companies.get(&1));
}

#[test]
fn source_failure_surfaces_as_io() {
    let mut s = MsgStream::new(FailingSource {});
    assert_eq!(s.process_bytes(), Err(DecodeError::Io));
}

#[test]
fn source_failure_surfaces_in_read_all() {
    let mut s = MsgStream::new(FailingSource {});
    assert!(s.read_all_bytes_in().is_err());
}
