//! Locate-table parsing tests.

use itch_parser::decode::MsgStream;
use itch_parser::locates::{parse_locate_line, parse_locate_u16};
use itch_parser::source::SliceSource;

#[test]
fn parse_u16_plain() {
    assert_eq!(parse_locate_u16(&b"0".to_vec()), Some(0));
    assert_eq!(parse_locate_u16(&b"42".to_vec()), Some(42));
    assert_eq!(parse_locate_u16(&b"65535".to_vec()), Some(65535));
    assert_eq!(parse_locate_u16(&b"007".to_vec()), Some(7));
}

#[test]
fn parse_u16_rejects() {
    assert_eq!(parse_locate_u16(&b"".to_vec()), None);
    assert_eq!(parse_locate_u16(&b"65536".to_vec()), None);
    assert_eq!(parse_locate_u16(&b"99999".to_vec()), None);
    assert_eq!(parse_locate_u16(&b"12a".to_vec()), None);
    assert_eq!(parse_locate_u16(&b"-3".to_vec()), None);
    assert_eq!(parse_locate_u16(&b" 3".to_vec()), None);
}

#[test]
fn parse_line_shapes() {
    assert_eq!(
        parse_locate_line(&b"AAPL,17".to_vec()),
        Some((b"AAPL".to_vec(), 17))
    );
    // a third field is ignored, as with comma-splitting
    assert_eq!(
        parse_locate_line(&b"MSFT,9,extra".to_vec()),
        Some((b"MSFT".to_vec(), 9))
    );
    assert_eq!(parse_locate_line(&b"NOCOMMA".to_vec()), None);
    assert_eq!(parse_locate_line(&b"EMPTY,".to_vec()), None);
    assert_eq!(parse_locate_line(&b"BAD,12x".to_vec()), None);
    assert_eq!(parse_locate_line(&b"BIG,70000".to_vec()), None);
    assert_eq!(parse_locate_line(&b"".to_vec()), None);
}

#[test]
fn load_locates_filters_by_name() {
    let text = b"AAPL,17\nMSFT,9\nIBM,44\n".to_vec();
    let focused = vec![b"AAPL".to_vec(), b"IBM".to_vec()];
    let mut s = MsgStream::new(SliceSource::new(Vec::new(), 0));
    s.get_locate_codes(&text, &focused);
    assert_eq!(s.loc_to_ticker.get(&17), Some(&b"AAPL".to_vec()));
    assert_eq!(s.loc_to_ticker.get(&44), Some(&b"IBM".to_vec()));
    assert_eq!(s.loc_to_ticker.get(&9), None);
    assert_eq!(s.loc_to_ticker.len(), 2);
}

#[test]
fn load_locates_tolerates_bad_lines() {
    let text = b"\nheader line\nAAPL,17\nBAD,99999\nAAPL,18".to_vec();
    let focused = vec![b"AAPL".to_vec()];
    let mut s = MsgStream::new(SliceSource::new(Vec::new(), 0));
    s.get_locate_codes(&text, &focused);
    // both well-formed AAPL rows land; bad rows are skipped silently
    assert_eq!(s.loc_to_ticker.get(&17), Some(&b"AAPL".to_vec()));
    assert_eq!(s.loc_to_ticker.get(&18), Some(&b"AAPL".to_vec()));
    assert_eq!(s.loc_to_ticker.len(), 2);
}
