//! Tests of the block codec and the number parsers on byte buffers.

use ssdb::codec::BlockScan;
use ssdb::codec::encode_request;
use ssdb::codec::scan_block;
use ssdb::codec::write_block;
use ssdb::codec::write_frame_end;
use ssdb::num::parse_dec;
use ssdb::num::parse_i64;

fn scan_all(buf: &Vec<u8>, eof: bool) -> (Vec<Vec<u8>>, Vec<usize>, usize) {
    let mut items: Vec<Vec<u8>> = Vec::new();
    let mut ends: Vec<usize> = Vec::new();
    let mut pos: usize = 0;
    loop {
        match scan_block(buf, pos, eof) {
            BlockScan::Item(d, p) => {
                items.push(d);
                pos = p;
            }
            BlockScan::End(p) => {
                ends.push(p);
                pos = p;
                if pos == buf.len() {
                    return (items, ends, pos);
                }
            }
            _ => {
                return (items, ends, pos);
            }
        }
    }
}

#[test]
fn block_round_trip_plain() {
    let data: Vec<u8> = b"hello".to_vec();
    let mut buf: Vec<u8> = Vec::new();
    write_block(&mut buf, &data);
    assert_eq!(buf, b"5\nhello\n".to_vec());
    match scan_block(&buf, 0, true) {
        BlockScan::Item(d, p) => {
            assert_eq!(d, data);
            assert_eq!(p, buf.len());
        }
        _ => panic!("expected a block"),
    }
}

#[test]
fn block_round_trip_embedded_newlines_and_utf8() {
    let data: Vec<u8> = "li\nne\n\n测试".as_bytes().to_vec();
    let mut buf: Vec<u8> = Vec::new();
    write_block(&mut buf, &data);
    match scan_block(&buf, 0, false) {
        BlockScan::Item(d, p) => {
            assert_eq!(d, data);
            assert_eq!(p, buf.len());
        }
        _ => panic!("expected a block"),
    }
}

#[test]
fn block_round_trip_empty_payload() {
    let mut buf: Vec<u8> = Vec::new();
    write_block(&mut buf, b"");
    assert_eq!(buf, b"0\n\n".to_vec());
    match scan_block(&buf, 0, true) {
        BlockScan::Item(d, p) => {
            assert_eq!(d, Vec::<u8>::new());
            assert_eq!(p, 3);
        }
        _ => panic!("a zero-length block is a block, not the frame end"),
    }
}

#[test]
fn frame_of_k_params_reads_back_k_plus_one_blocks() {
    let items: Vec<&str> = vec!["set", "key", "value"];
    let buf = encode_request(&items);
    assert_eq!(buf, b"3\nset\n3\nkey\n5\nvalue\n\n".to_vec());
    let (blocks, ends, pos) = scan_all(&buf, true);
    assert_eq!(blocks.len(), 3);
    assert_eq!(ends.len(), 1);
    assert_eq!(pos, buf.len());
    assert_eq!(blocks[0], b"set".to_vec());
    assert_eq!(blocks[1], b"key".to_vec());
    assert_eq!(blocks[2], b"value".to_vec());
}

#[test]
fn reading_past_frame_end_starts_a_fresh_frame() {
    let first = encode_request(&vec!["get", "a"]);
    let second = encode_request(&vec!["del", "b"]);
    let mut buf = first.clone();
    buf.extend_from_slice(&second);
    let (blocks, ends, pos) = scan_all(&buf, true);
    assert_eq!(blocks.len(), 4);
    assert_eq!(ends.len(), 2);
    assert_eq!(pos, buf.len());
    assert_eq!(blocks[2], b"del".to_vec());
}

#[test]
fn declared_length_beyond_stream_is_framing_error() {
    let buf: Vec<u8> = b"5\nab".to_vec();
    assert!(matches!(scan_block(&buf, 0, true), BlockScan::Corrupt));
    assert!(matches!(scan_block(&buf, 0, false), BlockScan::More));
}

#[test]
fn missing_payload_terminator_is_framing_error_at_eof() {
    // Exactly the declared bytes but no trailing terminator byte.
    let buf: Vec<u8> = b"2\nab".to_vec();
    assert!(matches!(scan_block(&buf, 0, true), BlockScan::Corrupt));
}

#[test]
fn non_digit_length_line_is_corrupt() {
    let buf: Vec<u8> = b"2x\nab\n".to_vec();
    assert!(matches!(scan_block(&buf, 0, false), BlockScan::Corrupt));
}

#[test]
fn bare_newline_is_frame_end() {
    let buf: Vec<u8> = b"\nrest".to_vec();
    match scan_block(&buf, 0, false) {
        BlockScan::End(p) => assert_eq!(p, 1),
        _ => panic!("expected the frame end"),
    }
}

#[test]
fn empty_buffer_without_eof_needs_more() {
    let buf: Vec<u8> = Vec::new();
    assert!(matches!(scan_block(&buf, 0, false), BlockScan::More));
    assert!(matches!(scan_block(&buf, 0, true), BlockScan::Corrupt));
}

#[test]
fn write_frame_end_is_one_newline() {
    let mut buf: Vec<u8> = Vec::new();
    write_frame_end(&mut buf);
    assert_eq!(buf, vec![b'\n']);
}

#[test]
fn multi_digit_length_round_trips() {
    let data: Vec<u8> = b"twelve bytes".to_vec();
    let mut buf: Vec<u8> = Vec::new();
    write_block(&mut buf, &data);
    assert_eq!(&buf[..3], b"12\n");
    match scan_block(&buf, 0, true) {
        BlockScan::Item(d, p) => {
            assert_eq!(d, data);
            assert_eq!(p, buf.len());
        }
        _ => panic!("expected a block"),
    }
}

#[test]
fn length_field_parses_back() {
    let v: Vec<u8> = b"12345".to_vec();
    assert_eq!(parse_dec(&v, 0, 5), Some(12345));
    let big: Vec<u8> = b"99999999999999999999999999".to_vec();
    assert_eq!(parse_dec(&big, 0, big.len()), None);
}

#[test]
fn signed_values_parse_exactly() {
    assert_eq!(parse_i64(&b"0".to_vec()), Some(0));
    assert_eq!(parse_i64(&b"1".to_vec()), Some(1));
    assert_eq!(parse_i64(&b"-42".to_vec()), Some(-42));
    assert_eq!(parse_i64(&b"9223372036854775807".to_vec()), Some(i64::MAX));
    assert_eq!(parse_i64(&b"-9223372036854775808".to_vec()), Some(i64::MIN));
    assert_eq!(parse_i64(&b"9223372036854775808".to_vec()), None);
    assert_eq!(parse_i64(&b"-9223372036854775809".to_vec()), None);
    assert_eq!(parse_i64(&b"".to_vec()), None);
    assert_eq!(parse_i64(&b"-".to_vec()), None);
    assert_eq!(parse_i64(&b"12a".to_vec()), None);
    assert_eq!(parse_i64(&b"+7".to_vec()), Some(7));
    assert_eq!(parse_i64(&b"+0".to_vec()), Some(0));
    assert_eq!(parse_i64(&b"+9223372036854775807".to_vec()), Some(i64::MAX));
    assert_eq!(parse_i64(&b"+9223372036854775808".to_vec()), None);
    assert_eq!(parse_i64(&b"+".to_vec()), None);
    assert_eq!(parse_i64(&b"+-1".to_vec()), None);
}
