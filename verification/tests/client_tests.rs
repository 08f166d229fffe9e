//! Tests of the request/response engine over an in-memory stream.

use std::cell::RefCell;
use std::io::Read;
use std::io::Write;
use std::rc::Rc;

use ssdb::Client;
use ssdb::SSDBError;
use ssdb::SSDBResult;
use ssdb::invalid_input;
use ssdb::read_status;

/// An in-memory duplex stream: reads from a script, records writes.
struct FakeStream {
    input: Vec<u8>,
    pos: usize,
    written: Rc<RefCell<Vec<u8>>>,
}

impl FakeStream {
    fn new(input: &[u8]) -> (FakeStream, Rc<RefCell<Vec<u8>>>) {
        let log = Rc::new(RefCell::new(Vec::new()));
        (
            FakeStream {
                input: input.to_vec(),
                pos: 0,
                written: log.clone(),
            },
            log,
        )
    }
}

impl Read for FakeStream {
    fn read(&mut self, buf: &mut [u8]) -> std::io::Result<usize> {
        let left = self.input.len() - self.pos;
        let n = left.min(buf.len());
        buf[..n].copy_from_slice(&self.input[self.pos..self.pos + n]);
        self.pos += n;
        Ok(n)
    }
}

impl Write for FakeStream {
    fn write(&mut self, buf: &[u8]) -> std::io::Result<usize> {
        self.written.borrow_mut().extend_from_slice(buf);
        Ok(buf.len())
    }

    fn flush(&mut self) -> std::io::Result<()> {
        Ok(())
    }
}

fn client_with(input: &[u8]) -> (Client<FakeStream>, Rc<RefCell<Vec<u8>>>) {
    let (stream, log) = FakeStream::new(input);
    let mut c: Client<FakeStream> = Client::new("127.0.0.1", 8888);
    c.open(stream);
    (c, log)
}

#[test]
fn set_types_the_response_as_integer() {
    let (mut c, log) = client_with(b"1\n1\n\n");
    match c.set("k", "v").unwrap() {
        SSDBResult::Int(status, value) => {
            assert_eq!(status, "1".to_string());
            assert_eq!(value, 1);
        }
        _ => panic!("expected an integer result"),
    }
    assert_eq!(*log.borrow(), b"3\nset\n1\nk\n1\nv\n\n".to_vec());
}

#[test]
fn get_types_the_response_as_payload() {
    let (mut c, log) = client_with(b"1\n1\n1\nv\n\n");
    match c.get("k").unwrap() {
        SSDBResult::Data(status, value) => {
            assert_eq!(status, "1".to_string());
            assert_eq!(value, b"v".to_vec());
        }
        _ => panic!("expected a payload result"),
    }
    assert_eq!(*log.borrow(), b"3\nget\n1\nk\n\n".to_vec());
}

#[test]
fn get_missing_with_short_frame_yields_nil_not_a_fault() {
    let (mut c, _log) = client_with(b"1\n0\n\n");
    assert!(matches!(c.get("missing").unwrap(), SSDBResult::Nil));
}

#[test]
fn unknown_command_yields_nil() {
    let (mut c, _log) = client_with(b"2\nok\n\n");
    let resp = c.send_req("ping", vec![]).unwrap();
    assert_eq!(resp, vec!["ok".to_string()]);
    let mut c2: Client<FakeStream> = Client::new("h", 1);
    assert!(matches!(
        c2.parse("ping", vec!["ok".to_string(), "1".to_string()]),
        SSDBResult::Nil
    ));
}

#[test]
fn non_numeric_value_for_integer_command_yields_nil() {
    let mut c: Client<FakeStream> = Client::new("h", 1);
    assert!(matches!(
        c.parse("set", vec!["1".to_string(), "abc".to_string()]),
        SSDBResult::Nil
    ));
}

#[test]
fn payload_round_trips_non_ascii_text() {
    let (mut c, _log) = client_with("1\n1\n6\n\u{6d4b}\u{8bd5}\n\n".as_bytes());
    match c.get("k").unwrap() {
        SSDBResult::Data(_, value) => {
            assert_eq!(value, "\u{6d4b}\u{8bd5}".as_bytes().to_vec());
        }
        _ => panic!("expected a payload result"),
    }
}

#[test]
fn get_ignores_blocks_beyond_the_value() {
    let (mut c, _log) = client_with(b"1\n1\n1\nv\n1\nx\n\n");
    match c.get("k").unwrap() {
        SSDBResult::Data(status, value) => {
            assert_eq!(status, "1".to_string());
            assert_eq!(value, b"v".to_vec());
        }
        _ => panic!("expected a payload result"),
    }
}

#[test]
fn status_ok_is_success() {
    let (mut c, _log) = client_with(b"2\nok\n");
    assert!(read_status(&mut c).is_ok());
}

#[test]
fn status_other_than_ok_is_request_error_with_that_text() {
    let (mut c, _log) = client_with(b"9\nnot_found\n");
    match read_status(&mut c) {
        Err(SSDBError::Request(t)) => assert_eq!(t, "not_found".to_string()),
        _ => panic!("expected a request error"),
    }
}

#[test]
fn send_without_connection_is_connection_error() {
    let mut c: Client<FakeStream> = Client::new("h", 1);
    assert!(matches!(c.send(vec!["get", "k"]), Err(SSDBError::Connection(_))));
}

#[test]
fn truncated_response_is_framing_error() {
    // The frame declares five bytes but the stream ends after two.
    let (mut c, _log) = client_with(b"5\nab");
    match c.send(vec!["get", "k"]) {
        Err(SSDBError::Framing(_)) => {}
        _ => panic!("expected a framing error"),
    }
}

#[test]
fn malformed_length_line_is_framing_error() {
    let (mut c, _log) = client_with(b"2x\nab\n\n");
    assert!(matches!(c.read_item(), Err(SSDBError::Framing(_))));
}

#[test]
fn invalid_utf8_payload_is_framing_error() {
    let (mut c, _log) = client_with(b"2\n\xff\xfe\n\n");
    match c.send(vec!["get", "k"]) {
        Err(SSDBError::Framing(_)) => {}
        _ => panic!("expected a framing error"),
    }
}

#[test]
fn send_req_propagates_framing_error() {
    let (mut c, _log) = client_with(b"5\nab");
    assert!(matches!(
        c.send_req("get", vec!["k"]),
        Err(SSDBError::Framing(_))
    ));
}

#[test]
fn send_req_without_connection_is_connection_error() {
    let mut c: Client<FakeStream> = Client::new("h", 1);
    assert!(matches!(
        c.send_req("get", vec!["k"]),
        Err(SSDBError::Connection(_))
    ));
}

#[test]
fn get_propagates_framing_error() {
    let (mut c, _log) = client_with(b"2x\nab\n\n");
    assert!(matches!(c.get("k"), Err(SSDBError::Framing(_))));
}

#[test]
fn set_without_connection_is_connection_error() {
    let mut c: Client<FakeStream> = Client::new("h", 1);
    assert!(matches!(c.set("k", "v"), Err(SSDBError::Connection(_))));
}

#[test]
fn close_twice_is_a_no_op() {
    let (mut c, _log) = client_with(b"");
    assert!(c.connected());
    c.close();
    assert!(!c.connected());
    c.close();
    assert!(!c.connected());
    let mut never_opened: Client<FakeStream> = Client::new("h", 1);
    never_opened.close();
    never_opened.close();
    assert!(!never_opened.connected());
}

#[test]
fn two_clients_interleaved_see_only_their_own_cycles() {
    let (mut a, log_a) = client_with(b"1\n1\n\n1\n1\n2\nva\n\n");
    let (mut b, log_b) = client_with(b"1\n1\n\n1\n1\n2\nvb\n\n");
    assert!(matches!(a.set("ka", "va").unwrap(), SSDBResult::Int(_, 1)));
    assert!(matches!(b.set("kb", "vb").unwrap(), SSDBResult::Int(_, 1)));
    let got_a = match a.get("ka").unwrap() {
        SSDBResult::Data(_, v) => v,
        _ => panic!("expected payload"),
    };
    let got_b = match b.get("kb").unwrap() {
        SSDBResult::Data(_, v) => v,
        _ => panic!("expected payload"),
    };
    assert_eq!(got_a, b"va".to_vec());
    assert_eq!(got_b, b"vb".to_vec());
    assert_eq!(
        *log_a.borrow(),
        b"3\nset\n2\nka\n2\nva\n\n3\nget\n2\nka\n\n".to_vec()
    );
    assert_eq!(
        *log_b.borrow(),
        b"3\nset\n2\nkb\n2\nvb\n\n3\nget\n2\nkb\n\n".to_vec()
    );
}

#[test]
fn empty_response_frame_is_an_empty_sequence() {
    let (mut c, _log) = client_with(b"\n");
    let resp = c.send(vec!["noop"]).unwrap();
    assert_eq!(resp.len(), 0);
}

#[test]
fn invalid_input_is_a_framing_error_with_context() {
    match invalid_input("Read failed!", "short read") {
        SSDBError::Framing(m) => assert_eq!(m, "Read failed!: short read".to_string()),
        _ => panic!("expected a framing error"),
    }
}

#[test]
fn address_is_kept() {
    let c: Client<FakeStream> = Client::new("127.0.0.1", 8888);
    assert_eq!(c.ip(), &"127.0.0.1".to_string());
    assert_eq!(c.port(), 8888u16);
}
