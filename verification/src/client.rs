//! The request/response engine: one client owns one optional buffered
//! connection and drives one full call at a time — write a request
//! frame, flush, read response blocks until the frame end, and type the
//! result by the issued command.
//!
//! Every wire byte that leaves the client and every byte that arrived
//! are tracked: the send log is exactly the request frames the
//! transport accepted so far, and the receive buffer together with the
//! scan position says which blocks each call consumed. Failures keep
//! their class — framing, connection, request — all the way to the
//! caller.

use std::io::Read;
use std::io::Write;

use vstd::prelude::*;
use vstd::string::StrSliceExecFns;
use vstd::string::StringExecFns;
use vstd::string::StringSliceAdditionalSpecFns;
use vstd::utf8::decode_utf8_encode_utf8;
use vstd::utf8::encode_utf8;

use crate::codec::BlockScan;
use crate::codec::SpecFrameScan;
use crate::codec::SpecScan;
use crate::codec::bytes_of_items;
use crate::codec::encode_frame;
use crate::codec::encode_request;
use crate::codec::frame_prepend;
use crate::codec::lemma_prefix_trans;
use crate::codec::lemma_scan_block_at_range;
use crate::codec::lemma_scan_block_stable;
use crate::codec::lemma_scan_more_not_eof;
use crate::codec::scan_block;
use crate::codec::scan_block_at;
use crate::codec::scan_frame_at;
use crate::num::int_of;
use crate::num::parse_i64;
use crate::stream::stream_flush;
use crate::stream::stream_read_some;
use crate::stream::stream_write_all;
use crate::stream::string_from_utf8;

verus! {

/// A failure of one request/response cycle.
#[derive(Debug)]
pub enum SSDBError {
    /// Malformed or truncated block framing; the stream position is
    /// indeterminate and the connection should be treated as dead.
    Framing(String),
    /// The transport failed, or no connection is open.
    Connection(String),
    /// The peer answered a status-only call with something other than
    /// the success marker; the carried text is the received status.
    Request(String),
}

/// The typed value of one response, chosen by the issued command.
#[derive(Debug)]
pub enum SSDBResult {
    /// No data: an unknown command, or a response too short or
    /// malformed for its command's shape.
    Nil,
    /// A status string and a numeric value.
    Int(String, i64),
    /// A status string and opaque payload bytes.
    Data(String, Vec<u8>),
}

/// A framing failure carrying `desc` and `detail` as its message.
pub fn invalid_input(desc: &'static str, detail: &str) -> (r: SSDBError)
    ensures
        r matches SSDBError::Framing(m) && m@ == desc@ + ": "@ + detail@,
{
    let mut m = desc.to_owned();
    m.append(": ");
    m.append(detail);
    SSDBError::Framing(m)
}

/// The byte sequences of a frame's text blocks.
pub open spec fn resp_bytes(v: Seq<String>) -> Seq<Seq<u8>> {
    v.map_values(|s: String| encode_utf8(s@))
}

/// Exact byte-wise equality of two vectors.
pub fn bytes_eq(a: &Vec<u8>, b: &Vec<u8>) -> (r: bool)
    ensures
        r == (a@ == b@),
{
    if a.len() != b.len() {
        return false;
    }
    let mut i: usize = 0;
    while i < a.len()
        invariant
            i <= a@.len(),
            a@.len() == b@.len(),
            forall|k: int| 0 <= k < i ==> a@[k] == b@[k],
        decreases a@.len() - i,
    {
        if a[i] != b[i] {
            return false;
        }
        i = i + 1;
    }
    proof {
        assert(a@ =~= b@);
    }
    true
}

/// Exact equality of two strings, decided on their UTF-8 bytes.
pub fn str_eq(a: &str, b: &str) -> (r: bool)
    ensures
        r == (a@ == b@),
{
    let av = a.as_bytes_vec();
    let bv = b.as_bytes_vec();
    let r = bytes_eq(&av, &bv);
    proof {
        if a.spec_bytes() == b.spec_bytes() {
            vstd::utf8::encode_utf8_decode_utf8(a@);
            vstd::utf8::encode_utf8_decode_utf8(b@);
        }
    }
    r
}

/// The commands whose responses carry a numeric value.
pub open spec fn is_int_cmd(cmd: Seq<char>) -> bool {
    ||| cmd == "getbit"@
    ||| cmd == "setbit"@
    ||| cmd == "countbit"@
    ||| cmd == "strlen"@
    ||| cmd == "set"@
    ||| cmd == "setx"@
    ||| cmd == "setnx"@
    ||| cmd == "zset"@
    ||| cmd == "hset"@
    ||| cmd == "qpush"@
    ||| cmd == "qpush_front"@
    ||| cmd == "qpush_back"@
    ||| cmd == "del"@
    ||| cmd == "zdel"@
    ||| cmd == "hdel"@
    ||| cmd == "hsize"@
    ||| cmd == "zsize"@
    ||| cmd == "qsize"@
    ||| cmd == "hclear"@
    ||| cmd == "zclear"@
    ||| cmd == "qclear"@
    ||| cmd == "multi_set"@
    ||| cmd == "multi_del"@
    ||| cmd == "multi_hset"@
    ||| cmd == "multi_hdel"@
    ||| cmd == "multi_zset"@
    ||| cmd == "multi_zdel"@
    ||| cmd == "incr"@
    ||| cmd == "decr"@
    ||| cmd == "zincr"@
    ||| cmd == "zdecr"@
    ||| cmd == "hincr"@
    ||| cmd == "hdecr"@
    ||| cmd == "zget"@
    ||| cmd == "zrank"@
    ||| cmd == "zrrank"@
    ||| cmd == "zcount"@
    ||| cmd == "zsum"@
    ||| cmd == "zremrangebyrank"@
    ||| cmd == "zremrangebyscore"@
}

/// `get` is not an integer command, and `set` is one and is not `get`.
pub proof fn lemma_cmd_shapes()
    ensures
        !is_int_cmd("get"@),
        is_int_cmd("set"@),
        "get"@ != "set"@,
{
    reveal_strlit("get");
    reveal_strlit("set");
    reveal_strlit("getbit");
    reveal_strlit("setbit");
    reveal_strlit("countbit");
    reveal_strlit("strlen");
    reveal_strlit("setx");
    reveal_strlit("setnx");
    reveal_strlit("zset");
    reveal_strlit("hset");
    reveal_strlit("qpush");
    reveal_strlit("qpush_front");
    reveal_strlit("qpush_back");
    reveal_strlit("del");
    reveal_strlit("zdel");
    reveal_strlit("hdel");
    reveal_strlit("hsize");
    reveal_strlit("zsize");
    reveal_strlit("qsize");
    reveal_strlit("hclear");
    reveal_strlit("zclear");
    reveal_strlit("qclear");
    reveal_strlit("multi_set");
    reveal_strlit("multi_del");
    reveal_strlit("multi_hset");
    reveal_strlit("multi_hdel");
    reveal_strlit("multi_zset");
    reveal_strlit("multi_zdel");
    reveal_strlit("incr");
    reveal_strlit("decr");
    reveal_strlit("zincr");
    reveal_strlit("zdecr");
    reveal_strlit("hincr");
    reveal_strlit("hdecr");
    reveal_strlit("zget");
    reveal_strlit("zrank");
    reveal_strlit("zrrank");
    reveal_strlit("zcount");
    reveal_strlit("zsum");
    reveal_strlit("zremrangebyrank");
    reveal_strlit("zremrangebyscore");
    assert("get"@.len() == 3);
    assert("get"@[0] == 'g');
    assert("set"@[0] == 's');
    assert("del"@[0] == 'd');
    assert("get"@ != "set"@);
    assert("get"@ != "del"@);
}

/// Decides [`is_int_cmd`] for a command name.
fn is_int_cmd_exec(cmd: &str) -> (r: bool)
    ensures
        r == is_int_cmd(cmd@),
{
    str_eq(cmd, "getbit") || str_eq(cmd, "setbit") || str_eq(cmd, "countbit") || str_eq(
        cmd,
        "strlen",
    ) || str_eq(cmd, "set") || str_eq(cmd, "setx") || str_eq(cmd, "setnx") || str_eq(cmd, "zset")
        || str_eq(cmd, "hset") || str_eq(cmd, "qpush") || str_eq(cmd, "qpush_front") || str_eq(
        cmd,
        "qpush_back",
    ) || str_eq(cmd, "del") || str_eq(cmd, "zdel") || str_eq(cmd, "hdel") || str_eq(cmd, "hsize")
        || str_eq(cmd, "zsize") || str_eq(cmd, "qsize") || str_eq(cmd, "hclear") || str_eq(
        cmd,
        "zclear",
    ) || str_eq(cmd, "qclear") || str_eq(cmd, "multi_set") || str_eq(cmd, "multi_del") || str_eq(
        cmd,
        "multi_hset",
    ) || str_eq(cmd, "multi_hdel") || str_eq(cmd, "multi_zset") || str_eq(cmd, "multi_zdel")
        || str_eq(cmd, "incr") || str_eq(cmd, "decr") || str_eq(cmd, "zincr") || str_eq(
        cmd,
        "zdecr",
    ) || str_eq(cmd, "hincr") || str_eq(cmd, "hdecr") || str_eq(cmd, "zget") || str_eq(
        cmd,
        "zrank",
    ) || str_eq(cmd, "zrrank") || str_eq(cmd, "zcount") || str_eq(cmd, "zsum") || str_eq(
        cmd,
        "zremrangebyrank",
    ) || str_eq(cmd, "zremrangebyscore")
}

/// A protocol client: an address, at most one open connection, and the
/// read and write history of that connection.
#[verifier::reject_recursive_types(S)]
pub struct Client<S> {
    ip: String,
    port: u16,
    stream: Option<S>,
    rbuf: Vec<u8>,
    rpos: usize,
    eof: bool,
    wlog: Ghost<Seq<u8>>,
}

impl<S: Read + Write> Client<S> {
    /// Whether a connection is open.
    pub closed spec fn is_open(&self) -> bool {
        self.stream is Some
    }

    /// The peer host as given to the constructor.
    pub closed spec fn host(&self) -> Seq<char> {
        self.ip@
    }

    /// The peer port as given to the constructor.
    pub closed spec fn port_num(&self) -> u16 {
        self.port
    }

    /// Every byte received on this connection so far, in order.
    pub closed spec fn recv_log(&self) -> Seq<u8> {
        self.rbuf@
    }

    /// How far into the received bytes the scanner has consumed.
    pub closed spec fn recv_pos(&self) -> int {
        self.rpos as int
    }

    /// Whether the stream is known to have ended.
    pub closed spec fn at_eof(&self) -> bool {
        self.eof
    }

    /// The bytes of every write the transport accepted in full, in
    /// order. A failed write may have left a partial prefix with the
    /// transport that is not recorded here.
    pub closed spec fn sent_log(&self) -> Seq<u8> {
        self.wlog@
    }

    /// The scan position never passes the received bytes.
    pub open spec fn wf(&self) -> bool {
        0 <= self.recv_pos() <= self.recv_log().len()
    }

    /// A fresh, unconnected client for the given address.
    pub fn new(ip: &str, port: i32) -> (r: Client<S>)
        ensures
            !r.is_open(),
            r.wf(),
            r.host() == ip@,
            r.port_num() == port as u16,
            r.recv_log() == Seq::<u8>::empty(),
            r.recv_pos() == 0,
            !r.at_eof(),
            r.sent_log() == Seq::<u8>::empty(),
    {
        Client {
            ip: ip.to_owned(),
            port: port as u16,
            stream: None,
            rbuf: Vec::new(),
            rpos: 0,
            eof: false,
            wlog: Ghost(Seq::empty()),
        }
    }

    /// Opens the connection over an established transport. Connecting
    /// an already-connected client is a precondition violation.
    pub fn open(&mut self, transport: S)
        requires
            !old(self).is_open(),
        ensures
            final(self).is_open(),
            final(self).wf() == old(self).wf(),
            final(self).host() == old(self).host(),
            final(self).port_num() == old(self).port_num(),
            final(self).recv_log() == old(self).recv_log(),
            final(self).recv_pos() == old(self).recv_pos(),
            final(self).at_eof() == old(self).at_eof(),
            final(self).sent_log() == old(self).sent_log(),
    {
        self.stream = Some(transport);
    }

    /// Flushes and releases the connection. Closing a closed client is
    /// a no-op, so a second close in a row changes nothing.
    pub fn close(&mut self)
        ensures
            !final(self).is_open(),
            !old(self).is_open() ==> *final(self) == *old(self),
            final(self).host() == old(self).host(),
            final(self).port_num() == old(self).port_num(),
            final(self).recv_log() == old(self).recv_log(),
            final(self).recv_pos() == old(self).recv_pos(),
            final(self).at_eof() == old(self).at_eof(),
            final(self).sent_log() == old(self).sent_log(),
            final(self).wf() == old(self).wf(),
    {
        let st_opt = self.stream.take();
        match st_opt {
            Some(mut st) => {
                let _flushed = stream_flush(&mut st);
            },
            None => {},
        }
    }

    /// Whether a connection is currently open.
    pub fn connected(&self) -> (r: bool)
        ensures
            r == self.is_open(),
    {
        self.stream.is_some()
    }

    /// The peer host.
    pub fn ip(&self) -> (r: &String)
        ensures
            r@ == self.host(),
    {
        &self.ip
    }

    /// The peer port.
    pub fn port(&self) -> (r: u16)
        ensures
            r == self.port_num(),
    {
        self.port
    }

    /// Reads one block from the connection: `Ok(Some(bytes))` for a
    /// payload block, `Ok(None)` for the frame end. Bytes are pulled
    /// from the transport until the receive buffer decides the scan.
    #[verifier::loop_isolation(false)]
    pub fn read_item(&mut self) -> (r: Result<Option<Vec<u8>>, SSDBError>)
        requires
            old(self).wf(),
            old(self).is_open(),
        ensures
            final(self).wf(),
            final(self).is_open(),
            final(self).host() == old(self).host(),
            final(self).port_num() == old(self).port_num(),
            final(self).sent_log() == old(self).sent_log(),
            old(self).recv_log().is_prefix_of(final(self).recv_log()),
            final(self).recv_pos() >= old(self).recv_pos(),
            r matches Ok(Some(b)) ==> scan_block_at(
                final(self).recv_log(),
                old(self).recv_pos(),
                final(self).at_eof(),
            ) == (SpecScan::Item { data: b@, at: final(self).recv_pos() }),
            r matches Ok(None) ==> scan_block_at(
                final(self).recv_log(),
                old(self).recv_pos(),
                final(self).at_eof(),
            ) == (SpecScan::End { at: final(self).recv_pos() }),
            r matches Err(SSDBError::Framing(_)) ==> scan_block_at(
                final(self).recv_log(),
                old(self).recv_pos(),
                final(self).at_eof(),
            ) is Corrupt,
            r matches Err(SSDBError::Connection(_)) ==> scan_block_at(
                final(self).recv_log(),
                old(self).recv_pos(),
                final(self).at_eof(),
            ) is More,
            r is Err ==> final(self).recv_pos() == old(self).recv_pos(),
            !(r matches Err(SSDBError::Request(_))),
    {
        let stream_taken = self.stream.take();
        let mut st = stream_taken.unwrap();
        // The loop's termination measure needs the buffer length to fit
        // in usize, which holds of any vector.
        let buffered = self.rbuf.len();
        proof {
            assert(self.rbuf@.len() == buffered as nat);
        }
        loop
            invariant
                self.wf(),
                self.stream is None,
                self.rpos == old(self).rpos,
                self.ip@ == old(self).ip@,
                self.port == old(self).port,
                self.wlog@ == old(self).wlog@,
                old(self).rbuf@.is_prefix_of(self.rbuf@),
                self.rbuf@.len() <= usize::MAX,
            decreases
                    (if self.eof {
                        0int
                    } else {
                        1int
                    }),
                    usize::MAX - self.rbuf@.len(),
        {
            let sc = scan_block(&self.rbuf, self.rpos, self.eof);
            match sc {
                BlockScan::More => {
                    proof {
                        lemma_scan_more_not_eof(self.rbuf@, self.rpos as int, self.eof);
                    }
                    match stream_read_some(&mut st, &mut self.rbuf) {
                        Some(n) => {
                            if n == 0 {
                                self.eof = true;
                            }
                        },
                        None => {
                            self.stream = Some(st);
                            return Err(
                                SSDBError::Connection("transport read failed".to_owned()),
                            );
                        },
                    }
                },
                BlockScan::End(p) => {
                    proof {
                        lemma_scan_block_at_range(self.rbuf@, self.rpos as int, self.eof);
                    }
                    self.rpos = p;
                    self.stream = Some(st);
                    return Ok(None);
                },
                BlockScan::Item(d, p) => {
                    proof {
                        lemma_scan_block_at_range(self.rbuf@, self.rpos as int, self.eof);
                    }
                    self.rpos = p;
                    self.stream = Some(st);
                    return Ok(Some(d));
                },
                BlockScan::Corrupt => {
                    self.stream = Some(st);
                    return Err(invalid_input("malformed block framing", ""));
                },
            }
        }
    }

    /// Reads one block and decodes it as UTF-8 text; a payload that is
    /// not valid UTF-8 is a framing failure, never a silent default.
    pub fn read_text_item(&mut self) -> (r: Result<Option<String>, SSDBError>)
        requires
            old(self).wf(),
            old(self).is_open(),
        ensures
            final(self).wf(),
            final(self).is_open(),
            final(self).host() == old(self).host(),
            final(self).port_num() == old(self).port_num(),
            final(self).sent_log() == old(self).sent_log(),
            old(self).recv_log().is_prefix_of(final(self).recv_log()),
            final(self).recv_pos() >= old(self).recv_pos(),
            r matches Ok(Some(s)) ==> scan_block_at(
                final(self).recv_log(),
                old(self).recv_pos(),
                final(self).at_eof(),
            ) == (SpecScan::Item { data: encode_utf8(s@), at: final(self).recv_pos() }),
            r matches Ok(None) ==> scan_block_at(
                final(self).recv_log(),
                old(self).recv_pos(),
                final(self).at_eof(),
            ) == (SpecScan::End { at: final(self).recv_pos() }),
            r matches Err(SSDBError::Framing(_)) ==> ((scan_block_at(
                final(self).recv_log(),
                old(self).recv_pos(),
                final(self).at_eof(),
            ) is Corrupt && final(self).recv_pos() == old(self).recv_pos()) || (scan_block_at(
                final(self).recv_log(),
                old(self).recv_pos(),
                final(self).at_eof(),
            ) matches SpecScan::Item { data, at } && !vstd::utf8::valid_utf8(data) && at == final(self).recv_pos())),
            r matches Err(SSDBError::Connection(_)) ==> scan_block_at(
                final(self).recv_log(),
                old(self).recv_pos(),
                final(self).at_eof(),
            ) is More,
            !(r matches Err(SSDBError::Request(_))),
    {
        match self.read_item() {
            Ok(Some(b)) => {
                let ghost bb = b@;
                match string_from_utf8(b) {
                    Some(s) => {
                        proof {
                            decode_utf8_encode_utf8(bb);
                        }
                        Ok(Some(s))
                    },
                    None => Err(invalid_input("payload is not valid text", "")),
                }
            },
            Ok(None) => Ok(None),
            Err(e) => Err(e),
        }
    }

    /// Writes one whole request frame — each item as one block, then
    /// the frame end — flushes it, and reads the response frame's
    /// blocks until the frame end. With no open connection the call
    /// fails at once and changes nothing.
    #[verifier::loop_isolation(false)]
    pub fn send(&mut self, data: Vec<&str>) -> (r: Result<Vec<String>, SSDBError>)
        requires
            old(self).wf(),
        ensures
            final(self).wf(),
            final(self).is_open() == old(self).is_open(),
            final(self).host() == old(self).host(),
            final(self).port_num() == old(self).port_num(),
            old(self).recv_log().is_prefix_of(final(self).recv_log()),
            final(self).recv_pos() >= old(self).recv_pos(),
            final(self).sent_log() == old(self).sent_log() || final(self).sent_log() == old(self).sent_log() + encode_frame(bytes_of_items(data@)),
            !old(self).is_open() ==> *final(self) == *old(self) && (r matches Err(
                SSDBError::Connection(_),
            )),
            r is Ok ==> final(self).sent_log() == old(self).sent_log() + encode_frame(
                bytes_of_items(data@),
            ),
            r matches Ok(v) ==> scan_frame_at(
                final(self).recv_log(),
                old(self).recv_pos(),
                final(self).at_eof(),
            ) == (SpecFrameScan::Done { items: resp_bytes(v@), at: final(self).recv_pos() }),
            !(r matches Err(SSDBError::Request(_))),
            r matches Err(SSDBError::Framing(_)) ==> (scan_block_at(
                final(self).recv_log(),
                final(self).recv_pos(),
                final(self).at_eof(),
            ) is Corrupt || (exists|p: int|
                #![trigger scan_block_at(final(self).recv_log(), p, final(self).at_eof())]
                (old(self).recv_pos() <= p <= final(self).recv_pos()) && ((scan_block_at(
                    final(self).recv_log(),
                    p,
                    final(self).at_eof(),
                ) matches SpecScan::Item { data, at } && !vstd::utf8::valid_utf8(data) && at
                    == final(self).recv_pos())))),
    {
        if self.stream.is_none() {
            return Err(SSDBError::Connection("connection not open".to_owned()));
        }
        let req = encode_request(&data);
        let stream_taken = self.stream.take();
        let mut st = stream_taken.unwrap();
        if !stream_write_all(&mut st, &req) {
            self.stream = Some(st);
            return Err(SSDBError::Connection("transport write failed".to_owned()));
        }
        self.wlog = Ghost(self.wlog@ + req@);
        if !stream_flush(&mut st) {
            self.stream = Some(st);
            return Err(SSDBError::Connection("transport flush failed".to_owned()));
        }
        self.stream = Some(st);
        let ghost rpos0 = self.rpos as int;
        let mut items: Vec<String> = Vec::new();
        proof {
            assert(self.rbuf@.subrange(0, self.rbuf@.len() as int) =~= self.rbuf@);
            assert forall|b2: Seq<u8>, e2: bool| self.rbuf@.is_prefix_of(b2) implies #[trigger] scan_frame_at(
                b2,
                rpos0,
                e2,
            ) == frame_prepend(resp_bytes(items@), scan_frame_at(b2, self.rpos as int, e2)) by {
                let inner = scan_frame_at(b2, self.rpos as int, e2);
                match inner {
                    SpecFrameScan::Done { items: it, at } => {
                        assert(resp_bytes(items@) + it =~= it);
                    },
                    _ => {},
                }
            }
        }
        loop
            invariant
                self.wf(),
                self.is_open(),
                self.ip@ == old(self).ip@,
                self.port == old(self).port,
                self.wlog@ == old(self).wlog@ + req@,
                rpos0 == old(self).rpos as int,
                self.rpos >= old(self).rpos,
                old(self).rbuf@.is_prefix_of(self.rbuf@),
                req@ == encode_frame(bytes_of_items(data@)),
                forall|b2: Seq<u8>, e2: bool|
                    self.rbuf@.is_prefix_of(b2) ==> #[trigger] scan_frame_at(b2, rpos0, e2)
                        == frame_prepend(
                        resp_bytes(items@),
                        scan_frame_at(b2, self.rpos as int, e2),
                    ),
            decreases usize::MAX - self.rpos,
        {
            let ghost rb_prev = self.rbuf@;
            let ghost pos_prev = self.rpos as int;
            let ghost items_prev = items@;
            match self.read_text_item() {
                Ok(Some(s)) => {
                    proof {
                        let b = encode_utf8(s@);
                        let rb_new = self.rbuf@;
                        let pos_new = self.rpos as int;
                        let eof_new = self.eof;
                        lemma_scan_block_at_range(rb_new, pos_prev, eof_new);
                        assert forall|b2: Seq<u8>, e2: bool| rb_new.is_prefix_of(
                            b2,
                        ) implies #[trigger] scan_frame_at(b2, rpos0, e2) == frame_prepend(
                            resp_bytes(items_prev.push(s)),
                            scan_frame_at(b2, pos_new, e2),
                        ) by {
                            lemma_prefix_trans(rb_prev, rb_new, b2);
                            assert(scan_frame_at(b2, rpos0, e2) == frame_prepend(
                                resp_bytes(items_prev),
                                scan_frame_at(b2, pos_prev, e2),
                            ));
                            lemma_scan_block_stable(rb_new, pos_prev, eof_new, b2, e2);
                            assert(scan_block_at(b2, pos_prev, e2) == (SpecScan::Item {
                                data: b,
                                at: pos_new,
                            }));
                            let inner = scan_frame_at(b2, pos_new, e2);
                            assert(scan_frame_at(b2, pos_prev, e2) == frame_prepend(
                                seq![b],
                                inner,
                            ));
                            assert(resp_bytes(items_prev.push(s)) =~= resp_bytes(
                                items_prev,
                            ).push(b));
                            match inner {
                                SpecFrameScan::Done { items: it, at } => {
                                    assert(resp_bytes(items_prev) + (seq![b] + it) =~= resp_bytes(
                                        items_prev,
                                    ).push(b) + it);
                                },
                                _ => {},
                            }
                        }
                    }
                    items.push(s);
                },
                Ok(None) => {
                    proof {
                        let rb_f = self.rbuf@;
                        let pos_f = self.rpos as int;
                        let eof_f = self.eof;
                        assert(rb_f.subrange(0, rb_f.len() as int) =~= rb_f);
                        assert(rb_f.is_prefix_of(rb_f));
                        assert(scan_frame_at(rb_f, pos_prev, eof_f) == (SpecFrameScan::Done {
                            items: Seq::<Seq<u8>>::empty(),
                            at: pos_f,
                        }));
                        assert(scan_frame_at(rb_f, rpos0, eof_f) == frame_prepend(
                            resp_bytes(items@),
                            scan_frame_at(rb_f, pos_prev, eof_f),
                        ));
                        assert(resp_bytes(items@) + Seq::<Seq<u8>>::empty() =~= resp_bytes(
                            items@,
                        ));
                    }
                    return Ok(items);
                },
                Err(e) => {
                    return Err(e);
                },
            }
        }
    }

    /// Writes the command and its parameters as one request frame and
    /// returns the response blocks as text. Every failure of the cycle
    /// propagates unchanged to the caller; an empty result is a
    /// genuinely empty response frame, never a masked error.
    pub fn send_req(&mut self, cmd: &str, param: Vec<&str>) -> (r: Result<Vec<String>, SSDBError>)
        requires
            old(self).wf(),
        ensures
            final(self).wf(),
            final(self).is_open() == old(self).is_open(),
            final(self).host() == old(self).host(),
            final(self).port_num() == old(self).port_num(),
            old(self).recv_log().is_prefix_of(final(self).recv_log()),
            final(self).recv_pos() >= old(self).recv_pos(),
            final(self).sent_log() == old(self).sent_log() || final(self).sent_log() == old(self).sent_log() + encode_frame(bytes_of_items(seq![cmd] + param@)),
            !old(self).is_open() ==> *final(self) == *old(self) && (r matches Err(
                SSDBError::Connection(_),
            )),
            r is Ok ==> final(self).sent_log() == old(self).sent_log() + encode_frame(
                bytes_of_items(seq![cmd] + param@),
            ),
            r matches Ok(v) ==> scan_frame_at(
                final(self).recv_log(),
                old(self).recv_pos(),
                final(self).at_eof(),
            ) == (SpecFrameScan::Done { items: resp_bytes(v@), at: final(self).recv_pos() }),
            !(r matches Err(SSDBError::Request(_))),
            r matches Err(SSDBError::Framing(_)) ==> (scan_block_at(
                final(self).recv_log(),
                final(self).recv_pos(),
                final(self).at_eof(),
            ) is Corrupt || (exists|p: int|
                #![trigger scan_block_at(final(self).recv_log(), p, final(self).at_eof())]
                (old(self).recv_pos() <= p <= final(self).recv_pos()) && ((scan_block_at(
                    final(self).recv_log(),
                    p,
                    final(self).at_eof(),
                ) matches SpecScan::Item { data, at } && !vstd::utf8::valid_utf8(data) && at
                    == final(self).recv_pos())))),
    {
        let mut all: Vec<&str> = Vec::new();
        all.push(cmd);
        let mut i: usize = 0;
        while i < param.len()
            invariant
                i <= param@.len(),
                all@ == seq![cmd] + param@.subrange(0, i as int),
            decreases param@.len() - i,
        {
            all.push(param[i]);
            proof {
                assert(seq![cmd] + param@.subrange(0, i + 1 as int) =~= (seq![cmd]
                    + param@.subrange(0, i as int)).push(param@[i as int]));
            }
            i = i + 1;
        }
        proof {
            assert(param@.subrange(0, param@.len() as int) =~= param@);
        }
        self.send(all)
    }

    /// Types a raw response by the issued command: integer commands
    /// yield `Int`, `get` yields `Data`, anything else `Nil`. The
    /// status is the first block; the numeric value is the second
    /// block, or the only block when the frame has just one. A frame
    /// too short for the command's shape, or a value that is not a
    /// decimal integer where one is owed, yields `Nil` rather than a
    /// fault or a silent zero.
    pub fn parse(&mut self, cmd: &str, resp: Vec<String>) -> (r: SSDBResult)
        ensures
            *final(self) == *old(self),
            (is_int_cmd(cmd@) && resp@.len() >= 2 && int_of(encode_utf8(resp@[1]@)) is Some) ==> (r
                matches SSDBResult::Int(st, v) && st@ == resp@[0]@ && Some(v as int) == int_of(
                encode_utf8(resp@[1]@),
            )),
            (is_int_cmd(cmd@) && resp@.len() == 1 && int_of(encode_utf8(resp@[0]@)) is Some) ==> (r
                matches SSDBResult::Int(st, v) && st@ == resp@[0]@ && Some(v as int) == int_of(
                encode_utf8(resp@[0]@),
            )),
            (is_int_cmd(cmd@) && resp@.len() == 0) ==> r is Nil,
            (is_int_cmd(cmd@) && resp@.len() >= 2 && int_of(encode_utf8(resp@[1]@)) is None) ==> r
                is Nil,
            (is_int_cmd(cmd@) && resp@.len() == 1 && int_of(encode_utf8(resp@[0]@)) is None) ==> r
                is Nil,
            (cmd@ == "get"@ && resp@.len() >= 2) ==> (r matches SSDBResult::Data(st, bytes) && st@
                == resp@[0]@ && bytes@ == encode_utf8(resp@[1]@)),
            (cmd@ == "get"@ && resp@.len() < 2) ==> r is Nil,
            (!is_int_cmd(cmd@) && cmd@ != "get"@) ==> r is Nil,
    {
        proof {
            lemma_cmd_shapes();
        }
        if is_int_cmd_exec(cmd) {
            if resp.len() == 0 {
                SSDBResult::Nil
            } else {
                let idx: usize = if resp.len() >= 2 {
                    1
                } else {
                    0
                };
                let bytes = resp[idx].as_str().as_bytes_vec();
                match parse_i64(&bytes) {
                    Some(v) => SSDBResult::Int(resp[0].clone(), v),
                    None => SSDBResult::Nil,
                }
            }
        } else if str_eq(cmd, "get") {
            if resp.len() >= 2 {
                SSDBResult::Data(resp[0].clone(), resp[1].as_str().as_bytes_vec())
            } else {
                SSDBResult::Nil
            }
        } else {
            SSDBResult::Nil
        }
    }

    /// Issues `get key` and types the response as payload data; any
    /// failure of the exchange propagates unchanged.
    pub fn get(&mut self, key: &str) -> (r: Result<SSDBResult, SSDBError>)
        requires
            old(self).wf(),
        ensures
            final(self).wf(),
            final(self).is_open() == old(self).is_open(),
            final(self).host() == old(self).host(),
            final(self).port_num() == old(self).port_num(),
            old(self).recv_log().is_prefix_of(final(self).recv_log()),
            final(self).recv_pos() >= old(self).recv_pos(),
            final(self).sent_log() == old(self).sent_log() || final(self).sent_log() == old(self).sent_log() + encode_frame(seq![encode_utf8("get"@), encode_utf8(key@)]),
            !old(self).is_open() ==> *final(self) == *old(self) && (r matches Err(
                SSDBError::Connection(_),
            )),
            r is Ok ==> final(self).sent_log() == old(self).sent_log() + encode_frame(
                seq![encode_utf8("get"@), encode_utf8(key@)],
            ),
            r matches Ok(res) ==> res is Data || res is Nil,
            r matches Ok(SSDBResult::Data(st, bytes)) ==> (scan_frame_at(
                final(self).recv_log(),
                old(self).recv_pos(),
                final(self).at_eof(),
            ) matches SpecFrameScan::Done {
                items,
                at,
            } && items.len() >= 2 && items[0] == encode_utf8(st@) && items[1] == bytes@ && at
                == final(self).recv_pos()),
            r matches Ok(SSDBResult::Nil) ==> (scan_frame_at(
                final(self).recv_log(),
                old(self).recv_pos(),
                final(self).at_eof(),
            ) matches SpecFrameScan::Done { items, at } && items.len() < 2 && at == final(self).recv_pos()),
            !(r matches Err(SSDBError::Request(_))),
    {
        let mut param: Vec<&str> = Vec::new();
        param.push(key);
        proof {
            lemma_cmd_shapes();
            assert(param@ =~= seq![key]);
            assert(seq!["get"] + param@ =~= seq!["get", key]);
            assert(bytes_of_items(seq!["get", key]) =~= seq![
                encode_utf8("get"@),
                encode_utf8(key@),
            ]);
        }
        let resp = match self.send_req("get", param) {
            Ok(v) => v,
            Err(e) => {
                return Err(e);
            },
        };
        Ok(self.parse("get", resp))
    }

    /// Issues `set key value` and types the response as an integer;
    /// any failure of the exchange propagates unchanged.
    pub fn set(&mut self, key: &str, value: &str) -> (r: Result<SSDBResult, SSDBError>)
        requires
            old(self).wf(),
        ensures
            final(self).wf(),
            final(self).is_open() == old(self).is_open(),
            final(self).host() == old(self).host(),
            final(self).port_num() == old(self).port_num(),
            old(self).recv_log().is_prefix_of(final(self).recv_log()),
            final(self).recv_pos() >= old(self).recv_pos(),
            final(self).sent_log() == old(self).sent_log() || final(self).sent_log() == old(self).sent_log() + encode_frame(
                seq![encode_utf8("set"@), encode_utf8(key@), encode_utf8(value@)],
            ),
            !old(self).is_open() ==> *final(self) == *old(self) && (r matches Err(
                SSDBError::Connection(_),
            )),
            r is Ok ==> final(self).sent_log() == old(self).sent_log() + encode_frame(
                seq![encode_utf8("set"@), encode_utf8(key@), encode_utf8(value@)],
            ),
            r matches Ok(res) ==> res is Int || res is Nil,
            r matches Ok(SSDBResult::Int(st, v)) ==> (scan_frame_at(
                final(self).recv_log(),
                old(self).recv_pos(),
                final(self).at_eof(),
            ) matches SpecFrameScan::Done {
                items,
                at,
            } && items.len() >= 1 && items[0] == encode_utf8(st@) && ((items.len() >= 2 && Some(
                v as int,
            ) == int_of(items[1])) || (items.len() == 1 && Some(v as int) == int_of(items[0])))
                && at == final(self).recv_pos()),
            r matches Ok(SSDBResult::Nil) ==> (scan_frame_at(
                final(self).recv_log(),
                old(self).recv_pos(),
                final(self).at_eof(),
            ) matches SpecFrameScan::Done { items, at } && (items.len() == 0 || (items.len() == 1
                && int_of(items[0]) is None) || (items.len() >= 2 && int_of(items[1]) is None))
                && at == final(self).recv_pos()),
            !(r matches Err(SSDBError::Request(_))),
    {
        let mut param: Vec<&str> = Vec::new();
        param.push(key);
        param.push(value);
        proof {
            lemma_cmd_shapes();
            assert(param@ =~= seq![key, value]);
            assert(seq!["set"] + param@ =~= seq!["set", key, value]);
            assert(bytes_of_items(seq!["set", key, value]) =~= seq![
                encode_utf8("set"@),
                encode_utf8(key@),
                encode_utf8(value@),
            ]);
        }
        let resp = match self.send_req("set", param) {
            Ok(v) => v,
            Err(e) => {
                return Err(e);
            },
        };
        Ok(self.parse("set", resp))
    }
}

/// Reads one status block from the connection: success exactly when the
/// block is the literal success marker `ok`; any other block is a
/// request failure carrying the received text.
pub fn read_status<S: Read + Write>(client: &mut Client<S>) -> (r: Result<
    (),
    SSDBError,
>)
    requires
        old(client).wf(),
        old(client).is_open(),
    ensures
        final(client).wf(),
        final(client).is_open(),
        final(client).host() == old(client).host(),
        final(client).port_num() == old(client).port_num(),
        final(client).sent_log() == old(client).sent_log(),
        old(client).recv_log().is_prefix_of(final(client).recv_log()),
        r is Ok ==> scan_block_at(
            final(client).recv_log(),
            old(client).recv_pos(),
            final(client).at_eof(),
        ) == (SpecScan::Item { data: encode_utf8("ok"@), at: final(client).recv_pos() }),
        r matches Err(SSDBError::Request(t)) ==> t@ != "ok"@ && ((scan_block_at(
            final(client).recv_log(),
            old(client).recv_pos(),
            final(client).at_eof(),
        ) matches SpecScan::Item { data, at } && data == encode_utf8(t@) && at == final(client).recv_pos()) || (scan_block_at(
            final(client).recv_log(),
            old(client).recv_pos(),
            final(client).at_eof(),
        ) matches SpecScan::End { at } && t@.len() == 0 && at == final(client).recv_pos())),
        r matches Err(SSDBError::Framing(_)) ==> (scan_block_at(
            final(client).recv_log(),
            old(client).recv_pos(),
            final(client).at_eof(),
        ) is Corrupt || (scan_block_at(
            final(client).recv_log(),
            old(client).recv_pos(),
            final(client).at_eof(),
        ) matches SpecScan::Item { data, at } && !vstd::utf8::valid_utf8(data))),
        r matches Err(SSDBError::Connection(_)) ==> scan_block_at(
            final(client).recv_log(),
            old(client).recv_pos(),
            final(client).at_eof(),
        ) is More,
{
    match client.read_text_item() {
        Ok(Some(s)) => {
            if str_eq(s.as_str(), "ok") {
                Ok(())
            } else {
                Err(SSDBError::Request(s))
            }
        },
        Ok(None) => {
            proof {
                reveal_strlit("ok");
            }
            Err(SSDBError::Request(String::new()))
        },
        Err(e) => Err(e),
    }
}

} // verus!
