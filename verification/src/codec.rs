//! The block codec: encoding byte payloads into length-prefixed wire
//! blocks, and scanning a received byte buffer back into blocks and
//! frame boundaries.
//!
//! Wire shape of one block: the decimal ASCII byte length, a newline,
//! the payload bytes, a trailing newline. A frame is a run of blocks
//! closed by an empty length line (a bare newline).
//!
//! The scanner is strict: a length line holding anything but digits is
//! corrupt, and a stream that ends before a declared payload (or before
//! the closing empty line) is corrupt rather than silently short.

use vstd::prelude::*;
use vstd::string::StringSliceAdditionalSpecFns;

use crate::num::all_digits;
use crate::num::dec_digits;
use crate::num::dec_val;
use crate::num::is_digit;
use crate::num::lemma_dec_digits_shape;
use crate::num::lemma_dec_digits_val;
use crate::num::parse_dec;
use crate::num::push_dec;

verus! {

/// The line terminator of the wire format.
pub const NL: u8 = 10;

/// Wire encoding of one block.
pub open spec fn encode_block(data: Seq<u8>) -> Seq<u8> {
    dec_digits(data.len()) + seq![NL] + data + seq![NL]
}

/// Wire encoding of a frame's blocks, without the closing empty line.
pub open spec fn encode_blocks(blocks: Seq<Seq<u8>>) -> Seq<u8>
    decreases blocks.len(),
{
    if blocks.len() == 0 {
        Seq::empty()
    } else {
        encode_block(blocks[0]) + encode_blocks(blocks.drop_first())
    }
}

/// Wire encoding of a whole frame: every block, then the empty length
/// line that closes the frame.
pub open spec fn encode_frame(blocks: Seq<Seq<u8>>) -> Seq<u8> {
    encode_blocks(blocks) + seq![NL]
}

/// Position of the first newline at or after `pos`, or `-1` if none.
pub open spec fn find_nl(buf: Seq<u8>, pos: int) -> int
    decreases buf.len() - pos,
    when 0 <= pos <= buf.len()
{
    if pos >= buf.len() {
        -1
    } else if buf[pos] == NL {
        pos
    } else {
        find_nl(buf, pos + 1)
    }
}

/// `find_nl` returns the position of the first newline, if any.
pub proof fn lemma_find_nl(buf: Seq<u8>, pos: int)
    requires
        0 <= pos <= buf.len(),
    ensures
        find_nl(buf, pos) == -1 || pos <= find_nl(buf, pos) < buf.len(),
        find_nl(buf, pos) == -1 ==> forall|i: int| pos <= i < buf.len() ==> buf[i] != NL,
        find_nl(buf, pos) >= 0 ==> pos <= find_nl(buf, pos) < buf.len() && buf[find_nl(
            buf,
            pos,
        )] == NL && forall|i: int| pos <= i < find_nl(buf, pos) ==> buf[i] != NL,
    decreases buf.len() - pos,
{
    if pos < buf.len() && buf[pos] != NL {
        lemma_find_nl(buf, pos + 1);
    }
}

/// Outcome of scanning one block at a position of the receive buffer.
pub enum SpecScan {
    /// The buffer does not yet hold a whole block and the stream is open.
    More,
    /// The empty length line that ends a frame; `at` is the next position.
    End { at: int },
    /// One block's payload; `at` is the position after its terminator.
    Item { data: Seq<u8>, at: int },
    /// Malformed or truncated framing.
    Corrupt,
}

/// What one scan step yields at position `pos` of the buffer `buf`,
/// where `eof` says the stream is known closed after `buf`.
pub open spec fn scan_block_at(buf: Seq<u8>, pos: int, eof: bool) -> SpecScan
    recommends
        0 <= pos <= buf.len(),
{
    let nl = find_nl(buf, pos);
    if nl < 0 {
        if eof {
            SpecScan::Corrupt
        } else {
            SpecScan::More
        }
    } else {
        let line = buf.subrange(pos, nl);
        if line.len() == 0 {
            SpecScan::End { at: nl + 1 }
        } else if !all_digits(line) {
            SpecScan::Corrupt
        } else {
            let n = dec_val(line) as int;
            if buf.len() - (nl + 1) >= n + 1 {
                SpecScan::Item { data: buf.subrange(nl + 1, nl + 1 + n), at: nl + 2 + n }
            } else if eof {
                SpecScan::Corrupt
            } else {
                SpecScan::More
            }
        }
    }
}

/// Outcome of scanning a whole frame at a position of the receive buffer.
pub enum SpecFrameScan {
    /// The buffer does not yet hold the whole frame and the stream is open.
    More,
    /// Malformed or truncated framing somewhere in the frame.
    Corrupt,
    /// The frame's blocks in order; `at` is the position after the frame.
    Done { items: Seq<Seq<u8>>, at: int },
}

/// Scans blocks from `pos` until the empty line that ends the frame.
pub open spec fn scan_frame_at(buf: Seq<u8>, pos: int, eof: bool) -> SpecFrameScan
    decreases buf.len() - pos,
    when 0 <= pos <= buf.len()
    via scan_frame_at_dec
{
    match scan_block_at(buf, pos, eof) {
        SpecScan::More => SpecFrameScan::More,
        SpecScan::Corrupt => SpecFrameScan::Corrupt,
        SpecScan::End { at } => SpecFrameScan::Done { items: Seq::empty(), at },
        SpecScan::Item { data, at } => match scan_frame_at(buf, at, eof) {
            SpecFrameScan::Done { items, at: q } => SpecFrameScan::Done {
                items: seq![data] + items,
                at: q,
            },
            other => other,
        },
    }
}

#[via_fn]
proof fn scan_frame_at_dec(buf: Seq<u8>, pos: int, eof: bool) {
    lemma_find_nl(buf, pos);
}

/// The byte sequences of a request's items, in order.
pub open spec fn bytes_of_items(items: Seq<&str>) -> Seq<Seq<u8>> {
    items.map_values(|s: &str| s.spec_bytes())
}

/// Prepends already-read blocks to the outcome of the rest of a frame.
pub open spec fn frame_prepend(items: Seq<Seq<u8>>, f: SpecFrameScan) -> SpecFrameScan {
    match f {
        SpecFrameScan::Done { items: it, at } => SpecFrameScan::Done { items: items + it, at },
        other => other,
    }
}

/// Prefixes compose.
pub proof fn lemma_prefix_trans(a: Seq<u8>, b: Seq<u8>, c: Seq<u8>)
    requires
        a.is_prefix_of(b),
        b.is_prefix_of(c),
    ensures
        a.is_prefix_of(c),
{
    assert forall|i: int| 0 <= i < a.len() implies #[trigger] c.subrange(0, a.len() as int)[i]
        == a[i] by {
        assert(a[i] == b.subrange(0, a.len() as int)[i]);
        assert(b.subrange(0, a.len() as int)[i] == b[i]);
        assert(b[i] == c.subrange(0, b.len() as int)[i]);
        assert(c.subrange(0, b.len() as int)[i] == c[i]);
        assert(c.subrange(0, a.len() as int)[i] == c[i]);
    }
    assert(a =~= c.subrange(0, a.len() as int));
}

/// Only an open stream can leave a block scan undecided.
pub proof fn lemma_scan_more_not_eof(buf: Seq<u8>, pos: int, eof: bool)
    requires
        0 <= pos <= buf.len(),
        scan_block_at(buf, pos, eof) is More,
    ensures
        !eof,
{
}

/// Bytes of a region of `buf` known to equal `a` are the bytes of `a`.
pub proof fn lemma_region_index(buf: Seq<u8>, pos: int, a: Seq<u8>, i: int)
    requires
        0 <= pos,
        pos + a.len() <= buf.len(),
        buf.subrange(pos, pos + a.len()) == a,
        0 <= i < a.len(),
    ensures
        buf[pos + i] == a[i],
{
    assert(buf.subrange(pos, pos + a.len())[i] == a[i]);
}

/// A decided block scan never points before `pos + 1` nor past the buffer.
pub proof fn lemma_scan_block_at_range(buf: Seq<u8>, pos: int, eof: bool)
    requires
        0 <= pos <= buf.len(),
    ensures
        scan_block_at(buf, pos, eof) matches SpecScan::End { at } ==> pos < at <= buf.len(),
        scan_block_at(buf, pos, eof) matches SpecScan::Item { at, .. } ==> pos < at <= buf.len(),
{
    lemma_find_nl(buf, pos);
}

/// A block scan that has decided (frame end or a full block) keeps its
/// outcome when the buffer grows and whatever becomes of `eof`: the
/// decision reads only bytes the buffer already holds.
pub proof fn lemma_scan_block_stable(buf: Seq<u8>, pos: int, eof: bool, buf2: Seq<u8>, eof2: bool)
    requires
        0 <= pos <= buf.len(),
        buf.is_prefix_of(buf2),
    ensures
        scan_block_at(buf, pos, eof) matches SpecScan::End { at } ==> scan_block_at(
            buf2,
            pos,
            eof2,
        ) == (SpecScan::End { at }),
        scan_block_at(buf, pos, eof) matches SpecScan::Item { data, at } ==> scan_block_at(
            buf2,
            pos,
            eof2,
        ) == (SpecScan::Item { data, at }),
{
    lemma_find_nl(buf, pos);
    lemma_find_nl(buf2, pos);
    assert(buf.len() <= buf2.len());
    assert forall|i: int| 0 <= i < buf.len() implies buf2[i] == buf[i] by {
        assert(buf2.subrange(0, buf.len() as int)[i] == buf2[i]);
    }
    let nl = find_nl(buf, pos);
    if nl >= 0 {
        assert(buf[nl] == NL);
        assert(buf2[nl] == NL);
        let nl2 = find_nl(buf2, pos);
        assert(nl2 >= 0);
        if nl2 < nl {
            assert(buf[nl2] == buf2[nl2]);
            assert(buf[nl2] != NL);
            assert(false);
        }
        if nl2 > nl {
            assert(buf2[nl] != NL);
            assert(false);
        }
        assert(nl2 == nl);
        assert forall|i: int| 0 <= i < nl - pos implies #[trigger] buf2.subrange(pos, nl)[i]
            == buf.subrange(pos, nl)[i] by {
            assert(buf2.subrange(pos, nl)[i] == buf2[pos + i]);
            assert(buf.subrange(pos, nl)[i] == buf[pos + i]);
        }
        assert(buf2.subrange(pos, nl) =~= buf.subrange(pos, nl));
        let line = buf.subrange(pos, nl);
        if line.len() > 0 && all_digits(line) {
            let n = dec_val(line) as int;
            if buf.len() - (nl + 1) >= n + 1 {
                assert(buf2.len() - (nl + 1) >= n + 1);
                assert forall|i: int| 0 <= i < n implies #[trigger] buf2.subrange(
                    nl + 1,
                    nl + 1 + n,
                )[i] == buf.subrange(nl + 1, nl + 1 + n)[i] by {
                    assert(buf2.subrange(nl + 1, nl + 1 + n)[i] == buf2[nl + 1 + i]);
                    assert(buf.subrange(nl + 1, nl + 1 + n)[i] == buf[nl + 1 + i]);
                }
                assert(buf2.subrange(nl + 1, nl + 1 + n) =~= buf.subrange(nl + 1, nl + 1 + n));
            }
        }
    }
}

/// Scanning a buffer region that holds the encoding of `data` yields
/// exactly `data` back and stops right after the encoding: blocks
/// round-trip through the codec, whatever bytes follow them.
pub proof fn lemma_scan_encode_block(buf: Seq<u8>, pos: int, eof: bool, data: Seq<u8>)
    requires
        0 <= pos,
        pos + encode_block(data).len() <= buf.len(),
        buf.subrange(pos, pos + encode_block(data).len()) == encode_block(data),
    ensures
        scan_block_at(buf, pos, eof) == (SpecScan::Item {
            data,
            at: pos + encode_block(data).len(),
        }),
{
    let enc = encode_block(data);
    let digits = dec_digits(data.len());
    let dlen = digits.len() as int;
    let n = data.len() as int;
    lemma_dec_digits_shape(data.len());
    lemma_dec_digits_val(data.len());
    assert(NL == 10);
    assert forall|i: int| pos <= i < pos + dlen implies buf[i] != NL by {
        lemma_region_index(buf, pos, enc, i - pos);
        assert(enc[i - pos] == digits[i - pos]);
        assert(is_digit(digits[i - pos]));
        assert(digits[i - pos] >= 48);
    }
    assert(enc[dlen] == NL);
    lemma_region_index(buf, pos, enc, dlen);
    assert(buf[pos + dlen] == NL);
    lemma_find_nl(buf, pos);
    let nl = find_nl(buf, pos);
    assert(nl != -1);
    assert(nl <= pos + dlen);
    assert(nl >= pos + dlen) by {
        if nl < pos + dlen {
            assert(buf[nl] != NL);
        }
    }
    let line = buf.subrange(pos, nl);
    assert forall|i: int| 0 <= i < dlen implies line[i] == digits[i] by {
        lemma_region_index(buf, pos, enc, i);
        assert(enc[i] == digits[i]);
    }
    assert(line =~= digits);
    assert(line.len() > 0);
    assert(all_digits(line));
    assert(dec_val(line) == data.len());
    assert(buf.len() - (nl + 1) >= n + 1);
    assert forall|i: int| 0 <= i < n implies buf.subrange(nl + 1, nl + 1 + n)[i] == data[i] by {
        assert(enc[dlen + 1 + i] == data[i]);
        lemma_region_index(buf, pos, enc, dlen + 1 + i);
        assert(buf[pos + (dlen + 1 + i)] == enc[dlen + 1 + i]);
        assert(buf.subrange(nl + 1, nl + 1 + n)[i] == buf[nl + 1 + i]);
    }
    assert(buf.subrange(nl + 1, nl + 1 + n) =~= data);
    assert(nl + 2 + n == pos + enc.len());
}

/// Scanning a buffer region that holds the encoding of a whole frame
/// yields exactly its blocks and stops right after the closing empty
/// line: a frame of `k` written blocks reads back as `k` blocks and
/// then the frame end, and whatever follows belongs to the next frame.
pub proof fn lemma_scan_encode_frame(buf: Seq<u8>, pos: int, eof: bool, blocks: Seq<Seq<u8>>)
    requires
        0 <= pos,
        pos + encode_frame(blocks).len() <= buf.len(),
        buf.subrange(pos, pos + encode_frame(blocks).len()) == encode_frame(blocks),
    ensures
        scan_frame_at(buf, pos, eof) == (SpecFrameScan::Done {
            items: blocks,
            at: pos + encode_frame(blocks).len(),
        }),
    decreases blocks.len(),
{
    let enc = encode_frame(blocks);
    if blocks.len() == 0 {
        assert(enc =~= seq![NL]);
        assert(enc[0] == NL);
        lemma_region_index(buf, pos, enc, 0);
        assert(buf[pos] == NL);
        lemma_find_nl(buf, pos);
        let nl = find_nl(buf, pos);
        assert(nl >= 0);
        assert(nl <= pos) by {
            if nl > pos {
                assert(buf[pos] != NL);
            }
        }
        assert(find_nl(buf, pos) == pos);
        assert(buf.subrange(pos, pos).len() == 0);
        assert(scan_block_at(buf, pos, eof) == (SpecScan::End { at: pos + 1 }));
        assert(blocks =~= Seq::<Seq<u8>>::empty());
        assert(encode_blocks(blocks).len() == 0);
    } else {
        let first = blocks[0];
        let benc = encode_block(first);
        let rest = encode_frame(blocks.drop_first());
        assert(encode_blocks(blocks) == benc + encode_blocks(blocks.drop_first()));
        assert(enc =~= benc + rest);
        assert forall|i: int| 0 <= i < benc.len() implies buf.subrange(pos, pos + benc.len())[i]
            == benc[i] by {
            lemma_region_index(buf, pos, enc, i);
            assert(buf[pos + i] == enc[i]);
            assert(enc[i] == benc[i]);
            assert(buf.subrange(pos, pos + benc.len())[i] == buf[pos + i]);
        }
        assert(buf.subrange(pos, pos + benc.len()) =~= benc);
        lemma_scan_encode_block(buf, pos, eof, first);
        let mid = pos + benc.len();
        assert forall|i: int| 0 <= i < rest.len() implies buf.subrange(mid, mid + rest.len())[i]
            == rest[i] by {
            lemma_region_index(buf, pos, enc, benc.len() + i);
            assert(buf[pos + (benc.len() + i)] == enc[benc.len() + i]);
            assert(enc[benc.len() + i] == rest[i]);
            assert(buf.subrange(mid, mid + rest.len())[i] == buf[mid + i]);
        }
        assert(buf.subrange(mid, mid + rest.len()) =~= rest);
        lemma_scan_encode_frame(buf, mid, eof, blocks.drop_first());
        assert(seq![first] + blocks.drop_first() =~= blocks);
        assert(mid + rest.len() == pos + enc.len());
    }
}

/// A declared length that exceeds what the closed stream still holds is
/// corrupt framing, never a short block: here fewer than `n` payload
/// bytes (plus the terminator) follow the length line of `n`.
pub proof fn lemma_scan_truncated(n: nat, tail: Seq<u8>)
    requires
        tail.len() < n + 1,
    ensures
        scan_block_at(dec_digits(n) + seq![NL] + tail, 0, true) == SpecScan::Corrupt,
{
    let buf = dec_digits(n) + seq![NL] + tail;
    let digits = dec_digits(n);
    let dlen = digits.len() as int;
    lemma_dec_digits_shape(n);
    lemma_dec_digits_val(n);
    assert(NL == 10);
    assert forall|i: int| 0 <= i < dlen implies buf[i] != NL by {
        assert(buf[i] == digits[i]);
        assert(is_digit(digits[i]));
        assert(digits[i] >= 48);
    }
    assert(buf[dlen] == NL);
    lemma_find_nl(buf, 0);
    let nl = find_nl(buf, 0);
    assert(nl != -1);
    assert(nl <= dlen);
    assert(nl >= dlen) by {
        if nl < dlen {
            assert(buf[nl] != NL);
        }
    }
    let line = buf.subrange(0, nl);
    assert forall|i: int| 0 <= i < dlen implies line[i] == digits[i] by {
        assert(line[i] == buf[i]);
    }
    assert(line =~= digits);
    assert(line.len() > 0);
    assert(all_digits(line));
    assert(dec_val(line) == n);
    assert(buf.len() - (nl + 1) == tail.len());
    assert(buf.len() - (nl + 1) < n + 1);
}

/// Appends the wire encoding of one block to `out`.
pub fn write_block(out: &mut Vec<u8>, data: &[u8])
    ensures
        final(out)@ == old(out)@ + encode_block(data@),
{
    push_dec(data.len(), out);
    out.push(NL);
    out.extend_from_slice(data);
    out.push(NL);
    proof {
        assert(final(out)@ =~= old(out)@ + encode_block(data@));
    }
}

/// Appends the empty length line that closes a frame.
pub fn write_frame_end(out: &mut Vec<u8>)
    ensures
        final(out)@ == old(out)@ + seq![NL],
{
    out.push(NL);
    proof {
        assert(final(out)@ =~= old(out)@ + seq![NL]);
    }
}

/// `encode_blocks` grows one block at a time from the right.
pub proof fn lemma_encode_blocks_snoc(blocks: Seq<Seq<u8>>, b: Seq<u8>)
    ensures
        encode_blocks(blocks.push(b)) == encode_blocks(blocks) + encode_block(b),
    decreases blocks.len(),
{
    let s = blocks.push(b);
    if blocks.len() == 0 {
        assert(s.len() == 1);
        assert(s[0] == b);
        assert(s.drop_first() =~= Seq::<Seq<u8>>::empty());
        assert(encode_blocks(s) == encode_block(b) + encode_blocks(Seq::<Seq<u8>>::empty()));
        assert(encode_blocks(Seq::<Seq<u8>>::empty()) =~= Seq::<u8>::empty());
        assert(blocks =~= Seq::<Seq<u8>>::empty());
        assert(encode_blocks(s) =~= encode_blocks(blocks) + encode_block(b));
    } else {
        assert(s.len() == blocks.len() + 1);
        assert(s[0] == blocks[0]);
        assert(s.drop_first() =~= blocks.drop_first().push(b));
        lemma_encode_blocks_snoc(blocks.drop_first(), b);
        assert(encode_blocks(s) == encode_block(blocks[0]) + encode_blocks(s.drop_first()));
        assert(encode_blocks(s.drop_first()) == encode_blocks(blocks.drop_first()) + encode_block(
        b));
        assert(encode_blocks(blocks) == encode_block(blocks[0]) + encode_blocks(
        blocks.drop_first()));
        assert(encode_blocks(s) =~= encode_blocks(blocks) + encode_block(b));
    }
}

/// Builds the wire bytes of one whole request frame: each item as one
/// block, in order, then the closing empty line.
pub fn encode_request(items: &Vec<&str>) -> (out: Vec<u8>)
    ensures
        out@ == encode_frame(bytes_of_items(items@)),
{
    let mut out: Vec<u8> = Vec::new();
    let mut i: usize = 0;
    while i < items.len()
        invariant
            i <= items@.len(),
            out@ == encode_blocks(bytes_of_items(items@.subrange(0, i as int))),
        decreases items@.len() - i,
    {
        let ghost pre = bytes_of_items(items@.subrange(0, i as int));
        write_block(&mut out, items[i].as_bytes());
        proof {
            assert(bytes_of_items(items@.subrange(0, i + 1 as int)) =~= pre.push(
                items@[i as int].spec_bytes(),
            ));
            lemma_encode_blocks_snoc(pre, items@[i as int].spec_bytes());
        }
        i = i + 1;
    }
    proof {
        assert(items@.subrange(0, items@.len() as int) =~= items@);
        assert(bytes_of_items(items@.subrange(0, items@.len() as int)) =~= bytes_of_items(items@));
    }
    write_frame_end(&mut out);
    out
}

/// Outcome of one executable scan step; positions index the buffer.
pub enum BlockScan {
    /// More bytes are needed before the block can be decided.
    More,
    /// The frame-end line; the next frame starts at the position.
    End(usize),
    /// One block's payload and the position after its terminator.
    Item(Vec<u8>, usize),
    /// Malformed or truncated framing.
    Corrupt,
}

/// Copies `v[from..to]` into a fresh vector.
fn copy_range(v: &Vec<u8>, from: usize, to: usize) -> (r: Vec<u8>)
    requires
        from <= to <= v@.len(),
    ensures
        r@ == v@.subrange(from as int, to as int),
{
    let mut r: Vec<u8> = Vec::new();
    let mut i: usize = from;
    while i < to
        invariant
            from <= i <= to <= v@.len(),
            r@ == v@.subrange(from as int, i as int),
        decreases to - i,
    {
        r.push(v[i]);
        proof {
            assert(v@.subrange(from as int, i + 1 as int) =~= v@.subrange(
                from as int,
                i as int,
            ).push(v@[i as int]));
        }
        i = i + 1;
    }
    r
}

/// Scans one block of the receive buffer `buf` at `pos`; `eof` says the
/// stream is known closed, so an incomplete block is corrupt rather
/// than pending. The result agrees with [`scan_block_at`] exactly.
#[verifier::loop_isolation(false)]
pub fn scan_block(buf: &Vec<u8>, pos: usize, eof: bool) -> (r: BlockScan)
    requires
        pos <= buf@.len(),
    ensures
        r is More ==> scan_block_at(buf@, pos as int, eof) is More,
        r is Corrupt ==> scan_block_at(buf@, pos as int, eof) is Corrupt,
        r matches BlockScan::End(p) ==> scan_block_at(buf@, pos as int, eof) == (SpecScan::End {
            at: p as int,
        }) && p <= buf@.len(),
        r matches BlockScan::Item(d, p) ==> scan_block_at(buf@, pos as int, eof) == (SpecScan::Item {
            data: d@,
            at: p as int,
        }) && p <= buf@.len(),
{
    proof {
        lemma_find_nl(buf@, pos as int);
    }
    let mut j: usize = pos;
    while j < buf.len() && buf[j] != NL
        invariant
            pos <= j <= buf@.len(),
            forall|i: int| pos <= i < j ==> buf@[i] != NL,
        decreases buf@.len() - j,
    {
        j = j + 1;
    }
    if j == buf.len() {
        proof {
            let nl = find_nl(buf@, pos as int);
            if nl >= 0 {
                assert(buf@[nl] == NL);
                assert(false);
            }
        }
        if eof {
            return BlockScan::Corrupt;
        } else {
            return BlockScan::More;
        }
    }
    assert(buf@[j as int] == NL);
    proof {
        let nl = find_nl(buf@, pos as int);
        if nl == -1 {
            assert(buf@[j as int] != NL);
        }
        if nl > j as int {
            assert(buf@[j as int] != NL);
        }
        if 0 <= nl < j as int {
            assert(buf@[nl] == NL);
        }
    }
    assert(find_nl(buf@, pos as int) == j as int);
    if j == pos {
        assert(buf@.subrange(pos as int, j as int).len() == 0);
        return BlockScan::End(j + 1);
    }
    let ghost line = buf@.subrange(pos as int, j as int);
    let mut k: usize = pos;
    while k < j
        invariant
            pos <= k <= j <= buf@.len(),
            line == buf@.subrange(pos as int, j as int),
            forall|i: int| pos <= i < k ==> is_digit(#[trigger] buf@[i]),
        decreases j - k,
    {
        let b = buf[k];
        if b < 48 || b > 57 {
            assert(line[k - pos] == b);
            assert(!all_digits(line));
            return BlockScan::Corrupt;
        }
        k = k + 1;
    }
    proof {
        assert forall|i: int| 0 <= i < line.len() implies is_digit(#[trigger] line[i]) by {
            assert(line[i] == buf@[pos + i]);
        }
    }
    match parse_dec(buf, pos, j) {
        None => {
            // The declared length exceeds any buffer this process can
            // hold, so the payload can never be complete.
            assert(dec_val(line) > usize::MAX);
            if eof {
                BlockScan::Corrupt
            } else {
                BlockScan::More
            }
        },
        Some(n) => {
            let avail = buf.len() - j - 1;
            if avail > n {
                let payload = copy_range(buf, j + 1, j + 1 + n);
                assert(buf@.len() - (j + 1) >= n + 1);
                BlockScan::Item(payload, j + 2 + n)
            } else if eof {
                BlockScan::Corrupt
            } else {
                BlockScan::More
            }
        },
    }
}

} // verus!
