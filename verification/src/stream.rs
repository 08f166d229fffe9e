//! The trusted boundary to the byte stream and to UTF-8 decoding:
//! every call into outside code that the engine makes goes through one
//! of the items here, and their contracts say no more than the outside
//! sources promise. Network data is nondeterministic, so the read
//! wrapper states only how the receive buffer grows; what the bytes
//! mean is decided by the verified scanner.

use std::io::Read;
use std::io::Write;

use vstd::prelude::*;

verus! {

/// Relies on `std::io::Read::read`: on success it reads some bytes —
/// here appended to `buf` — and returns how many; zero only at end of
/// stream, since the scratch buffer is not empty. A vector's length
/// always fits in `usize`.
#[verifier::external_body]
pub fn stream_read_some<S: Read + Write>(stream: &mut S, buf: &mut Vec<u8>) -> (r: Option<
    usize,
>)
    ensures
        r matches Some(n) ==> final(buf)@.len() == old(buf)@.len() + n,
        old(buf)@.is_prefix_of(final(buf)@),
        r is None ==> final(buf)@ == old(buf)@,
        final(buf)@.len() <= usize::MAX,
{
    let mut tmp = [0u8; 4096];
    match std::io::Read::read(stream, &mut tmp) {
        Ok(n) => {
            buf.extend_from_slice(&tmp[..n]);
            Some(n)
        },
        Err(_) => None,
    }
}

/// Relies on `std::io::Write::write_all`: `true` means the whole
/// buffer was accepted by the stream.
#[verifier::external_body]
pub fn stream_write_all<S: Read + Write>(stream: &mut S, data: &Vec<u8>) -> (r: bool)
{
    std::io::Write::write_all(stream, data.as_slice()).is_ok()
}

/// Relies on `std::io::Write::flush`: `true` means buffered writes
/// reached the underlying stream.
#[verifier::external_body]
pub fn stream_flush<S: Read + Write>(stream: &mut S) -> (r: bool)
{
    std::io::Write::flush(stream).is_ok()
}

/// Relies on `String::from_utf8`: succeeds exactly on valid UTF-8, and
/// the returned string is the decoding of the bytes.
#[verifier::external_body]
pub fn string_from_utf8(bytes: Vec<u8>) -> (r: Option<String>)
    ensures
        r is Some <==> vstd::utf8::valid_utf8(bytes@),
        r matches Some(s) ==> s@ == vstd::utf8::decode_utf8(bytes@),
{
    String::from_utf8(bytes).ok()
}

} // verus!
