//! Reading frames from a shared packet buffer: the data of STREAM and CRYPTO
//! frames comes out as views into that buffer, with no copy.

use vstd::prelude::*;

use bytes::Bytes;

use crate::frame::stream::{CryptoFrame, StreamFrame};
use crate::frame::{be_frame, frame_parsed, slice_from, Frame};
use crate::varint::ParseError;

verus! {

#[verifier::external_type_specification]
#[verifier::external_body]
pub struct ExBytes(Bytes);

/// The bytes a `Bytes` handle shows.
pub uninterp spec fn bytes_view(b: Bytes) -> Seq<u8>;

/// Relies on `Bytes::as_ref`: the bytes the handle shows, as a slice.
#[verifier::external_body]
fn bytes_as_slice(b: &Bytes) -> (r: &[u8])
    ensures
        r@ == bytes_view(*b),
{
    b.as_ref()
}

/// Relies on `Bytes::slice`: a handle to bytes `start..end` of `b`, sharing
/// its buffer; it panics unless `start <= end <= b.len()`.
#[verifier::external_body]
fn bytes_slice(b: &Bytes, start: usize, end: usize) -> (r: Bytes)
    requires
        start <= end <= bytes_view(*b).len(),
    ensures
        bytes_view(r) == bytes_view(*b).subrange(start as int, end as int),
{
    b.slice(start..end)
}

/// A frame read from a packet buffer: STREAM and CRYPTO frames come with a
/// view of their data.
#[derive(Debug)]
pub enum ReadFrame {
    Stream(StreamFrame, Bytes),
    Crypto(CryptoFrame, Bytes),
    /// Any other frame.
    Other(Frame),
}

/// Reads the frame at offset `start` of the packet buffer `raw`. The result
/// is `be_frame`'s on the bytes from `start`, with the data of a STREAM or
/// CRYPTO frame handed out as a view of the `length` bytes that end it.
#[verifier::rlimit(40)]
pub fn read_frame(raw: &Bytes, start: usize) -> (r: Result<(usize, ReadFrame), ParseError>)
    requires
        start <= bytes_view(*raw).len(),
    ensures
        ({
            let s = bytes_view(*raw).skip(start as int);
            match r {
                Err(e) => frame_parsed(s, Err(e)),
                Ok((n, ReadFrame::Stream(f, d))) => frame_parsed(s, Ok((n, Frame::Stream(f))))
                    && f.length <= n <= s.len() && bytes_view(d) == s.subrange(n - f.length, n as int),
                Ok((n, ReadFrame::Crypto(f, d))) => frame_parsed(s, Ok((n, Frame::Crypto(f))))
                    && f.length <= n <= s.len() && bytes_view(d) == s.subrange(n - f.length, n as int),
                Ok((n, ReadFrame::Other(f))) => frame_parsed(s, Ok((n, f))) && !(f is Stream
                    || f is Crypto),
            }
        }),
{
    let all = bytes_as_slice(raw);
    let all_len = all.len();
    let input = slice_from(all, start);
    let total = input.len();
    match be_frame(input) {
        Err(e) => Err(e),
        Ok((n, Frame::Stream(f))) => {
            let data = bytes_slice(raw, start + n - f.length, start + n);
            proof {
                assert(bytes_view(data) =~= input@.subrange(n - f.length, n as int));
            }
            Ok((n, ReadFrame::Stream(f, data)))
        },
        Ok((n, Frame::Crypto(f))) => {
            let data = bytes_slice(raw, start + n - f.length as usize, start + n);
            proof {
                assert(bytes_view(data) =~= input@.subrange(n - f.length, n as int));
            }
            Ok((n, ReadFrame::Crypto(f, data)))
        },
        Ok((n, f)) => Ok((n, ReadFrame::Other(f))),
    }
}

} // verus!
