//! CONNECTION_CLOSE: the last frame of a connection, at the transport layer
//! (type 0x1c, with the type of the frame that caused it) or at the
//! application layer (type 0x1d).

use vstd::prelude::*;
use vstd::utf8::{decode_utf8, encode_utf8, valid_utf8};

use crate::frame::slice_from;
use crate::frame::stream::put_slice;
use crate::varint::{be_varint, encoding_size, put_varint, varint_bytes, ParseError, VARINT_MAX};

verus! {

/// The type of a transport-layer close, which carries a frame type.
pub const CONNECTION_CLOSE_FRAME_TYPE: u8 = 0x1c;
/// The type of an application-layer close.
pub const APP_CONNECTION_CLOSE_FRAME_TYPE: u8 = 0x1d;
/// The layer of a close with a frame-type field: the transport layer.
pub const QUIC_LAYER: u8 = 1;
/// The layer of a close without one: the application layer.
pub const APP_LAYER: u8 = 0;

/// CONNECTION_CLOSE: an error code, the type of the frame that caused a
/// transport-layer error, and a reason phrase.
#[derive(Debug, Clone, PartialEq, Eq)]
pub struct ConnectionCloseFrame {
    pub error_code: u64,
    pub frame_type: Option<u64>,
    pub reason: String,
}

/// What `String::from_utf8_lossy` makes of some bytes.
pub uninterp spec fn utf8_lossy(b: Seq<u8>) -> Seq<char>;

/// Relies on `String::from_utf8_lossy`: the result depends on the bytes
/// alone, and valid UTF-8 comes back as the text it encodes.
#[verifier::external_body]
fn from_utf8_lossy(b: &[u8]) -> (r: String)
    ensures
        r@ == utf8_lossy(b@),
        valid_utf8(b@) ==> r@ == decode_utf8(b@),
{
    String::from_utf8_lossy(b).into_owned()
}

/// The text of a reason phrase: the UTF-8 it encodes when it is valid,
/// else the lossy decoding.
pub open spec fn reason_text(raw: Seq<u8>) -> Seq<char> {
    if valid_utf8(raw) {
        decode_utf8(raw)
    } else {
        utf8_lossy(raw)
    }
}

/// The optional frame-type field.
pub open spec fn opt_bytes(v: Option<u64>) -> Seq<u8> {
    match v {
        Some(t) => varint_bytes(t),
        None => Seq::empty(),
    }
}

impl ConnectionCloseFrame {
    pub open spec fn reason_bytes(&self) -> Seq<u8> {
        encode_utf8(self.reason@)
    }

    pub open spec fn wf(&self) -> bool {
        &&& self.error_code <= VARINT_MAX
        &&& (self.frame_type matches Some(t) ==> t <= VARINT_MAX)
        &&& self.reason_bytes().len() <= VARINT_MAX
    }

    /// The frame type: 0x1c with a frame-type field, 0x1d without.
    pub open spec fn spec_type(&self) -> u8 {
        if self.frame_type is Some {
            CONNECTION_CLOSE_FRAME_TYPE
        } else {
            APP_CONNECTION_CLOSE_FRAME_TYPE
        }
    }

    pub open spec fn spec_bytes(&self) -> Seq<u8> {
        seq![self.spec_type()] + varint_bytes(self.error_code)
            + opt_bytes(self.frame_type) + varint_bytes(self.reason_bytes().len() as u64)
            + self.reason_bytes()
    }

    /// A close with error code `error_kind`; `frame_type` is present for a
    /// transport-layer error.
    pub fn new(error_kind: u64, frame_type: Option<u64>, reason: String) -> (r: Self)
        ensures
            r.error_code == error_kind,
            r.frame_type == frame_type,
            r.reason@ == reason@,
    {
        ConnectionCloseFrame { error_code: error_kind, frame_type, reason }
    }

    /// The frame type: 0x1c with a frame-type field, 0x1d without.
    pub fn frame_type(&self) -> (r: u8)
        ensures
            r == self.spec_type(),
    {
        if self.frame_type.is_some() {
            CONNECTION_CLOSE_FRAME_TYPE
        } else {
            APP_CONNECTION_CLOSE_FRAME_TYPE
        }
    }

    /// A bound on the encoding size for a reason shorter than 16 KiB: the
    /// varints at their longest, and two bytes for the reason's length.
    pub fn max_encoding_size(&self) -> (r: usize)
        requires
            self.reason_bytes().len() + 19 <= usize::MAX,
        ensures
            r == 1 + 8 + (if self.frame_type is Some { 8int } else { 0 }) + 2 + self.reason_bytes().len(),
    {
        let b = self.reason.as_str().as_bytes();
        1 + 8 + if self.frame_type.is_some() { 8 } else { 0 } + 2 + b.len()
    }

    pub fn encoding_size(&self) -> (r: usize)
        requires
            self.wf(),
            self.spec_bytes().len() <= usize::MAX,
        ensures
            r == self.spec_bytes().len(),
    {
        let b = self.reason.as_str().as_bytes();
        let ft: usize = match self.frame_type {
            Some(t) => encoding_size(t),
            None => 0,
        };
        1 + encoding_size(self.error_code) + ft + encoding_size(b.len() as u64) + b.len()
    }
}

/// The body of a CONNECTION_CLOSE frame at `layer`: error code, frame type
/// when `layer` is the transport layer, and the raw reason bytes.
pub open spec fn spec_connection_close(layer: u8, s: Seq<u8>) -> Result<
    (int, (u64, Option<u64>, Seq<u8>)),
    ParseError,
> {
    match crate::varint::spec_varint(s) {
        Err(e) => Err(e),
        Ok((n1, code)) => {
            let r1 = s.skip(n1);
            let ft = if layer == QUIC_LAYER {
                match crate::varint::spec_varint(r1) {
                    Err(e) => Err(e),
                    Ok((n, t)) => Ok((n, Some(t))),
                }
            } else {
                Ok((0int, None::<u64>))
            };
            match ft {
                Err(e) => Err(e),
                Ok((n2, frame_type)) => {
                    let r2 = r1.skip(n2);
                    match crate::varint::spec_varint(r2) {
                        Err(e) => Err(e),
                        Ok((n3, len)) => {
                            let r3 = r2.skip(n3);
                            if r3.len() < len {
                                Err(ParseError::Incomplete((len - r3.len()) as usize))
                            } else {
                                Ok((n1 + n2 + n3 + len, (code, frame_type, r3.take(len as int))))
                            }
                        },
                    }
                },
            }
        },
    }
}

/// A parsed CONNECTION_CLOSE frame against the body read over the input: the
/// reason is the text of the raw reason bytes.
pub open spec fn close_parsed(
    r: Result<(usize, ConnectionCloseFrame), ParseError>,
    s: Result<(int, (u64, Option<u64>, Seq<u8>)), ParseError>,
) -> bool {
    match s {
        Ok((m, (code, ft, raw))) => match r {
            Ok((n, f)) => n == m && f.error_code == code && f.frame_type == ft && f.reason@
                == reason_text(raw),
            Err(_) => false,
        },
        Err(e) => r == Err::<(usize, ConnectionCloseFrame), ParseError>(e),
    }
}

/// Parses the body of a CONNECTION_CLOSE frame at `layer` (the low bit of its type).
pub fn connection_close_frame_at_layer(layer: u8, input: &[u8]) -> (r: Result<
    (usize, ConnectionCloseFrame),
    ParseError,
>)
    ensures
        close_parsed(r, spec_connection_close(layer, input@)),
        crate::frame::within(r, input@.len()),
{
    let (n1, error_code) = match be_varint(input) {
        Ok(x) => x,
        Err(e) => return Err(e),
    };
    let r1 = slice_from(input, n1);
    let (n2, frame_type) = if layer == QUIC_LAYER {
        match be_varint(r1) {
            Ok((n, t)) => (n, Some(t)),
            Err(e) => return Err(e),
        }
    } else {
        (0, None)
    };
    let r2 = slice_from(r1, n2);
    let (n3, len) = match be_varint(r2) {
        Ok(x) => x,
        Err(e) => return Err(e),
    };
    let r3 = slice_from(r2, n3);
    if (r3.len() as u64) < len {
        return Err(ParseError::Incomplete((len - r3.len() as u64) as usize));
    }
    let raw = &r3[0..len as usize];
    assert(raw@ =~= r3@.take(len as int));
    let reason = from_utf8_lossy(raw);
    Ok((input.len() - r3.len() + len as usize, ConnectionCloseFrame { error_code, frame_type, reason }))
}

/// Writing a CONNECTION_CLOSE frame to a byte buffer.
pub trait WriteConnectionCloseFrame: View<V = Seq<u8>> + Sized {
    fn put_connection_close_frame(&mut self, frame: &ConnectionCloseFrame)
        requires
            frame.wf(),
        ensures
            final(self)@ == old(self)@ + frame.spec_bytes(),
    ;
}

impl WriteConnectionCloseFrame for Vec<u8> {
    fn put_connection_close_frame(&mut self, frame: &ConnectionCloseFrame) {
        self.push(frame.frame_type());
        put_varint(self, frame.error_code);
        match frame.frame_type {
            Some(t) => put_varint(self, t),
            None => {},
        }
        let b = frame.reason.as_str().as_bytes();
        put_varint(self, b.len() as u64);
        put_slice(self, b);
        assert(self@ =~= old(self)@ + frame.spec_bytes());
    }
}

} // verus!
