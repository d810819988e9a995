//! The frames carried in QUIC packet payloads: their types, wire encodings
//! and parsers.

pub mod ack;
pub mod flow;
pub mod stream;
pub mod connection_close;
pub mod new_connection_id;
pub mod path;
pub mod read;
pub mod round_trip;

use vstd::prelude::*;

use vstd::slice::slice_subrange;

use crate::frame::ack::{ack_encoding_size, ack_frame_with_flag, ack_parsed, put_ack_frame, spec_ack, AckFrame};
use crate::frame::connection_close::{
    close_parsed, connection_close_frame_at_layer, spec_connection_close, ConnectionCloseFrame,
    WriteConnectionCloseFrame,
};
use crate::frame::flow::{
    be_data_blocked_frame, be_max_data_frame, be_max_stream_data_frame,
    be_stream_data_blocked_frame, max_streams_frame_with_dir, spec_data_blocked, spec_max_data,
    spec_max_stream_data, spec_max_streams, spec_stream_data_blocked, spec_streams_blocked,
    streams_blocked_frame_with_dir, DataBlockedFrame, MaxDataFrame, MaxStreamDataFrame,
    MaxStreamsFrame, StreamDataBlockedFrame, StreamsBlockedFrame,
};
use crate::frame::new_connection_id::{
    be_new_connection_id_frame, new_connection_id_parsed, spec_new_connection_id,
    NewConnectionIdFrame,
};
use crate::frame::flow::{WriteDataBlockedFrame, WriteMaxStreamDataFrame, WriteStreamsBlockedFrame};
use crate::frame::new_connection_id::WriteNewConnectionIdFrame;
use crate::frame::path::{
    be_bytes8, put_path_challenge_frame, spec_bytes8, PathChallengeFrame, PathResponseFrame,
    WritePathResponseFrame,
};
use crate::frame::stream::{
    be_crypto_frame, be_reset_stream_frame, be_stop_sending_frame, spec_crypto,
    spec_reset_stream, spec_stop_sending, spec_stream, stream_frame_with_flag, CryptoFrame,
    ResetStreamFrame, StopSendingFrame, StreamFrame,
};
use crate::varint::{be_varint, encoding_size, put_varint, spec_varint, ParseError};

verus! {

/// The packet number spaces a frame can travel in.
#[derive(Debug, Clone, Copy, PartialEq, Eq, Structural)]
pub enum SpaceId {
    Initial,
    Handshake,
    ZeroRtt,
    OneRtt,
}

/// A parse result in the form the exec parsers return, matched against one
/// computed over the whole input.
pub open spec fn parsed_as<T>(
    r: Result<(usize, T), ParseError>,
    s: Result<(int, T), ParseError>,
) -> bool {
    match r {
        Ok((n, v)) => s == Ok::<(int, T), ParseError>((n as int, v)),
        Err(e) => s == Err::<(int, T), ParseError>(e),
    }
}

/// A successful parse took no more than `len` bytes.
pub open spec fn within<T>(r: Result<(usize, T), ParseError>, len: nat) -> bool {
    match r {
        Ok((n, _)) => n <= len,
        Err(_) => true,
    }
}

/// Two variable-length integers in a row.
pub open spec fn spec_varint2(s: Seq<u8>) -> Result<(int, (u64, u64)), ParseError> {
    match spec_varint(s) {
        Err(e) => Err(e),
        Ok((n1, a)) => match spec_varint(s.skip(n1)) {
            Err(e) => Err(e),
            Ok((n2, b)) => Ok((n1 + n2, (a, b))),
        },
    }
}

/// Three variable-length integers in a row.
pub open spec fn spec_varint3(s: Seq<u8>) -> Result<(int, (u64, u64, u64)), ParseError> {
    match spec_varint2(s) {
        Err(e) => Err(e),
        Ok((n1, (a, b))) => match spec_varint(s.skip(n1)) {
            Err(e) => Err(e),
            Ok((n2, c)) => Ok((n1 + n2, (a, b, c))),
        },
    }
}

/// The bytes of `input` from `start` on.
pub fn slice_from(input: &[u8], start: usize) -> (r: &[u8])
    requires
        start <= input@.len(),
    ensures
        r@ == input@.skip(start as int),
{
    let r = slice_subrange(input, start, input.len());
    assert(r@ =~= input@.skip(start as int));
    r
}

/// Whether frame `f` may travel in `space`.
pub open spec fn spec_belongs_to(f: Frame, space: SpaceId) -> bool {
    match f {
        Frame::Padding | Frame::Ping | Frame::ConnectionClose(_) => true,
        Frame::Ack(_) | Frame::Crypto(_) => space != SpaceId::ZeroRtt,
        Frame::PathChallenge(_) | Frame::PathResponse(_) => space == SpaceId::OneRtt,
        _ => data_space(space),
    }
}

/// Whether frame `f` may travel in `space`: Padding, Ping and
/// ConnectionClose anywhere; Ack and Crypto in all but 0-RTT; PathChallenge
/// and PathResponse in 1-RTT; the stream and flow-control frames in 0-RTT
/// and 1-RTT.
pub fn belongs_to(f: &Frame, space: SpaceId) -> (r: bool)
    ensures
        r == spec_belongs_to(*f, space),
{
    match f {
        Frame::Padding | Frame::Ping | Frame::ConnectionClose(_) => true,
        Frame::Ack(_) | Frame::Crypto(_) => space != SpaceId::ZeroRtt,
        Frame::PathChallenge(_) | Frame::PathResponse(_) => space == SpaceId::OneRtt,
        _ => is_data_space(space),
    }
}

/// Frames that only flow control and stream data may use: 0-RTT and 1-RTT.
pub open spec fn data_space(space: SpaceId) -> bool {
    space == SpaceId::ZeroRtt || space == SpaceId::OneRtt
}

/// Returns true for the 0-RTT and 1-RTT spaces.
pub fn is_data_space(space: SpaceId) -> (r: bool)
    ensures
        r == data_space(space),
{
    space == SpaceId::ZeroRtt || space == SpaceId::OneRtt
}

/// The kinds of frame this codec knows, with the low bits of the type that
/// some of them carry.
#[derive(Debug, Clone, Copy, PartialEq, Eq)]
pub enum FrameType {
    Padding,
    Ping,
    /// The ECN bit.
    Ack(u8),
    ResetStream,
    StopSending,
    Crypto,
    NewConnectionId,
    MaxData,
    MaxStreamData,
    /// The direction bit: 0 bidirectional, 1 unidirectional.
    MaxStreams(u8),
    DataBlocked,
    StreamDataBlocked,
    /// The direction bit: 0 bidirectional, 1 unidirectional.
    StreamsBlocked(u8),
    /// The OFF, LEN and FIN bits.
    Stream(u8),
    PathChallenge,
    PathResponse,
    /// The layer bit: 1 transport, 0 application.
    ConnectionClose(u8),
}

/// A frame type value that names no known frame.
#[derive(Debug, Clone, Copy, PartialEq, Eq)]
pub struct InvalidFrameType(pub u64);

/// The kind named by a frame type value.
pub open spec fn frame_type_of(t: u64) -> Option<FrameType> {
    if t == 0x00 {
        Some(FrameType::Padding)
    } else if t == 0x01 {
        Some(FrameType::Ping)
    } else if t == 0x02 || t == 0x03 {
        Some(FrameType::Ack((t - 0x02) as u8))
    } else if t == 0x04 {
        Some(FrameType::ResetStream)
    } else if t == 0x05 {
        Some(FrameType::StopSending)
    } else if t == 0x06 {
        Some(FrameType::Crypto)
    } else if 0x08 <= t <= 0x0f {
        Some(FrameType::Stream((t - 0x08) as u8))
    } else if t == 0x10 {
        Some(FrameType::MaxData)
    } else if t == 0x11 {
        Some(FrameType::MaxStreamData)
    } else if t == 0x12 || t == 0x13 {
        Some(FrameType::MaxStreams((t - 0x12) as u8))
    } else if t == 0x14 {
        Some(FrameType::DataBlocked)
    } else if t == 0x15 {
        Some(FrameType::StreamDataBlocked)
    } else if t == 0x16 || t == 0x17 {
        Some(FrameType::StreamsBlocked((t - 0x16) as u8))
    } else if t == 0x18 {
        Some(FrameType::NewConnectionId)
    } else if t == 0x1a {
        Some(FrameType::PathChallenge)
    } else if t == 0x1b {
        Some(FrameType::PathResponse)
    } else if t == 0x1c || t == 0x1d {
        Some(FrameType::ConnectionClose((0x1d - t) as u8))
    } else {
        None
    }
}

impl FrameType {
    /// The kind named by the frame type value `t`.
    pub fn from_value(t: u64) -> (r: Result<FrameType, InvalidFrameType>)
        ensures
            match r {
                Ok(ft) => frame_type_of(t) == Some(ft),
                Err(e) => frame_type_of(t) is None && e.0 == t,
            },
    {
        if t == 0x00 {
            Ok(FrameType::Padding)
        } else if t == 0x01 {
            Ok(FrameType::Ping)
        } else if t == 0x02 || t == 0x03 {
            Ok(FrameType::Ack((t - 0x02) as u8))
        } else if t == 0x04 {
            Ok(FrameType::ResetStream)
        } else if t == 0x05 {
            Ok(FrameType::StopSending)
        } else if t == 0x06 {
            Ok(FrameType::Crypto)
        } else if 0x08 <= t && t <= 0x0f {
            Ok(FrameType::Stream((t - 0x08) as u8))
        } else if t == 0x10 {
            Ok(FrameType::MaxData)
        } else if t == 0x11 {
            Ok(FrameType::MaxStreamData)
        } else if t == 0x12 || t == 0x13 {
            Ok(FrameType::MaxStreams((t - 0x12) as u8))
        } else if t == 0x14 {
            Ok(FrameType::DataBlocked)
        } else if t == 0x15 {
            Ok(FrameType::StreamDataBlocked)
        } else if t == 0x16 || t == 0x17 {
            Ok(FrameType::StreamsBlocked((t - 0x16) as u8))
        } else if t == 0x18 {
            Ok(FrameType::NewConnectionId)
        } else if t == 0x1a {
            Ok(FrameType::PathChallenge)
        } else if t == 0x1b {
            Ok(FrameType::PathResponse)
        } else if t == 0x1c || t == 0x1d {
            Ok(FrameType::ConnectionClose((0x1d - t) as u8))
        } else {
            Err(InvalidFrameType(t))
        }
    }
}

/// A frame read from a packet payload. The data of a STREAM or CRYPTO frame
/// is not held here: it is the `length` bytes that end what the parser took.
#[derive(Debug, Clone, PartialEq, Eq)]
pub enum Frame {
    Padding,
    Ping,
    Ack(AckFrame),
    ResetStream(ResetStreamFrame),
    StopSending(StopSendingFrame),
    Crypto(CryptoFrame),
    NewConnectionId(NewConnectionIdFrame),
    MaxData(MaxDataFrame),
    MaxStreamData(MaxStreamDataFrame),
    MaxStreams(MaxStreamsFrame),
    DataBlocked(DataBlockedFrame),
    StreamDataBlocked(StreamDataBlockedFrame),
    StreamsBlocked(StreamsBlockedFrame),
    Stream(StreamFrame),
    PathChallenge(PathChallengeFrame),
    PathResponse(PathResponseFrame),
    ConnectionClose(ConnectionCloseFrame),
}

/// A body read at offset `k` (after the type) that gives `wrap(v)`.
pub open spec fn lifted<T>(
    k: int,
    s: Result<(int, T), ParseError>,
    r: Result<(usize, Frame), ParseError>,
    wrap: spec_fn(T) -> Frame,
) -> bool {
    match s {
        Err(e) => r == Err::<(usize, Frame), ParseError>(e),
        Ok((m, v)) => r == Ok::<(usize, Frame), ParseError>(((k + m) as usize, wrap(v))),
    }
}

/// A header read at offset `k` that is followed by `len` data bytes.
pub open spec fn lifted_data<T>(
    k: int,
    b: Seq<u8>,
    s: Result<(int, T), ParseError>,
    len: spec_fn(T) -> int,
    r: Result<(usize, Frame), ParseError>,
    wrap: spec_fn(T) -> Frame,
) -> bool {
    match s {
        Err(e) => r == Err::<(usize, Frame), ParseError>(e),
        Ok((m, v)) => if b.len() - m < len(v) {
            r == Err::<(usize, Frame), ParseError>(
                ParseError::Incomplete((len(v) - (b.len() - m)) as usize),
            )
        } else {
            r == Ok::<(usize, Frame), ParseError>(((k + m + len(v)) as usize, wrap(v)))
        },
    }
}

/// What reading the body `b` of a frame of kind `ft`, which starts at offset
/// `k` of the payload, returns.
pub open spec fn body_parsed(
    ft: FrameType,
    k: int,
    b: Seq<u8>,
    r: Result<(usize, Frame), ParseError>,
) -> bool {
    match ft {
        FrameType::Padding => r == Ok::<(usize, Frame), ParseError>((k as usize, Frame::Padding)),
        FrameType::Ping => r == Ok::<(usize, Frame), ParseError>((k as usize, Frame::Ping)),
        FrameType::Ack(ecn) => match spec_ack(ecn == 1, b) {
            Err(e) => r == Err::<(usize, Frame), ParseError>(e),
            Ok((m, _)) => match r {
                Ok((n, Frame::Ack(f))) => ack_parsed(Ok(((n - k) as usize, f)), spec_ack(ecn == 1, b))
                    && n == k + m,
                _ => false,
            },
        },
        FrameType::ResetStream => lifted(k, spec_reset_stream(b), r, |v| Frame::ResetStream(v)),
        FrameType::StopSending => lifted(k, spec_stop_sending(b), r, |v| Frame::StopSending(v)),
        FrameType::Crypto => lifted_data(
            k,
            b,
            spec_crypto(b),
            |v: CryptoFrame| v.length as int,
            r,
            |v| Frame::Crypto(v),
        ),
        FrameType::NewConnectionId => match spec_new_connection_id(b) {
            Err(e) => r == Err::<(usize, Frame), ParseError>(e),
            Ok((m, _)) => match r {
                Ok((n, Frame::NewConnectionId(f))) => new_connection_id_parsed(
                    Ok(((n - k) as usize, f)),
                    spec_new_connection_id(b),
                ) && n == k + m,
                _ => false,
            },
        },
        FrameType::MaxData => lifted(k, spec_max_data(b), r, |v| Frame::MaxData(v)),
        FrameType::MaxStreamData => lifted(k, spec_max_stream_data(b), r, |v| Frame::MaxStreamData(v)),
        FrameType::MaxStreams(dir) => lifted(k, spec_max_streams(dir, b), r, |v| Frame::MaxStreams(v)),
        FrameType::DataBlocked => lifted(k, spec_data_blocked(b), r, |v| Frame::DataBlocked(v)),
        FrameType::StreamDataBlocked => lifted(
            k,
            spec_stream_data_blocked(b),
            r,
            |v| Frame::StreamDataBlocked(v),
        ),
        FrameType::StreamsBlocked(dir) => lifted(
            k,
            spec_streams_blocked(dir, b),
            r,
            |v| Frame::StreamsBlocked(v),
        ),
        FrameType::Stream(flag) => lifted_data(
            k,
            b,
            spec_stream(flag, b),
            |v: StreamFrame| v.length as int,
            r,
            |v| Frame::Stream(v),
        ),
        FrameType::PathChallenge => match spec_bytes8(b) {
            Err(e) => r == Err::<(usize, Frame), ParseError>(e),
            Ok((m, d)) => match r {
                Ok((n, Frame::PathChallenge(f))) => n == k + m && f.data@ == d,
                _ => false,
            },
        },
        FrameType::PathResponse => match spec_bytes8(b) {
            Err(e) => r == Err::<(usize, Frame), ParseError>(e),
            Ok((m, d)) => match r {
                Ok((n, Frame::PathResponse(f))) => n == k + m && f.data@ == d,
                _ => false,
            },
        },
        FrameType::ConnectionClose(layer) => match spec_connection_close(layer, b) {
            Err(e) => r == Err::<(usize, Frame), ParseError>(e),
            Ok((m, _)) => match r {
                Ok((n, Frame::ConnectionClose(f))) => close_parsed(
                    Ok(((n - k) as usize, f)),
                    spec_connection_close(layer, b),
                ) && n == k + m,
                _ => false,
            },
        },
    }
}

/// What reading one frame at the start of `s` returns: its type, then its
/// body (and, for STREAM and CRYPTO, its data).
#[verifier::opaque]
pub open spec fn frame_parsed(s: Seq<u8>, r: Result<(usize, Frame), ParseError>) -> bool {
    match spec_varint(s) {
        Err(e) => r == Err::<(usize, Frame), ParseError>(e),
        Ok((k, t)) => match frame_type_of(t) {
            None => r == Err::<(usize, Frame), ParseError>(ParseError::UnknownType(t)),
            Some(ft) => body_parsed(ft, k, s.skip(k), r),
        },
    }
}

/// Reads the body of a frame of kind `ft` that starts at offset `k` of the
/// payload; the count returned includes the `k` bytes before the body.
#[verifier::rlimit(40)]
pub fn complete_frame(ft: FrameType, k: usize, body: &[u8]) -> (r: Result<(usize, Frame), ParseError>)
    requires
        k + body@.len() <= usize::MAX,
    ensures
        body_parsed(ft, k as int, body@, r),
        match r {
            Ok((n, f)) => k <= n <= k + body@.len() && frame_data_len(f) <= n - k,
            Err(_) => true,
        },
{
    let total = body.len();
    match ft {
        FrameType::Padding => Ok((k, Frame::Padding)),
        FrameType::Ping => Ok((k, Frame::Ping)),
        FrameType::Ack(ecn) => match ack_frame_with_flag(ecn == 1, body) {
            Ok((n, f)) => Ok((k + n, Frame::Ack(f))),
            Err(e) => Err(e),
        },
        FrameType::ResetStream => match be_reset_stream_frame(body) {
            Ok((n, f)) => Ok((k + n, Frame::ResetStream(f))),
            Err(e) => Err(e),
        },
        FrameType::StopSending => match be_stop_sending_frame(body) {
            Ok((n, f)) => Ok((k + n, Frame::StopSending(f))),
            Err(e) => Err(e),
        },
        FrameType::Crypto => match be_crypto_frame(body) {
            Ok((n, f)) => {
                if ((total - n) as u64) < f.length {
                    Err(ParseError::Incomplete((f.length - (total - n) as u64) as usize))
                } else {
                    Ok((k + n + f.length as usize, Frame::Crypto(f)))
                }
            },
            Err(e) => Err(e),
        },
        FrameType::NewConnectionId => match be_new_connection_id_frame(body) {
            Ok((n, f)) => Ok((k + n, Frame::NewConnectionId(f))),
            Err(e) => Err(e),
        },
        FrameType::MaxData => match be_max_data_frame(body) {
            Ok((n, f)) => Ok((k + n, Frame::MaxData(f))),
            Err(e) => Err(e),
        },
        FrameType::MaxStreamData => match be_max_stream_data_frame(body) {
            Ok((n, f)) => Ok((k + n, Frame::MaxStreamData(f))),
            Err(e) => Err(e),
        },
        FrameType::MaxStreams(dir) => match max_streams_frame_with_dir(dir, body) {
            Ok((n, f)) => Ok((k + n, Frame::MaxStreams(f))),
            Err(e) => Err(e),
        },
        FrameType::DataBlocked => match be_data_blocked_frame(body) {
            Ok((n, f)) => Ok((k + n, Frame::DataBlocked(f))),
            Err(e) => Err(e),
        },
        FrameType::StreamDataBlocked => match be_stream_data_blocked_frame(body) {
            Ok((n, f)) => Ok((k + n, Frame::StreamDataBlocked(f))),
            Err(e) => Err(e),
        },
        FrameType::StreamsBlocked(dir) => match streams_blocked_frame_with_dir(dir, body) {
            Ok((n, f)) => Ok((k + n, Frame::StreamsBlocked(f))),
            Err(e) => Err(e),
        },
        FrameType::Stream(flag) => match stream_frame_with_flag(flag, body) {
            Ok((n, f)) => {
                if total - n < f.length {
                    Err(ParseError::Incomplete(f.length - (total - n)))
                } else {
                    Ok((k + n + f.length, Frame::Stream(f)))
                }
            },
            Err(e) => Err(e),
        },
        FrameType::PathChallenge => match be_bytes8(body) {
            Ok((n, data)) => Ok((k + n, Frame::PathChallenge(PathChallengeFrame { data }))),
            Err(e) => Err(e),
        },
        FrameType::PathResponse => match be_bytes8(body) {
            Ok((n, data)) => Ok((k + n, Frame::PathResponse(PathResponseFrame { data }))),
            Err(e) => Err(e),
        },
        FrameType::ConnectionClose(layer) => match connection_close_frame_at_layer(layer, body) {
            Ok((n, f)) => Ok((k + n, Frame::ConnectionClose(f))),
            Err(e) => Err(e),
        },
    }
}

/// Reads one frame at the start of a packet payload: its type, then its
/// body. For STREAM and CRYPTO frames the count returned includes the data,
/// which is the `length` bytes that end it.
pub fn be_frame(input: &[u8]) -> (r: Result<(usize, Frame), ParseError>)
    ensures
        frame_parsed(input@, r),
        match r {
            Ok((n, f)) => n <= input@.len() && frame_data_len(f) <= n,
            Err(_) => true,
        },
{
    let total = input.len();
    let (k, t) = match be_varint(input) {
        Ok(x) => x,
        Err(e) => {
            proof {
                reveal(frame_parsed);
            }
            return Err(e);
        },
    };
    let ft = match FrameType::from_value(t) {
        Ok(ft) => ft,
        Err(_) => {
            proof {
                reveal(frame_parsed);
            }
            return Err(ParseError::UnknownType(t));
        },
    };
    let body = slice_from(input, k);
    let r = complete_frame(ft, k, body);
    proof {
        reveal(frame_parsed);
    }
    r
}

pub const PADDING_FRAME_TYPE: u8 = 0x00;
pub const PING_FRAME_TYPE: u8 = 0x01;

/// The frame's fields are within the ranges its encoding can carry.
pub open spec fn frame_wf(f: Frame) -> bool {
    match f {
        Frame::Padding => true,
        Frame::Ping => true,
        Frame::Ack(a) => a.wf(),
        Frame::ResetStream(x) => x.wf(),
        Frame::StopSending(x) => x.wf(),
        Frame::Crypto(x) => x.wf(),
        Frame::NewConnectionId(x) => x.wf(),
        Frame::MaxData(x) => x.wf(),
        Frame::MaxStreamData(x) => x.wf(),
        Frame::MaxStreams(x) => x.wf(),
        Frame::DataBlocked(x) => x.wf(),
        Frame::StreamDataBlocked(x) => x.wf(),
        Frame::StreamsBlocked(x) => x.wf(),
        Frame::Stream(x) => x.wf(),
        Frame::PathChallenge(_) => true,
        Frame::PathResponse(_) => true,
        Frame::ConnectionClose(x) => x.wf(),
    }
}

/// The encoding of a frame; for STREAM and CRYPTO, of its header, which the
/// data then follows.
pub open spec fn frame_bytes(f: Frame) -> Seq<u8> {
    match f {
        Frame::Padding => seq![PADDING_FRAME_TYPE],
        Frame::Ping => seq![PING_FRAME_TYPE],
        Frame::Ack(a) => a.spec_bytes(),
        Frame::ResetStream(x) => x.spec_bytes(),
        Frame::StopSending(x) => x.spec_bytes(),
        Frame::Crypto(x) => x.spec_bytes(),
        Frame::NewConnectionId(x) => x.spec_bytes(),
        Frame::MaxData(x) => x.spec_bytes(),
        Frame::MaxStreamData(x) => x.spec_bytes(),
        Frame::MaxStreams(x) => x.spec_bytes(),
        Frame::DataBlocked(x) => x.spec_bytes(),
        Frame::StreamDataBlocked(x) => x.spec_bytes(),
        Frame::StreamsBlocked(x) => x.spec_bytes(),
        Frame::Stream(x) => x.spec_bytes(),
        Frame::PathChallenge(x) => x.spec_bytes(),
        Frame::PathResponse(x) => x.spec_bytes(),
        Frame::ConnectionClose(x) => x.spec_bytes(),
    }
}

/// The number of data bytes that follow the frame's encoding.
pub open spec fn frame_data_len(f: Frame) -> int {
    match f {
        Frame::Crypto(x) => x.length as int,
        Frame::Stream(x) => x.length as int,
        _ => 0,
    }
}

/// Writes a frame (for STREAM and CRYPTO, its header) to a byte buffer.
pub fn put_frame(buf: &mut Vec<u8>, frame: &Frame)
    requires
        frame_wf(*frame),
    ensures
        final(buf)@ == old(buf)@ + frame_bytes(*frame),
{
    match frame {
        Frame::Padding => buf.push(PADDING_FRAME_TYPE),
        Frame::Ping => buf.push(PING_FRAME_TYPE),
        Frame::Ack(a) => put_ack_frame(buf, a),
        Frame::ResetStream(x) => {
            buf.push(crate::frame::stream::RESET_STREAM_FRAME_TYPE);
            put_varint(buf, x.stream_id);
            put_varint(buf, x.app_error_code);
            put_varint(buf, x.final_size);
        },
        Frame::StopSending(x) => {
            buf.push(crate::frame::stream::STOP_SENDING_FRAME_TYPE);
            put_varint(buf, x.stream_id);
            put_varint(buf, x.app_error_code);
        },
        Frame::Crypto(x) => {
            buf.push(crate::frame::stream::CRYPTO_FRAME_TYPE);
            put_varint(buf, x.offset);
            put_varint(buf, x.length);
        },
        Frame::NewConnectionId(x) => buf.put_new_connection_id_frame(x),
        Frame::MaxData(x) => {
            buf.push(crate::frame::flow::MAX_DATA_FRAME_TYPE);
            put_varint(buf, x.max_data);
        },
        Frame::MaxStreamData(x) => buf.put_max_stream_data_frame(x),
        Frame::MaxStreams(x) => match x {
            MaxStreamsFrame::Bi(n) => {
                buf.push(crate::frame::flow::MAX_STREAMS_FRAME_TYPE);
                put_varint(buf, *n);
            },
            MaxStreamsFrame::Uni(n) => {
                buf.push(crate::frame::flow::MAX_STREAMS_FRAME_TYPE | 1);
                put_varint(buf, *n);
            },
        },
        Frame::DataBlocked(x) => buf.put_data_blocked_frame(x),
        Frame::StreamDataBlocked(x) => {
            buf.push(crate::frame::flow::STREAM_DATA_BLOCKED_FRAME_TYPE);
            put_varint(buf, x.stream_id);
            put_varint(buf, x.limit);
        },
        Frame::StreamsBlocked(x) => buf.put_streams_blocked_frame(x),
        Frame::Stream(x) => {
            buf.push(crate::frame::stream::STREAM_FRAME_TYPE | x.flag);
            put_varint(buf, x.id);
            if x.offset != 0 {
                put_varint(buf, x.offset);
            }
            if x.flag & crate::frame::stream::LEN_BIT != 0 {
                put_varint(buf, x.length as u64);
            }
        },
        Frame::PathChallenge(x) => put_path_challenge_frame(buf, x),
        Frame::PathResponse(x) => buf.put_path_response_frame(x),
        Frame::ConnectionClose(x) => buf.put_connection_close_frame(x),
    }
    assert(buf@ =~= old(buf)@ + frame_bytes(*frame));
}

/// The number of bytes `put_frame` writes for `frame`.
pub fn frame_encoding_size(frame: &Frame) -> (r: usize)
    requires
        frame_wf(*frame),
        frame_bytes(*frame).len() + frame_data_len(*frame) <= usize::MAX,
    ensures
        r == frame_bytes(*frame).len(),
{
    match frame {
        Frame::Padding => 1,
        Frame::Ping => 1,
        Frame::Ack(a) => ack_encoding_size(a),
        Frame::ResetStream(x) => x.encoding_size(),
        Frame::StopSending(x) => x.encoding_size(),
        Frame::Crypto(x) => x.encoding_size() - x.length as usize,
        Frame::NewConnectionId(x) => x.encoding_size(),
        Frame::MaxData(x) => x.encoding_size(),
        Frame::MaxStreamData(x) => x.encoding_size(),
        Frame::MaxStreams(x) => x.encoding_size(),
        Frame::DataBlocked(x) => x.encoding_size(),
        Frame::StreamDataBlocked(x) => x.encoding_size(),
        Frame::StreamsBlocked(x) => x.encoding_size(),
        Frame::Stream(x) => x.encoding_size() - x.length,
        Frame::PathChallenge(_) => 9,
        Frame::PathResponse(x) => x.encoding_size(),
        Frame::ConnectionClose(x) => x.encoding_size(),
    }
}

} // verus!
