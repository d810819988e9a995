//! Flow-control frames: MAX_DATA, MAX_STREAM_DATA, MAX_STREAMS,
//! DATA_BLOCKED, STREAM_DATA_BLOCKED and STREAMS_BLOCKED.

use vstd::prelude::*;

use crate::frame::{data_space, is_data_space, parsed_as, slice_from, spec_varint2, spec_varint3, SpaceId};
use crate::varint::{
    be_varint, encoding_size, put_varint, spec_varint, varint_bytes, ParseError,
    VARINT_MAX,
};

verus! {

pub const MAX_DATA_FRAME_TYPE: u8 = 0x10;
pub const MAX_STREAM_DATA_FRAME_TYPE: u8 = 0x11;
pub const MAX_STREAMS_FRAME_TYPE: u8 = 0x12;
pub const DATA_BLOCKED_FRAME_TYPE: u8 = 0x14;
pub const STREAM_DATA_BLOCKED_FRAME_TYPE: u8 = 0x15;
pub const STREAMS_BLOCKED_FRAME_TYPE: u8 = 0x16;

/// DATA_BLOCKED: the connection-level limit the sender is blocked at.
#[derive(Debug, Clone, Copy, PartialEq, Eq, Default)]
pub struct DataBlockedFrame {
    pub limit: u64,
}

/// MAX_DATA: the new connection-level limit.
#[derive(Debug, Clone, Copy, PartialEq, Eq, Default)]
pub struct MaxDataFrame {
    pub max_data: u64,
}

/// MAX_STREAM_DATA: the new limit of one stream.
#[derive(Debug, Clone, Copy, PartialEq, Eq)]
pub struct MaxStreamDataFrame {
    pub stream_id: u64,
    pub max_stream_data: u64,
}

/// STREAM_DATA_BLOCKED: the limit one stream is blocked at.
#[derive(Debug, Clone, Copy, PartialEq, Eq)]
pub struct StreamDataBlockedFrame {
    pub stream_id: u64,
    pub limit: u64,
}

/// MAX_STREAMS, for bidirectional or unidirectional streams.
#[derive(Debug, Clone, Copy, PartialEq, Eq)]
pub enum MaxStreamsFrame {
    Bi(u64),
    Uni(u64),
}

/// STREAMS_BLOCKED, for bidirectional or unidirectional streams.
#[derive(Debug, Clone, Copy, PartialEq, Eq)]
pub enum StreamsBlockedFrame {
    Bi(u64),
    Uni(u64),
}

impl DataBlockedFrame {
    pub open spec fn wf(self) -> bool {
        self.limit <= VARINT_MAX
    }

    pub open spec fn spec_bytes(self) -> Seq<u8> {
        seq![DATA_BLOCKED_FRAME_TYPE] + varint_bytes(self.limit)
    }

    pub fn belongs_to(&self, space: SpaceId) -> (r: bool)
        ensures
            r == data_space(space),
    {
        is_data_space(space)
    }

    pub fn max_encoding_size(&self) -> (r: usize)
        ensures
            r == 9,
    {
        1 + 8
    }

    pub fn encoding_size(&self) -> (r: usize)
        ensures
            r == self.spec_bytes().len(),
    {
        1 + encoding_size(self.limit)
    }
}

impl MaxDataFrame {
    pub open spec fn wf(self) -> bool {
        self.max_data <= VARINT_MAX
    }

    pub open spec fn spec_bytes(self) -> Seq<u8> {
        seq![MAX_DATA_FRAME_TYPE] + varint_bytes(self.max_data)
    }

    pub fn encoding_size(&self) -> (r: usize)
        ensures
            r == self.spec_bytes().len(),
    {
        1 + encoding_size(self.max_data)
    }
}

impl MaxStreamDataFrame {
    pub open spec fn wf(self) -> bool {
        self.stream_id <= VARINT_MAX && self.max_stream_data <= VARINT_MAX
    }

    pub open spec fn spec_bytes(self) -> Seq<u8> {
        seq![MAX_STREAM_DATA_FRAME_TYPE] + varint_bytes(self.stream_id) + varint_bytes(
            self.max_stream_data,
        )
    }

    pub fn belongs_to(&self, space: SpaceId) -> (r: bool)
        ensures
            r == data_space(space),
    {
        is_data_space(space)
    }

    pub fn max_encoding_size(&self) -> (r: usize)
        ensures
            r == 17,
    {
        1 + 8 + 8
    }

    pub fn encoding_size(&self) -> (r: usize)
        ensures
            r == self.spec_bytes().len(),
    {
        1 + encoding_size(self.stream_id) + encoding_size(self.max_stream_data)
    }
}

impl StreamDataBlockedFrame {
    pub open spec fn wf(self) -> bool {
        self.stream_id <= VARINT_MAX && self.limit <= VARINT_MAX
    }

    pub open spec fn spec_bytes(self) -> Seq<u8> {
        seq![STREAM_DATA_BLOCKED_FRAME_TYPE] + varint_bytes(self.stream_id) + varint_bytes(
            self.limit,
        )
    }

    pub fn encoding_size(&self) -> (r: usize)
        ensures
            r == self.spec_bytes().len(),
    {
        1 + encoding_size(self.stream_id) + encoding_size(self.limit)
    }
}

impl MaxStreamsFrame {
    pub open spec fn count(self) -> u64 {
        match self {
            MaxStreamsFrame::Bi(n) => n,
            MaxStreamsFrame::Uni(n) => n,
        }
    }

    pub open spec fn wf(self) -> bool {
        self.count() <= VARINT_MAX
    }

    pub open spec fn spec_bytes(self) -> Seq<u8> {
        match self {
            MaxStreamsFrame::Bi(n) => seq![MAX_STREAMS_FRAME_TYPE] + varint_bytes(n),
            MaxStreamsFrame::Uni(n) => seq![MAX_STREAMS_FRAME_TYPE | 1] + varint_bytes(n),
        }
    }

    pub fn encoding_size(&self) -> (r: usize)
        ensures
            r == self.spec_bytes().len(),
    {
        match self {
            MaxStreamsFrame::Bi(n) => 1 + encoding_size(*n),
            MaxStreamsFrame::Uni(n) => 1 + encoding_size(*n),
        }
    }
}

impl StreamsBlockedFrame {
    pub open spec fn count(self) -> u64 {
        match self {
            StreamsBlockedFrame::Bi(n) => n,
            StreamsBlockedFrame::Uni(n) => n,
        }
    }

    pub open spec fn wf(self) -> bool {
        self.count() <= VARINT_MAX
    }

    pub open spec fn spec_bytes(self) -> Seq<u8> {
        match self {
            StreamsBlockedFrame::Bi(n) => seq![STREAMS_BLOCKED_FRAME_TYPE] + varint_bytes(n),
            StreamsBlockedFrame::Uni(n) => seq![STREAMS_BLOCKED_FRAME_TYPE | 1] + varint_bytes(n),
        }
    }

    /// The frame type: 0x16 for bidirectional streams, 0x17 for unidirectional.
    pub fn frame_type(&self) -> (r: u8)
        ensures
            r == self.spec_bytes()[0],
    {
        match self {
            StreamsBlockedFrame::Bi(_) => STREAMS_BLOCKED_FRAME_TYPE,
            StreamsBlockedFrame::Uni(_) => STREAMS_BLOCKED_FRAME_TYPE | 1,
        }
    }

    pub fn belongs_to(&self, space: SpaceId) -> (r: bool)
        ensures
            r == data_space(space),
    {
        is_data_space(space)
    }

    pub fn max_encoding_size(&self) -> (r: usize)
        ensures
            r == 9,
    {
        1 + 8
    }

    pub fn encoding_size(&self) -> (r: usize)
        ensures
            r == self.spec_bytes().len(),
    {
        match self {
            StreamsBlockedFrame::Bi(n) => 1 + encoding_size(*n),
            StreamsBlockedFrame::Uni(n) => 1 + encoding_size(*n),
        }
    }
}

/// The body of a DATA_BLOCKED frame, after its type.
pub open spec fn spec_data_blocked(s: Seq<u8>) -> Result<(int, DataBlockedFrame), ParseError> {
    match spec_varint(s) {
        Err(e) => Err(e),
        Ok((n, limit)) => Ok((n, DataBlockedFrame { limit })),
    }
}

/// The body of a MAX_DATA frame, after its type.
pub open spec fn spec_max_data(s: Seq<u8>) -> Result<(int, MaxDataFrame), ParseError> {
    match spec_varint(s) {
        Err(e) => Err(e),
        Ok((n, max_data)) => Ok((n, MaxDataFrame { max_data })),
    }
}

/// The body of a MAX_STREAM_DATA frame, after its type.
pub open spec fn spec_max_stream_data(s: Seq<u8>) -> Result<(int, MaxStreamDataFrame), ParseError> {
    match spec_varint2(s) {
        Err(e) => Err(e),
        Ok((n, (stream_id, max_stream_data))) => Ok(
            (n, MaxStreamDataFrame { stream_id, max_stream_data }),
        ),
    }
}

/// The body of a STREAM_DATA_BLOCKED frame, after its type.
pub open spec fn spec_stream_data_blocked(s: Seq<u8>) -> Result<
    (int, StreamDataBlockedFrame),
    ParseError,
> {
    match spec_varint2(s) {
        Err(e) => Err(e),
        Ok((n, (stream_id, limit))) => Ok((n, StreamDataBlockedFrame { stream_id, limit })),
    }
}

/// The body of a MAX_STREAMS frame, after its type; `dir` is the low bit of the type.
pub open spec fn spec_max_streams(dir: u8, s: Seq<u8>) -> Result<(int, MaxStreamsFrame), ParseError> {
    match spec_varint(s) {
        Err(e) => Err(e),
        Ok((n, v)) => Ok(
            (n, if dir & 1 == 0 {
                MaxStreamsFrame::Bi(v)
            } else {
                MaxStreamsFrame::Uni(v)
            }),
        ),
    }
}

/// The body of a STREAMS_BLOCKED frame, after its type; `dir` is the low bit of the type.
pub open spec fn spec_streams_blocked(dir: u8, s: Seq<u8>) -> Result<
    (int, StreamsBlockedFrame),
    ParseError,
> {
    match spec_varint(s) {
        Err(e) => Err(e),
        Ok((n, v)) => Ok(
            (n, if dir & 1 == 0 {
                StreamsBlockedFrame::Bi(v)
            } else {
                StreamsBlockedFrame::Uni(v)
            }),
        ),
    }
}

/// Reads two variable-length integers in a row.
pub fn be_varint2(input: &[u8]) -> (r: Result<(usize, (u64, u64)), ParseError>)
    ensures
        parsed_as(r, spec_varint2(input@)),
        match r {
            Ok((n, _)) => n <= input@.len(),
            Err(_) => true,
        },
{
    let (n1, a) = match be_varint(input) {
        Ok(x) => x,
        Err(e) => return Err(e),
    };
    let rest = slice_from(input, n1);
    let (n2, b) = match be_varint(rest) {
        Ok(x) => x,
        Err(e) => return Err(e),
    };
    Ok((n1 + n2, (a, b)))
}

/// Reads three variable-length integers in a row.
pub fn be_varint3(input: &[u8]) -> (r: Result<(usize, (u64, u64, u64)), ParseError>)
    ensures
        parsed_as(r, spec_varint3(input@)),
        match r {
            Ok((n, _)) => n <= input@.len(),
            Err(_) => true,
        },
{
    let (n1, (a, b)) = match be_varint2(input) {
        Ok(x) => x,
        Err(e) => return Err(e),
    };
    let rest = slice_from(input, n1);
    let (n2, c) = match be_varint(rest) {
        Ok(x) => x,
        Err(e) => return Err(e),
    };
    Ok((n1 + n2, (a, b, c)))
}

/// Parses the body of a DATA_BLOCKED frame.
pub fn be_data_blocked_frame(input: &[u8]) -> (r: Result<(usize, DataBlockedFrame), ParseError>)
    ensures
        parsed_as(r, spec_data_blocked(input@)),
        crate::frame::within(r, input@.len()),
{
    match be_varint(input) {
        Ok((n, limit)) => Ok((n, DataBlockedFrame { limit })),
        Err(e) => Err(e),
    }
}

/// Parses the body of a MAX_DATA frame.
pub fn be_max_data_frame(input: &[u8]) -> (r: Result<(usize, MaxDataFrame), ParseError>)
    ensures
        parsed_as(r, spec_max_data(input@)),
        crate::frame::within(r, input@.len()),
{
    match be_varint(input) {
        Ok((n, max_data)) => Ok((n, MaxDataFrame { max_data })),
        Err(e) => Err(e),
    }
}

/// Parses the body of a MAX_STREAM_DATA frame.
pub fn be_max_stream_data_frame(input: &[u8]) -> (r: Result<(usize, MaxStreamDataFrame), ParseError>)
    ensures
        parsed_as(r, spec_max_stream_data(input@)),
        crate::frame::within(r, input@.len()),
{
    match be_varint2(input) {
        Ok((n, (stream_id, max_stream_data))) => Ok(
            (n, MaxStreamDataFrame { stream_id, max_stream_data }),
        ),
        Err(e) => Err(e),
    }
}

/// Parses the body of a STREAM_DATA_BLOCKED frame.
pub fn be_stream_data_blocked_frame(input: &[u8]) -> (r: Result<
    (usize, StreamDataBlockedFrame),
    ParseError,
>)
    ensures
        parsed_as(r, spec_stream_data_blocked(input@)),
        crate::frame::within(r, input@.len()),
{
    match be_varint2(input) {
        Ok((n, (stream_id, limit))) => Ok((n, StreamDataBlockedFrame { stream_id, limit })),
        Err(e) => Err(e),
    }
}

/// Parses the body of a MAX_STREAMS frame whose type had low bit `dir`.
pub fn max_streams_frame_with_dir(dir: u8, input: &[u8]) -> (r: Result<
    (usize, MaxStreamsFrame),
    ParseError,
>)
    ensures
        parsed_as(r, spec_max_streams(dir, input@)),
        crate::frame::within(r, input@.len()),
{
    match be_varint(input) {
        Ok((n, v)) => Ok(
            (n, if dir & 1 == 0 {
                MaxStreamsFrame::Bi(v)
            } else {
                MaxStreamsFrame::Uni(v)
            }),
        ),
        Err(e) => Err(e),
    }
}

/// Parses the body of a STREAMS_BLOCKED frame whose type had low bit `dir`.
pub fn streams_blocked_frame_with_dir(dir: u8, input: &[u8]) -> (r: Result<
    (usize, StreamsBlockedFrame),
    ParseError,
>)
    ensures
        parsed_as(r, spec_streams_blocked(dir, input@)),
        crate::frame::within(r, input@.len()),
{
    match be_varint(input) {
        Ok((n, v)) => Ok(
            (n, if dir & 1 == 0 {
                StreamsBlockedFrame::Bi(v)
            } else {
                StreamsBlockedFrame::Uni(v)
            }),
        ),
        Err(e) => Err(e),
    }
}

/// Writing a DATA_BLOCKED frame to a byte buffer.
pub trait WriteDataBlockedFrame: View<V = Seq<u8>> + Sized {
    fn put_data_blocked_frame(&mut self, frame: &DataBlockedFrame)
        requires
            frame.wf(),
        ensures
            final(self)@ == old(self)@ + frame.spec_bytes(),
    ;
}

impl WriteDataBlockedFrame for Vec<u8> {
    fn put_data_blocked_frame(&mut self, frame: &DataBlockedFrame) {
        self.push(DATA_BLOCKED_FRAME_TYPE);
        put_varint(self, frame.limit);
        assert(self@ =~= old(self)@ + frame.spec_bytes());
    }
}

/// Writing a MAX_STREAM_DATA frame to a byte buffer.
pub trait WriteMaxStreamDataFrame: View<V = Seq<u8>> + Sized {
    fn put_max_stream_data_frame(&mut self, frame: &MaxStreamDataFrame)
        requires
            frame.wf(),
        ensures
            final(self)@ == old(self)@ + frame.spec_bytes(),
    ;
}

impl WriteMaxStreamDataFrame for Vec<u8> {
    fn put_max_stream_data_frame(&mut self, frame: &MaxStreamDataFrame) {
        self.push(MAX_STREAM_DATA_FRAME_TYPE);
        put_varint(self, frame.stream_id);
        put_varint(self, frame.max_stream_data);
        assert(self@ =~= old(self)@ + frame.spec_bytes());
    }
}

/// Writing a STREAMS_BLOCKED frame to a byte buffer.
pub trait WriteStreamsBlockedFrame: View<V = Seq<u8>> + Sized {
    fn put_streams_blocked_frame(&mut self, frame: &StreamsBlockedFrame)
        requires
            frame.wf(),
        ensures
            final(self)@ == old(self)@ + frame.spec_bytes(),
    ;
}

impl WriteStreamsBlockedFrame for Vec<u8> {
    fn put_streams_blocked_frame(&mut self, frame: &StreamsBlockedFrame) {
        match frame {
            StreamsBlockedFrame::Bi(n) => {
                self.push(STREAMS_BLOCKED_FRAME_TYPE);
                put_varint(self, *n);
            },
            StreamsBlockedFrame::Uni(n) => {
                self.push(STREAMS_BLOCKED_FRAME_TYPE | 1);
                put_varint(self, *n);
            },
        }
        assert(self@ =~= old(self)@ + frame.spec_bytes());
    }
}

} // verus!
