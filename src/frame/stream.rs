//! Frames about stream data: STREAM, CRYPTO, RESET_STREAM and STOP_SENDING.

use vstd::prelude::*;

use crate::frame::{data_space, is_data_space, parsed_as, slice_from, spec_varint2, spec_varint3, SpaceId};
use crate::frame::flow::be_varint2;
use crate::varint::{
    be_varint, encoding_size, put_varint, spec_varint, varint_bytes, varint_len, ParseError,
    VARINT_MAX,
};

verus! {

pub const RESET_STREAM_FRAME_TYPE: u8 = 0x04;
pub const STOP_SENDING_FRAME_TYPE: u8 = 0x05;
pub const CRYPTO_FRAME_TYPE: u8 = 0x06;
pub const STREAM_FRAME_TYPE: u8 = 0x08;

/// The three flag bits of a STREAM frame type.
pub const OFF_BIT: u8 = 0x04;
pub const LEN_BIT: u8 = 0x02;
pub const FIN_BIT: u8 = 0x01;

/// STREAM: a run of one stream's data; the bytes follow the frame header.
#[derive(Debug, Clone, Copy, PartialEq, Eq)]
pub struct StreamFrame {
    pub id: u64,
    pub offset: u64,
    pub length: usize,
    /// The low three bits of the frame type: OFF, LEN and FIN.
    pub flag: u8,
}

/// What a packet assembler should do about the length field of a STREAM
/// frame, given the room left in the packet.
#[derive(Debug, Clone, Copy, PartialEq, Eq)]
pub enum ShouldCarryLength {
    /// The frame fills the packet exactly: no length needed.
    NoProblem,
    /// The few bytes left (this many) cannot hold another frame: pad them.
    PaddingFirst(usize),
    /// Carry the length: the first number is the room then left after the
    /// frame, the second the room left without the length field.
    ShouldAfter(usize, usize),
}

/// CRYPTO: a run of handshake data; the bytes follow the frame header.
#[derive(Debug, Clone, Copy, PartialEq, Eq)]
pub struct CryptoFrame {
    pub offset: u64,
    pub length: u64,
}

/// RESET_STREAM: the sender abandons a stream at the given final size.
#[derive(Debug, Clone, Copy, PartialEq, Eq)]
pub struct ResetStreamFrame {
    pub stream_id: u64,
    pub app_error_code: u64,
    pub final_size: u64,
}

/// STOP_SENDING: the receiver asks the peer to stop sending on a stream.
#[derive(Debug, Clone, Copy, PartialEq, Eq)]
pub struct StopSendingFrame {
    pub stream_id: u64,
    pub app_error_code: u64,
}

/// The encoding of an optional field: empty when absent.
pub open spec fn opt_varint_bytes(present: bool, v: u64) -> Seq<u8> {
    if present {
        varint_bytes(v)
    } else {
        Seq::empty()
    }
}

impl StreamFrame {
    /// Within range, with the OFF bit set exactly when the offset is not 0.
    pub open spec fn wf(self) -> bool {
        &&& self.id <= VARINT_MAX
        &&& self.offset + self.length <= VARINT_MAX
        &&& self.flag < 8
        &&& (self.flag & OFF_BIT != 0) == (self.offset != 0)
    }

    pub open spec fn has_len(self) -> bool {
        self.flag & LEN_BIT != 0
    }

    pub open spec fn has_fin(self) -> bool {
        self.flag & FIN_BIT != 0
    }

    /// The frame header, without the data that follows it.
    pub open spec fn spec_bytes(self) -> Seq<u8> {
        seq![STREAM_FRAME_TYPE | self.flag] + varint_bytes(self.id) + opt_varint_bytes(
            self.offset != 0,
            self.offset,
        ) + opt_varint_bytes(self.has_len(), self.length as u64)
    }

    /// A frame of `length` bytes of stream `id` from `offset`, neither
    /// carrying its length nor ending the stream.
    pub fn new(id: u64, offset: u64, length: usize) -> (r: Self)
        requires
            id <= VARINT_MAX,
            offset + length <= VARINT_MAX,
        ensures
            r.wf(),
            r.id == id,
            r.offset == offset,
            r.length == length,
            !r.has_len(),
            !r.has_fin(),
    {
        let flag: u8 = if offset != 0 { OFF_BIT } else { 0 };
        assert((0u8 & 2u8) == 0 && (0u8 & 1u8) == 0 && (0u8 & 4u8) == 0) by (bit_vector);
        assert((4u8 & 2u8) == 0 && (4u8 & 1u8) == 0 && (4u8 & 4u8) != 0) by (bit_vector);
        StreamFrame { id, offset, length, flag }
    }

    /// Whether the frame ends the stream.
    pub fn is_fin(&self) -> (r: bool)
        ensures
            r == self.has_fin(),
    {
        self.flag & FIN_BIT != 0
    }

    /// The stream offsets the frame's data covers.
    pub fn range(&self) -> (r: std::ops::Range<u64>)
        requires
            self.wf(),
        ensures
            r.start == self.offset,
            r.end == self.offset + self.length,
    {
        self.offset..self.offset + self.length as u64
    }

    /// Sets or clears the FIN bit, leaving the others.
    pub fn set_eos_flag(&mut self, is_eos: bool)
        requires
            old(self).wf(),
        ensures
            final(self).wf(),
            final(self).id == old(self).id,
            final(self).offset == old(self).offset,
            final(self).length == old(self).length,
            final(self).has_len() == old(self).has_len(),
            final(self).has_fin() == is_eos,
    {
        let f = self.flag;
        if is_eos {
            self.flag = f | FIN_BIT;
            assert(f < 8 ==> (f | 1) < 8 && ((f | 1) & 4 != 0) == (f & 4 != 0) && ((f | 1) & 2 != 0) == (f & 2 != 0) && (f | 1) & 1 != 0) by (bit_vector);
        } else {
            self.flag = f & !FIN_BIT;
            assert(f < 8 ==> (f & !1u8) < 8 && ((f & !1u8) & 4 != 0) == (f & 4 != 0) && ((f & !1u8) & 2 != 0) == (f & 2 != 0) && (f & !1u8) & 1 == 0) by (bit_vector);
        }
    }

    /// Sets the LEN bit: the frame will carry its length.
    pub fn carry_length(&mut self)
        requires
            old(self).wf(),
        ensures
            final(self).wf(),
            final(self).id == old(self).id,
            final(self).offset == old(self).offset,
            final(self).length == old(self).length,
            final(self).has_len(),
            final(self).has_fin() == old(self).has_fin(),
    {
        let f = self.flag;
        self.flag = f | LEN_BIT;
        assert(f < 8 ==> (f | 2) < 8 && ((f | 2) & 4 != 0) == (f & 4 != 0) && ((f | 2) & 1 != 0) == (f & 1 != 0) && (f | 2) & 2 != 0) by (bit_vector);
    }

    /// The bytes the frame takes, header and data.
    pub fn encoding_size(&self) -> (r: usize)
        requires
            self.wf(),
            self.spec_bytes().len() + self.length <= usize::MAX,
        ensures
            r == self.spec_bytes().len() + self.length,
    {
        let off: usize = if self.offset != 0 { encoding_size(self.offset) } else { 0 };
        let len: usize = if self.flag & LEN_BIT != 0 { encoding_size(self.length as u64) } else { 0 };
        1 + encoding_size(self.id) + off + len + self.length
    }

    pub fn max_encoding_size(&self) -> (r: usize)
        ensures
            r == 25,
    {
        1 + 8 + 8 + 8
    }

    pub fn belongs_to(&self, space: SpaceId) -> (r: bool)
        ensures
            r == data_space(space),
    {
        is_data_space(space)
    }

    /// Decides whether the frame, which does not carry its length yet, should
    /// carry it in a packet with `capacity` bytes left.
    pub fn should_carry_length(&self, capacity: usize) -> (r: ShouldCarryLength)
        requires
            self.wf(),
            self.spec_bytes().len() + self.length <= capacity,
        ensures
            ({
                let size = self.spec_bytes().len() + self.length;
                let len_size = varint_len(self.length as u64);
                let remaining = capacity - size;
                if remaining == 0 {
                    r == ShouldCarryLength::NoProblem
                } else if remaining <= len_size {
                    r == ShouldCarryLength::PaddingFirst(remaining as usize)
                } else {
                    r == ShouldCarryLength::ShouldAfter(
                        (remaining - len_size) as usize,
                        remaining as usize,
                    )
                }
            }),
    {
        let size = self.encoding_size();
        if size == capacity {
            ShouldCarryLength::NoProblem
        } else {
            let len_size = encoding_size(self.length as u64);
            let remaining = capacity - size;
            if remaining <= len_size {
                ShouldCarryLength::PaddingFirst(remaining)
            } else {
                ShouldCarryLength::ShouldAfter(remaining - len_size, remaining)
            }
        }
    }

    /// The most data a frame of stream `sid` from `offset`, without a length
    /// field, can carry in `capacity` bytes; `None` when not even one byte fits.
    pub fn estimate_max_capacity(capacity: usize, sid: u64, offset: u64) -> (r: Option<usize>)
        requires
            offset <= VARINT_MAX,
        ensures
            ({
                let least = 1 + varint_len(sid) + if offset != 0 {
                    varint_len(offset)
                } else {
                    0
                };
                if capacity <= least {
                    r == None::<usize>
                } else {
                    r == Some((capacity - least) as usize)
                }
            }),
    {
        let mut least = 1 + encoding_size(sid);
        if offset != 0 {
            least += encoding_size(offset);
        }
        if capacity <= least {
            None
        } else {
            Some(capacity - least)
        }
    }
}

/// The header of a STREAM frame whose type had flag bits `flag`. Without a
/// length field the data runs to the end of `s`.
pub open spec fn spec_stream(flag: u8, s: Seq<u8>) -> Result<(int, StreamFrame), ParseError> {
    match spec_varint(s) {
        Err(e) => Err(e),
        Ok((n1, id)) => {
            let r1 = s.skip(n1);
            let off = if flag & OFF_BIT != 0 {
                spec_varint(r1)
            } else {
                Ok((0int, 0u64))
            };
            match off {
                Err(e) => Err(e),
                Ok((n2, offset)) => {
                    let r2 = r1.skip(n2);
                    let len = if flag & LEN_BIT != 0 {
                        spec_varint(r2)
                    } else {
                        Ok((0int, r2.len() as u64))
                    };
                    match len {
                        Err(e) => Err(e),
                        Ok((n3, length)) => if offset + length > VARINT_MAX {
                            Err(ParseError::Malformed)
                        } else {
                            Ok(
                                (
                                    n1 + n2 + n3,
                                    StreamFrame {
                                        id,
                                        offset,
                                        length: length as usize,
                                        flag: flag & 7,
                                    },
                                ),
                            )
                        },
                    }
                },
            }
        },
    }
}

/// Parses the header of a STREAM frame whose type had flag bits `flag`.
pub fn stream_frame_with_flag(flag: u8, input: &[u8]) -> (r: Result<(usize, StreamFrame), ParseError>)
    ensures
        parsed_as(r, spec_stream(flag, input@)),
        crate::frame::within(r, input@.len()),
{
    let (n1, id) = match be_varint(input) {
        Ok(x) => x,
        Err(e) => return Err(e),
    };
    let r1 = slice_from(input, n1);
    let (n2, offset) = if flag & OFF_BIT != 0 {
        match be_varint(r1) {
            Ok(x) => x,
            Err(e) => return Err(e),
        }
    } else {
        (0, 0)
    };
    let r2 = slice_from(r1, n2);
    let (n3, length) = if flag & LEN_BIT != 0 {
        match be_varint(r2) {
            Ok(x) => x,
            Err(e) => return Err(e),
        }
    } else {
        (0, r2.len() as u64)
    };
    if offset > VARINT_MAX || length > VARINT_MAX - offset {
        return Err(ParseError::Malformed);
    }
    Ok((n1 + n2 + n3, StreamFrame { id, offset, length: length as usize, flag: flag & 7 }))
}

impl CryptoFrame {
    pub open spec fn wf(self) -> bool {
        self.offset + self.length <= VARINT_MAX
    }

    /// The frame header, without the data that follows it.
    pub open spec fn spec_bytes(self) -> Seq<u8> {
        seq![CRYPTO_FRAME_TYPE] + varint_bytes(self.offset) + varint_bytes(self.length)
    }

    pub fn encoding_size(&self) -> (r: usize)
        requires
            self.wf(),
            self.spec_bytes().len() + self.length <= usize::MAX,
        ensures
            r == self.spec_bytes().len() + self.length,
    {
        1 + encoding_size(self.offset) + encoding_size(self.length) + self.length as usize
    }
}

/// The header of a CRYPTO frame.
pub open spec fn spec_crypto(s: Seq<u8>) -> Result<(int, CryptoFrame), ParseError> {
    match spec_varint2(s) {
        Err(e) => Err(e),
        Ok((n, (offset, length))) => if offset + length > VARINT_MAX {
            Err(ParseError::Malformed)
        } else {
            Ok((n, CryptoFrame { offset, length }))
        },
    }
}

/// Parses the header of a CRYPTO frame.
pub fn be_crypto_frame(input: &[u8]) -> (r: Result<(usize, CryptoFrame), ParseError>)
    ensures
        parsed_as(r, spec_crypto(input@)),
        crate::frame::within(r, input@.len()),
{
    match be_varint2(input) {
        Ok((n, (offset, length))) => if offset > VARINT_MAX || length > VARINT_MAX - offset {
            Err(ParseError::Malformed)
        } else {
            Ok((n, CryptoFrame { offset, length }))
        },
        Err(e) => Err(e),
    }
}

impl ResetStreamFrame {
    pub open spec fn wf(self) -> bool {
        self.stream_id <= VARINT_MAX && self.app_error_code <= VARINT_MAX && self.final_size
            <= VARINT_MAX
    }

    pub open spec fn spec_bytes(self) -> Seq<u8> {
        seq![RESET_STREAM_FRAME_TYPE] + varint_bytes(self.stream_id) + varint_bytes(
            self.app_error_code,
        ) + varint_bytes(self.final_size)
    }

    pub fn encoding_size(&self) -> (r: usize)
        ensures
            r == self.spec_bytes().len(),
    {
        1 + encoding_size(self.stream_id) + encoding_size(self.app_error_code) + encoding_size(
            self.final_size,
        )
    }
}

/// The body of a RESET_STREAM frame.
pub open spec fn spec_reset_stream(s: Seq<u8>) -> Result<(int, ResetStreamFrame), ParseError> {
    match spec_varint3(s) {
        Err(e) => Err(e),
        Ok((n, (stream_id, app_error_code, final_size))) => Ok(
            (n, ResetStreamFrame { stream_id, app_error_code, final_size }),
        ),
    }
}

/// Parses the body of a RESET_STREAM frame.
pub fn be_reset_stream_frame(input: &[u8]) -> (r: Result<(usize, ResetStreamFrame), ParseError>)
    ensures
        parsed_as(r, spec_reset_stream(input@)),
        crate::frame::within(r, input@.len()),
{
    let (n1, (stream_id, app_error_code)) = match be_varint2(input) {
        Ok(x) => x,
        Err(e) => return Err(e),
    };
    let rest = slice_from(input, n1);
    match be_varint(rest) {
        Ok((n2, final_size)) => Ok(
            (n1 + n2, ResetStreamFrame { stream_id, app_error_code, final_size }),
        ),
        Err(e) => Err(e),
    }
}

impl StopSendingFrame {
    pub open spec fn wf(self) -> bool {
        self.stream_id <= VARINT_MAX && self.app_error_code <= VARINT_MAX
    }

    pub open spec fn spec_bytes(self) -> Seq<u8> {
        seq![STOP_SENDING_FRAME_TYPE] + varint_bytes(self.stream_id) + varint_bytes(
            self.app_error_code,
        )
    }

    pub fn encoding_size(&self) -> (r: usize)
        ensures
            r == self.spec_bytes().len(),
    {
        1 + encoding_size(self.stream_id) + encoding_size(self.app_error_code)
    }
}

/// The body of a STOP_SENDING frame.
pub open spec fn spec_stop_sending(s: Seq<u8>) -> Result<(int, StopSendingFrame), ParseError> {
    match spec_varint2(s) {
        Err(e) => Err(e),
        Ok((n, (stream_id, app_error_code))) => Ok(
            (n, StopSendingFrame { stream_id, app_error_code }),
        ),
    }
}

/// Parses the body of a STOP_SENDING frame.
pub fn be_stop_sending_frame(input: &[u8]) -> (r: Result<(usize, StopSendingFrame), ParseError>)
    ensures
        parsed_as(r, spec_stop_sending(input@)),
        crate::frame::within(r, input@.len()),
{
    match be_varint2(input) {
        Ok((n, (stream_id, app_error_code))) => Ok(
            (n, StopSendingFrame { stream_id, app_error_code }),
        ),
        Err(e) => Err(e),
    }
}

/// Writing a STREAM frame, header and data, to a byte buffer.
pub trait WriteStreamFrame: View<V = Seq<u8>> + Sized {
    fn put_stream_frame(&mut self, frame: &StreamFrame, data: &[u8])
        requires
            frame.wf(),
            data@.len() == frame.length,
        ensures
            final(self)@ == old(self)@ + frame.spec_bytes() + data@,
    ;
}

impl WriteStreamFrame for Vec<u8> {
    fn put_stream_frame(&mut self, frame: &StreamFrame, data: &[u8]) {
        self.push(STREAM_FRAME_TYPE | frame.flag);
        put_varint(self, frame.id);
        if frame.offset != 0 {
            put_varint(self, frame.offset);
        }
        if frame.flag & LEN_BIT != 0 {
            put_varint(self, frame.length as u64);
        }
        assert(self@ =~= old(self)@ + frame.spec_bytes());
        put_slice(self, data);
    }
}

/// Appends the bytes of `data` to `buf`.
pub fn put_slice(buf: &mut Vec<u8>, data: &[u8])
    ensures
        final(buf)@ == old(buf)@ + data@,
{
    let mut i: usize = 0;
    while i < data.len()
        invariant
            i <= data@.len(),
            buf@ == old(buf)@ + data@.take(i as int),
        decreases data@.len() - i,
    {
        buf.push(data[i]);
        i += 1;
        assert(buf@ =~= old(buf)@ + data@.take(i as int));
    }
    assert(data@.take(i as int) =~= data@);
}

} // verus!
