//! The send side of a space's crypto stream: handshake bytes written by the
//! TLS driver, sent in CRYPTO frames, freed once acknowledged.

use vstd::prelude::*;

use crate::frame::stream::{put_slice, CryptoFrame, CRYPTO_FRAME_TYPE};
use crate::frame::Frame;
use crate::sender::{Progress, SenderState, Writer};
use crate::space::{DataFrame, Transmit};
use crate::varint::{encoding_size, put_varint, varint_len, VARINT_MAX};

verus! {

/// The crypto stream's send side: the written handshake bytes with what
/// was sent and acknowledged of them.
#[derive(Debug)]
pub struct CryptoStream {
    pub send: Writer,
}

/// A shorter value never takes a longer encoding.
proof fn lemma_varint_len_monotone(a: u64, b: u64)
    requires
        a <= b,
    ensures
        varint_len(a) <= varint_len(b),
{
}

impl CryptoStream {
    pub open spec fn wf(&self) -> bool {
        &&& self.send.wf()
        &&& self.send.state is Ready
    }

    pub fn new() -> (r: Self)
        ensures
            r.wf(),
            r.send.written == 0,
    {
        CryptoStream { send: Writer::new(0, VARINT_MAX) }
    }

    /// Appends handshake bytes; all are taken while offsets stay within the
    /// varint range.
    pub fn write(&mut self, data: &[u8]) -> (r: usize)
        requires
            old(self).wf(),
        ensures
            final(self).wf(),
            r == old(self).send.room(data@.len()),
            final(self).send.written == old(self).send.written + r,
            final(self).send.buffer@ == old(self).send.buffer@ + data@.take(r as int),
            final(self).send.sent == old(self).send.sent,
            final(self).send.base == old(self).send.base,
    {
        let dl = data.len();
        let ghost n0 = self.send.room(data@.len());
        assert(self.send.state is Ready);
        let p = self.send.poll_write(data);
        assert(n0 == 0 && data@.len() > 0 ==> p == Progress::<Result<usize, crate::sender::WriteError>>::Pending);
        assert(!(n0 == 0 && data@.len() > 0) ==> p == Progress::Ready(Ok::<usize, crate::sender::WriteError>(n0 as usize)));
        match p {
            Progress::Ready(Ok(n)) => n,
            _ => {
                assert(data@.take(0) =~= Seq::<u8>::empty());
                0
            },
        }
    }

    /// Writes the next CRYPTO frame, header and data, into `buf` within
    /// `capacity` bytes: the unsent bytes from offset `sent`, as many as fit.
    pub fn try_send_data(&mut self, buf: &mut Vec<u8>, capacity: usize) -> (r: Option<CryptoFrame>)
        requires
            old(self).wf(),
            old(buf)@.len() + capacity <= usize::MAX,
        ensures
            final(self).wf(),
            final(self).send.written == old(self).send.written,
            final(self).send.base == old(self).send.base,
            old(buf)@.is_prefix_of(final(buf)@),
            final(buf)@.len() <= old(buf)@.len() + capacity,
            r is None ==> final(buf)@ == old(buf)@ && final(self).send.sent == old(self).send.sent,
            old(self).send.sent == old(self).send.written ==> r is None,
            old(self).send.sent < old(self).send.written && capacity > 1 + varint_len(old(self).send.sent) + 1 ==> r is Some,
            r matches Some(f) ==> {
                &&& f.wf()
                &&& f.offset == old(self).send.sent
                &&& f.length > 0
                &&& final(self).send.sent == old(self).send.sent + f.length
                &&& final(buf)@ == old(buf)@ + f.spec_bytes() + old(self).send.buffer@.subrange(
                    old(self).send.sent - old(self).send.base,
                    old(self).send.sent - old(self).send.base + f.length,
                )
            },
    {
        let offset = self.send.sent;
        if offset >= self.send.written {
            return None;
        }
        let head = 1 + encoding_size(offset);
        if capacity <= head + 1 {
            return None;
        }
        let avail = capacity - head;
        let room = avail - encoding_size(avail as u64);
        if room == 0 {
            return None;
        }
        let pending = self.send.written - offset;
        let len: u64 = if pending <= room as u64 {
            pending
        } else {
            room as u64
        };
        proof {
            lemma_varint_len_monotone(len, avail as u64);
        }
        let frame = CryptoFrame { offset, length: len };
        let blen = self.send.buffer.len();
        let start = (offset - self.send.base) as usize;
        let data = &self.send.buffer.as_slice()[start..start + len as usize];
        buf.push(CRYPTO_FRAME_TYPE);
        put_varint(buf, offset);
        put_varint(buf, len);
        assert(buf@ =~= old(buf)@ + frame.spec_bytes());
        put_slice(buf, data);
        proof {
            assert(old(buf)@.is_prefix_of(buf@)) by {
                assert(forall|i: int| 0 <= i < old(buf)@.len() ==> buf@[i] == old(buf)@[i]);
            }
        }
        self.send.sent = offset + len;
        Some(frame)
    }
}

impl Transmit for CryptoStream {
    fn try_send_data(&mut self, buf: &mut Vec<u8>, capacity: usize) -> (r: Option<DataFrame>) {
        if !self.send.is_wf() {
            return None;
        }
        if let SenderState::Ready = self.send.state {
            let capacity = if capacity <= usize::MAX - buf.len() { capacity } else { usize::MAX - buf.len() };
            match CryptoStream::try_send_data(self, buf, capacity) {
                Some(f) => Some(DataFrame::Crypto(f)),
                None => None,
            }
        } else {
            None
        }
    }

    fn try_send_frame(&mut self, buf: &mut Vec<u8>, capacity: usize) -> (r: Option<Frame>) {
        None
    }

    fn confirm_data(&mut self, frame: DataFrame) {
        if let DataFrame::Crypto(f) = frame {
            if self.send.is_wf() {
                self.send.confirm(f.offset, f.length);
            }
        }
    }

    fn may_loss_data(&mut self, frame: DataFrame) {
        if let DataFrame::Crypto(f) = frame {
            if self.send.is_wf() {
                self.send.may_loss(f.offset, f.length);
            }
        }
    }

    fn recv_data(&mut self, frame: DataFrame, data: &[u8]) -> Result<(), u64> {
        Ok(())
    }

    fn recv_frame(&mut self, frame: Frame) -> Result<(), u64> {
        Ok(())
    }
}

} // verus!
