//! The send side of one stream: a buffer of written bytes, what was sent
//! and acknowledged, flow-control credit, and the life cycle
//! Ready → Sending → DataSent → DataRecvd, with ResetSent → ResetRecvd
//! beside it.

use vstd::prelude::*;

use crate::frame::stream::{ResetStreamFrame, ShouldCarryLength, StreamFrame, WriteStreamFrame};
use crate::frame::{frame_encoding_size, put_frame, Frame};
use crate::space::{DataFrame, Transmit};
use crate::varint::{varint_len, VARINT_MAX};

verus! {

/// Where a stream sender is in its life.
#[derive(Debug, Clone, Copy, PartialEq, Eq)]
pub enum SenderState {
    /// Accepting writes; nothing sent yet.
    Ready,
    /// Accepting writes and sending them.
    Sending,
    /// Shut down: every byte is written; awaiting acknowledgement.
    DataSent,
    /// Every byte acknowledged.
    DataRecvd,
    /// Abandoned at this final size; the reset awaits acknowledgement.
    ResetSent(u64),
    /// The reset was acknowledged.
    ResetRecvd,
}

/// Why a write, flush or shutdown failed.
#[derive(Debug, Clone, Copy, PartialEq, Eq)]
pub enum WriteError {
    /// The stream was shut down: no more writes.
    Unsupported,
    /// The stream was reset.
    BrokenPipe,
}

/// The outcome of an operation that may have to wait.
#[derive(Debug, Clone, Copy, PartialEq, Eq)]
pub enum Progress<T> {
    Ready(T),
    /// Try again once flow-control credit grows or data is acknowledged.
    Pending,
}

/// Whether a sender may go from state `a` to state `b` in one step: along
/// Ready → Sending → DataSent → DataRecvd, or to ResetSent from the first
/// three, or from ResetSent to ResetRecvd.
pub open spec fn step_ok(a: SenderState, b: SenderState) -> bool {
    a == b || match a {
        SenderState::Ready => b is Sending || b is DataSent || b is ResetSent,
        SenderState::Sending => b is DataSent || b is DataRecvd || b is ResetSent,
        SenderState::DataSent => b is DataRecvd || b is ResetSent,
        SenderState::ResetSent(_) => b is ResetRecvd,
        _ => false,
    }
}

/// The acknowledged ranges once `offset .. offset + len` joins them (the end
/// capped at the largest `u64`).
pub open spec fn acked_with(rs: Seq<(u64, u64)>, offset: u64, len: u64) -> Seq<(u64, u64)> {
    if len == 0 {
        rs
    } else {
        rs.push((offset, if offset + len > u64::MAX { u64::MAX } else { (offset + len) as u64 }))
    }
}

/// Whether offset `x` lies in one of the ranges.
pub open spec fn covered_by(rs: Seq<(u64, u64)>, x: int) -> bool {
    exists|j: int| 0 <= j < rs.len() && #[trigger] rs[j].0 <= x < rs[j].1
}

/// `k` PADDING frames: `k` zero bytes.
pub open spec fn padding(k: nat) -> Seq<u8> {
    Seq::new(k, |i: int| 0u8)
}

/// The send side of one stream, as its writer drives it: the written
/// bytes, what was sent and acknowledged, and the stream's life cycle.
#[derive(Debug)]
pub struct Writer {
    pub id: u64,
    pub state: SenderState,
    /// The written bytes from offset `base` on.
    pub buffer: Vec<u8>,
    /// Every byte below this offset is acknowledged.
    pub base: u64,
    /// The bytes written so far: the accumulated offset.
    pub written: u64,
    /// The next offset to send.
    pub sent: u64,
    /// The peer's limit on this stream's offsets.
    pub max_stream_data: u64,
    /// Acknowledged ranges above `base`.
    pub acked: Vec<(u64, u64)>,
    /// Whether the FIN went out and was not lost since.
    pub fin_sent: bool,
    /// Whether a frame carrying the FIN was acknowledged.
    pub fin_acked: bool,
    /// Whether the RESET_STREAM went out.
    pub reset_sent: bool,
    /// Whether the writer gave up the stream.
    pub cancel: bool,
}

impl Writer {
    pub open spec fn wf(&self) -> bool {
        &&& self.base <= self.sent <= self.written <= VARINT_MAX
        &&& self.buffer@.len() == self.written - self.base
        &&& self.id <= VARINT_MAX
    }

    /// A stream `id` the peer lets us send up to `max_stream_data` bytes on.
    pub fn new(id: u64, max_stream_data: u64) -> (r: Self)
        requires
            id <= VARINT_MAX,
        ensures
            r.wf(),
            r.state == SenderState::Ready,
            r.written == 0,
            r.max_stream_data == max_stream_data,
            !r.cancel,
    {
        Writer {
            id,
            state: SenderState::Ready,
            buffer: Vec::new(),
            base: 0,
            written: 0,
            sent: 0,
            max_stream_data,
            acked: Vec::new(),
            fin_sent: false,
            fin_acked: false,
            reset_sent: false,
            cancel: false,
        }
    }

    /// How many bytes of `len` a write may take now: what the credit and
    /// the varint range leave.
    pub open spec fn room(&self, len: nat) -> nat {
        let limit = if self.max_stream_data <= VARINT_MAX {
            self.max_stream_data as int
        } else {
            VARINT_MAX as int
        };
        let left = if limit >= self.written {
            limit - self.written
        } else {
            0
        };
        if len <= left {
            len
        } else {
            left as nat
        }
    }

    /// Writes the bytes of `data` the credit allows. In Ready and Sending it
    /// takes as many as it may, and is pending when it may take none of a
    /// non-empty write; after shutdown it fails with `Unsupported`, after a
    /// reset with `BrokenPipe`.
    pub fn poll_write(&mut self, data: &[u8]) -> (r: Progress<Result<usize, WriteError>>)
        requires
            old(self).wf(),
        ensures
            final(self).wf(),
            final(self).state == old(self).state,
            final(self).base == old(self).base,
            final(self).sent == old(self).sent,
            final(self).cancel == old(self).cancel,
            match old(self).state {
                SenderState::Ready | SenderState::Sending => {
                    let n = old(self).room(data@.len());
                    &&& n == 0 && data@.len() > 0 ==> r == Progress::<Result<usize, WriteError>>::Pending
                    &&& !(n == 0 && data@.len() > 0) ==> r == Progress::Ready(Ok::<usize, WriteError>(n as usize))
                    &&& final(self).written == old(self).written + n
                    &&& final(self).buffer@ == old(self).buffer@ + data@.take(n as int)
                },
                SenderState::DataSent | SenderState::DataRecvd => r == Progress::Ready(
                    Err::<usize, WriteError>(WriteError::Unsupported),
                ) && final(self).written == old(self).written,
                _ => r == Progress::Ready(Err::<usize, WriteError>(WriteError::BrokenPipe))
                    && final(self).written == old(self).written,
            },
    {
        match self.state {
            SenderState::Ready | SenderState::Sending => {
                let limit = if self.max_stream_data <= VARINT_MAX {
                    self.max_stream_data
                } else {
                    VARINT_MAX
                };
                let left = if limit >= self.written {
                    limit - self.written
                } else {
                    0
                };
                let n: usize = if (data.len() as u64) <= left {
                    data.len()
                } else {
                    left as usize
                };
                if n == 0 && data.len() > 0 {
                    return Progress::Pending;
                }
                let mut i: usize = 0;
                while i < n
                    invariant
                        i <= n <= data@.len(),
                        self.buffer@ == old(self).buffer@ + data@.take(i as int),
                        self.state == old(self).state,
                        self.base == old(self).base,
                        self.sent == old(self).sent,
                        self.written == old(self).written,
                        self.cancel == old(self).cancel,
                        self.id == old(self).id,
                    decreases n - i,
                {
                    self.buffer.push(data[i]);
                    i += 1;
                    assert(self.buffer@ =~= old(self).buffer@ + data@.take(i as int));
                }
                self.written = self.written + n as u64;
                Progress::Ready(Ok(n))
            },
            SenderState::DataSent | SenderState::DataRecvd => Progress::Ready(
                Err(WriteError::Unsupported),
            ),
            _ => Progress::Ready(Err(WriteError::BrokenPipe)),
        }
    }

    /// Whether every written byte is acknowledged.
    pub open spec fn all_acked(&self) -> bool {
        self.base == self.written
    }

    /// Whether every written byte and the FIN are acknowledged.
    pub open spec fn all_acked_with_fin(&self) -> bool {
        self.base == self.written && self.fin_acked
    }

    /// A frame carrying the FIN was acknowledged.
    pub fn on_fin_acked(&mut self)
        requires
            old(self).wf(),
        ensures
            final(self).wf(),
            final(self).state == old(self).state,
            final(self).written == old(self).written,
            final(self).base == old(self).base,
            final(self).fin_acked == (old(self).fin_acked || old(self).fin_sent),
    {
        if self.fin_sent {
            self.fin_acked = true;
        }
    }

    /// Completes when every written byte is acknowledged; in DataSent, when
    /// the FIN is acknowledged too, moving to DataRecvd. Fails after a reset.
    pub fn poll_flush(&mut self) -> (r: Progress<Result<(), WriteError>>)
        requires
            old(self).wf(),
        ensures
            final(self).wf(),
            step_ok(old(self).state, final(self).state),
            final(self).written == old(self).written,
            final(self).cancel == old(self).cancel,
            match old(self).state {
                SenderState::Ready | SenderState::Sending => final(self).state == old(self).state
                    && if old(self).all_acked() {
                    r == Progress::Ready(Ok::<(), WriteError>(()))
                } else {
                    r == Progress::<Result<(), WriteError>>::Pending
                },
                SenderState::DataSent => if old(self).all_acked_with_fin() {
                    r == Progress::Ready(Ok::<(), WriteError>(())) && final(self).state == SenderState::DataRecvd
                } else {
                    r == Progress::<Result<(), WriteError>>::Pending && final(self).state == old(self).state
                },
                SenderState::DataRecvd => r == Progress::Ready(Ok::<(), WriteError>(()))
                    && final(self).state == old(self).state,
                _ => r == Progress::Ready(Err::<(), WriteError>(WriteError::BrokenPipe))
                    && final(self).state == old(self).state,
            },
    {
        match self.state {
            SenderState::Ready | SenderState::Sending => {
                if self.base == self.written {
                    Progress::Ready(Ok(()))
                } else {
                    Progress::Pending
                }
            },
            SenderState::DataSent => {
                if self.base == self.written && self.fin_acked {
                    self.state = SenderState::DataRecvd;
                    Progress::Ready(Ok(()))
                } else {
                    Progress::Pending
                }
            },
            SenderState::DataRecvd => Progress::Ready(Ok(())),
            _ => Progress::Ready(Err(WriteError::BrokenPipe)),
        }
    }

    /// Ends the stream. In Sending it moves to DataSent, the written bytes
    /// being the final size; in DataSent it completes, moving to DataRecvd,
    /// once all of them and the FIN are acknowledged. In Ready, where no byte has gone out, it waits. Fails
    /// after a reset.
    pub fn poll_shutdown(&mut self) -> (r: Progress<Result<(), WriteError>>)
        requires
            old(self).wf(),
        ensures
            final(self).wf(),
            step_ok(old(self).state, final(self).state),
            final(self).written == old(self).written,
            final(self).cancel == old(self).cancel,
            match old(self).state {
                SenderState::Ready => r == Progress::<Result<(), WriteError>>::Pending
                    && final(self).state == old(self).state,
                SenderState::Sending | SenderState::DataSent => if old(self).all_acked_with_fin() {
                    r == Progress::Ready(Ok::<(), WriteError>(())) && final(self).state == SenderState::DataRecvd
                } else {
                    r == Progress::<Result<(), WriteError>>::Pending && final(self).state == SenderState::DataSent
                },
                SenderState::DataRecvd => r == Progress::Ready(Ok::<(), WriteError>(()))
                    && final(self).state == old(self).state,
                _ => r == Progress::Ready(Err::<(), WriteError>(WriteError::BrokenPipe))
                    && final(self).state == old(self).state,
            },
    {
        match self.state {
            SenderState::Ready => Progress::Pending,
            SenderState::Sending | SenderState::DataSent => {
                if self.base == self.written && self.fin_acked {
                    self.state = SenderState::DataRecvd;
                    Progress::Ready(Ok(()))
                } else {
                    self.state = SenderState::DataSent;
                    Progress::Pending
                }
            },
            SenderState::DataRecvd => Progress::Ready(Ok(())),
            _ => Progress::Ready(Err(WriteError::BrokenPipe)),
        }
    }

    /// The final size a reset from `state` carries: 0 before anything was
    /// sent, the written bytes after.
    pub open spec fn reset_size(&self) -> u64 {
        match self.state {
            SenderState::Ready => 0,
            _ => self.written,
        }
    }

    /// Gives up the stream, as dropping its writer does: in Ready, Sending
    /// and DataSent the cancel flag is set and the stream moves to
    /// ResetSent; the terminal states stay as they are.
    pub fn cancel(&mut self)
        requires
            old(self).wf(),
        ensures
            final(self).wf(),
            step_ok(old(self).state, final(self).state),
            final(self).written == old(self).written,
            match old(self).state {
                SenderState::Ready | SenderState::Sending | SenderState::DataSent => final(self).cancel
                    && final(self).state == SenderState::ResetSent(old(self).reset_size()),
                _ => final(self).state == old(self).state && final(self).cancel == old(self).cancel,
            },
    {
        match self.state {
            SenderState::Ready => {
                self.cancel = true;
                self.state = SenderState::ResetSent(0);
            },
            SenderState::Sending | SenderState::DataSent => {
                self.cancel = true;
                self.state = SenderState::ResetSent(self.written);
            },
            _ => {},
        }
    }

    /// The peer asked us to stop sending: the stream is reset as by `cancel`,
    /// without the writer giving it up.
    pub fn stop_sending(&mut self)
        requires
            old(self).wf(),
        ensures
            final(self).wf(),
            step_ok(old(self).state, final(self).state),
            final(self).cancel == old(self).cancel,
            match old(self).state {
                SenderState::Ready | SenderState::Sending | SenderState::DataSent => final(self).state
                    == SenderState::ResetSent(old(self).reset_size()),
                _ => final(self).state == old(self).state,
            },
    {
        match self.state {
            SenderState::Ready => self.state = SenderState::ResetSent(0),
            SenderState::Sending | SenderState::DataSent => self.state = SenderState::ResetSent(self.written),
            _ => {},
        }
    }

    /// The RESET_STREAM was acknowledged: ResetSent moves to ResetRecvd.
    pub fn on_reset_acked(&mut self)
        requires
            old(self).wf(),
        ensures
            final(self).wf(),
            step_ok(old(self).state, final(self).state),
            old(self).state is ResetSent ==> final(self).state == SenderState::ResetRecvd,
            !(old(self).state is ResetSent) ==> final(self).state == old(self).state,
    {
        if let SenderState::ResetSent(_) = self.state {
            self.state = SenderState::ResetRecvd;
        }
    }

    /// Whether a STREAM frame is owed: unsent bytes, or the FIN once shut down.
    pub open spec fn has_data_to_send(&self) -> bool {
        &&& (self.state is Ready || self.state is Sending || self.state is DataSent)
        &&& (self.sent < self.written || (self.state is DataSent && !self.fin_sent))
    }

    /// Writes the next STREAM frame into `buf` within `capacity` bytes: the
    /// unsent bytes from offset `sent`, as many as fit, with the FIN when the
    /// stream is shut down and they are the last. A frame that fills the
    /// room exactly goes without a length; when the room left after it could
    /// not hold its length, that room is padded first and the frame ends the
    /// packet; otherwise it carries its length. Ready moves to Sending.
    pub fn try_send_data(&mut self, buf: &mut Vec<u8>, capacity: usize) -> (r: Option<StreamFrame>)
        requires
            old(self).wf(),
            old(buf)@.len() + capacity <= usize::MAX,
        ensures
            final(self).wf(),
            step_ok(old(self).state, final(self).state),
            final(self).written == old(self).written,
            final(self).base == old(self).base,
            old(buf)@.is_prefix_of(final(buf)@),
            final(buf)@.len() <= old(buf)@.len() + capacity,
            r is None ==> final(buf)@ == old(buf)@ && final(self).sent == old(self).sent,
            !old(self).has_data_to_send() ==> r is None,
            old(self).has_data_to_send() && capacity > 1 + varint_len(old(self).id) + (if old(self).sent != 0 {
                varint_len(old(self).sent)
            } else {
                0
            }) ==> r is Some,
            r matches Some(f) ==> {
                &&& f.wf()
                &&& f.id == old(self).id
                &&& f.offset == old(self).sent
                &&& final(self).sent == old(self).sent + f.length
                &&& f.has_fin() == (old(self).state is DataSent && !old(self).fin_sent && final(self).sent
                    == old(self).written)
                &&& exists|k: nat|
                    final(buf)@ == old(buf)@ + #[trigger] padding(k) + f.spec_bytes()
                        + old(self).buffer@.subrange(
                        old(self).sent - old(self).base,
                        old(self).sent - old(self).base + f.length,
                    ) && (k > 0 ==> !f.has_len())
                &&& !f.has_len() ==> final(buf)@.len() == old(buf)@.len() + capacity
                &&& final(buf)@.len() > old(buf)@.len()
                &&& (old(self).state is Ready ==> final(self).state is Sending)
                &&& (!(old(self).state is Ready) ==> final(self).state == old(self).state)
            },
    {
        let sendable = match self.state {
            SenderState::Ready | SenderState::Sending | SenderState::DataSent => true,
            _ => false,
        };
        let fin_owed = match self.state {
            SenderState::DataSent => !self.fin_sent,
            _ => false,
        };
        if !sendable || (self.sent >= self.written && !fin_owed) {
            return None;
        }
        let room = match StreamFrame::estimate_max_capacity(capacity, self.id, self.sent) {
            Some(room) => room,
            None => return None,
        };
        let pending = self.written - self.sent;
        let len: usize = if pending <= room as u64 {
            pending as usize
        } else {
            room
        };
        let mut frame = StreamFrame::new(self.id, self.sent, len);
        let fin = fin_owed && self.sent + len as u64 == self.written;
        frame.set_eos_flag(fin);
        let blen = self.buffer.len();
        let start = (self.sent - self.base) as usize;
        let data = &self.buffer.as_slice()[start..start + len];
        assert(data@ == self.buffer@.subrange(start as int, start + len));
        let ghost before = buf@;
        let mut pad: usize = 0;
        assert(before + padding(0) =~= before);
        match frame.should_carry_length(capacity) {
            ShouldCarryLength::NoProblem => {},
            ShouldCarryLength::PaddingFirst(n) => {
                while pad < n
                    invariant
                        pad <= n,
                        buf@ == before + padding(pad as nat),
                    decreases n - pad,
                {
                    buf.push(0u8);
                    pad += 1;
                    assert(buf@ =~= before + padding(pad as nat));
                }
            },
            ShouldCarryLength::ShouldAfter(_, _) => {
                frame.carry_length();
            },
        }
        buf.put_stream_frame(&frame, data);
        proof {
            assert(buf@ == old(buf)@ + padding(pad as nat) + frame.spec_bytes() + data@);
            assert(old(buf)@.is_prefix_of(buf@)) by {
                assert(forall|i: int| 0 <= i < old(buf)@.len() ==> buf@[i] == old(buf)@[i]);
            }
        }
        self.sent = self.sent + len as u64;
        self.fin_sent = fin || self.fin_sent;
        if let SenderState::Ready = self.state {
            self.state = SenderState::Sending;
        }
        Some(frame)
    }

    /// Bytes `offset .. offset + len` were acknowledged: `base` advances over
    /// every acknowledged range it reaches, never past what was sent, and the
    /// bytes and ranges below it are dropped.
    pub fn confirm(&mut self, offset: u64, len: u64)
        requires
            old(self).wf(),
        ensures
            final(self).wf(),
            final(self).state == old(self).state,
            final(self).written == old(self).written,
            final(self).sent == old(self).sent,
            old(self).base <= final(self).base,
            offset <= old(self).base && old(self).base < offset + len ==> final(self).base >= (if offset
                + len <= old(self).sent {
                offset + len
            } else {
                old(self).sent as int
            }),
            final(self).buffer@ == old(self).buffer@.skip(final(self).base - old(self).base),
            final(self).fin_acked == old(self).fin_acked,
            forall|x: int| old(self).base <= x < final(self).base ==> covered_by(acked_with(old(self).acked@, offset, len), x),
            forall|j: int| 0 <= j < acked_with(old(self).acked@, offset, len).len()
                && #[trigger] acked_with(old(self).acked@, offset, len)[j].1 > final(self).base
                ==> final(self).acked@.contains(acked_with(old(self).acked@, offset, len)[j]),
    {
        if len == 0 {
            return;
        }
        let end = if offset > u64::MAX - len { u64::MAX } else { offset + len };
        if end <= self.base {
            proof {
                assert forall|j: int| 0 <= j < acked_with(old(self).acked@, offset, len).len()
                    && #[trigger] acked_with(old(self).acked@, offset, len)[j].1 > self.base
                    implies self.acked@.contains(acked_with(old(self).acked@, offset, len)[j]) by {
                    assert(self.acked@[j] == acked_with(old(self).acked@, offset, len)[j]);
                }
            }
            return;
        }
        self.acked.push((offset, end));
        let ghost all = self.acked@;
        assert(all == acked_with(old(self).acked@, offset, len));
        let old_base = self.base;
        let mut new_base = self.base;
        if offset <= new_base && new_base < end {
            new_base = if end <= self.sent { end } else { self.sent };
            proof {
                assert forall|x: int| old_base <= x < new_base implies covered_by(all, x) by {
                    assert(all[all.len() - 1] == (offset, end));
                    assert(all[all.len() - 1].0 <= x < all[all.len() - 1].1);
                }
            }
        }
        let ghost target: int = if offset <= old_base && old_base < end {
            if end <= self.sent {
                end as int
            } else {
                self.sent as int
            }
        } else {
            old_base as int
        };
        loop
            invariant
                old_base <= new_base <= self.sent,
                self.wf(),
                self.base == old_base,
                self.state == old(self).state,
                self.written == old(self).written,
                self.sent == old(self).sent,
                self.buffer@ == old(self).buffer@,
                old_base == old(self).base,
                target <= self.sent,
                self.acked@ == all,
                self.fin_acked == old(self).fin_acked,
                forall|x: int| old_base <= x < new_base ==> covered_by(all, x),
                target == (if offset <= old_base && old_base < end {
                    if end <= self.sent { end as int } else { self.sent as int }
                } else {
                    old_base as int
                }),
                new_base >= target,
            decreases self.sent - new_base,
        {
            let mut advanced = false;
            let mut i: usize = 0;
            let n = self.acked.len();
            let ghost start_nb = new_base;
            while i < n
                invariant
                    old_base <= new_base <= self.sent,
                    n == self.acked@.len(),
                    i <= n,
                    self.wf(),
                    self.base == old_base,
                    self.sent == old(self).sent,
                    target == (if offset <= old_base && old_base < end {
                        if end <= self.sent { end as int } else { self.sent as int }
                    } else {
                        old_base as int
                    }),
                    new_base >= target,
                    new_base >= start_nb,
                    advanced ==> new_base > start_nb,
                    self.acked@ == all,
                    forall|x: int| old_base <= x < new_base ==> covered_by(all, x),
                decreases n - i,
            {
                let (s, e) = self.acked[i];
                if s <= new_base && new_base < e {
                    let cap = if e <= self.sent { e } else { self.sent };
                    if cap > new_base {
                        proof {
                            assert forall|x: int| old_base <= x < cap implies covered_by(all, x) by {
                                if x >= new_base {
                                    assert(all[i as int] == (s, e));
                                    assert(all[i as int].0 <= x < all[i as int].1);
                                }
                            }
                        }
                        new_base = cap;
                        advanced = true;
                    }
                }
                i += 1;
            }
            if !advanced {
                break;
            }
        }
        let mut kept: Vec<(u64, u64)> = Vec::new();
        let mut i: usize = 0;
        while i < self.acked.len()
            invariant
                i <= self.acked@.len(),
                self.acked@ == all,
                forall|j: int| 0 <= j < i && #[trigger] all[j].1 > new_base ==> kept@.contains(all[j]),
            decreases self.acked@.len() - i,
        {
            let (s, e) = self.acked[i];
            let ghost k0 = kept@;
            if e > new_base {
                kept.push((s, e));
                assert(kept@[kept@.len() - 1] == all[i as int]);
            }
            assert(forall|j: int| 0 <= j < k0.len() ==> kept@[j] == k0[j]);
            i += 1;
        }
        self.acked = kept;
        let blen = self.buffer.len();
        let k = (new_base - self.base) as usize;
        let tail = self.buffer.split_off(k);
        self.buffer = tail;
        self.base = new_base;
        assert(self.buffer@ =~= old(self).buffer@.skip(new_base - old_base));
    }

    /// Bytes `offset .. offset + len` may have been lost: sending resumes
    /// from there (never below `base`), and a FIN at or after them is owed
    /// again.
    pub fn may_loss(&mut self, offset: u64, len: u64)
        requires
            old(self).wf(),
        ensures
            final(self).wf(),
            final(self).state == old(self).state,
            final(self).written == old(self).written,
            final(self).base == old(self).base,
            final(self).sent == if offset >= old(self).sent {
                old(self).sent
            } else if offset <= old(self).base {
                old(self).base
            } else {
                offset
            },
    {
        if offset < self.sent {
            self.sent = if offset <= self.base { self.base } else { offset };
            self.fin_sent = false;
        }
    }

    /// The peer raised its limit: the credit never shrinks.
    pub fn update_max_stream_data(&mut self, limit: u64)
        requires
            old(self).wf(),
        ensures
            final(self).wf(),
            final(self).state == old(self).state,
            final(self).max_stream_data == if limit > old(self).max_stream_data {
                limit
            } else {
                old(self).max_stream_data
            },
    {
        if limit > self.max_stream_data {
            self.max_stream_data = limit;
        }
    }
}

/// The error code for data received on a stream that only sends.
pub const STREAM_STATE_ERROR: u64 = 0x05;

impl Writer {
    /// Checks `wf` at run time, for callers that cannot carry it.
    pub fn is_wf(&self) -> (r: bool)
        ensures
            r == self.wf(),
    {
        self.base <= self.sent && self.sent <= self.written && self.written <= VARINT_MAX
            && self.buffer.len() as u64 == self.written - self.base && self.id <= VARINT_MAX
    }
}

impl Transmit for Writer {
    fn try_send_data(&mut self, buf: &mut Vec<u8>, capacity: usize) -> (r: Option<DataFrame>) {
        if !self.is_wf() {
            return None;
        }
        let capacity = if capacity <= usize::MAX - buf.len() { capacity } else { usize::MAX - buf.len() };
        match Writer::try_send_data(self, buf, capacity) {
            Some(f) => Some(DataFrame::Stream(f)),
            None => None,
        }
    }

    fn try_send_frame(&mut self, buf: &mut Vec<u8>, capacity: usize) -> (r: Option<Frame>) {
        let final_size = match self.state {
            SenderState::ResetSent(size) => size,
            _ => return None,
        };
        if self.reset_sent || final_size > VARINT_MAX || self.id > VARINT_MAX {
            return None;
        }
        let frame = Frame::ResetStream(
            ResetStreamFrame { stream_id: self.id, app_error_code: 0, final_size },
        );
        let size = frame_encoding_size(&frame);
        if size > capacity {
            return None;
        }
        put_frame(buf, &frame);
        proof {
            assert(old(buf)@.is_prefix_of(buf@)) by {
                assert(forall|i: int| 0 <= i < old(buf)@.len() ==> buf@[i] == old(buf)@[i]);
            }
        }
        self.reset_sent = true;
        Some(frame)
    }

    fn confirm_data(&mut self, frame: DataFrame) {
        if let DataFrame::Stream(f) = frame {
            if f.id == self.id && self.is_wf() {
                self.confirm(f.offset, f.length as u64);
                if f.is_fin() {
                    self.on_fin_acked();
                }
            }
        }
    }

    fn may_loss_data(&mut self, frame: DataFrame) {
        if let DataFrame::Stream(f) = frame {
            if f.id == self.id && self.is_wf() {
                self.may_loss(f.offset, f.length as u64);
            }
        }
    }

    fn recv_data(&mut self, frame: DataFrame, data: &[u8]) -> Result<(), u64> {
        Err(STREAM_STATE_ERROR)
    }

    fn recv_frame(&mut self, frame: Frame) -> Result<(), u64> {
        if !self.is_wf() {
            return Ok(());
        }
        match frame {
            Frame::StopSending(f) => {
                if f.stream_id == self.id {
                    self.stop_sending();
                }
            },
            Frame::MaxStreamData(f) => {
                if f.stream_id == self.id {
                    self.update_max_stream_data(f.max_stream_data);
                }
            },
            _ => {},
        }
        Ok(())
    }
}

} // verus!
