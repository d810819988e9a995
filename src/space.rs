//! The packet number space: what was received (for ACK generation), what is
//! in flight (for loss detection and retransmission), and the assembly of
//! outgoing packets. Times are microseconds on a clock the caller reads.

use vstd::prelude::*;

use crate::frame::ack::{
    ack_size_within, lemma_ranges_cover_bounds, lemma_ranges_ok_prefix, lemma_ranges_push,
    put_ack_frame, ranges_bottom,
    ranges_cover, ranges_ok, AckFrame,
};
use crate::frame::stream::{CryptoFrame, StreamFrame};
use crate::frame::{
    belongs_to, frame_bytes, frame_encoding_size, frame_wf, put_frame,
    spec_belongs_to, Frame, SpaceId,
};
use crate::index_deque::IndexDeque;
use crate::rtt::Rtt;
use crate::varint::VARINT_MAX;

verus! {

/// Packets this many numbers below the largest acknowledged are lost.
pub const PACKET_THRESHOLD: u64 = 3;
/// How long an ACK may wait after an ack-eliciting packet arrives.
pub const MAX_ACK_DELAY: u64 = 25_000;

/// What is known of a received packet number.
#[derive(Debug, Clone, Copy, PartialEq, Eq)]
pub enum State {
    /// A gap: the packet has not arrived.
    NotReceived,
    /// A gap already reported in an ACK.
    Unreached,
    /// Received at the given time; not ack-eliciting.
    Ignored(u64),
    /// Received at the given time; ack-eliciting and not yet acknowledged.
    Important(u64),
    /// Received at the given time and reported in an ACK.
    Synced(u64),
}

impl State {
    pub open spec fn spec_has_rcvd(self) -> bool {
        self matches State::Ignored(_) || self matches State::Important(_) || self matches State::Synced(_)
    }

    pub open spec fn time(self) -> u64 {
        match self {
            State::Ignored(t) | State::Important(t) | State::Synced(t) => t,
            _ => 0,
        }
    }

    /// The state after being reported in an ACK.
    pub open spec fn synced(self) -> State {
        match self {
            State::Ignored(t) | State::Important(t) => State::Synced(t),
            State::NotReceived => State::Unreached,
            _ => self,
        }
    }

    pub open spec fn new_rcvd_spec(t: u64, is_ack_eliciting: bool) -> State {
        if is_ack_eliciting {
            State::Important(t)
        } else {
            State::Ignored(t)
        }
    }

    /// A packet received at `t`.
    pub fn new_rcvd(t: u64, is_ack_eliciting: bool) -> (r: State)
        ensures
            r == if is_ack_eliciting {
                State::Important(t)
            } else {
                State::Ignored(t)
            },
    {
        if is_ack_eliciting {
            State::Important(t)
        } else {
            State::Ignored(t)
        }
    }

    pub fn has_rcvd(&self) -> (r: bool)
        ensures
            r == self.spec_has_rcvd(),
    {
        match self {
            State::Ignored(_) | State::Important(_) | State::Synced(_) => true,
            _ => false,
        }
    }

    pub fn has_not_rcvd(&self) -> (r: bool)
        ensures
            r == !self.spec_has_rcvd(),
    {
        matches!(self, State::NotReceived | State::Unreached)
    }

    /// How long ago, at `now`, the packet was received; `None` for a gap.
    pub fn delay(&self, now: u64) -> (r: Option<u64>)
        ensures
            match r {
                Some(d) => self.spec_has_rcvd() && d == if now >= self.time() {
                    now - self.time()
                } else {
                    0
                },
                None => !self.spec_has_rcvd(),
            },
    {
        match self {
            State::Ignored(t) | State::Important(t) | State::Synced(t) => Some(
                if now >= *t {
                    now - *t
                } else {
                    0
                },
            ),
            _ => None,
        }
    }

    /// Marks the state as reported in an ACK.
    pub fn be_synced(&mut self)
        ensures
            *final(self) == old(self).synced(),
    {
        match *self {
            State::Ignored(t) | State::Important(t) => {
                *self = State::Synced(t);
            },
            State::NotReceived => *self = State::Unreached,
            _ => {},
        }
    }
}

pub open spec fn spec_max_int(a: int, b: int) -> int {
    if a >= b {
        a
    } else {
        b
    }
}

pub open spec fn spec_min_int(a: int, b: int) -> int {
    if a <= b {
        a
    } else {
        b
    }
}

/// `a + b`, or the largest `u64` when that overflows.
pub open spec fn sat_add(a: u64, b: u64) -> u64 {
    if a + b > u64::MAX {
        u64::MAX
    } else {
        (a + b) as u64
    }
}

/// `a - b`, or 0 when `b` is larger.
pub open spec fn sat_sub(a: u64, b: u64) -> u64 {
    if a >= b {
        (a - b) as u64
    } else {
        0
    }
}

/// The failure of packet assembly.
#[derive(Debug, Clone, Copy, PartialEq, Eq)]
pub enum SpaceError {
    /// Every packet number has been used.
    InflightOverflow,
}

/// A data frame sent from a stream or crypto buffer; the bytes stay there.
#[derive(Debug, Clone, Copy, PartialEq, Eq)]
pub enum DataFrame {
    Crypto(CryptoFrame),
    Stream(StreamFrame),
}

/// One entry of a sent packet's payload.
#[derive(Debug, Clone)]
pub enum Record {
    /// A control frame, sent again as it is if lost.
    Pure(Frame),
    /// A data frame, whose range the buffer it came from is told about.
    Data(DataFrame),
    /// An ACK that acknowledged up to this packet number.
    Ack(u64),
}

/// A packet in flight.
#[derive(Debug, Clone)]
pub struct Packet {
    pub send_time: u64,
    pub payload: Vec<Record>,
    pub sent_bytes: usize,
    pub is_ack_eliciting: bool,
}

/// A source of data frames for the space: a crypto stream or the streams.
pub trait Transmit {
    /// Writes at most one data frame, header and data, into `buf`, in at
    /// most `capacity` bytes, and returns it.
    fn try_send_data(&mut self, buf: &mut Vec<u8>, capacity: usize) -> (r: Option<DataFrame>)
        ensures
            old(buf)@.is_prefix_of(final(buf)@),
            final(buf)@.len() <= old(buf)@.len() + capacity,
            r is Some ==> final(buf)@.len() > old(buf)@.len(),
            r is None ==> final(buf)@ == old(buf)@,
    ;

    /// Writes at most one stream control frame into `buf`, in at most
    /// `capacity` bytes, and returns it.
    fn try_send_frame(&mut self, buf: &mut Vec<u8>, capacity: usize) -> (r: Option<Frame>)
        ensures
            old(buf)@.is_prefix_of(final(buf)@),
            final(buf)@.len() <= old(buf)@.len() + capacity,
            r is None ==> final(buf)@ == old(buf)@,
            r matches Some(f) ==> frame_wf(f) && !(f is Ack || f is Stream || f is Crypto)
                && frame_bytes(f).len() <= usize::MAX,
    ;

    /// The frame's range was acknowledged.
    fn confirm_data(&mut self, frame: DataFrame);

    /// Data received in a frame; an error is a transport error code.
    fn recv_data(&mut self, frame: DataFrame, data: &[u8]) -> Result<(), u64>;

    /// A stream control frame received; an error is a transport error code.
    fn recv_frame(&mut self, frame: Frame) -> Result<(), u64>;

    /// The frame's range may have been lost.
    fn may_loss_data(&mut self, frame: DataFrame);
}

/// The streams of a space that carries none (Initial, Handshake).
#[derive(Debug, Clone, Copy, Default)]
pub struct NoStreams;

impl Transmit for NoStreams {
    fn try_send_data(&mut self, buf: &mut Vec<u8>, capacity: usize) -> (r: Option<DataFrame>) {
        None
    }

    fn try_send_frame(&mut self, buf: &mut Vec<u8>, capacity: usize) -> (r: Option<Frame>) {
        None
    }

    fn confirm_data(&mut self, frame: DataFrame) {
    }

    fn recv_data(&mut self, frame: DataFrame, data: &[u8]) -> Result<(), u64> {
        Ok(())
    }

    fn recv_frame(&mut self, frame: Frame) -> Result<(), u64> {
        Ok(())
    }

    fn may_loss_data(&mut self, frame: DataFrame) {
    }
}

/// Checks at run time that `f` may wait in the queue of `space`, as
/// `Space::write_frame` requires. A CONNECTION_CLOSE whose encoding comes
/// within 32 bytes of the largest `usize` is refused too.
pub fn pure_frame_ok(f: &Frame, space: SpaceId) -> (r: bool)
    ensures
        r ==> pure_ok(*f, space),
        !(f is ConnectionClose) ==> r == pure_ok(*f, space),
{
    if !belongs_to(f, space) {
        return false;
    }
    match f {
        Frame::Padding | Frame::Ping | Frame::PathChallenge(_) | Frame::PathResponse(_) => true,
        Frame::Ack(_) | Frame::Stream(_) | Frame::Crypto(_) => false,
        Frame::ResetStream(x) => x.stream_id <= VARINT_MAX && x.app_error_code <= VARINT_MAX
            && x.final_size <= VARINT_MAX,
        Frame::StopSending(x) => x.stream_id <= VARINT_MAX && x.app_error_code <= VARINT_MAX,
        Frame::NewConnectionId(x) => x.sequence <= VARINT_MAX && x.retire_prior_to <= x.sequence
            && 1 <= x.id.len() && x.id.len() <= crate::frame::new_connection_id::MAX_CID_SIZE,
        Frame::MaxData(x) => x.max_data <= VARINT_MAX,
        Frame::MaxStreamData(x) => x.stream_id <= VARINT_MAX && x.max_stream_data <= VARINT_MAX,
        Frame::MaxStreams(x) => match x {
            crate::frame::flow::MaxStreamsFrame::Bi(n) => *n <= VARINT_MAX,
            crate::frame::flow::MaxStreamsFrame::Uni(n) => *n <= VARINT_MAX,
        },
        Frame::DataBlocked(x) => x.limit <= VARINT_MAX,
        Frame::StreamDataBlocked(x) => x.stream_id <= VARINT_MAX && x.limit <= VARINT_MAX,
        Frame::StreamsBlocked(x) => match x {
            crate::frame::flow::StreamsBlockedFrame::Bi(n) => *n <= VARINT_MAX,
            crate::frame::flow::StreamsBlockedFrame::Uni(n) => *n <= VARINT_MAX,
        },
        Frame::ConnectionClose(x) => {
            let b = x.reason.as_str().as_bytes();
            let ft_ok = match x.frame_type {
                Some(t) => t <= VARINT_MAX,
                None => true,
            };
            x.error_code <= VARINT_MAX && ft_ok && (b.len() as u64) <= VARINT_MAX && b.len()
                <= usize::MAX - 32
        },
    }
}

/// The control frames of a payload, in order.
pub open spec fn pure_frames(p: Seq<Record>) -> Seq<Frame>
    decreases p.len(),
{
    if p.len() == 0 {
        Seq::empty()
    } else {
        (match p[0] {
            Record::Pure(f) => seq![f],
            _ => Seq::empty(),
        }) + pure_frames(p.skip(1))
    }
}

/// The data frames of a payload, in order.
pub open spec fn data_frames(p: Seq<Record>) -> Seq<DataFrame>
    decreases p.len(),
{
    if p.len() == 0 {
        Seq::empty()
    } else {
        (match p[0] {
            Record::Data(d) => seq![d],
            _ => Seq::empty(),
        }) + data_frames(p.skip(1))
    }
}

/// The data frames of the packets in some slots, in order.
pub open spec fn slots_data(s: Seq<Option<Packet>>) -> Seq<DataFrame>
    decreases s.len(),
{
    if s.len() == 0 {
        Seq::empty()
    } else {
        (match s[0] {
            Some(p) => data_frames(p.payload@),
            None => Seq::empty(),
        }) + slots_data(s.skip(1))
    }
}

/// The control frames of the packets in some slots, in order.
pub open spec fn slots_frames(s: Seq<Option<Packet>>) -> Seq<Frame>
    decreases s.len(),
{
    if s.len() == 0 {
        Seq::empty()
    } else {
        (match s[0] {
            Some(p) => pure_frames(p.payload@),
            None => Seq::empty(),
        }) + slots_frames(s.skip(1))
    }
}

/// How many slots at the front of a deque (first index `offset`) an ACK up
/// to `largest` loses by the packet threshold: those numbered
/// `largest - PACKET_THRESHOLD` or below.
pub open spec fn cut_of(offset: u64, items: Seq<Option<Packet>>, largest: u64) -> int {
    let o = offset as int;
    let e = offset + items.len();
    if largest < PACKET_THRESHOLD {
        0
    } else {
        let end = largest - PACKET_THRESHOLD + 1;
        if end <= o {
            0
        } else if end >= e {
            e - o
        } else {
            end - o
        }
    }
}

/// The packets lost by time after the threshold cut: of the first
/// `PACKET_THRESHOLD` slots that remain, below `largest`, those holding a
/// packet sent `loss_delay` or more before `now`; the others are `None`.
pub open spec fn time_lost_of(
    offset: u64,
    items: Seq<Option<Packet>>,
    largest: u64,
    now: u64,
    loss_delay: u64,
) -> Seq<Option<Packet>> {
    let cut = cut_of(offset, items, largest);
    let rest = items.skip(cut);
    let start = offset + cut;
    let c = spec_min_int(spec_min_int(rest.len() as int, PACKET_THRESHOLD as int), largest - start);
    let count = if c < 0 {
        0
    } else {
        c
    };
    Seq::new(
        count as nat,
        |i: int|
            if rest[i] matches Some(p) && p.send_time + loss_delay <= now {
                rest[i]
            } else {
                None
            },
    )
}

/// The encodings of some frames, one after the other.
pub open spec fn frames_bytes(fs: Seq<Frame>) -> Seq<u8>
    decreases fs.len(),
{
    if fs.len() == 0 {
        Seq::empty()
    } else {
        frames_bytes(fs.drop_last()) + frame_bytes(fs.last())
    }
}

/// Some frames as `Pure` records, in order.
pub open spec fn pure_records(fs: Seq<Frame>) -> Seq<Record> {
    Seq::new(fs.len(), |j: int| Record::Pure(fs[j]))
}

/// The payload after an ACK part `ack_part` and the first `k` queued frames.
pub open spec fn after_payload(ack_part: Seq<Record>, k: int, frames: Seq<Frame>) -> Seq<Record> {
    ack_part + pure_records(frames.take(k))
}

/// Every frame's encoding holds at least its type byte.
pub proof fn lemma_frame_bytes_nonempty(f: Frame)
    ensures
        frame_bytes(f).len() >= 1,
{
    match f {
        Frame::MaxStreams(x) => match x {
            crate::frame::flow::MaxStreamsFrame::Bi(_) => {},
            crate::frame::flow::MaxStreamsFrame::Uni(_) => {},
        },
        Frame::StreamsBlocked(x) => match x {
            crate::frame::flow::StreamsBlockedFrame::Bi(_) => {},
            crate::frame::flow::StreamsBlockedFrame::Uni(_) => {},
        },
        _ => {},
    }
}

/// Appending a slot appends its packet's control frames.
pub proof fn lemma_slots_frames_push(s: Seq<Option<Packet>>, x: Option<Packet>)
    ensures
        slots_frames(s.push(x)) == slots_frames(s) + slots_frames(seq![x]),
        slots_data(s.push(x)) == slots_data(s) + slots_data(seq![x]),
    decreases s.len(),
{
    assert(s.push(x)[0] == if s.len() == 0 { x } else { s[0] });
    if s.len() == 0 {
        assert(s.push(x) =~= seq![x]);
        assert(slots_frames(s) =~= Seq::<Frame>::empty());
        assert(slots_frames(s.push(x)) =~= slots_frames(s) + slots_frames(seq![x]));
        assert(slots_data(s) =~= Seq::<DataFrame>::empty());
        assert(slots_data(s.push(x)) =~= slots_data(s) + slots_data(seq![x]));
    } else {
        assert(s.push(x).skip(1) =~= s.skip(1).push(x));
        lemma_slots_frames_push(s.skip(1), x);
        assert(slots_frames(s.push(x)) =~= slots_frames(s) + slots_frames(seq![x]));
        assert(slots_data(s.push(x)) =~= slots_data(s) + slots_data(seq![x]));
    }
}

/// A control frame that can wait in the queue of `space`: not an ACK, not
/// a data frame, and allowed there.
pub open spec fn pure_ok(f: Frame, space: SpaceId) -> bool {
    &&& frame_wf(f)
    &&& spec_belongs_to(f, space)
    &&& !(f is Ack || f is Stream || f is Crypto)
    &&& frame_bytes(f).len() <= usize::MAX
}

pub open spec fn record_ok(r: Record, space: SpaceId) -> bool {
    match r {
        Record::Pure(f) => pure_ok(f, space),
        _ => true,
    }
}

pub open spec fn packet_ok(p: Packet, space: SpaceId) -> bool {
    forall|j: int| 0 <= j < p.payload@.len() ==> #[trigger] record_ok(p.payload@[j], space)
}

pub open spec fn slot_ok(s: Option<Packet>, space: SpaceId) -> bool {
    match s {
        Some(p) => packet_ok(p, space),
        None => true,
    }
}

/// A frame handed to a space by the packet receiver.
pub enum SpaceFrame<'a> {
    /// An ACK frame, with the path's RTT estimator.
    Ack(AckFrame, &'a mut Rtt),
    /// A stream control frame.
    Stream(Frame),
    /// A data frame and its data.
    Data(DataFrame, &'a [u8]),
}

/// The reliability engine of one packet number space.
pub struct Space<CT: Transmit, ST: Transmit> {
    pub space_id: SpaceId,
    /// Control frames waiting to be sent, the first first.
    pub frames: Vec<Frame>,
    pub inflight_packets: IndexDeque<Option<Packet>>,
    pub disorder_tolerance: u64,
    pub time_of_last_sent_ack_eliciting_packet: Option<u64>,
    pub largest_acked_pktid: Option<u64>,
    pub loss_time: Option<u64>,
    pub rcvd_packets: IndexDeque<State>,
    pub largest_rcvd_ack_eliciting_pktid: u64,
    pub last_synced_ack_largest: u64,
    pub new_lost_event: bool,
    pub rcvd_unreached_packet: bool,
    pub time_to_sync: Option<u64>,
    pub max_ack_delay: u64,
    pub stm_trans: ST,
    pub tls_trans: CT,
    /// The data frames reported lost to the sources, in order.
    pub lost_data: Ghost<Seq<DataFrame>>,
    /// The data frames confirmed to the sources, in order.
    pub confirmed_data: Ghost<Seq<DataFrame>>,
}

impl<CT: Transmit, ST: Transmit> Space<CT, ST> {
    pub open spec fn wf(&self) -> bool {
        &&& self.inflight_packets.wf()
        &&& self.rcvd_packets.wf()
        &&& (self.rcvd_packets.items@.len() > 0 ==> self.rcvd_packets.items@.last().spec_has_rcvd())
        &&& forall|i: int| 0 <= i < self.frames@.len() ==> #[trigger] pure_ok(self.frames@[i], self.space_id)
        &&& forall|i: int|
            0 <= i < self.inflight_packets.items@.len() ==> #[trigger] slot_ok(
                self.inflight_packets.items@[i],
                self.space_id,
            )
    }

    /// A space with nothing received, sent or queued: both deques start at
    /// packet number 0, the timers are unset, the events clear, and an ACK
    /// may wait `MAX_ACK_DELAY`.
    pub open spec fn fresh(&self, space_id: SpaceId, tls: CT, streams: ST) -> bool {
        &&& self.wf()
        &&& self.space_id == space_id
        &&& self.frames@.len() == 0
        &&& self.inflight_packets.offset == 0
        &&& self.inflight_packets.items@.len() == 0
        &&& self.rcvd_packets.offset == 0
        &&& self.rcvd_packets.items@.len() == 0
        &&& self.disorder_tolerance == 0
        &&& self.time_of_last_sent_ack_eliciting_packet is None
        &&& self.largest_acked_pktid is None
        &&& self.loss_time is None
        &&& self.largest_rcvd_ack_eliciting_pktid == 0
        &&& self.last_synced_ack_largest == 0
        &&& !self.new_lost_event
        &&& !self.rcvd_unreached_packet
        &&& self.time_to_sync is None
        &&& self.max_ack_delay == MAX_ACK_DELAY
        &&& self.tls_trans == tls
        &&& self.stm_trans == streams
        &&& self.lost_data@ == Seq::<DataFrame>::empty()
        &&& self.confirmed_data@ == Seq::<DataFrame>::empty()
    }

    /// All fields but the queue of control frames are as in `o`.
    pub open spec fn same_except_frames(&self, o: Self) -> bool {
        &&& self.space_id == o.space_id
        &&& self.inflight_packets == o.inflight_packets
        &&& self.disorder_tolerance == o.disorder_tolerance
        &&& self.time_of_last_sent_ack_eliciting_packet == o.time_of_last_sent_ack_eliciting_packet
        &&& self.largest_acked_pktid == o.largest_acked_pktid
        &&& self.loss_time == o.loss_time
        &&& self.rcvd_packets == o.rcvd_packets
        &&& self.largest_rcvd_ack_eliciting_pktid == o.largest_rcvd_ack_eliciting_pktid
        &&& self.last_synced_ack_largest == o.last_synced_ack_largest
        &&& self.new_lost_event == o.new_lost_event
        &&& self.rcvd_unreached_packet == o.rcvd_unreached_packet
        &&& self.time_to_sync == o.time_to_sync
        &&& self.max_ack_delay == o.max_ack_delay
        &&& self.stm_trans == o.stm_trans
        &&& self.tls_trans == o.tls_trans
        &&& self.lost_data == o.lost_data
        &&& self.confirmed_data == o.confirmed_data
    }

    /// How many slots at the front an ACK up to `largest` loses by the packet
    /// threshold.
    pub open spec fn threshold_cut(&self, largest: u64) -> int {
        cut_of(self.inflight_packets.offset, self.inflight_packets.items@, largest)
    }

    /// The packets lost by time after the threshold cut.
    pub open spec fn time_lost(&self, largest: u64, now: u64, loss_delay: u64) -> Seq<Option<Packet>> {
        time_lost_of(self.inflight_packets.offset, self.inflight_packets.items@, largest, now, loss_delay)
    }

    /// The in-flight slots once the packets `ack` covers are taken out.
    pub open spec fn acked_slots(&self, ack: &AckFrame) -> Seq<Option<Packet>> {
        let items = self.inflight_packets.items@;
        Seq::new(
            items.len(),
            |i: int|
                if ack.covers(self.inflight_packets.offset + i) {
                    None
                } else {
                    items[i]
                },
        )
    }

    /// The control frames queued again after `ack`: those of the packets
    /// lost by the threshold, then those lost by time, with `loss_delay`.
    pub open spec fn requeued_after(&self, ack: &AckFrame, now: u64, loss_delay: u64) -> Seq<Frame> {
        let o = self.inflight_packets.offset;
        let r = self.acked_slots(ack);
        slots_frames(r.take(cut_of(o, r, ack.largest))) + slots_frames(time_lost_of(o, r, ack.largest, now, loss_delay))
    }

    /// The data frames reported lost after `ack`: those of the packets lost
    /// by the threshold, then those lost by time, with `loss_delay`.
    pub open spec fn lost_after(&self, ack: &AckFrame, now: u64, loss_delay: u64) -> Seq<DataFrame> {
        let o = self.inflight_packets.offset;
        let r = self.acked_slots(ack);
        slots_data(r.take(cut_of(o, r, ack.largest))) + slots_data(time_lost_of(o, r, ack.largest, now, loss_delay))
    }

    /// Whether `record` takes packet number `pn` into account.
    pub open spec fn accepts(&self, pn: u64) -> bool {
        self.rcvd_packets.offset <= pn < VARINT_MAX
    }

    /// Whether `pn` is a taken ack-eliciting packet above the largest such one.
    pub open spec fn is_newer(&self, pn: u64, is_ack_eliciting: bool) -> bool {
        self.accepts(pn) && is_ack_eliciting && pn > self.largest_rcvd_ack_eliciting_pktid
    }

    /// Whether a packet numbered in `(low, high]` is missing.
    pub open spec fn missing_between(&self, low: int, high: int) -> bool {
        exists|j: int|
            low < j <= high && self.rcvd_packets.contains(j) && #[trigger] self.rcvd_packets.at(j)
                == State::NotReceived
    }

    /// When an ACK is due after an ack-eliciting packet arrives at `now`.
    pub open spec fn sync_deadline(&self, now: u64) -> u64 {
        match self.time_to_sync {
            Some(t) => spec_min_int(t as int, sat_add(now, self.max_ack_delay) as int) as u64,
            None => sat_add(now, self.max_ack_delay),
        }
    }

    /// Whether packet `pn` has been received and not drained.
    pub open spec fn received(&self, pn: int) -> bool {
        self.rcvd_packets.contains(pn) && self.rcvd_packets.at(pn).spec_has_rcvd()
    }

    /// Whether an ack-eliciting packet awaits acknowledgement.
    pub open spec fn has_important(&self) -> bool {
        exists|i: int|
            0 <= i < self.rcvd_packets.items@.len() && #[trigger] self.rcvd_packets.items@[i] is Important
    }

    pub open spec fn spec_need_send_ack(&self, now: u64) -> bool {
        &&& self.space_id != SpaceId::ZeroRtt
        &&& self.has_important()
        &&& (self.new_lost_event || self.rcvd_unreached_packet || (self.time_to_sync matches Some(
            t,
        ) && t <= now))
    }

    /// A space with nothing received, sent or queued.
    pub fn build(space_id: SpaceId, tls_transmission: CT, streams_transmission: ST) -> (r: Self)
        ensures
            r.fresh(space_id, tls_transmission, streams_transmission),
    {
        Space {
            space_id,
            frames: Vec::new(),
            inflight_packets: IndexDeque::new(),
            disorder_tolerance: 0,
            time_of_last_sent_ack_eliciting_packet: None,
            largest_acked_pktid: None,
            loss_time: None,
            rcvd_packets: IndexDeque::new(),
            largest_rcvd_ack_eliciting_pktid: 0,
            last_synced_ack_largest: 0,
            new_lost_event: false,
            rcvd_unreached_packet: false,
            time_to_sync: None,
            max_ack_delay: MAX_ACK_DELAY,
            stm_trans: streams_transmission,
            tls_trans: tls_transmission,
            lost_data: Ghost(Seq::empty()),
            confirmed_data: Ghost(Seq::empty()),
        }
    }

    pub fn space_id(&self) -> (r: SpaceId)
        ensures
            r == self.space_id,
    {
        self.space_id
    }

    /// Queues a control frame for sending.
    pub fn write_frame(&mut self, frame: Frame)
        requires
            old(self).wf(),
            pure_ok(frame, old(self).space_id),
        ensures
            final(self).wf(),
            final(self).frames@ == old(self).frames@.push(frame),
            final(self).same_except_frames(*old(self)),
    {
        self.frames.push(frame);
        assert(forall|i: int| 0 <= i < old(self).frames@.len() ==> self.frames@[i] == old(self).frames@[i]);
    }

    /// The packet number after the largest received.
    pub fn expected_pn(&self) -> (r: u64)
        requires
            self.wf(),
        ensures
            r == self.rcvd_packets.spec_end(),
    {
        self.rcvd_packets.end()
    }

    /// Records the arrival of packet `pkt_id` at `now`. A number below the
    /// drained part, or past the largest packet number, is ignored. An
    /// ack-eliciting packet above the largest such one raises the lost
    /// event when a packet numbered in `(last_synced_ack_largest, pkt_id - 3]`
    /// is missing; one below the largest acknowledged in a sent ACK raises
    /// the unreached event; either way an ACK is due within the ACK delay.
    pub fn record(&mut self, pkt_id: u64, is_ack_eliciting: bool, now: u64)
        requires
            old(self).wf(),
        ensures
            final(self).wf(),
            final(self).space_id == old(self).space_id,
            final(self).frames == old(self).frames,
            final(self).inflight_packets == old(self).inflight_packets,
            final(self).last_synced_ack_largest == old(self).last_synced_ack_largest,
            !old(self).accepts(pkt_id) ==> final(self).rcvd_packets.items@ == old(self).rcvd_packets.items@
                && final(self).rcvd_packets.offset == old(self).rcvd_packets.offset,
            old(self).accepts(pkt_id) ==> final(self).rcvd_packets.at(pkt_id as int)
                == State::new_rcvd_spec(now, is_ack_eliciting),
            old(self).accepts(pkt_id) ==> final(self).rcvd_packets.offset
                == old(self).rcvd_packets.offset,
            old(self).accepts(pkt_id) ==> final(self).rcvd_packets.spec_end() == spec_max_int(
                old(self).rcvd_packets.spec_end(),
                pkt_id + 1,
            ),
            old(self).accepts(pkt_id) ==> forall|j: int|
                #![trigger final(self).rcvd_packets.at(j)]
                final(self).rcvd_packets.contains(j) && j != pkt_id ==> final(self).rcvd_packets.at(j)
                    == if old(self).rcvd_packets.contains(j) {
                    old(self).rcvd_packets.at(j)
                } else {
                    State::NotReceived
                },
            final(self).largest_rcvd_ack_eliciting_pktid == if old(self).is_newer(pkt_id, is_ack_eliciting) {
                pkt_id
            } else {
                old(self).largest_rcvd_ack_eliciting_pktid
            },
            final(self).new_lost_event == (old(self).new_lost_event || (old(self).is_newer(pkt_id, is_ack_eliciting)
                && final(self).missing_between(old(self).last_synced_ack_largest as int, pkt_id - PACKET_THRESHOLD))),
            final(self).rcvd_unreached_packet == (old(self).rcvd_unreached_packet || (old(self).accepts(pkt_id)
                && is_ack_eliciting && pkt_id < old(self).last_synced_ack_largest)),
            final(self).time_to_sync == if old(self).accepts(pkt_id) && is_ack_eliciting {
                Some(old(self).sync_deadline(now))
            } else {
                old(self).time_to_sync
            },
    {
        let state = State::new_rcvd(now, is_ack_eliciting);
        let accepted = self.rcvd_packets.insert(pkt_id, state, State::NotReceived);
        proof {
            if accepted {
                let e = self.rcvd_packets.spec_end() - 1;
                assert(self.rcvd_packets.items@.last() == self.rcvd_packets.at(e));
                if e != pkt_id {
                    assert(old(self).rcvd_packets.contains(e));
                    assert(old(self).rcvd_packets.items@.last() == old(self).rcvd_packets.at(e));
                }
            }
        }
        if !accepted || !is_ack_eliciting {
            return;
        }
        if self.largest_rcvd_ack_eliciting_pktid < pkt_id {
            self.largest_rcvd_ack_eliciting_pktid = pkt_id;
            if pkt_id >= PACKET_THRESHOLD && self.last_synced_ack_largest < pkt_id - PACKET_THRESHOLD {
                let top = pkt_id - PACKET_THRESHOLD;
                let offset = self.rcvd_packets.offset;
                let mut j: u64 = if self.last_synced_ack_largest >= offset {
                    self.last_synced_ack_largest + 1
                } else {
                    offset
                };
                let mut found = false;
                while j <= top
                    invariant
                        self.rcvd_packets.wf(),
                        self.rcvd_packets.offset == offset,
                        top < pkt_id < self.rcvd_packets.spec_end(),
                        offset <= j,
                        j > self.last_synced_ack_largest,
                        j <= top + 1 || j == offset,
                        found == exists|k: int|
                            self.last_synced_ack_largest < k < j && self.rcvd_packets.contains(k)
                                && #[trigger] self.rcvd_packets.at(k) == State::NotReceived,
                    decreases top + 1 - j,
                {
                    match self.rcvd_packets.get(j) {
                        Some(State::NotReceived) => {
                            found = true;
                        },
                        _ => {},
                    }
                    j += 1;
                }
                assert(found == self.missing_between(self.last_synced_ack_largest as int, top as int));
                if found {
                    self.new_lost_event = true;
                }
            }
        }
        assert(self.new_lost_event == (old(self).new_lost_event || (old(self).is_newer(pkt_id, is_ack_eliciting)
                && self.missing_between(old(self).last_synced_ack_largest as int, pkt_id - PACKET_THRESHOLD))));
        if pkt_id < self.last_synced_ack_largest {
            self.rcvd_unreached_packet = true;
        }
        let deadline = if now <= u64::MAX - self.max_ack_delay {
            now + self.max_ack_delay
        } else {
            u64::MAX
        };
        self.time_to_sync = match self.time_to_sync {
            Some(t) => Some(if t <= deadline { t } else { deadline }),
            None => Some(deadline),
        };
    }

    /// The ACK frame for what was received: the largest number received,
    /// how long ago it arrived (capped to the varint range), and ranges that
    /// cover exactly the received, undrained packet numbers. Never in 0-RTT.
    #[verifier::spinoff_prover]
    pub fn gen_ack_frame(&self, now: u64) -> (r: AckFrame)
        requires
            self.wf(),
            self.space_id != SpaceId::ZeroRtt,
            self.rcvd_packets.items@.len() > 0,
        ensures
            r.wf(),
            r.largest == self.rcvd_packets.spec_end() - 1,
            r.delay == spec_min_int(
                sat_sub(now, self.rcvd_packets.at(r.largest as int).time()) as int,
                VARINT_MAX as int,
            ),
            r.ecn is None,
            forall|pn: int| #[trigger] r.covers(pn) == self.received(pn),
    {
        let items = &self.rcvd_packets.items;
        let n = items.len();
        let offset = self.rcvd_packets.offset;
        let largest = offset + (n - 1) as u64;
        let d = match items[n - 1].delay(now) {
            Some(d) => d,
            None => 0,
        };
        let delay = if d <= VARINT_MAX { d } else { VARINT_MAX };
        let mut j: usize = n - 1;
        while j > 0 && items[j - 1].has_rcvd()
            invariant
                j < n == items@.len(),
                n == self.rcvd_packets.items@.len(),
                items == &self.rcvd_packets.items,
                self.wf(),
                forall|k: int| j <= k < n ==> (#[trigger] items@[k]).spec_has_rcvd(),
            decreases j,
        {
            j -= 1;
        }
        let first_range = (n - 1 - j) as u64;
        let ghost sm = largest - first_range;
        let mut ranges: Vec<(u64, u64)> = Vec::new();
        loop
            invariant
                self.wf(),
                items == &self.rcvd_packets.items,
                offset == self.rcvd_packets.offset,
                n == items@.len(),
                largest == offset + n - 1,
                sm == largest - first_range,
                first_range <= largest,
                j < n,
                ranges@.len() + j <= n,
                ranges_bottom(sm, ranges@) == offset + j,
                ranges_ok(sm, ranges@),
                items@[j as int].spec_has_rcvd(),
                forall|i: int|
                    0 <= i < ranges@.len() ==> #[trigger] ranges@[i].0 <= VARINT_MAX
                        && ranges@[i].1 <= VARINT_MAX,
                forall|k: int|
                    j <= k < n ==> ((sm <= offset + k <= largest || ranges_cover(sm, ranges@, offset + k))
                        == (#[trigger] items@[k]).spec_has_rcvd()),
                j > 0 ==> !items@[j - 1].spec_has_rcvd(),
            ensures
                self.wf(),
                j < n,
                ranges@.len() <= n,
                ranges_bottom(sm, ranges@) == offset + j,
                ranges_ok(sm, ranges@),
                forall|i: int|
                    0 <= i < ranges@.len() ==> #[trigger] ranges@[i].0 <= VARINT_MAX
                        && ranges@[i].1 <= VARINT_MAX,
                forall|k: int|
                    j <= k < n ==> ((sm <= offset + k <= largest || ranges_cover(sm, ranges@, offset + k))
                        == (#[trigger] items@[k]).spec_has_rcvd()),
                forall|k: int| 0 <= k < j ==> !(#[trigger] items@[k]).spec_has_rcvd(),
            decreases j,
        {
            if j == 0 {
                break;
            }
            let mut g: usize = j;
            while g > 0 && !items[g - 1].has_rcvd()
                invariant
                    g <= j < n == items@.len(),
                    0 < j,
                    !items@[j - 1].spec_has_rcvd(),
                    g < j || g == j,
                    forall|k: int| g <= k < j ==> !(#[trigger] items@[k]).spec_has_rcvd(),
                decreases g,
            {
                g -= 1;
            }
            if g == 0 {
                break;
            }
            let mut a: usize = g - 1;
            while a > 0 && items[a - 1].has_rcvd()
                invariant
                    a < g <= j < n == items@.len(),
                    items@[g - 1].spec_has_rcvd(),
                    forall|k: int| a <= k < g ==> (#[trigger] items@[k]).spec_has_rcvd(),
                decreases a,
            {
                a -= 1;
            }
            let p = ((j - g - 1) as u64, (g - a - 1) as u64);
            proof {
                assert(p.0 <= VARINT_MAX && p.1 <= VARINT_MAX);
                assert(forall|i: int| 0 <= i < ranges@.len() ==> ranges@.push(p)[i] == ranges@[i]);
                assert forall|k: int| a <= k < n implies ((sm <= offset + k <= largest || ranges_cover(sm, ranges@.push(p), offset + k))
                    == (#[trigger] items@[k]).spec_has_rcvd()) by {
                    lemma_ranges_push(sm, ranges@, p, offset + k);
                    lemma_ranges_cover_bounds(sm, ranges@, offset + k);
                }
                lemma_ranges_push(sm, ranges@, p, 0);
            }
            let ghost rs0 = ranges@;
            ranges.push(p);
            proof {
                assert forall|i: int| 0 <= i < ranges@.len() implies #[trigger] ranges@[i].0 <= VARINT_MAX
                    && ranges@[i].1 <= VARINT_MAX by {
                    if i < rs0.len() {
                        assert(ranges@[i] == rs0[i]);
                    } else {
                        assert(ranges@[i] == p);
                    }
                }
            }
            j = a;
        }
        proof {
            assert forall|pn: int| #[trigger] (AckFrame { largest, delay, first_range, ranges, ecn: None }).covers(pn) == self.received(pn) by {
                lemma_ranges_cover_bounds(sm, ranges@, pn);
                if offset <= pn < offset + n {
                    let k = pn - offset;
                    assert(items@[k] == self.rcvd_packets.at(pn));
                }
            }
        }
        AckFrame { largest, delay, first_range, ranges, ecn: None }
    }

    /// Whether packet `pn` is in flight: sent, neither acknowledged nor lost.
    pub open spec fn in_flight(&self, pn: int) -> bool {
        self.inflight_packets.contains(pn) && self.inflight_packets.at(pn) is Some
    }

    /// Takes packet `pn` out of flight, if it is there.
    fn take_packet(&mut self, pn: u64) -> (r: Option<Packet>)
        requires
            old(self).wf(),
        ensures
            final(self).wf(),
            final(self).same_but_inflight(*old(self)),
            final(self).inflight_packets.offset == old(self).inflight_packets.offset,
            final(self).inflight_packets.items@.len() == old(self).inflight_packets.items@.len(),
            !final(self).in_flight(pn as int),
            forall|q: int| q != pn ==> #[trigger] final(self).in_flight(q) == old(self).in_flight(q),
            forall|q: int| q != pn && #[trigger] final(self).inflight_packets.contains(q) ==> final(self).inflight_packets.at(q) == old(self).inflight_packets.at(q),
            r is Some == old(self).in_flight(pn as int),
            r matches Some(p) ==> packet_ok(p, final(self).space_id) && Some(p) == old(self).inflight_packets.at(pn as int),
    {
        let present = match self.inflight_packets.get(pn) {
            Some(Some(_)) => true,
            _ => false,
        };
        if !present {
            return None;
        }
        let r = self.inflight_packets.replace(pn, None);
        proof {
            assert(slot_ok(old(self).inflight_packets.items@[pn - old(self).inflight_packets.offset], self.space_id));
            assert forall|i: int| 0 <= i < self.inflight_packets.items@.len() implies #[trigger] slot_ok(
                self.inflight_packets.items@[i],
                self.space_id,
            ) by {
                if i != pn - self.inflight_packets.offset {
                    assert(slot_ok(old(self).inflight_packets.items@[i], self.space_id));
                }
            }
        }
        r
    }

    /// The fields other than the in-flight packets are unchanged.
    pub open spec fn same_but_inflight(&self, o: Self) -> bool {
        &&& self.space_id == o.space_id
        &&& self.frames == o.frames
        &&& self.rcvd_packets == o.rcvd_packets
        &&& self.largest_acked_pktid == o.largest_acked_pktid
        &&& self.time_to_sync == o.time_to_sync
        &&& self.new_lost_event == o.new_lost_event
        &&& self.rcvd_unreached_packet == o.rcvd_unreached_packet
        &&& self.last_synced_ack_largest == o.last_synced_ack_largest
        &&& self.largest_rcvd_ack_eliciting_pktid == o.largest_rcvd_ack_eliciting_pktid
        &&& self.loss_time == o.loss_time
        &&& self.lost_data == o.lost_data
        &&& self.confirmed_data == o.confirmed_data
    }

    /// Takes every packet numbered `lo..=hi` out of flight, appending them to `acked`.
    fn take_range(&mut self, lo: u64, hi: u64, acked: &mut Vec<Packet>)
        requires
            old(self).wf(),
            forall|i: int| 0 <= i < old(acked)@.len() ==> #[trigger] packet_ok(old(acked)@[i], old(self).space_id),
        ensures
            final(self).wf(),
            final(self).same_but_inflight(*old(self)),
            final(self).inflight_packets.offset == old(self).inflight_packets.offset,
            final(self).inflight_packets.items@.len() == old(self).inflight_packets.items@.len(),
            forall|q: int| lo <= q <= hi ==> !#[trigger] final(self).in_flight(q),
            forall|q: int| !(lo <= q <= hi) ==> #[trigger] final(self).in_flight(q) == old(self).in_flight(q),
            forall|q: int| !(lo <= q <= hi) && #[trigger] final(self).inflight_packets.contains(q) ==> final(self).inflight_packets.at(q) == old(self).inflight_packets.at(q),
            forall|i: int| 0 <= i < final(acked)@.len() ==> #[trigger] packet_ok(final(acked)@[i], final(self).space_id),
            old(acked)@.len() <= final(acked)@.len(),
            (exists|q: int| lo <= q <= hi && old(self).in_flight(q)) ==> old(acked)@.len() < final(acked)@.len(),
            !(exists|q: int| lo <= q <= hi && old(self).in_flight(q)) ==> final(acked)@ == old(acked)@,
    {
        if lo > hi {
            return;
        }
        let start = if lo < self.inflight_packets.offset { self.inflight_packets.offset } else { lo };
        let end = self.inflight_packets.end();
        if start >= end {
            assert(forall|q: int| lo <= q <= hi ==> !old(self).in_flight(q));
            return;
        }
        let stop = if hi < end - 1 { hi } else { end - 1 };
        if start > stop {
            assert(forall|q: int| lo <= q <= hi ==> !old(self).in_flight(q));
            return;
        }
        let mut pn = start;
        let ghost first_len = acked@.len();
        while pn <= stop
            invariant
                self.wf(),
                self.same_but_inflight(*old(self)),
                self.inflight_packets.offset == old(self).inflight_packets.offset,
                self.inflight_packets.items@.len() == old(self).inflight_packets.items@.len(),
                end == self.inflight_packets.spec_end(),
                lo <= start <= pn,
                start >= self.inflight_packets.offset,
                stop <= hi,
                stop < end,
                pn <= stop + 1,
                first_len == old(acked)@.len(),
                forall|q: int| start <= q < pn ==> !#[trigger] self.in_flight(q),
                forall|q: int| !(start <= q < pn) ==> #[trigger] self.in_flight(q) == old(self).in_flight(q),
                forall|q: int| !(start <= q < pn) && #[trigger] self.inflight_packets.contains(q) ==> self.inflight_packets.at(q) == old(self).inflight_packets.at(q),
                forall|i: int| 0 <= i < acked@.len() ==> #[trigger] packet_ok(acked@[i], self.space_id),
                old(acked)@.len() <= acked@.len(),
                (exists|q: int| start <= q < pn && old(self).in_flight(q)) ==> old(acked)@.len() < acked@.len(),
                !(exists|q: int| start <= q < pn && old(self).in_flight(q)) ==> acked@ == old(acked)@,
            decreases stop + 1 - pn,
        {
            let ghost mid = *self;
            match self.take_packet(pn) {
                Some(p) => {
                    acked.push(p);
                },
                None => {},
            }
            proof {
                assert forall|q: int| !(start <= q < pn + 1) && #[trigger] self.inflight_packets.contains(q) implies self.inflight_packets.at(q) == old(self).inflight_packets.at(q) by {
                    assert(mid.inflight_packets.contains(q));
                }
            }
            pn += 1;
        }
        assert(forall|q: int| lo <= q < start || stop < q <= hi ==> !old(self).in_flight(q));
    }

    /// Acts on the acknowledgement of a packet's payload: an ACK it carried
    /// lets the received packets up to that ACK's largest, less the disorder
    /// tolerance, be drained; data ranges are confirmed to their buffers.
    fn confirm(&mut self, payload: Vec<Record>)
        requires
            old(self).wf(),
        ensures
            final(self).wf(),
            final(self).space_id == old(self).space_id,
            final(self).frames == old(self).frames,
            final(self).inflight_packets == old(self).inflight_packets,
            final(self).largest_acked_pktid == old(self).largest_acked_pktid,
            final(self).loss_time == old(self).loss_time,
            final(self).lost_data == old(self).lost_data,
            final(self).confirmed_data@ == old(self).confirmed_data@ + data_frames(payload@),
            final(self).disorder_tolerance == old(self).disorder_tolerance,
            final(self).rcvd_packets.offset >= old(self).rcvd_packets.offset,
            final(self).rcvd_packets.spec_end() == old(self).rcvd_packets.spec_end(),
            final(self).rcvd_packets.items@ == old(self).rcvd_packets.items@.skip(
                final(self).rcvd_packets.offset - old(self).rcvd_packets.offset,
            ),
            forall|j: int| 0 <= j < payload@.len() ==> (#[trigger] payload@[j] matches Record::Ack(l)
                ==> final(self).rcvd_packets.offset >= spec_min_int(
                sat_sub(l, old(self).disorder_tolerance) as int,
                old(self).rcvd_packets.spec_end(),
            )),
    {
        let ghost all = payload@;
        let mut payload = payload;
        let ghost mut i: int = 0;
        assert(old(self).rcvd_packets.items@.skip(0) =~= old(self).rcvd_packets.items@);
        assert(all.skip(0) =~= all);
        while payload.len() > 0
            invariant
                self.wf(),
                self.space_id == old(self).space_id,
                self.frames == old(self).frames,
                self.inflight_packets == old(self).inflight_packets,
                self.largest_acked_pktid == old(self).largest_acked_pktid,
                self.loss_time == old(self).loss_time,
                self.lost_data == old(self).lost_data,
                old(self).confirmed_data@ + data_frames(all) == self.confirmed_data@ + data_frames(payload@),
                self.disorder_tolerance == old(self).disorder_tolerance,
                self.rcvd_packets.offset >= old(self).rcvd_packets.offset,
                self.rcvd_packets.spec_end() == old(self).rcvd_packets.spec_end(),
                self.rcvd_packets.items@ == old(self).rcvd_packets.items@.skip(
                    self.rcvd_packets.offset - old(self).rcvd_packets.offset,
                ),
                0 <= i <= all.len(),
                payload@ == all.skip(i),
                forall|j: int| 0 <= j < i ==> (#[trigger] all[j] matches Record::Ack(l)
                    ==> self.rcvd_packets.offset >= spec_min_int(
                    sat_sub(l, old(self).disorder_tolerance) as int,
                    old(self).rcvd_packets.spec_end(),
                )),
            decreases payload@.len(),
        {
            let ghost before = payload@;
            let ghost cs = self.confirmed_data@;
            let record = payload.remove(0);
            proof {
                assert(record == all[i]);
                assert(payload@ =~= all.skip(i + 1));
                assert(before[0] == record);
                assert(before.skip(1) =~= payload@);
            }
            match record {
                Record::Ack(largest) => {
                    let end = if largest >= self.disorder_tolerance {
                        largest - self.disorder_tolerance
                    } else {
                        0
                    };
                    let ghost before = self.rcvd_packets;
                    let _ = self.rcvd_packets.drain_to(end);
                    proof {
                        if self.rcvd_packets.items@.len() > 0 {
                            assert(self.rcvd_packets.items@.last() == before.items@.last());
                        }
                        assert(self.rcvd_packets.items@ =~= old(self).rcvd_packets.items@.skip(
                            self.rcvd_packets.offset - old(self).rcvd_packets.offset));
                    }
                },
                Record::Pure(_) => {},
                Record::Data(DataFrame::Crypto(f)) => {
                    self.confirmed_data = Ghost(self.confirmed_data@.push(DataFrame::Crypto(f)));
                    self.tls_trans.confirm_data(DataFrame::Crypto(f));
                },
                Record::Data(DataFrame::Stream(f)) => {
                    self.confirmed_data = Ghost(self.confirmed_data@.push(DataFrame::Stream(f)));
                    self.stm_trans.confirm_data(DataFrame::Stream(f));
                },
            }
            assert(cs + data_frames(before) =~= self.confirmed_data@ + data_frames(payload@));
            proof {
                i = i + 1;
            }
        }
        assert(data_frames(payload@) =~= Seq::<DataFrame>::empty());
        assert(self.confirmed_data@ =~= old(self).confirmed_data@ + data_frames(all));
    }

    /// Acts on the loss of a packet's payload: control frames go back to the
    /// queue, in order; data ranges are reported to their buffers.
    fn requeue(&mut self, payload: Vec<Record>)
        requires
            old(self).wf(),
            forall|j: int| 0 <= j < payload@.len() ==> #[trigger] record_ok(payload@[j], old(self).space_id),
        ensures
            final(self).wf(),
            final(self).same_but_frames(*old(self)),
            final(self).frames@ == old(self).frames@ + pure_frames(payload@),
            final(self).lost_data@ == old(self).lost_data@ + data_frames(payload@),
    {
        let ghost all = payload@;
        let mut payload = payload;
        assert(old(self).frames@ + pure_frames(all) =~= self.frames@ + pure_frames(payload@));
        assert(old(self).lost_data@ + data_frames(all) =~= self.lost_data@ + data_frames(payload@));
        while payload.len() > 0
            invariant
                self.wf(),
                self.same_but_frames(*old(self)),
                old(self).frames@ + pure_frames(all) == self.frames@ + pure_frames(payload@),
                old(self).lost_data@ + data_frames(all) == self.lost_data@ + data_frames(payload@),
                forall|j: int| 0 <= j < payload@.len() ==> #[trigger] record_ok(payload@[j], self.space_id),
            decreases payload@.len(),
        {
            let ghost before = payload@;
            let ghost fs = self.frames@;
            let ghost ls = self.lost_data@;
            let record = payload.remove(0);
            assert(record_ok(before[0], self.space_id));
            assert(forall|j: int| 0 <= j < payload@.len() ==> payload@[j] == before[j + 1]);
            assert(payload@ =~= before.skip(1));
            match record {
                Record::Ack(_) => {
                    assert(pure_frames(before) =~= pure_frames(payload@));
                    assert(data_frames(before) =~= data_frames(payload@));
                },
                Record::Pure(f) => {
                    self.frames.push(f);
                    assert(forall|i: int| 0 <= i < fs.len() ==> self.frames@[i] == fs[i]);
                    assert(fs + pure_frames(before) =~= self.frames@ + pure_frames(payload@));
                    assert(data_frames(before) =~= data_frames(payload@));
                },
                Record::Data(DataFrame::Crypto(f)) => {
                    assert(pure_frames(before) =~= pure_frames(payload@));
                    self.lost_data = Ghost(self.lost_data@.push(DataFrame::Crypto(f)));
                    assert(ls + data_frames(before) =~= self.lost_data@ + data_frames(payload@));
                    self.tls_trans.may_loss_data(DataFrame::Crypto(f));
                },
                Record::Data(DataFrame::Stream(f)) => {
                    assert(pure_frames(before) =~= pure_frames(payload@));
                    self.lost_data = Ghost(self.lost_data@.push(DataFrame::Stream(f)));
                    assert(ls + data_frames(before) =~= self.lost_data@ + data_frames(payload@));
                    self.stm_trans.may_loss_data(DataFrame::Stream(f));
                },
            }
        }
        assert(pure_frames(payload@) =~= Seq::<Frame>::empty());
        assert(data_frames(payload@) =~= Seq::<DataFrame>::empty());
        assert(self.lost_data@ =~= old(self).lost_data@ + data_frames(all));
        assert(self.frames@ =~= old(self).frames@ + pure_frames(all));
    }

    /// The fields other than the queue of control frames and the data
    /// sources are unchanged.
    pub open spec fn same_but_frames(&self, o: Self) -> bool {
        &&& self.space_id == o.space_id
        &&& self.inflight_packets == o.inflight_packets
        &&& self.rcvd_packets == o.rcvd_packets
        &&& self.largest_acked_pktid == o.largest_acked_pktid
        &&& self.loss_time == o.loss_time
        &&& self.confirmed_data == o.confirmed_data
    }

    /// Whether the ACK frame's ranges stay at or above packet number 0, as
    /// the parser ensures.
    pub open spec fn ack_valid(ack: &AckFrame) -> bool {
        &&& ack.first_range <= ack.largest
        &&& ack.largest <= VARINT_MAX
        &&& ranges_ok(ack.largest - ack.first_range, ack.ranges@)
    }

    /// Whether `ack` tells nothing new: its largest is not above the largest
    /// already acknowledged.
    pub open spec fn ack_is_stale(&self, ack: &AckFrame) -> bool {
        self.largest_acked_pktid matches Some(v) && ack.largest <= v
    }

    /// Takes out of flight every packet the ACK frame covers; the largest
    /// acknowledged is taken first and returned apart.
    fn take_acked(&mut self, ack: &AckFrame, acked: &mut Vec<Packet>) -> (r: Option<Packet>)
        requires
            old(self).wf(),
            Self::ack_valid(ack),
            old(acked)@.len() == 0,
        ensures
            final(self).wf(),
            final(self).same_but_inflight(*old(self)),
            forall|pn: int| #[trigger] ack.covers(pn) ==> !final(self).in_flight(pn),
            forall|pn: int| !ack.covers(pn) ==> #[trigger] final(self).in_flight(pn) == old(self).in_flight(pn),
            forall|i: int| 0 <= i < final(acked)@.len() ==> #[trigger] packet_ok(final(acked)@[i], final(self).space_id),
            (r is Some || final(acked)@.len() > 0) == exists|pn: int| #[trigger] ack.covers(pn) && old(self).in_flight(pn),
            r is Some == old(self).in_flight(ack.largest as int),
            r matches Some(p) ==> packet_ok(p, final(self).space_id) && Some(p) == old(self).inflight_packets.at(ack.largest as int),
            final(self).inflight_packets.offset == old(self).inflight_packets.offset,
            final(self).inflight_packets.items@ == old(self).acked_slots(ack),
    {
        let largest = ack.largest;
        let r = self.take_packet(largest);
        let ghost after_largest = *self;
        let sm = largest - ack.first_range;
        self.take_range(sm, largest, acked);
        let mut bottom = sm;
        let mut i: usize = 0;
        proof {
            assert(ack.ranges@.take(0) =~= Seq::<(u64, u64)>::empty());
            assert forall|pn: int| #![trigger self.inflight_packets.at(pn)]
                !(sm <= pn <= largest || ranges_cover(sm as int, ack.ranges@.take(0), pn))
                && self.inflight_packets.contains(pn) implies self.inflight_packets.at(pn) == old(self).inflight_packets.at(pn) by {
                assert(after_largest.inflight_packets.contains(pn));
            }
            if exists|pn: int| (sm <= pn <= largest || ranges_cover(sm as int, ack.ranges@.take(0), pn)) && #[trigger] old(self).in_flight(pn) {
                let pn = choose|pn: int| (sm <= pn <= largest || ranges_cover(sm as int, ack.ranges@.take(0), pn)) && #[trigger] old(self).in_flight(pn);
                if pn != largest {
                    assert(after_largest.in_flight(pn));
                }
            }
            if r is Some {
                assert(old(self).in_flight(largest as int));
                assert(sm <= largest as int <= largest || ranges_cover(sm as int, ack.ranges@.take(0), largest as int));
            } else if acked@.len() > 0 {
                let q = choose|q: int| sm <= q <= largest && after_largest.in_flight(q);
                assert(old(self).in_flight(q));
                assert(sm <= q <= largest || ranges_cover(sm as int, ack.ranges@.take(0), q));
            }
        }
        while i < ack.ranges.len()
            invariant
                self.wf(),
                self.same_but_inflight(*old(self)),
                self.inflight_packets.offset == old(self).inflight_packets.offset,
                self.inflight_packets.items@.len() == old(self).inflight_packets.items@.len(),
                forall|pn: int| #![trigger self.inflight_packets.at(pn)]
                    !(sm <= pn <= largest || ranges_cover(sm as int, ack.ranges@.take(i as int), pn))
                    && self.inflight_packets.contains(pn) ==> self.inflight_packets.at(pn) == old(self).inflight_packets.at(pn),
                Self::ack_valid(ack),
                sm == ack.largest - ack.first_range,
                largest == ack.largest,
                i <= ack.ranges@.len(),
                bottom == ranges_bottom(sm as int, ack.ranges@.take(i as int)),
                bottom <= sm,
                forall|pn: int| #![trigger self.in_flight(pn)]
                    (sm <= pn <= largest || ranges_cover(sm as int, ack.ranges@.take(i as int), pn)) ==> !self.in_flight(pn),
                forall|pn: int| #![trigger self.in_flight(pn)]
                    !(sm <= pn <= largest || ranges_cover(sm as int, ack.ranges@.take(i as int), pn)) ==> self.in_flight(pn) == old(self).in_flight(pn),
                forall|j: int| 0 <= j < acked@.len() ==> #[trigger] packet_ok(acked@[j], self.space_id),
                (r is Some || acked@.len() > 0) == exists|pn: int|
                    (sm <= pn <= largest || ranges_cover(sm as int, ack.ranges@.take(i as int), pn)) && #[trigger] old(self).in_flight(pn),
            decreases ack.ranges@.len() - i,
        {
            let (gap, run) = ack.ranges[i];
            proof {
                lemma_ranges_ok_prefix(sm as int, ack.ranges@, i + 1);
                assert(ack.ranges@.take(i as int).push((gap, run)) =~= ack.ranges@.take(i + 1));
                lemma_ranges_push(sm as int, ack.ranges@.take(i as int), (gap, run), 0);
            }
            let hi = bottom - gap - 2;
            let lo = hi - run;
            let ghost mid = *self;
            let ghost mid_len = acked@.len();
            self.take_range(lo, hi, acked);
            proof {
                assert forall|pn: int| #![trigger self.in_flight(pn)]
                    (sm <= pn <= largest || ranges_cover(sm as int, ack.ranges@.take(i + 1), pn)) ==> !self.in_flight(pn) by {
                    lemma_ranges_push(sm as int, ack.ranges@.take(i as int), (gap, run), pn);
                }
                assert forall|pn: int| #![trigger self.in_flight(pn)]
                    !(sm <= pn <= largest || ranges_cover(sm as int, ack.ranges@.take(i + 1), pn)) implies self.in_flight(pn) == old(self).in_flight(pn) by {
                    lemma_ranges_push(sm as int, ack.ranges@.take(i as int), (gap, run), pn);
                    assert(mid.in_flight(pn) == old(self).in_flight(pn));
                }
                assert forall|pn: int| #![trigger self.inflight_packets.at(pn)]
                    !(sm <= pn <= largest || ranges_cover(sm as int, ack.ranges@.take(i + 1), pn))
                    && self.inflight_packets.contains(pn) implies self.inflight_packets.at(pn) == old(self).inflight_packets.at(pn) by {
                    lemma_ranges_push(sm as int, ack.ranges@.take(i as int), (gap, run), pn);
                    assert(mid.inflight_packets.contains(pn));
                }
                assert forall|q: int| lo <= q <= hi implies mid.in_flight(q) == #[trigger] old(self).in_flight(q) by {
                    lemma_ranges_cover_bounds(sm as int, ack.ranges@.take(i as int), q);
                }
                if exists|pn: int| (sm <= pn <= largest || ranges_cover(sm as int, ack.ranges@.take(i + 1), pn)) && #[trigger] old(self).in_flight(pn) {
                    let pn = choose|pn: int| (sm <= pn <= largest || ranges_cover(sm as int, ack.ranges@.take(i + 1), pn)) && #[trigger] old(self).in_flight(pn);
                    lemma_ranges_push(sm as int, ack.ranges@.take(i as int), (gap, run), pn);
                    if sm <= pn <= largest || ranges_cover(sm as int, ack.ranges@.take(i as int), pn) {
                        assert(exists|p: int| (sm <= p <= largest || ranges_cover(sm as int, ack.ranges@.take(i as int), p)) && #[trigger] old(self).in_flight(p));
                    } else {
                        assert(lo <= pn <= hi);
                        assert(mid.in_flight(pn));
                    }
                }
                if r is Some || mid_len > 0 {
                    let p = choose|p: int| (sm <= p <= largest || ranges_cover(sm as int, ack.ranges@.take(i as int), p)) && #[trigger] old(self).in_flight(p);
                    lemma_ranges_push(sm as int, ack.ranges@.take(i as int), (gap, run), p);
                    assert(sm <= p <= largest || ranges_cover(sm as int, ack.ranges@.take(i + 1), p));
                } else if acked@.len() > 0 {
                    let q = choose|q: int| lo <= q <= hi && mid.in_flight(q);
                    lemma_ranges_push(sm as int, ack.ranges@.take(i as int), (gap, run), q);
                    assert(old(self).in_flight(q));
                    assert(sm <= q <= largest || ranges_cover(sm as int, ack.ranges@.take(i + 1), q));
                }
            }
            bottom = lo;
            i += 1;
        }
        proof {
            assert(ack.ranges@.take(i as int) =~= ack.ranges@);
            if exists|pn: int| #[trigger] ack.covers(pn) && old(self).in_flight(pn) {
                let pn = choose|pn: int| #[trigger] ack.covers(pn) && old(self).in_flight(pn);
                assert((sm <= pn <= largest || ranges_cover(sm as int, ack.ranges@.take(i as int), pn)) && old(self).in_flight(pn));
            }
            if r is Some || acked@.len() > 0 {
                let p = choose|p: int| (sm <= p <= largest || ranges_cover(sm as int, ack.ranges@.take(i as int), p)) && #[trigger] old(self).in_flight(p);
                assert(ack.covers(p));
            }
            let o = self.inflight_packets.offset;
            assert forall|j: int| 0 <= j < self.inflight_packets.items@.len() implies self.inflight_packets.items@[j]
                == old(self).acked_slots(ack)[j] by {
                assert(self.inflight_packets.contains(o + j));
                assert(self.inflight_packets.at(o + j) == self.inflight_packets.items@[j]);
                assert(old(self).inflight_packets.at(o + j) == old(self).inflight_packets.items@[j]);
                if ack.covers(o + j) {
                    assert(!self.in_flight(o + j));
                }
            }
            assert(self.inflight_packets.items@ =~= old(self).acked_slots(ack));
        }
        r
    }

    /// Processes an ACK frame received at `now`. An ACK whose largest is not
    /// above the largest already acknowledged changes nothing. Otherwise
    /// every packet it covers leaves flight and its payload is confirmed (its
    /// ACK records drain the received packets, its data ranges go to their
    /// sources); an RTT sample is taken when the largest acknowledged was in
    /// flight and ack-eliciting. Loss detection follows: packets
    /// `PACKET_THRESHOLD` or more below the largest are lost, and so are the
    /// first packets below it sent a loss delay or more ago; their control
    /// frames are queued again in order and their data ranges reported lost.
    /// Returns the bytes newly acknowledged, or `None` when no packet was.
    pub fn recv_ack_frame(&mut self, ack: &AckFrame, now: u64, rtt: &mut Rtt) -> (r: Option<usize>)
        requires
            old(self).wf(),
            Self::ack_valid(ack),
        ensures
            final(self).wf(),
            final(self).space_id == old(self).space_id,
            old(self).ack_is_stale(ack) ==> r is None && *final(self) == *old(self) && *final(rtt) == *old(rtt),
            !old(self).ack_is_stale(ack) ==> {
                &&& final(self).largest_acked_pktid == Some(ack.largest)
                &&& (r is Some == exists|pn: int| #[trigger] ack.covers(pn) && old(self).in_flight(pn))
                &&& forall|pn: int| #[trigger] ack.covers(pn) ==> !final(self).in_flight(pn)
                &&& forall|pn: int| #[trigger] final(self).in_flight(pn) ==> old(self).in_flight(pn)
                    && final(self).inflight_packets.at(pn) == old(self).inflight_packets.at(pn)
                &&& forall|pn: int| pn <= ack.largest - PACKET_THRESHOLD ==> !#[trigger] final(self).in_flight(pn)
                &&& final(self).frames@ == old(self).frames@ + old(self).requeued_after(ack, now, final(rtt).spec_loss_delay())
                &&& final(self).lost_data@ == old(self).lost_data@ + old(self).lost_after(ack, now, final(rtt).spec_loss_delay())
                &&& forall|pn: int| pn < ack.largest && #[trigger] final(self).in_flight(pn) ==> {
                    &&& final(self).inflight_packets.at(pn).unwrap().send_time + final(rtt).spec_loss_delay() > now
                    &&& final(self).loss_time matches Some(t) && t <= sat_add(final(self).inflight_packets.at(pn).unwrap().send_time, final(rtt).spec_loss_delay())
                }
                &&& final(self).loss_time matches Some(t) ==> exists|pn: int| pn < ack.largest && #[trigger] final(self).in_flight(pn)
                    && t == sat_add(final(self).inflight_packets.at(pn).unwrap().send_time, final(rtt).spec_loss_delay())
                &&& final(self).inflight_packets.items@.len() == 0 || final(self).inflight_packets.items@[0] is Some
                &&& old(self).confirmed_data@.is_prefix_of(final(self).confirmed_data@)
                &&& (old(self).in_flight(ack.largest as int) ==> final(self).confirmed_data@.subrange(
                    old(self).confirmed_data@.len() as int,
                    old(self).confirmed_data@.len() + data_frames(old(self).inflight_packets.at(ack.largest as int).unwrap().payload@).len() as int,
                ) == data_frames(old(self).inflight_packets.at(ack.largest as int).unwrap().payload@))
                &&& final(self).rcvd_packets.offset >= old(self).rcvd_packets.offset
                &&& final(self).rcvd_packets.spec_end() == old(self).rcvd_packets.spec_end()
                &&& final(self).rcvd_packets.items@ == old(self).rcvd_packets.items@.skip(
                    final(self).rcvd_packets.offset - old(self).rcvd_packets.offset)
            },
            ({
                let sampled = !old(self).ack_is_stale(ack) && old(self).in_flight(ack.largest as int)
                    && old(self).inflight_packets.at(ack.largest as int).unwrap().is_ack_eliciting;
                &&& sampled ==> *final(rtt) == old(rtt).spec_update(
                    sat_sub(now, old(self).inflight_packets.at(ack.largest as int).unwrap().send_time),
                    ack.delay,
                    old(self).space_id == SpaceId::OneRtt,
                )
                &&& !sampled ==> *final(rtt) == *old(rtt)
            }),
    {
        match self.largest_acked_pktid {
            Some(v) => {
                if ack.largest <= v {
                    return None;
                }
            },
            None => {},
        }
        self.largest_acked_pktid = Some(ack.largest);
        let ghost o = *self;
        let mut acked: Vec<Packet> = Vec::new();
        let largest_packet = self.take_acked(ack, &mut acked);
        let newly_acked = largest_packet.is_some() || acked.len() > 0;
        let mut acked_bytes: usize = 0;
        match largest_packet {
            Some(p) => {
                if p.is_ack_eliciting {
                    let sample = if now >= p.send_time { now - p.send_time } else { 0 };
                    rtt.update(sample, ack.delay, self.space_id == SpaceId::OneRtt);
                }
                acked_bytes = p.sent_bytes;
                self.confirm(p.payload);
                assert(self.rcvd_packets.items@ =~= old(self).rcvd_packets.items@.skip(
                    self.rcvd_packets.offset - old(self).rcvd_packets.offset));
            },
            None => {},
        }
        let ghost after_take = self.inflight_packets;
        let ghost confirmed_first = self.confirmed_data@;
        assert(old(self).confirmed_data@.is_prefix_of(confirmed_first));
        assert(old(self).rcvd_packets.items@.skip(0) =~= old(self).rcvd_packets.items@);
        assert(self.rcvd_packets.items@ =~= old(self).rcvd_packets.items@.skip(
            self.rcvd_packets.offset - old(self).rcvd_packets.offset));
        while acked.len() > 0
            invariant
                self.rcvd_packets.offset >= old(self).rcvd_packets.offset,
                self.rcvd_packets.spec_end() == old(self).rcvd_packets.spec_end(),
                self.rcvd_packets.items@ == old(self).rcvd_packets.items@.skip(
                    self.rcvd_packets.offset - old(self).rcvd_packets.offset),
                self.wf(),
                self.space_id == old(self).space_id,
                self.largest_acked_pktid == Some(ack.largest),
                self.inflight_packets == after_take,
                self.frames == old(self).frames,
                self.lost_data == old(self).lost_data,
                confirmed_first.is_prefix_of(self.confirmed_data@),
            decreases acked@.len(),
        {
            let p = acked.remove(0);
            acked_bytes = if acked_bytes <= usize::MAX - p.sent_bytes {
                acked_bytes + p.sent_bytes
            } else {
                usize::MAX
            };
            let ghost pre = self.rcvd_packets;
            let ghost cd = self.confirmed_data@;
            self.confirm(p.payload);
            assert(confirmed_first.is_prefix_of(self.confirmed_data@)) by {
                assert(forall|i: int| 0 <= i < confirmed_first.len() ==> self.confirmed_data@[i] == cd[i]);
            }
            assert(self.rcvd_packets.items@ =~= old(self).rcvd_packets.items@.skip(
                self.rcvd_packets.offset - old(self).rcvd_packets.offset));
        }
        let ghost mid = *self;
        proof {
            assert(o.acked_slots(ack) =~= old(self).acked_slots(ack));
            assert forall|pn: int| #[trigger] mid.in_flight(pn) implies old(self).in_flight(pn)
                && mid.inflight_packets.at(pn) == old(self).inflight_packets.at(pn) && !ack.covers(pn) by {
                let j = pn - o.inflight_packets.offset;
                assert(mid.inflight_packets.items@[j] == o.acked_slots(ack)[j]);
            }
        }
        assert(mid.lost_data == old(self).lost_data);
        assert(mid.inflight_packets.items@ == old(self).acked_slots(ack));
        assert(mid.inflight_packets.offset == old(self).inflight_packets.offset);
        proof {
            assert(old(self).confirmed_data@.is_prefix_of(self.confirmed_data@)) by {
                assert(forall|i: int| 0 <= i < old(self).confirmed_data@.len() ==> self.confirmed_data@[i] == confirmed_first[i]);
            }
            if old(self).in_flight(ack.largest as int) {
                let n0 = old(self).confirmed_data@.len() as int;
                let dl = data_frames(old(self).inflight_packets.at(ack.largest as int).unwrap().payload@);
                assert(confirmed_first =~= old(self).confirmed_data@ + dl);
                assert(self.confirmed_data@.subrange(n0, n0 + dl.len()) =~= confirmed_first.subrange(n0, n0 + dl.len()));
            }
        }
        let d = rtt.loss_delay();
        self.detect_lost(ack.largest, now, d);
        assert(self.lost_data@ =~= old(self).lost_data@ + old(self).lost_after(ack, now, d));
        assert(self.frames@ =~= old(self).frames@ + old(self).requeued_after(ack, now, d));
        proof {
            assert forall|pn: int| #[trigger] self.in_flight(pn) implies old(self).in_flight(pn)
                && self.inflight_packets.at(pn) == old(self).inflight_packets.at(pn) && !ack.covers(pn) by {
                assert(mid.in_flight(pn));
            }
        }
        if newly_acked {
            Some(acked_bytes)
        } else {
            None
        }
    }

    /// Loss detection after an ACK whose largest is `largest`: the packets
    /// `PACKET_THRESHOLD` or more below it are lost; of those just below it,
    /// the ones sent `loss_delay` or more before `now` are lost too, and the
    /// others set the loss timer. Lost payloads are queued again; empty slots
    /// at the front are dropped.
    /// Loses the packets `PACKET_THRESHOLD` or more below `largest`.
    fn lose_by_threshold(&mut self, largest: u64)
        requires
            old(self).wf(),
        ensures
            final(self).wf(),
            final(self).space_id == old(self).space_id,
            final(self).largest_acked_pktid == old(self).largest_acked_pktid,
            final(self).confirmed_data == old(self).confirmed_data,
            final(self).rcvd_packets == old(self).rcvd_packets,
            final(self).loss_time == old(self).loss_time,
            final(self).frames@ == old(self).frames@ + slots_frames(old(self).inflight_packets.items@.take(old(self).threshold_cut(largest))),
            final(self).lost_data@ == old(self).lost_data@ + slots_data(old(self).inflight_packets.items@.take(old(self).threshold_cut(largest))),
            final(self).inflight_packets.offset == old(self).inflight_packets.offset + old(self).threshold_cut(largest),
            final(self).inflight_packets.items@ == old(self).inflight_packets.items@.skip(old(self).threshold_cut(largest)),
            final(self).threshold_cut(largest) == 0,
    {
        let ghost cut = self.threshold_cut(largest);
        let ghost drained_all = self.inflight_packets.items@.take(cut);
        if largest >= PACKET_THRESHOLD {
            let ghost before = self.inflight_packets;
            let lost = self.inflight_packets.drain_to(largest - PACKET_THRESHOLD + 1);
            proof {
                assert(lost@ =~= drained_all);
                assert forall|j: int| 0 <= j < self.inflight_packets.items@.len() implies #[trigger] slot_ok(
                    self.inflight_packets.items@[j], self.space_id) by {
                    assert(slot_ok(before.items@[j + (self.inflight_packets.offset - before.offset)], self.space_id));
                }
                assert forall|j: int| 0 <= j < lost@.len() implies #[trigger] slot_ok(lost@[j], self.space_id) by {
                    assert(slot_ok(before.items@[j], self.space_id));
                }
            }
            let ghost drained = self.inflight_packets;
            let mut lost = lost;
            assert(old(self).frames@ + slots_frames(drained_all) =~= self.frames@ + slots_frames(lost@));
            assert(old(self).lost_data@ + slots_data(drained_all) =~= self.lost_data@ + slots_data(lost@));
            while lost.len() > 0
                invariant
                    self.wf(),
                    self.space_id == old(self).space_id,
                    self.largest_acked_pktid == old(self).largest_acked_pktid,
                self.confirmed_data == old(self).confirmed_data,
                    self.confirmed_data == old(self).confirmed_data,
                    self.rcvd_packets == old(self).rcvd_packets,
                    self.loss_time == old(self).loss_time,
                    self.inflight_packets == drained,
                    old(self).frames@ + slots_frames(drained_all) == self.frames@ + slots_frames(lost@),
                    old(self).lost_data@ + slots_data(drained_all) == self.lost_data@ + slots_data(lost@),
                    forall|j: int| 0 <= j < lost@.len() ==> #[trigger] slot_ok(lost@[j], self.space_id),
                decreases lost@.len(),
            {
                let ghost before = lost@;
                let ghost fs = self.frames@;
                let ghost ls = self.lost_data@;
                let slot = lost.remove(0);
                assert(slot_ok(before[0], self.space_id));
                assert(forall|j: int| 0 <= j < lost@.len() ==> lost@[j] == before[j + 1]);
                assert(lost@ =~= before.skip(1));
                match slot {
                    Some(p) => {
                        self.requeue(p.payload);
                        assert(fs + slots_frames(before) =~= self.frames@ + slots_frames(lost@));
                        assert(ls + slots_data(before) =~= self.lost_data@ + slots_data(lost@));
                    },
                    None => {
                        assert(fs + slots_frames(before) =~= self.frames@ + slots_frames(lost@));
                        assert(ls + slots_data(before) =~= self.lost_data@ + slots_data(lost@));
                    },
                }
            }
            assert(slots_frames(lost@) =~= Seq::<Frame>::empty());
            assert(self.frames@ =~= old(self).frames@ + slots_frames(drained_all));
            assert(self.lost_data@ =~= old(self).lost_data@ + slots_data(drained_all));
        } else {
            assert(drained_all =~= Seq::<Option<Packet>>::empty());
            assert(self.frames@ =~= old(self).frames@ + slots_frames(drained_all));
            assert(self.lost_data@ =~= old(self).lost_data@ + slots_data(drained_all));
        }
        assert(self.inflight_packets.items@ =~= old(self).inflight_packets.items@.skip(cut));
    }

    /// Of the first `PACKET_THRESHOLD` packets below `largest`, loses those
    /// sent `loss_delay` or more before `now` and sets the loss timer from
    /// the others.
    #[verifier::rlimit(60)]
    /// Loses packet `pn` if it was sent `loss_delay` or more before `now`;
    /// otherwise a packet there sets the loss timer no later than its expiry.
    fn scan_one(&mut self, pn: u64, now: u64, loss_delay: u64)
        requires
            old(self).wf(),
            old(self).inflight_packets.contains(pn as int),
        ensures
            final(self).wf(),
            final(self).space_id == old(self).space_id,
            final(self).largest_acked_pktid == old(self).largest_acked_pktid,
            final(self).confirmed_data == old(self).confirmed_data,
            final(self).rcvd_packets == old(self).rcvd_packets,
            final(self).inflight_packets.offset == old(self).inflight_packets.offset,
            final(self).inflight_packets.items@.len() == old(self).inflight_packets.items@.len(),
            forall|q: int| q != pn ==> #[trigger] final(self).in_flight(q) == old(self).in_flight(q),
            forall|q: int| q != pn && #[trigger] final(self).inflight_packets.contains(q) ==> final(self).inflight_packets.at(q) == old(self).inflight_packets.at(q),
            ({
                let slot = old(self).inflight_packets.at(pn as int);
                let lost = slot matches Some(p) && p.send_time + loss_delay <= now;
                &&& final(self).frames@ == old(self).frames@ + slots_frames(seq![if lost { slot } else { None }])
                &&& final(self).lost_data@ == old(self).lost_data@ + slots_data(seq![if lost { slot } else { None }])
                &&& lost ==> !final(self).in_flight(pn as int) && final(self).loss_time == old(self).loss_time
                &&& !lost ==> final(self).inflight_packets.at(pn as int) == slot
                &&& slot is None ==> final(self).loss_time == old(self).loss_time
                &&& (slot is Some && !lost) ==> final(self).loss_time == Some(
                    match old(self).loss_time {
                        Some(l) => spec_min_int(l as int, sat_add(slot->Some_0.send_time, loss_delay) as int) as u64,
                        None => sat_add(slot->Some_0.send_time, loss_delay),
                    },
                )
            }),
    {
        let send_time = match self.inflight_packets.get(pn) {
            Some(Some(p)) => Some(p.send_time),
            _ => None,
        };
        let ghost slot = self.inflight_packets.at(pn as int);
        proof {
            assert(seq![slot].skip(1) =~= Seq::<Option<Packet>>::empty());
            assert(seq![None::<Packet>].skip(1) =~= Seq::<Option<Packet>>::empty());
            assert(slots_frames(Seq::<Option<Packet>>::empty()) =~= Seq::<Frame>::empty());
            assert(slots_data(Seq::<Option<Packet>>::empty()) =~= Seq::<DataFrame>::empty());
            assert(slots_data(seq![None::<Packet>]) =~= Seq::<DataFrame>::empty());
        }
        match send_time {
            Some(t) => {
                if t as u128 + loss_delay as u128 <= now as u128 {
                    let taken = self.take_packet(pn);
                    let ghost after_take = *self;
                    proof {
                        assert forall|q: int| q != pn implies #[trigger] after_take.in_flight(q) == old(self).in_flight(q) by {}
                    }
                    match taken {
                        Some(p) => {
                            self.requeue(p.payload);
                            assert(slots_frames(seq![slot]) =~= pure_frames(p.payload@) + slots_frames(seq![slot].skip(1)));
                            assert(slots_data(seq![slot]) =~= data_frames(p.payload@) + slots_data(seq![slot].skip(1)));
                            assert(seq![slot].skip(1) =~= Seq::<Option<Packet>>::empty());
                        },
                        None => {},
                    }
                    assert(self.inflight_packets == after_take.inflight_packets);
                    assert(forall|q: int| q != pn ==> #[trigger] self.in_flight(q) == after_take.in_flight(q));
                    assert(!self.in_flight(pn as int));
                    assert(self.frames@ == old(self).frames@ + slots_frames(seq![slot]));
                    assert(self.lost_data@ == old(self).lost_data@ + slots_data(seq![slot]));
                } else {
                    let expiry = if t <= u64::MAX - loss_delay { t + loss_delay } else { u64::MAX };
                    self.loss_time = match self.loss_time {
                        Some(l) => Some(if l <= expiry { l } else { expiry }),
                        None => Some(expiry),
                    };
                    assert(slots_frames(seq![None::<Packet>]) =~= Seq::<Frame>::empty());
                    assert(self.frames@ =~= old(self).frames@ + slots_frames(seq![None::<Packet>]));
                    assert(self.lost_data@ =~= old(self).lost_data@ + slots_data(seq![None::<Packet>]));
                    assert(self.inflight_packets == old(self).inflight_packets);
                    assert(slot is Some && slot->Some_0.send_time == t);
                }
            },
            None => {
                assert(slots_frames(seq![None::<Packet>]) =~= Seq::<Frame>::empty());
                assert(self.frames@ =~= old(self).frames@ + slots_frames(seq![None::<Packet>]));
                assert(self.lost_data@ =~= old(self).lost_data@ + slots_data(seq![None::<Packet>]));
            },
        }
    }

    fn lose_by_time(&mut self, largest: u64, now: u64, loss_delay: u64)
        requires
            old(self).wf(),
            old(self).threshold_cut(largest) == 0,
        ensures
            final(self).wf(),
            final(self).space_id == old(self).space_id,
            final(self).largest_acked_pktid == old(self).largest_acked_pktid,
            final(self).confirmed_data == old(self).confirmed_data,
            final(self).rcvd_packets == old(self).rcvd_packets,
            final(self).frames@ == old(self).frames@ + slots_frames(old(self).time_lost(largest, now, loss_delay)),
            final(self).lost_data@ == old(self).lost_data@ + slots_data(old(self).time_lost(largest, now, loss_delay)),
            final(self).inflight_packets.offset == old(self).inflight_packets.offset,
            final(self).inflight_packets.items@.len() == old(self).inflight_packets.items@.len(),
            forall|pn: int| #[trigger] final(self).in_flight(pn) ==> old(self).in_flight(pn)
                && final(self).inflight_packets.at(pn) == old(self).inflight_packets.at(pn),
            forall|pn: int| pn < largest && #[trigger] final(self).in_flight(pn) ==> {
                &&& final(self).inflight_packets.at(pn).unwrap().send_time + loss_delay > now
                &&& final(self).loss_time matches Some(t) && t <= sat_add(final(self).inflight_packets.at(pn).unwrap().send_time, loss_delay)
            },
            final(self).loss_time matches Some(t) ==> exists|pn: int| pn < largest && #[trigger] final(self).in_flight(pn)
                && t == sat_add(final(self).inflight_packets.at(pn).unwrap().send_time, loss_delay),
    {
        let ghost tl = self.time_lost(largest, now, loss_delay);
        let ghost phase1 = *self;
        assert(self.inflight_packets.items@.skip(0) =~= self.inflight_packets.items@);
        assert(self.frames@ =~= phase1.frames@ + slots_frames(tl.take(0)));
        assert(self.lost_data@ =~= phase1.lost_data@ + slots_data(tl.take(0)));
        self.loss_time = None;
        let offset = self.inflight_packets.offset;
        let end = self.inflight_packets.end();
        let mut pn = offset;
        assert(tl.take(0) =~= Seq::<Option<Packet>>::empty());
        while pn < end && pn < offset + PACKET_THRESHOLD && pn < largest
            invariant
                self.wf(),
                self.inflight_packets.offset == offset,
                end == self.inflight_packets.spec_end(),
                offset <= pn,
                pn <= offset + PACKET_THRESHOLD,
                pn - offset <= tl.len(),
                tl == old(self).time_lost(largest, now, loss_delay),
                self.space_id == old(self).space_id,
                self.largest_acked_pktid == old(self).largest_acked_pktid,
                self.confirmed_data == old(self).confirmed_data,
                self.rcvd_packets == old(self).rcvd_packets,
                self.frames@ == phase1.frames@ + slots_frames(tl.take(pn - offset)),
                self.lost_data@ == phase1.lost_data@ + slots_data(tl.take(pn - offset)),
                forall|q: int| #[trigger] self.in_flight(q) ==> phase1.in_flight(q)
                    && self.inflight_packets.at(q) == phase1.inflight_packets.at(q),
                forall|q: int| pn <= q ==> #[trigger] self.in_flight(q) == phase1.in_flight(q),
                forall|q: int| pn <= q && #[trigger] self.inflight_packets.contains(q) ==> self.inflight_packets.at(q) == phase1.inflight_packets.at(q),
                forall|q: int| offset <= q < pn && #[trigger] self.in_flight(q) ==> {
                    &&& self.inflight_packets.at(q).unwrap().send_time + loss_delay > now
                    &&& self.loss_time matches Some(t) && t <= sat_add(self.inflight_packets.at(q).unwrap().send_time, loss_delay)
                },
                self.loss_time matches Some(t) ==> exists|q: int| offset <= q < pn && #[trigger] self.in_flight(q)
                    && t == sat_add(self.inflight_packets.at(q).unwrap().send_time, loss_delay),
                phase1.inflight_packets.offset == offset,
                phase1.inflight_packets.spec_end() == end,
                phase1 == *old(self),
                old(self).wf(),
                old(self).threshold_cut(largest) == 0,
            decreases end - pn,
        {
            let ghost mid = *self;
            let ghost i = pn - offset;
            proof {
                let c = spec_min_int(spec_min_int(phase1.inflight_packets.items@.len() as int, PACKET_THRESHOLD as int), largest - offset);
                assert(phase1.inflight_packets.items@.skip(0) =~= phase1.inflight_packets.items@);
                assert(0 <= i < c);
                assert(tl.len() == c);
                assert(phase1.inflight_packets.items@[i] == phase1.inflight_packets.at(pn as int));
                assert(mid.inflight_packets.contains(pn as int));
                assert(mid.inflight_packets.at(pn as int) == phase1.inflight_packets.at(pn as int));
                assert(tl.take(i + 1) =~= tl.take(i).push(tl[i]));
                lemma_slots_frames_push(tl.take(i), tl[i]);
            }
            self.scan_one(pn, now, loss_delay);
            proof {
                let slot = mid.inflight_packets.at(pn as int);
                let x = if slot matches Some(p) && p.send_time + loss_delay <= now { slot } else { None };
                assert(x == tl[i]);
                assert(seq![x] =~= seq![tl[i]]);
                assert(self.lost_data@ =~= phase1.lost_data@ + slots_data(tl.take(i + 1)));
                assert(self.frames@ =~= phase1.frames@ + slots_frames(tl.take(i + 1)));
                assert forall|q: int| #[trigger] self.in_flight(q) implies phase1.in_flight(q)
                    && self.inflight_packets.at(q) == phase1.inflight_packets.at(q) by {
                    assert(mid.in_flight(q));
                    assert(mid.inflight_packets.contains(q));
                }
                assert forall|q: int| pn + 1 <= q implies #[trigger] self.in_flight(q) == phase1.in_flight(q) by {
                    assert(mid.in_flight(q) == phase1.in_flight(q));
                }
                assert forall|q: int| pn + 1 <= q && #[trigger] self.inflight_packets.contains(q) implies self.inflight_packets.at(q) == phase1.inflight_packets.at(q) by {
                    assert(mid.inflight_packets.contains(q));
                }
                assert forall|q: int| offset <= q < pn + 1 && #[trigger] self.in_flight(q) implies {
                    &&& self.inflight_packets.at(q).unwrap().send_time + loss_delay > now
                    &&& self.loss_time matches Some(t) && t <= sat_add(self.inflight_packets.at(q).unwrap().send_time, loss_delay)
                } by {
                    if q < pn {
                        assert(mid.in_flight(q));
                        assert(mid.inflight_packets.contains(q));
                    }
                }
                if self.loss_time is Some {
                    if self.loss_time != mid.loss_time {
                        assert(self.in_flight(pn as int));
                    } else {
                        let q = choose|q: int| offset <= q < pn && #[trigger] mid.in_flight(q)
                            && mid.loss_time->Some_0 == sat_add(mid.inflight_packets.at(q).unwrap().send_time, loss_delay);
                        assert(mid.inflight_packets.contains(q));
                        assert(self.in_flight(q));
                    }
                }
            }
            pn += 1;
        }
        proof {
            assert(pn - offset == tl.len());
            assert(tl.take(pn - offset) =~= tl);
            assert forall|q: int| q < largest && #[trigger] self.in_flight(q) implies q < pn by {
                assert(phase1.in_flight(q));
                assert(phase1.inflight_packets.contains(q));
            }
            assert(self.frames@ == old(self).frames@ + slots_frames(tl));
            assert(self.lost_data@ == old(self).lost_data@ + slots_data(tl));
        }
    }

    /// Drops the empty slots at the front of the in-flight deque.
    fn drop_acked_front(&mut self)
        requires
            old(self).wf(),
        ensures
            final(self).wf(),
            final(self).space_id == old(self).space_id,
            final(self).largest_acked_pktid == old(self).largest_acked_pktid,
            final(self).rcvd_packets == old(self).rcvd_packets,
            final(self).frames == old(self).frames,
            final(self).lost_data == old(self).lost_data,
            final(self).confirmed_data == old(self).confirmed_data,
            final(self).loss_time == old(self).loss_time,
            forall|pn: int| #[trigger] final(self).in_flight(pn) == old(self).in_flight(pn),
            forall|pn: int| #[trigger] final(self).in_flight(pn) ==> final(self).inflight_packets.at(pn) == old(self).inflight_packets.at(pn),
            final(self).inflight_packets.items@.len() == 0 || final(self).inflight_packets.items@[0] is Some,
    {
        let ghost phase2 = *self;
        let len = self.inflight_packets.len();
        let mut n: usize = 0;
        while n < len && self.inflight_packets.items[n].is_none()
            invariant
                self.wf(),
                *self == phase2,
                len == self.inflight_packets.items@.len(),
                n <= len,
                forall|i: int| 0 <= i < n ==> #[trigger] self.inflight_packets.items@[i] is None,
            decreases len - n,
        {
            n += 1;
        }
        let _ = self.inflight_packets.drain_to(self.inflight_packets.offset + n as u64);
        proof {
            assert forall|q: int| #[trigger] self.in_flight(q) implies phase2.in_flight(q)
                && self.inflight_packets.at(q) == phase2.inflight_packets.at(q) by {
                assert(self.inflight_packets.items@[q - self.inflight_packets.offset] == phase2.inflight_packets.items@[q - phase2.inflight_packets.offset]);
            }
            assert forall|q: int| #[trigger] phase2.in_flight(q) implies self.in_flight(q) by {
                assert(phase2.inflight_packets.items@[q - phase2.inflight_packets.offset] is Some);
            }
            assert forall|j: int| 0 <= j < self.inflight_packets.items@.len() implies #[trigger] slot_ok(
                self.inflight_packets.items@[j], self.space_id) by {
                assert(slot_ok(phase2.inflight_packets.items@[j + n], self.space_id));
            }
            if self.inflight_packets.items@.len() > 0 {
                assert(self.inflight_packets.items@[0] == phase2.inflight_packets.items@[n as int]);
            }
        }
    }

    pub fn detect_lost(&mut self, largest: u64, now: u64, loss_delay: u64)
        requires
            old(self).wf(),
        ensures
            final(self).wf(),
            final(self).space_id == old(self).space_id,
            final(self).largest_acked_pktid == old(self).largest_acked_pktid,
            final(self).confirmed_data == old(self).confirmed_data,
            final(self).rcvd_packets == old(self).rcvd_packets,
            final(self).frames@ == old(self).frames@ + slots_frames(old(self).inflight_packets.items@.take(old(self).threshold_cut(largest)))
                + slots_frames(old(self).time_lost(largest, now, loss_delay)),
            final(self).lost_data@ == old(self).lost_data@ + slots_data(old(self).inflight_packets.items@.take(old(self).threshold_cut(largest)))
                + slots_data(old(self).time_lost(largest, now, loss_delay)),
            forall|pn: int| #[trigger] final(self).in_flight(pn) ==> old(self).in_flight(pn)
                && final(self).inflight_packets.at(pn) == old(self).inflight_packets.at(pn),
            forall|pn: int| pn <= largest - PACKET_THRESHOLD ==> !#[trigger] final(self).in_flight(pn),
            forall|pn: int| pn < largest && #[trigger] final(self).in_flight(pn) ==> {
                &&& final(self).inflight_packets.at(pn).unwrap().send_time + loss_delay > now
                &&& final(self).loss_time matches Some(t) && t <= sat_add(final(self).inflight_packets.at(pn).unwrap().send_time, loss_delay)
            },
            final(self).loss_time matches Some(t) ==> exists|pn: int| pn < largest && #[trigger] final(self).in_flight(pn)
                && t == sat_add(final(self).inflight_packets.at(pn).unwrap().send_time, loss_delay),
            final(self).inflight_packets.items@.len() == 0 || final(self).inflight_packets.items@[0] is Some,
    {
        let ghost o = *self;
        self.lose_by_threshold(largest);
        let ghost s1 = *self;
        proof {
            assert(s1.time_lost(largest, now, loss_delay) =~= o.time_lost(largest, now, loss_delay));
            assert forall|pn: int| #[trigger] s1.in_flight(pn) implies o.in_flight(pn)
                && s1.inflight_packets.at(pn) == o.inflight_packets.at(pn) && pn > largest - PACKET_THRESHOLD by {
                assert(o.inflight_packets.items@[pn - o.inflight_packets.offset] == s1.inflight_packets.items@[pn - s1.inflight_packets.offset]);
            }
        }
        self.lose_by_time(largest, now, loss_delay);
        let ghost s2 = *self;
        self.drop_acked_front();
        proof {
            assert forall|pn: int| #[trigger] self.in_flight(pn) implies old(self).in_flight(pn)
                && self.inflight_packets.at(pn) == old(self).inflight_packets.at(pn) && pn > largest - PACKET_THRESHOLD by {
                assert(s2.in_flight(pn));
                assert(s1.in_flight(pn));
            }
            assert forall|pn: int| pn < largest && #[trigger] self.in_flight(pn) implies {
                &&& self.inflight_packets.at(pn).unwrap().send_time + loss_delay > now
                &&& self.loss_time matches Some(t) && t <= sat_add(self.inflight_packets.at(pn).unwrap().send_time, loss_delay)
            } by {
                assert(s2.in_flight(pn));
            }
            if self.loss_time is Some {
                let q = choose|q: int| q < largest && #[trigger] s2.in_flight(q)
                    && s2.loss_time->Some_0 == sat_add(s2.inflight_packets.at(q).unwrap().send_time, loss_delay);
                assert(self.in_flight(q));
            }
        }
    }    /// The fields that ACK sending touches are as in `o`.
    pub open spec fn same_sync(&self, o: Self) -> bool {
        &&& self.rcvd_packets == o.rcvd_packets
        &&& self.time_to_sync == o.time_to_sync
        &&& self.new_lost_event == o.new_lost_event
        &&& self.rcvd_unreached_packet == o.rcvd_unreached_packet
        &&& self.last_synced_ack_largest == o.last_synced_ack_largest
    }

    /// After an ACK was sent: no event is pending, the ACK's largest is
    /// remembered, and every received state is marked as reported.
    fn mark_synced(&mut self, largest: u64)
        requires
            old(self).wf(),
        ensures
            final(self).wf(),
            final(self).space_id == old(self).space_id,
            final(self).frames == old(self).frames,
            final(self).inflight_packets == old(self).inflight_packets,
            final(self).largest_acked_pktid == old(self).largest_acked_pktid,
            final(self).tls_trans == old(self).tls_trans,
            final(self).stm_trans == old(self).stm_trans,
            final(self).time_to_sync is None,
            !final(self).new_lost_event,
            !final(self).rcvd_unreached_packet,
            final(self).last_synced_ack_largest == largest,
            final(self).rcvd_packets.offset == old(self).rcvd_packets.offset,
            final(self).rcvd_packets.items@.len() == old(self).rcvd_packets.items@.len(),
            forall|i: int| 0 <= i < final(self).rcvd_packets.items@.len() ==> #[trigger] final(self).rcvd_packets.items@[i]
                == old(self).rcvd_packets.items@[i].synced(),
    {
        self.time_to_sync = None;
        self.new_lost_event = false;
        self.rcvd_unreached_packet = false;
        self.last_synced_ack_largest = largest;
        let n = self.rcvd_packets.items.len();
        let mut i: usize = 0;
        while i < n
            invariant
                self.wf(),
                self.space_id == old(self).space_id,
                self.frames == old(self).frames,
                self.inflight_packets == old(self).inflight_packets,
                self.largest_acked_pktid == old(self).largest_acked_pktid,
                self.tls_trans == old(self).tls_trans,
                self.stm_trans == old(self).stm_trans,
                self.time_to_sync is None,
                !self.new_lost_event,
                !self.rcvd_unreached_packet,
                self.last_synced_ack_largest == largest,
                self.rcvd_packets.offset == old(self).rcvd_packets.offset,
                n == self.rcvd_packets.items@.len() == old(self).rcvd_packets.items@.len(),
                i <= n,
                forall|j: int| 0 <= j < i ==> #[trigger] self.rcvd_packets.items@[j] == old(self).rcvd_packets.items@[j].synced(),
                forall|j: int| i <= j < n ==> #[trigger] self.rcvd_packets.items@[j] == old(self).rcvd_packets.items@[j],
            decreases n - i,
        {
            let mut st = self.rcvd_packets.items[i];
            st.be_synced();
            let idx = self.rcvd_packets.offset + i as u64;
            self.rcvd_packets.set(idx, st);
            proof {
                if self.rcvd_packets.items@.len() > 0 {
                    let last = self.rcvd_packets.items@.len() - 1;
                    assert(old(self).rcvd_packets.items@[last].spec_has_rcvd());
                }
            }
            i += 1;
        }
    }

    /// Whether `a` is the ACK frame for what was received, as
    /// `gen_ack_frame` makes it at `now`.
    pub open spec fn is_ack_for(&self, a: AckFrame, now: u64) -> bool {
        &&& a.wf()
        &&& a.largest == self.rcvd_packets.spec_end() - 1
        &&& a.delay == spec_min_int(sat_sub(now, self.rcvd_packets.at(a.largest as int).time()) as int, VARINT_MAX as int)
        &&& a.ecn is None
        &&& forall|pn: int| #[trigger] a.covers(pn) == self.received(pn)
    }

    /// Writes the owed ACK frame when it fits in `capacity`, and marks what
    /// it reports as synced. Returns the bytes written.
    fn send_ack(&mut self, buf: &mut Vec<u8>, capacity: usize, now: u64, payload: &mut Vec<Record>) -> (res: (usize, Ghost<AckFrame>))
        requires
            old(self).wf(),
            old(buf)@.len() + capacity <= usize::MAX,
        ensures
            final(self).wf(),
            final(self).space_id == old(self).space_id,
            final(self).frames == old(self).frames,
            final(self).inflight_packets == old(self).inflight_packets,
            final(self).largest_acked_pktid == old(self).largest_acked_pktid,
            final(self).tls_trans == old(self).tls_trans,
            final(self).stm_trans == old(self).stm_trans,
            res.0 <= capacity,
            final(buf)@ == old(buf)@ + final(buf)@.skip(old(buf)@.len() as int),
            final(buf)@.len() == old(buf)@.len() + res.0,
            !old(self).spec_need_send_ack(now) ==> res.0 == 0 && final(self).same_sync(*old(self)) && final(payload)@ == old(payload)@,
            old(self).spec_need_send_ack(now) ==> old(self).is_ack_for(res.1@, now) && {
                let a = res.1@;
                if a.spec_bytes().len() <= capacity {
                    &&& res.0 == a.spec_bytes().len()
                    &&& final(buf)@ == old(buf)@ + a.spec_bytes()
                    &&& final(payload)@ == old(payload)@.push(Record::Ack(a.largest))
                    &&& final(self).time_to_sync is None
                    &&& !final(self).new_lost_event
                    &&& !final(self).rcvd_unreached_packet
                    &&& final(self).last_synced_ack_largest == a.largest
                    &&& final(self).rcvd_packets.offset == old(self).rcvd_packets.offset
                    &&& final(self).rcvd_packets.items@.len() == old(self).rcvd_packets.items@.len()
                    &&& forall|i: int| 0 <= i < final(self).rcvd_packets.items@.len() ==> #[trigger] final(self).rcvd_packets.items@[i]
                        == old(self).rcvd_packets.items@[i].synced()
                } else {
                    &&& res.0 == 0
                    &&& final(self).same_sync(*old(self))
                    &&& final(payload)@ == old(payload)@
                }
            },
    {
        if !self.need_send_ack_frame(now) {
            assert(buf@.skip(buf@.len() as int) =~= Seq::<u8>::empty());
            assert(buf@ =~= old(buf)@ + buf@.skip(old(buf)@.len() as int));
            return (0, Ghost(arbitrary()));
        }
        proof {
            assert(self.rcvd_packets.items@.len() > 0) by {
                let i = choose|i: int| 0 <= i < self.rcvd_packets.items@.len() && #[trigger] self.rcvd_packets.items@[i] is Important;
            }
        }
        let ack = self.gen_ack_frame(now);
        if !ack_size_within(&ack, capacity) {
            assert(self.is_ack_for(ack, now));
            assert(buf@ =~= old(buf)@ + buf@.skip(old(buf)@.len() as int));
            return (0, Ghost(ack));
        }
        let largest = ack.largest;
        let start = buf.len();
        put_ack_frame(buf, &ack);
        payload.push(Record::Ack(largest));
        let ghost before = self.rcvd_packets;
        self.mark_synced(largest);
        proof {
            let last = before.items@.len() - 1;
            assert(before.items@[last].spec_has_rcvd());
            assert(self.rcvd_packets.items@[last] == before.items@[last].synced());
            assert(old(self).is_ack_for(ack, now));
            assert(buf@.skip(old(buf)@.len() as int) =~= ack.spec_bytes());
        }
        (buf.len() - start, Ghost(ack))
    }

    /// Writes queued control frames, front first, while each fits in what
    /// is left of `room`; each one written is recorded as a `Pure` record.
    /// Returns how many were taken off the queue.
    fn send_queued(&mut self, buf: &mut Vec<u8>, room: usize, payload: &mut Vec<Record>) -> (k: usize)
        requires
            old(self).wf(),
            old(buf)@.len() + room <= usize::MAX,
            forall|j: int| 0 <= j < old(payload)@.len() ==> #[trigger] record_ok(old(payload)@[j], old(self).space_id),
        ensures
            final(self).wf(),
            final(self).same_except_frames(*old(self)),
            k <= old(self).frames@.len(),
            final(self).frames@ == old(self).frames@.skip(k as int),
            final(buf)@ == old(buf)@ + frames_bytes(old(self).frames@.take(k as int)),
            final(buf)@.len() <= old(buf)@.len() + room,
            k < old(self).frames@.len() ==> final(buf)@.len() - old(buf)@.len() + frame_bytes(old(self).frames@[k as int]).len() > room,
            final(payload)@ == old(payload)@ + pure_records(old(self).frames@.take(k as int)),
            forall|j: int| 0 <= j < final(payload)@.len() ==> #[trigger] record_ok(final(payload)@[j], final(self).space_id),
    {
        let ghost frames0 = self.frames@;
        let ghost payload0 = payload@;
        let start = buf.len();
        let total = self.frames.len();
        let mut k: usize = 0;
        assert(frames0.take(0) =~= Seq::<Frame>::empty());
        assert(buf@ =~= old(buf)@ + frames_bytes(frames0.take(0)));
        assert(payload@ =~= payload0 + pure_records(frames0.take(0)));
        assert(self.frames@ =~= frames0.skip(0));
        while self.frames.len() > 0
            invariant
                self.wf(),
                self.same_except_frames(*old(self)),
                frames0 == old(self).frames@,
                payload0 == old(payload)@,
                start == old(buf)@.len(),
                total == frames0.len(),
                k <= frames0.len(),
                self.frames@ == frames0.skip(k as int),
                buf@ == old(buf)@ + frames_bytes(frames0.take(k as int)),
                buf@.len() <= start + room,
                payload@ == payload0 + pure_records(frames0.take(k as int)),
                forall|j: int| 0 <= j < payload@.len() ==> #[trigger] record_ok(payload@[j], self.space_id),
            ensures
                self.wf(),
                self.same_except_frames(*old(self)),
                k <= frames0.len(),
                self.frames@ == frames0.skip(k as int),
                buf@ == old(buf)@ + frames_bytes(frames0.take(k as int)),
                buf@.len() <= start + room,
                payload@ == payload0 + pure_records(frames0.take(k as int)),
                forall|j: int| 0 <= j < payload@.len() ==> #[trigger] record_ok(payload@[j], self.space_id),
                k < frames0.len() ==> buf@.len() - start + frame_bytes(frames0[k as int]).len() > room,
            decreases self.frames@.len(),
        {
            let remaining = room - (buf.len() - start);
            assert(pure_ok(self.frames@[0], self.space_id));
            assert(self.frames@[0] == frames0[k as int]);
            let size = frame_encoding_size(&self.frames[0]);
            if size > remaining {
                break;
            }
            put_frame(buf, &self.frames[0]);
            let ghost before = self.frames@;
            assert(self.frames@.len() == frames0.len() - k);
            let f = self.frames.remove(0);
            proof {
                assert(self.frames@ =~= frames0.skip(k + 1));
                assert(frames0.take(k + 1).drop_last() =~= frames0.take(k as int));
                assert(frames0.take(k + 1).last() == frames0[k as int]);
                assert(pure_records(frames0.take(k + 1)) =~= pure_records(frames0.take(k as int)).push(Record::Pure(f)));
            }
            payload.push(Record::Pure(f));
            proof {
                assert(buf@ =~= old(buf)@ + frames_bytes(frames0.take(k + 1)));
                assert(payload@ =~= payload0 + pure_records(frames0.take(k + 1)));
            }
            k += 1;
        }
        k
    }

    /// What a packet assembly from state `o` and buffer `b0` to state `f`
    /// and buffer `b1` wrote: an ACK part of `h` bytes, then the first `k`
    /// queued frames.
    pub open spec fn assembled(
        o: Self,
        f: Self,
        b0: Seq<u8>,
        b1: Seq<u8>,
        capacity: usize,
        now: u64,
        r: Result<Option<(u64, usize)>, SpaceError>,
        h: int,
        k: int,
    ) -> bool {
                &&& 0 <= k <= o.frames@.len()
        &&& f.frames@ == o.frames@.skip(k)
                &&& b1.subrange(b0.len() + h, b0.len() + h + frames_bytes(o.frames@.take(k)).len())
                    == frames_bytes(o.frames@.take(k))
                &&& (k < o.frames@.len() ==> h + frames_bytes(o.frames@.take(k)).len()
                    + frame_bytes(o.frames@[k]).len() > capacity)
                &&& (h > 0 ==> o.spec_need_send_ack(now))
                &&& (!o.spec_need_send_ack(now) ==> h == 0)
                &&& (o.spec_need_send_ack(now) ==> exists|a: AckFrame| #[trigger] o.is_ack_for(a, now) && if a.spec_bytes().len() <= capacity {
                    &&& h == a.spec_bytes().len()
                    &&& b1.subrange(b0.len() as int, b0.len() + h) == a.spec_bytes()
                    &&& f.time_to_sync is None
                    &&& !f.new_lost_event
                    &&& !f.rcvd_unreached_packet
                    &&& f.last_synced_ack_largest == a.largest
                    &&& f.rcvd_packets.offset == o.rcvd_packets.offset
                    &&& f.rcvd_packets.items@.len() == o.rcvd_packets.items@.len()
                    &&& forall|i: int| 0 <= i < f.rcvd_packets.items@.len() ==> #[trigger] f.rcvd_packets.items@[i]
                        == o.rcvd_packets.items@[i].synced()
                    &&& (r matches Ok(Some((pn, _))) ==> f.inflight_packets.at(pn as int).unwrap().payload@[0] == Record::Ack(a.largest))
                } else {
                    h == 0 && f.same_sync(o)
                })
                &&& (r matches Ok(Some((pn, _))) ==> {
                    let p = f.inflight_packets.at(pn as int).unwrap();
                    let hr = if h > 0 { 1int } else { 0 };
                    &&& p.payload@.subrange(hr, hr + k) == pure_records(o.frames@.take(k))
                    &&& (k > 0 ==> p.is_ack_eliciting)
                })
    }

    /// Asks the crypto source (except in 0-RTT), then the stream source, for
    /// data frames while they give some and `buf` stays within `limit`
    /// bytes. Returns whether any was written.
    fn pull_data(&mut self, buf: &mut Vec<u8>, limit: usize, payload: &mut Vec<Record>) -> (any: bool)
        requires
            old(self).wf(),
            old(buf)@.len() <= limit,
            forall|j: int| 0 <= j < old(payload)@.len() ==> #[trigger] record_ok(old(payload)@[j], old(self).space_id),
        ensures
            final(self).wf(),
            final(self).space_id == old(self).space_id,
            final(self).inflight_packets == old(self).inflight_packets,
            final(self).frames == old(self).frames,
            final(self).same_sync(*old(self)),
            final(self).largest_acked_pktid == old(self).largest_acked_pktid,
            old(self).space_id == SpaceId::ZeroRtt ==> final(self).tls_trans == old(self).tls_trans,
            old(buf)@.is_prefix_of(final(buf)@),
            final(buf)@.len() <= limit,
            old(payload)@.is_prefix_of(final(payload)@),
            forall|j: int| 0 <= j < final(payload)@.len() ==> #[trigger] record_ok(final(payload)@[j], final(self).space_id),
            !any ==> final(payload)@ == old(payload)@,
    {
        let mut any = false;
        if self.space_id != SpaceId::ZeroRtt {
            loop
                invariant
                    self.wf(),
                    self.space_id == old(self).space_id,
                    self.inflight_packets == old(self).inflight_packets,
                    self.frames == old(self).frames,
                    self.same_sync(*old(self)),
                    self.largest_acked_pktid == old(self).largest_acked_pktid,
                    old(buf)@.is_prefix_of(buf@),
                    buf@.len() <= limit,
                    old(payload)@.is_prefix_of(payload@),
                    forall|j: int| 0 <= j < payload@.len() ==> #[trigger] record_ok(payload@[j], self.space_id),
                    !any ==> payload@ == old(payload)@,
                decreases limit - buf@.len(),
            {
                let ghost prev = buf@;
                let ghost pl = payload@;
                match self.tls_trans.try_send_data(buf, limit - buf.len()) {
                    Some(df) => {
                        payload.push(Record::Data(df));
                        any = true;
                        assert(old(payload)@.is_prefix_of(payload@)) by {
                            assert(forall|i: int| 0 <= i < old(payload)@.len() ==> payload@[i] == pl[i]);
                        }
                        assert(old(buf)@.is_prefix_of(buf@)) by {
                            assert(forall|i: int| 0 <= i < old(buf)@.len() ==> buf@[i] == prev[i]);
                        }
                    },
                    None => break,
                }
            }
        }
        loop
            invariant
                self.wf(),
                self.space_id == old(self).space_id,
                self.inflight_packets == old(self).inflight_packets,
                self.frames == old(self).frames,
                self.same_sync(*old(self)),
                self.largest_acked_pktid == old(self).largest_acked_pktid,
                old(self).space_id == SpaceId::ZeroRtt ==> self.tls_trans == old(self).tls_trans,
                old(buf)@.is_prefix_of(buf@),
                buf@.len() <= limit,
                old(payload)@.is_prefix_of(payload@),
                forall|j: int| 0 <= j < payload@.len() ==> #[trigger] record_ok(payload@[j], self.space_id),
                !any ==> payload@ == old(payload)@,
            decreases limit - buf@.len(),
        {
            let ghost prev = buf@;
            let ghost pl = payload@;
            match self.stm_trans.try_send_data(buf, limit - buf.len()) {
                Some(df) => {
                    payload.push(Record::Data(df));
                    any = true;
                    assert(old(payload)@.is_prefix_of(payload@)) by {
                        assert(forall|i: int| 0 <= i < old(payload)@.len() ==> payload@[i] == pl[i]);
                    }
                    assert(old(buf)@.is_prefix_of(buf@)) by {
                        assert(forall|i: int| 0 <= i < old(buf)@.len() ==> buf@[i] == prev[i]);
                    }
                },
                None => break,
            }
        }
        any
    }

    /// Assembles a packet into `buf`, in at most `capacity` bytes: first the
    /// owed ACK frame when it fits, then the queued control frames that fit,
    /// front first, then at most one stream control frame, then crypto data
    /// (except in 0-RTT) and stream data while the sources give some.
    /// Returns `None` when nothing was written; otherwise the packet is
    /// recorded in flight and its number and size are returned, or `Err`
    /// when the packet numbers are used up.
    #[verifier::spinoff_prover]
    #[verifier::rlimit(100)]
    pub fn try_send(&mut self, buf: &mut Vec<u8>, capacity: usize, now: u64) -> (r: Result<Option<(u64, usize)>, SpaceError>)
        requires
            old(self).wf(),
            old(buf)@.len() + capacity <= usize::MAX,
        ensures
            final(self).wf(),
            final(self).space_id == old(self).space_id,
            old(buf)@.is_prefix_of(final(buf)@),
            final(buf)@.len() <= old(buf)@.len() + capacity,
            (r == Ok::<Option<(u64, usize)>, SpaceError>(None)) == (final(buf)@ == old(buf)@),
            r == Ok::<Option<(u64, usize)>, SpaceError>(None) ==> final(self).inflight_packets == old(self).inflight_packets
                && final(self).frames@ == old(self).frames@ && final(self).rcvd_packets == old(self).rcvd_packets,
            r is Err == (final(buf)@ != old(buf)@ && old(self).inflight_packets.spec_end() == VARINT_MAX),
            r matches Ok(Some((pn, n))) ==> {
                &&& pn == old(self).inflight_packets.spec_end()
                &&& n == final(buf)@.len() - old(buf)@.len()
                &&& n > 0
                &&& final(self).in_flight(pn as int)
                &&& final(self).inflight_packets.at(pn as int).unwrap().send_time == now
                &&& final(self).inflight_packets.at(pn as int).unwrap().sent_bytes == n
                &&& forall|q: int| q != pn ==> #[trigger] final(self).in_flight(q) == old(self).in_flight(q)
            },
            old(self).space_id == SpaceId::ZeroRtt ==> final(self).tls_trans == old(self).tls_trans
                && final(self).rcvd_packets == old(self).rcvd_packets,
            !old(self).spec_need_send_ack(now) ==> final(self).same_sync(*old(self)),
            exists|h: int, k: int| #[trigger] Self::assembled(*old(self), *final(self), old(buf)@, final(buf)@, capacity, now, r, h, k),
            old(self).inflight_packets.spec_end() < VARINT_MAX && (
                (old(self).spec_need_send_ack(now) && forall|a: AckFrame| #[trigger] old(self).is_ack_for(a, now) ==> a.spec_bytes().len() <= capacity)
                || (old(self).frames@.len() > 0 && frame_bytes(old(self).frames@[0]).len() <= capacity)
            ) ==> r is Ok && r->Ok_0 is Some,
    {
        let start = buf.len();
        let mut payload: Vec<Record> = Vec::new();
        let ghost o = *self;
        let (h, ghost_ack) = self.send_ack(buf, capacity, now, &mut payload);
        let ghost buf_a = buf@;
        let ghost after_ack = *self;
        let ghost payload_ack = payload@;
        let k = self.send_queued(buf, capacity - h, &mut payload);
        let ghost after_queue = *self;
        let ghost buf_q = buf@;
        let ghost pl_q = payload@;
        let mut is_ack_eliciting = k > 0;
        let ghost fb = frames_bytes(old(self).frames@.take(k as int));
        proof {
            assert(buf@.subrange(start + h, start + h + fb.len()) =~= fb);
            assert(payload@.subrange(payload_ack.len() as int, payload_ack.len() + k) =~= pure_records(old(self).frames@.take(k as int)));
            assert(old(buf)@.is_prefix_of(buf@)) by {
                assert(forall|i: int| 0 <= i < old(buf)@.len() ==> buf@[i] == old(buf)@[i]);
            }
        }
        let remaining = capacity - (buf.len() - start);
        let before_ctl = buf.len();
        match self.stm_trans.try_send_frame(buf, remaining) {
            Some(f) => {
                if belongs_to(&f, self.space_id) {
                    payload.push(Record::Pure(f));
                    is_ack_eliciting = true;
                } else {
                    buf.truncate(before_ctl);
                }
            },
            None => {},
        }
        proof {
            assert(buf@.subrange(0, buf_q.len() as int) =~= buf_q) by {
                assert(forall|i: int| 0 <= i < buf_q.len() ==> buf@[i] == buf_q[i]);
            }
        }
        let ghost buf_c = buf@;
        let ghost pl_c = payload@;
        assert(pl_c.subrange(0, pl_q.len() as int) =~= pl_q);
        let pulled = self.pull_data(buf, start + capacity, &mut payload);
        if pulled {
            is_ack_eliciting = true;
        }
        proof {
            assert(payload@.subrange(0, pl_c.len() as int) =~= pl_c);
            assert(payload@.subrange(0, payload_ack.len() + k) =~= pl_c.subrange(0, payload_ack.len() + k));
            assert(buf_q.is_prefix_of(buf@)) by {
                assert(forall|i: int| 0 <= i < buf_q.len() ==> buf@[i] == buf_c[i]);
            }
        }
        proof {
            assert(old(buf)@.is_prefix_of(buf@)) by {
                assert(forall|i: int| 0 <= i < old(buf)@.len() ==> buf@[i] == buf_q[i]);
            }
            assert forall|i: int| start + h <= i < start + h + fb.len() implies buf@[i] == buf_q[i] by {}
            assert(buf@.subrange(start + h, start + h + fb.len()) =~= buf_q.subrange(start + h, start + h + fb.len()));
            assert(buf@.subrange(start as int, start + h) =~= buf_q.subrange(start as int, start + h));
            assert(buf_q.subrange(start as int, start + h) =~= buf_a.subrange(start as int, start + h));
        }
        let sent_bytes = buf.len() - start;
        if sent_bytes == 0 {
            assert(buf@ =~= old(buf)@);
            proof {
                if k > 0 {
                    let t = old(self).frames@.take(k as int);
                    lemma_frame_bytes_nonempty(t.last());
                    assert(frames_bytes(t).len() >= 1);
                }
                assert(old(self).frames@.skip(0) =~= old(self).frames@);
                if o.spec_need_send_ack(now) {
                    assert(o.is_ack_for(ghost_ack@, now));
                    assert(ghost_ack@.spec_bytes().len() >= 1);
                }
                assert(k == 0);
                assert(o.frames@.take(0) =~= Seq::<Frame>::empty());
                assert(Self::assembled(o, *self, old(buf)@, buf@, capacity, now, Ok(None), h as int, k as int));
            }
            return Ok(None);
        }
        if is_ack_eliciting {
            self.time_of_last_sent_ack_eliciting_packet = Some(now);
        }
        let ghost payload_final = payload@;
        let packet = Packet { send_time: now, payload, sent_bytes, is_ack_eliciting };
        let ghost before = self.inflight_packets;
        match self.inflight_packets.push(Some(packet)) {
            Some(pn) => {
                proof {
                    assert forall|i: int| 0 <= i < self.inflight_packets.items@.len() implies #[trigger] slot_ok(
                        self.inflight_packets.items@[i], self.space_id) by {
                        if i < before.items@.len() {
                            assert(slot_ok(before.items@[i], self.space_id));
                        }
                    }
                    assert forall|q: int| q != pn implies #[trigger] self.in_flight(q) == old(self).in_flight(q) by {
                        if before.contains(q) {
                            assert(self.inflight_packets.items@[q - before.offset] == before.items@[q - before.offset]);
                        }
                    }
                }
                proof {
                    if o.spec_need_send_ack(now) {
                        assert(o.is_ack_for(ghost_ack@, now));
                        assert(ghost_ack@.spec_bytes().len() >= 1);
                    }
                    assert(self.frames@ == o.frames@.skip(k as int));
                    assert(buf@.subrange(old(buf)@.len() + h, old(buf)@.len() + h + frames_bytes(o.frames@.take(k as int)).len())
                        == frames_bytes(o.frames@.take(k as int)));
                    assert(self.same_sync(after_queue));
                    assert(self.same_sync(after_ack));
                    assert(buf_q.len() == buf_a.len() + frames_bytes(o.frames@.take(k as int)).len());
                    assert(k < o.frames@.len() ==> h + frames_bytes(o.frames@.take(k as int)).len()
                        + frame_bytes(o.frames@[k as int]).len() > capacity);
                    if o.spec_need_send_ack(now) && ghost_ack@.spec_bytes().len() <= capacity {
                        assert(buf@.subrange(old(buf)@.len() as int, old(buf)@.len() + h) == ghost_ack@.spec_bytes());
                        assert(self.rcvd_packets == after_ack.rcvd_packets);
                    }
                    let p = self.inflight_packets.at(pn as int).unwrap();
                    assert(p.payload@ == payload_final);
                    assert(pl_q == payload_ack + pure_records(o.frames@.take(k as int)));
                    assert(payload_final.subrange(0, pl_q.len() as int) =~= pl_q);
                    assert(payload_ack.len() == (if h > 0 { 1int } else { 0 }));
                    assert(payload_final.subrange(payload_ack.len() as int, payload_ack.len() + k) =~= pure_records(o.frames@.take(k as int)));
                    assert(k > 0 ==> p.is_ack_eliciting);
                    if o.spec_need_send_ack(now) && ghost_ack@.spec_bytes().len() <= capacity {
                        assert(payload_ack =~= seq![Record::Ack(ghost_ack@.largest)]);
                        assert(payload_final[0] == payload_final.subrange(0, payload_ack.len() + k)[0]);
                    }
                    assert(payload_final.subrange(payload_ack.len() as int, payload_ack.len() + k)
                        =~= payload_final.subrange(0, payload_ack.len() + k).subrange(payload_ack.len() as int, payload_ack.len() + k));
                    assert(Self::assembled(o, *self, old(buf)@, buf@, capacity, now, Ok(Some((pn, sent_bytes))), h as int, k as int));
                }
                Ok(Some((pn, sent_bytes)))
            },
            None => {
                assert(buf@ != old(buf)@) by {
                    assert(buf@.len() != old(buf)@.len());
                }
                proof {
                    if o.spec_need_send_ack(now) {
                        assert(o.is_ack_for(ghost_ack@, now));
                        assert(ghost_ack@.spec_bytes().len() >= 1);
                    }
                    assert(self.frames@ == o.frames@.skip(k as int));
                    assert(buf@.subrange(old(buf)@.len() + h, old(buf)@.len() + h + frames_bytes(o.frames@.take(k as int)).len())
                        == frames_bytes(o.frames@.take(k as int)));
                    assert(self.same_sync(after_queue));
                    assert(self.same_sync(after_ack));
                    assert(buf_q.len() == buf_a.len() + frames_bytes(o.frames@.take(k as int)).len());
                    assert(k < o.frames@.len() ==> h + frames_bytes(o.frames@.take(k as int)).len()
                        + frame_bytes(o.frames@[k as int]).len() > capacity);
                    if o.spec_need_send_ack(now) && ghost_ack@.spec_bytes().len() <= capacity {
                        assert(buf@.subrange(old(buf)@.len() as int, old(buf)@.len() + h) == ghost_ack@.spec_bytes());
                        assert(self.rcvd_packets == after_ack.rcvd_packets);
                    }
                }
                assert(Self::assembled(o, *self, old(buf)@, buf@, capacity, now, Err(SpaceError::InflightOverflow), h as int, k as int));
                Err(SpaceError::InflightOverflow)
            },
        }
    }

    /// Dispatches a received frame: an ACK to ACK processing, data and
    /// stream control frames to their sources. An error is a transport error
    /// code from a source.
    pub fn recv_frame(&mut self, frame: SpaceFrame, now: u64) -> (r: Result<(), u64>)
        requires
            old(self).wf(),
            frame matches SpaceFrame::Ack(ack, _) ==> Self::ack_valid(&ack),
        ensures
            final(self).wf(),
            final(self).space_id == old(self).space_id,
            !(frame is Ack) ==> final(self).inflight_packets == old(self).inflight_packets
                && final(self).frames == old(self).frames,
            frame is Ack ==> r is Ok,
            frame matches SpaceFrame::Ack(ack, _) ==> {
                &&& old(self).ack_is_stale(&ack) ==> *final(self) == *old(self)
                &&& !old(self).ack_is_stale(&ack) ==> final(self).largest_acked_pktid == Some(ack.largest)
                &&& !old(self).ack_is_stale(&ack) ==> forall|pn: int| #[trigger] ack.covers(pn) ==> !final(self).in_flight(pn)
                &&& !old(self).ack_is_stale(&ack) ==> forall|pn: int| pn <= ack.largest - PACKET_THRESHOLD ==> !#[trigger] final(self).in_flight(pn)
            },
    {
        match frame {
            SpaceFrame::Ack(ack, rtt) => {
                let _ = self.recv_ack_frame(&ack, now, rtt);
                Ok(())
            },
            SpaceFrame::Stream(f) => self.stm_trans.recv_frame(f),
            SpaceFrame::Data(DataFrame::Crypto(f), data) => self.tls_trans.recv_data(DataFrame::Crypto(f), data),
            SpaceFrame::Data(DataFrame::Stream(f), data) => self.stm_trans.recv_data(DataFrame::Stream(f), data),
        }
    }

    /// Whether an ACK frame is owed now: never in 0-RTT; otherwise when an
    /// ack-eliciting packet awaits acknowledgement and a loss was seen, a
    /// packet below an acknowledged one arrived, or the ACK delay ran out.
    pub fn need_send_ack_frame(&self, now: u64) -> (r: bool)
        requires
            self.wf(),
        ensures
            r == self.spec_need_send_ack(now),
    {
        if self.space_id == SpaceId::ZeroRtt {
            return false;
        }
        let due = self.new_lost_event || self.rcvd_unreached_packet || match self.time_to_sync {
            Some(t) => t <= now,
            None => false,
        };
        if !due {
            return false;
        }
        let mut i: usize = 0;
        while i < self.rcvd_packets.items.len()
            invariant
                self.space_id != SpaceId::ZeroRtt,
                self.new_lost_event || self.rcvd_unreached_packet || (self.time_to_sync matches Some(
                    t,
                ) && t <= now),
                i <= self.rcvd_packets.items@.len(),
                forall|j: int| 0 <= j < i ==> !(#[trigger] self.rcvd_packets.items@[j] is Important),
            decreases self.rcvd_packets.items@.len() - i,
        {
            if let State::Important(_) = self.rcvd_packets.items[i] {
                assert(self.rcvd_packets.items@[i as int] is Important);
                return true;
            }
            i += 1;
        }
        false
    }
}

/// A packet number space as the connection holds it.
pub struct SpaceIO<CT: Transmit, ST: Transmit>(pub Space<CT, ST>);

impl<CT: Transmit> SpaceIO<CT, NoStreams> {
    /// The Initial space.
    pub fn new_initial(crypto_stream: CT) -> (r: Self)
        ensures
            r.0.fresh(SpaceId::Initial, crypto_stream, NoStreams),
    {
        SpaceIO(Space::build(SpaceId::Initial, crypto_stream, NoStreams))
    }

    /// The Handshake space.
    pub fn new_handshake(crypto_stream: CT) -> (r: Self)
        ensures
            r.0.fresh(SpaceId::Handshake, crypto_stream, NoStreams),
    {
        SpaceIO(Space::build(SpaceId::Handshake, crypto_stream, NoStreams))
    }
}

impl<CT: Transmit, ST: Transmit> SpaceIO<CT, ST> {
    /// The data space: 0-RTT at first, upgraded to 1-RTT later.
    pub fn new(crypto_stream: CT, streams: ST) -> (r: Self)
        ensures
            r.0.fresh(SpaceId::ZeroRtt, crypto_stream, streams),
    {
        SpaceIO(Space::build(SpaceId::ZeroRtt, crypto_stream, streams))
    }

    /// Turns the 0-RTT data space into the 1-RTT one; nothing else changes.
    pub fn upgrade(&mut self)
        requires
            old(self).0.wf(),
            old(self).0.space_id == SpaceId::ZeroRtt,
        ensures
            final(self).0.wf(),
            final(self).0.space_id == SpaceId::OneRtt,
            final(self).0.frames == old(self).0.frames,
            final(self).0.same_except_frames(Space { space_id: SpaceId::OneRtt, ..old(self).0 }),
    {
        self.0.space_id = SpaceId::OneRtt;
        proof {
            assert forall|i: int| 0 <= i < self.0.frames@.len() implies #[trigger] pure_ok(self.0.frames@[i], self.0.space_id) by {
                assert(pure_ok(old(self).0.frames@[i], SpaceId::ZeroRtt));
            }
            assert forall|i: int| 0 <= i < self.0.inflight_packets.items@.len() implies #[trigger] slot_ok(
                self.0.inflight_packets.items@[i], self.0.space_id) by {
                let s = self.0.inflight_packets.items@[i];
                assert(slot_ok(s, SpaceId::ZeroRtt));
                if let Some(p) = s {
                    assert forall|j: int| 0 <= j < p.payload@.len() implies #[trigger] record_ok(p.payload@[j], SpaceId::OneRtt) by {
                        assert(record_ok(p.payload@[j], SpaceId::ZeroRtt));
                    }
                }
            }
        }
    }

    /// The packet number after the largest received.
    pub fn expected_pn(&self) -> (r: u64)
        requires
            self.0.wf(),
        ensures
            r == self.0.rcvd_packets.spec_end(),
    {
        self.0.expected_pn()
    }
}

} // verus!
