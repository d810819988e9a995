use qcore::frame::ack::AckFrame;
use qcore::frame::flow::DataBlockedFrame;
use qcore::frame::{be_frame, Frame, SpaceId};
use qcore::rtt::Rtt;
use qcore::sender::Writer;
use qcore::space::{pure_frame_ok, NoStreams, Space, SpaceIO, State};

fn one_rtt() -> Space<NoStreams, NoStreams> {
    Space::build(SpaceId::OneRtt, NoStreams, NoStreams)
}

#[test]
fn space_it_works() {
    assert_eq!(2 + 2, 4);
}

#[test]
fn connection_it_works() {
    assert_eq!(2 + 2, 4)
}

#[test]
fn ack_generation_with_gaps() {
    let mut space = one_rtt();
    let t0 = 1_000_000;
    for pn in [1u64, 2, 4, 7] {
        space.record(pn, true, t0);
    }
    let ack = space.gen_ack_frame(t0 + 10_000);
    assert_eq!(ack.largest, 7);
    assert_eq!(ack.delay, 10_000);
    assert_eq!(ack.first_range, 0);
    assert_eq!(ack.ranges, vec![(1, 0), (0, 1)]);
    assert_eq!(ack.ecn, None);
}

#[test]
fn ack_covers_exactly_the_received_packets() {
    let mut space = one_rtt();
    let received = [0u64, 3, 4, 5, 9, 12, 13];
    for pn in received {
        space.record(pn, pn % 2 == 0, 50);
    }
    let ack = space.gen_ack_frame(60);
    assert_eq!(ack.largest, 13);
    let mut covered = Vec::new();
    let mut top = ack.largest as i64;
    let mut bottom = top - ack.first_range as i64;
    for pn in bottom..=top {
        covered.push(pn as u64);
    }
    for (gap, run) in &ack.ranges {
        top = bottom - *gap as i64 - 2;
        bottom = top - *run as i64;
        for pn in bottom..=top {
            covered.push(pn as u64);
        }
    }
    covered.sort();
    assert_eq!(covered, received.to_vec());
}

#[test]
fn record_marks_lost_event_and_delay() {
    let mut space = one_rtt();
    space.record(0, true, 100);
    assert_eq!(space.time_to_sync, Some(100 + 25_000));
    assert!(!space.need_send_ack_frame(200));
    assert!(space.need_send_ack_frame(25_100));
    // 1 is missing, and 5 - 3 >= 1
    space.record(5, true, 200);
    assert!(space.new_lost_event);
    assert!(space.need_send_ack_frame(300));
    assert_eq!(space.expected_pn(), 6);
    assert_eq!(space.rcvd_packets.items[1], State::NotReceived);
}

#[test]
fn non_eliciting_packets_do_not_ask_for_ack() {
    let mut space = one_rtt();
    space.record(0, false, 100);
    space.record(1, false, 100);
    assert_eq!(space.time_to_sync, None);
    assert!(!space.need_send_ack_frame(1_000_000));
}

#[test]
fn zero_rtt_never_sends_ack() {
    let mut space: Space<NoStreams, NoStreams> = Space::build(SpaceId::ZeroRtt, NoStreams, NoStreams);
    space.record(0, true, 0);
    space.record(9, true, 0);
    assert!(!space.need_send_ack_frame(1_000_000));
}

#[test]
fn try_send_writes_ack_then_frames() {
    let mut space = one_rtt();
    space.record(0, true, 0);
    space.record(1, true, 0);
    space.write_frame(Frame::DataBlocked(DataBlockedFrame { limit: 0x1234 }));
    let mut buf = Vec::new();
    let r = space.try_send(&mut buf, 1200, 30_000).unwrap();
    assert_eq!(r, Some((0, buf.len())));
    let (n, first) = be_frame(&buf).unwrap();
    match first {
        Frame::Ack(a) => {
            assert_eq!(a.largest, 1);
            assert_eq!(a.first_range, 1);
            assert_eq!(a.delay, 30_000);
        }
        other => panic!("unexpected frame {:?}", other),
    }
    assert_eq!(&buf[n..], &[0x14, 0x52, 0x34]);
    assert!(space.frames.is_empty());
    assert_eq!(space.time_to_sync, None);
    assert_eq!(space.last_synced_ack_largest, 1);
    assert_eq!(space.rcvd_packets.items[0], State::Synced(0));
    // nothing left to send
    let mut buf2 = Vec::new();
    assert_eq!(space.try_send(&mut buf2, 1200, 40_000), Ok(None));
    assert!(buf2.is_empty());
}

#[test]
fn try_send_keeps_frames_that_do_not_fit() {
    let mut space = one_rtt();
    space.write_frame(Frame::DataBlocked(DataBlockedFrame { limit: 0x1234 }));
    let mut buf = Vec::new();
    assert_eq!(space.try_send(&mut buf, 2, 0), Ok(None));
    assert_eq!(space.frames.len(), 1);
}

fn send_pings(space: &mut Space<NoStreams, NoStreams>, count: u64, t: u64) {
    for i in 0..count {
        space.write_frame(Frame::Ping);
        let mut buf = Vec::new();
        assert_eq!(space.try_send(&mut buf, 1200, t + i), Ok(Some((i, 1))));
    }
}

#[test]
fn ack_confirms_and_detects_loss() {
    let mut space = one_rtt();
    // packets 0..=9 sent at times 0..=9
    send_pings(&mut space, 10, 0);
    let mut rtt = Rtt::new();
    // the peer acknowledges 3..=9
    let ack = AckFrame { largest: 9, delay: 0, first_range: 6, ranges: vec![], ecn: None };
    let r = space.recv_ack_frame(&ack, 100, &mut rtt);
    assert_eq!(r, Some(7));
    assert_eq!(space.largest_acked_pktid, Some(9));
    // 0..=2 are 7 or more below 9: lost, their PINGs queued again
    assert_eq!(space.frames.len(), 3);
    // nothing is in flight any more
    assert_eq!(space.inflight_packets.items.iter().filter(|p| p.is_some()).count(), 0);
    // an RTT sample was taken from packet 9
    assert!(rtt.has_sample);
    assert_eq!(rtt.latest_rtt, 100 - 9);
    // the same ACK again tells nothing new
    assert_eq!(space.recv_ack_frame(&ack, 200, &mut rtt), None);
}

#[test]
fn loss_by_time_threshold() {
    let mut space = one_rtt();
    send_pings(&mut space, 5, 0);
    let mut rtt = Rtt::new();
    // the peer acknowledges only 4; 2 and 3 are fewer than 3 below it
    let ack = AckFrame { largest: 4, delay: 0, first_range: 0, ranges: vec![], ecn: None };
    assert_eq!(space.recv_ack_frame(&ack, 10, &mut rtt), Some(1));
    // 0 and 1 are lost by the packet threshold; 2 and 3 wait for the loss delay
    assert_eq!(space.frames.len(), 2);
    let pending: Vec<u64> = (0..space.inflight_packets.items.len() as u64)
        .filter(|i| space.inflight_packets.items[*i as usize].is_some())
        .map(|i| space.inflight_packets.offset + i)
        .collect();
    assert_eq!(pending, vec![2, 3]);
    let delay = rtt.loss_delay();
    assert_eq!(space.loss_time, Some(2 + delay));
    // once the loss delay has passed, detection declares them lost
    space.detect_lost(4, 3 + delay, delay);
    assert_eq!(space.frames.len(), 4);
    assert_eq!(space.inflight_packets.items.iter().filter(|p| p.is_some()).count(), 0);
}

#[test]
fn space_io_constructors() {
    let initial = SpaceIO::new_initial(NoStreams);
    assert_eq!(initial.0.space_id(), SpaceId::Initial);
    let handshake = SpaceIO::new_handshake(NoStreams);
    assert_eq!(handshake.0.space_id(), SpaceId::Handshake);
    let mut data = SpaceIO::new(NoStreams, Writer::new(0, 1000));
    assert_eq!(data.0.space_id(), SpaceId::ZeroRtt);
    data.upgrade();
    assert_eq!(data.0.space_id(), SpaceId::OneRtt);
    assert_eq!(data.expected_pn(), 0);
}

#[test]
fn try_send_draws_stream_data() {
    let mut space: Space<NoStreams, Writer> = Space::build(SpaceId::OneRtt, NoStreams, Writer::new(4, 1000));
    assert!(matches!(space.stm_trans.poll_write(b"hello"), qcore::sender::Progress::Ready(Ok(5))));
    let mut buf = Vec::new();
    let r = space.try_send(&mut buf, 1200, 0).unwrap();
    assert_eq!(r, Some((0, buf.len())));
    let (n, f) = be_frame(&buf).unwrap();
    assert_eq!(n, buf.len());
    match f {
        Frame::Stream(s) => {
            assert_eq!(s.id, 4);
            assert_eq!(s.offset, 0);
            assert_eq!(s.length, 5);
        }
        other => panic!("unexpected frame {:?}", other),
    }
    assert_eq!(&buf[n - 5..], b"hello");
    // the acknowledgement frees the bytes
    let mut rtt = Rtt::new();
    let ack = AckFrame { largest: 0, delay: 0, first_range: 0, ranges: vec![], ecn: None };
    assert_eq!(space.recv_ack_frame(&ack, 50, &mut rtt), Some(buf.len()));
    assert_eq!(space.stm_trans.base, 5);
    assert!(space.stm_trans.buffer.is_empty());
}

#[test]
fn loss_detection_runs_without_newly_acknowledged_packets() {
    let mut space = one_rtt();
    send_pings(&mut space, 10, 0);
    let mut rtt = Rtt::new();
    // acknowledges 5..=9
    let ack = AckFrame { largest: 9, delay: 0, first_range: 4, ranges: vec![], ecn: None };
    assert_eq!(space.recv_ack_frame(&ack, 100, &mut rtt), Some(5));
    // 0..=4 are lost by the threshold
    assert_eq!(space.frames.len(), 5);
    // an ACK with a new largest (10, never sent) acknowledges nothing new
    let ack = AckFrame { largest: 10, delay: 0, first_range: 0, ranges: vec![], ecn: None };
    assert_eq!(space.recv_ack_frame(&ack, 200, &mut rtt), None);
    assert_eq!(space.largest_acked_pktid, Some(10));
}

#[test]
fn stale_ack_changes_nothing() {
    let mut space = one_rtt();
    send_pings(&mut space, 3, 0);
    let mut rtt = Rtt::new();
    let ack = AckFrame { largest: 2, delay: 0, first_range: 0, ranges: vec![], ecn: None };
    assert_eq!(space.recv_ack_frame(&ack, 10, &mut rtt), Some(1));
    let frames = space.frames.len();
    let loss_time = space.loss_time;
    let earlier = AckFrame { largest: 1, delay: 0, first_range: 1, ranges: vec![], ecn: None };
    let before = rtt;
    assert_eq!(space.recv_ack_frame(&earlier, 20, &mut rtt), None);
    assert_eq!(space.frames.len(), frames);
    assert_eq!(space.loss_time, loss_time);
    assert_eq!(space.largest_acked_pktid, Some(2));
    assert_eq!(rtt, before);
}

#[test]
fn lost_frames_are_queued_in_order() {
    let mut space = one_rtt();
    for limit in [1u64, 2, 3, 4] {
        space.write_frame(Frame::DataBlocked(DataBlockedFrame { limit }));
        let mut buf = Vec::new();
        space.try_send(&mut buf, 1200, limit).unwrap().unwrap();
    }
    let mut rtt = Rtt::new();
    let ack = AckFrame { largest: 3, delay: 0, first_range: 0, ranges: vec![], ecn: None };
    assert_eq!(space.recv_ack_frame(&ack, 10, &mut rtt), Some(2));
    // packet 0 is lost by the threshold; 1 and 2 wait for the loss delay
    assert_eq!(space.frames, vec![Frame::DataBlocked(DataBlockedFrame { limit: 1 })]);
}

#[test]
fn ack_only_packet_is_sent() {
    let mut space = one_rtt();
    space.record(0, true, 0);
    let mut buf = Vec::new();
    let r = space.try_send(&mut buf, 1200, 25_000).unwrap();
    assert_eq!(r, Some((0, buf.len())));
    assert!(matches!(be_frame(&buf), Ok((_, Frame::Ack(_)))));
    let p = space.inflight_packets.items[0].as_ref().unwrap();
    assert!(!p.is_ack_eliciting);
}

#[test]
fn pure_frame_ok_refuses_what_cannot_be_queued() {
    assert!(pure_frame_ok(&Frame::Ping, SpaceId::Initial));
    assert!(!pure_frame_ok(&Frame::DataBlocked(DataBlockedFrame { limit: 1 }), SpaceId::Initial));
    assert!(!pure_frame_ok(&Frame::DataBlocked(DataBlockedFrame { limit: u64::MAX }), SpaceId::OneRtt));
    assert!(pure_frame_ok(&Frame::DataBlocked(DataBlockedFrame { limit: 1 }), SpaceId::OneRtt));
}

#[test]
fn new_space_starts_at_zero() {
    let space = one_rtt();
    assert_eq!(space.rcvd_packets.offset, 0);
    assert_eq!(space.inflight_packets.offset, 0);
    assert_eq!(space.expected_pn(), 0);
}
