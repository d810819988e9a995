use qcore::frame::be_frame;
use qcore::frame::Frame;
use qcore::sender::{Progress, SenderState, WriteError, Writer};
use qcore::space::Transmit;

#[test]
fn writer_it_works() {
    assert_eq!(2 + 2, 4);
}

#[test]
fn write_respects_credit() {
    let mut w = Writer::new(0, 4);
    assert_eq!(w.poll_write(b"hello"), Progress::Ready(Ok(4)));
    assert_eq!(w.poll_write(b"o"), Progress::Pending);
    assert_eq!(w.poll_write(b""), Progress::Ready(Ok(0)));
    w.update_max_stream_data(10);
    assert_eq!(w.poll_write(b"o"), Progress::Ready(Ok(1)));
    assert_eq!(w.buffer, b"hello".to_vec());
    w.update_max_stream_data(3);
    assert_eq!(w.max_stream_data, 10);
}

#[test]
fn life_cycle_to_data_recvd() {
    let mut w = Writer::new(0, 100);
    assert_eq!(w.poll_write(b"abc"), Progress::Ready(Ok(3)));
    assert_eq!(w.poll_flush(), Progress::Pending);
    let mut buf = Vec::new();
    let f = Writer::try_send_data(&mut w, &mut buf, 100).unwrap();
    assert_eq!(w.state, SenderState::Sending);
    assert_eq!((f.offset, f.length, f.is_fin()), (0, 3, false));
    assert_eq!(w.poll_shutdown(), Progress::Pending);
    assert_eq!(w.state, SenderState::DataSent);
    assert_eq!(w.poll_write(b"x"), Progress::Ready(Err(WriteError::Unsupported)));
    // the FIN goes out on its own
    let mut buf = Vec::new();
    let fin = Writer::try_send_data(&mut w, &mut buf, 100).unwrap();
    assert!(fin.is_fin());
    assert_eq!(fin.length, 0);
    w.confirm(0, 3);
    // the data is acknowledged, the FIN not yet
    assert_eq!(w.poll_flush(), Progress::Pending);
    assert_eq!(w.state, SenderState::DataSent);
    w.on_fin_acked();
    assert_eq!(w.poll_flush(), Progress::Ready(Ok(())));
    assert_eq!(w.state, SenderState::DataRecvd);
    assert_eq!(w.poll_write(b"x"), Progress::Ready(Err(WriteError::Unsupported)));
    assert_eq!(w.poll_shutdown(), Progress::Ready(Ok(())));
    w.cancel();
    assert_eq!(w.state, SenderState::DataRecvd);
}

#[test]
fn drop_cancels() {
    let mut w = Writer::new(0, 100);
    w.cancel();
    assert!(w.cancel);
    assert_eq!(w.state, SenderState::ResetSent(0));

    let mut w = Writer::new(0, 100);
    assert_eq!(w.poll_write(b"abcd"), Progress::Ready(Ok(4)));
    let mut buf = Vec::new();
    Writer::try_send_data(&mut w, &mut buf, 100).unwrap();
    w.cancel();
    assert!(w.cancel);
    assert_eq!(w.state, SenderState::ResetSent(4));
    assert_eq!(w.poll_write(b"x"), Progress::Ready(Err(WriteError::BrokenPipe)));
    assert_eq!(w.poll_flush(), Progress::Ready(Err(WriteError::BrokenPipe)));
    w.on_reset_acked();
    assert_eq!(w.state, SenderState::ResetRecvd);
    assert_eq!(w.poll_write(b"x"), Progress::Ready(Err(WriteError::BrokenPipe)));
    assert_eq!(w.poll_shutdown(), Progress::Ready(Err(WriteError::BrokenPipe)));
}

#[test]
fn reset_frame_is_sent_once() {
    let mut w = Writer::new(8, 100);
    assert_eq!(w.poll_write(b"ab"), Progress::Ready(Ok(2)));
    let mut buf = Vec::new();
    Writer::try_send_data(&mut w, &mut buf, 100).unwrap();
    w.stop_sending();
    assert_eq!(w.state, SenderState::ResetSent(2));
    let mut buf = Vec::new();
    let f = Transmit::try_send_frame(&mut w, &mut buf, 100).unwrap();
    assert_eq!(be_frame(&buf), Ok((buf.len(), f.clone())));
    match f {
        Frame::ResetStream(r) => {
            assert_eq!(r.stream_id, 8);
            assert_eq!(r.final_size, 2);
        }
        other => panic!("unexpected frame {:?}", other),
    }
    let mut buf = Vec::new();
    assert!(Transmit::try_send_frame(&mut w, &mut buf, 100).is_none());
}

#[test]
fn out_of_order_acknowledgement_and_loss() {
    let mut w = Writer::new(0, 100);
    assert_eq!(w.poll_write(b"0123456789"), Progress::Ready(Ok(10)));
    let mut buf = Vec::new();
    // 6 bytes hold a header without length and 4 bytes from offset 0, or 3
    // bytes from a later offset
    let a = Writer::try_send_data(&mut w, &mut buf, 6).unwrap();
    let b = Writer::try_send_data(&mut w, &mut buf, 6).unwrap();
    assert_eq!((a.offset, a.length, a.flag), (0, 4, 0));
    assert_eq!((b.offset, b.length, b.flag), (4, 3, 0b100));
    assert_eq!(buf, vec![0x08, 0x00, b'0', b'1', b'2', b'3', 0x0c, 0x00, 0x04, b'4', b'5', b'6']);
    w.confirm(4, 3);
    assert_eq!(w.base, 0);
    w.may_loss(0, 4);
    assert_eq!(w.sent, 0);
    let again = Writer::try_send_data(&mut w, &mut buf, 100).unwrap();
    assert_eq!((again.offset, again.length), (0, 10));
    w.confirm(0, 4);
    assert_eq!(w.base, 7);
    assert_eq!(w.buffer, b"789".to_vec());
}

#[test]
fn small_gap_is_padded_before_the_frame() {
    let mut w = Writer::new(0, 100);
    assert_eq!(w.poll_write(b"ab"), Progress::Ready(Ok(2)));
    let mut buf = Vec::new();
    let f = Writer::try_send_data(&mut w, &mut buf, 5).unwrap();
    assert_eq!((f.offset, f.length, f.flag), (0, 2, 0));
    assert_eq!(buf, vec![0x00, 0x08, 0x00, b'a', b'b']);
}

#[test]
fn frame_with_room_after_it_carries_its_length() {
    let mut w = Writer::new(0, 100);
    assert_eq!(w.poll_write(b"ab"), Progress::Ready(Ok(2)));
    let mut buf = Vec::new();
    let f = Writer::try_send_data(&mut w, &mut buf, 10).unwrap();
    assert_eq!((f.offset, f.length, f.flag), (0, 2, 0b010));
    assert_eq!(buf, vec![0x0a, 0x00, 0x02, b'a', b'b']);
    assert!(Writer::try_send_data(&mut w, &mut buf, 10).is_none());
}

#[test]
fn shutdown_waits_for_the_fin_acknowledgement() {
    let mut w = Writer::new(0, 100);
    assert_eq!(w.poll_write(b"x"), Progress::Ready(Ok(1)));
    let mut buf = Vec::new();
    Writer::try_send_data(&mut w, &mut buf, 100).unwrap();
    w.confirm(0, 1);
    // all data acknowledged, but no FIN sent yet
    assert_eq!(w.poll_shutdown(), Progress::Pending);
    assert_eq!(w.state, SenderState::DataSent);
    let mut buf = Vec::new();
    let fin = Writer::try_send_data(&mut w, &mut buf, 100).unwrap();
    assert!(fin.is_fin());
    Transmit::confirm_data(&mut w, qcore::space::DataFrame::Stream(fin));
    assert!(w.fin_acked);
    assert_eq!(w.poll_shutdown(), Progress::Ready(Ok(())));
    assert_eq!(w.state, SenderState::DataRecvd);
}

#[test]
fn writer_sends_when_header_fits() {
    let mut w = Writer::new(0, 100);
    assert_eq!(w.poll_write(b"abc"), Progress::Ready(Ok(3)));
    let mut buf = Vec::new();
    // type and id take 2 bytes: 3 bytes leave room for one data byte
    let f = Writer::try_send_data(&mut w, &mut buf, 3).unwrap();
    assert_eq!((f.offset, f.length), (0, 1));
    let mut buf = Vec::new();
    assert!(Writer::try_send_data(&mut w, &mut buf, 3).is_none());
}
