use qcore::crypto::CryptoStream;
use qcore::frame::ack::AckFrame;
use qcore::frame::read::{read_frame, ReadFrame};
use qcore::frame::{be_frame, Frame, SpaceId};
use qcore::rtt::Rtt;
use qcore::space::{SpaceIO, Transmit};

#[test]
fn crypto_frames_carry_handshake_bytes() {
    let mut cs = CryptoStream::new();
    assert_eq!(cs.write(b"hello"), 5);
    let mut buf = Vec::new();
    let f = cs.try_send_data(&mut buf, 100).unwrap();
    assert_eq!((f.offset, f.length), (0, 5));
    assert_eq!(buf, vec![0x06, 0x00, 0x05, b'h', b'e', b'l', b'l', b'o']);
    assert!(cs.try_send_data(&mut buf, 100).is_none());
}

#[test]
fn crypto_frames_split_to_fit() {
    let mut cs = CryptoStream::new();
    assert_eq!(cs.write(b"0123456789"), 10);
    let mut buf = Vec::new();
    // 1 type + 1 offset + 1 length + 4 data
    let a = cs.try_send_data(&mut buf, 7).unwrap();
    assert_eq!((a.offset, a.length), (0, 4));
    assert_eq!(buf.len(), 7);
    let mut buf = Vec::new();
    let b = cs.try_send_data(&mut buf, 100).unwrap();
    assert_eq!((b.offset, b.length), (4, 6));
    assert_eq!(&buf[3..], b"456789");
}

#[test]
fn initial_space_sends_crypto_and_frees_it_on_ack() {
    let mut space = SpaceIO::new_initial(CryptoStream::new());
    assert_eq!(space.0.space_id(), SpaceId::Initial);
    assert_eq!(space.0.tls_trans.write(b"client hello"), 12);
    let mut buf = Vec::new();
    let (pn, n) = space.0.try_send(&mut buf, 1200, 0).unwrap().unwrap();
    assert_eq!((pn, n), (0, buf.len()));
    let raw = bytes::Bytes::from(buf.clone());
    match read_frame(&raw, 0).unwrap() {
        (m, ReadFrame::Crypto(f, data)) => {
            assert_eq!(m, buf.len());
            assert_eq!((f.offset, f.length), (0, 12));
            assert_eq!(&data[..], b"client hello");
        }
        other => panic!("unexpected frame {:?}", other),
    }
    let mut rtt = Rtt::new();
    let ack = AckFrame { largest: 0, delay: 0, first_range: 0, ranges: vec![], ecn: None };
    assert_eq!(space.0.recv_ack_frame(&ack, 1_000, &mut rtt), Some(buf.len()));
    assert_eq!(space.0.tls_trans.send.base, 12);
}

#[test]
fn lost_crypto_data_is_sent_again() {
    let mut cs = CryptoStream::new();
    cs.write(b"abc");
    let mut buf = Vec::new();
    let f = cs.try_send_data(&mut buf, 100).unwrap();
    Transmit::may_loss_data(&mut cs, qcore::space::DataFrame::Crypto(f));
    let mut again = Vec::new();
    let g = cs.try_send_data(&mut again, 100).unwrap();
    assert_eq!(f, g);
    assert_eq!(buf, again);
    assert_eq!(be_frame(&again), Ok((again.len(), Frame::Crypto(g))));
}
