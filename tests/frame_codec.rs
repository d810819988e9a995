use qcore::frame::ack::{ack_frame_with_flag, put_ack_frame, AckFrame};
use qcore::frame::connection_close::{
    connection_close_frame_at_layer, ConnectionCloseFrame, WriteConnectionCloseFrame, APP_LAYER,
    CONNECTION_CLOSE_FRAME_TYPE,
};
use qcore::frame::flow::{
    be_data_blocked_frame, be_max_stream_data_frame, streams_blocked_frame_with_dir,
    DataBlockedFrame, MaxStreamDataFrame, StreamsBlockedFrame, WriteDataBlockedFrame,
    WriteMaxStreamDataFrame, WriteStreamsBlockedFrame, DATA_BLOCKED_FRAME_TYPE,
    MAX_STREAM_DATA_FRAME_TYPE, STREAMS_BLOCKED_FRAME_TYPE,
};
use qcore::frame::new_connection_id::{
    be_new_connection_id_frame, NewConnectionIdFrame, WriteNewConnectionIdFrame,
};
use qcore::frame::path::{
    be_path_response_frame, PathResponseFrame, WritePathResponseFrame, PATH_RESPONSE_FRAME_TYPE,
};
use qcore::frame::stream::{
    stream_frame_with_flag, ShouldCarryLength, StreamFrame, WriteStreamFrame, STREAM_FRAME_TYPE,
};
use bytes::Bytes;
use qcore::frame::read::{read_frame, ReadFrame};
use qcore::frame::{be_frame, put_frame, Frame, FrameType, InvalidFrameType};
use qcore::varint::{be_varint, encoding_size, put_varint, ParseError, VARINT_MAX};

#[test]
fn mod_it_works() {
    assert_eq!(2 + 2, 4);
}

#[test]
fn test_read_connection_close_frame() {
    let buf = vec![CONNECTION_CLOSE_FRAME_TYPE, 0x52, 0x34, 5, b'w', b'r', b'o', b'n', b'g'];
    let (n, frame_type) = be_varint(&buf).unwrap();
    assert_eq!(frame_type, CONNECTION_CLOSE_FRAME_TYPE as u64);
    let (m, frame) = connection_close_frame_at_layer(APP_LAYER, &buf[n..]).unwrap();
    assert_eq!(&buf[n + m..], &[][..]);
    assert_eq!(
        frame,
        ConnectionCloseFrame { error_code: 0x1234, frame_type: None, reason: "wrong".into() }
    );
}

#[test]
fn test_write_connection_close_frame() {
    let mut buf = Vec::<u8>::new();
    let frame = ConnectionCloseFrame {
        error_code: 0x1234,
        frame_type: Some(0xe),
        reason: "wrong".into(),
    };
    buf.put_connection_close_frame(&frame);
    // A close that names a frame type is a transport-layer close: type 0x1c.
    assert_eq!(
        buf,
        vec![CONNECTION_CLOSE_FRAME_TYPE, 0x52, 0x34, 0xe, 5, b'w', b'r', b'o', b'n', b'g']
    );
}

#[test]
fn connection_close_round_trip() {
    let frame = ConnectionCloseFrame::new(0x1234, None, "wrong".to_string());
    let mut buf = Vec::new();
    buf.put_connection_close_frame(&frame);
    assert_eq!(buf, vec![0x1d, 0x52, 0x34, 0x05, 0x77, 0x72, 0x6f, 0x6e, 0x67]);
    assert_eq!(buf.len(), 9);
    let (n, parsed) = be_frame(&buf).unwrap();
    assert_eq!(n, 9);
    assert_eq!(parsed, Frame::ConnectionClose(frame));
}

#[test]
fn connection_close_with_frame_type_round_trip() {
    let frame = ConnectionCloseFrame::new(0x0a, Some(0x08), "bad stream".to_string());
    let mut buf = Vec::new();
    buf.put_connection_close_frame(&frame);
    assert_eq!(buf[0], 0x1c);
    assert_eq!(frame.frame_type(), 0x1c);
    let (n, parsed) = be_frame(&buf).unwrap();
    assert_eq!(n, buf.len());
    assert_eq!(parsed, Frame::ConnectionClose(frame));
}

#[test]
fn connection_close_invalid_utf8_is_decoded_lossily() {
    let buf = vec![0x1d, 0x01, 0x02, 0xff, b'a'];
    let (n, parsed) = be_frame(&buf).unwrap();
    assert_eq!(n, 5);
    match parsed {
        Frame::ConnectionClose(f) => {
            assert_eq!(f.error_code, 1);
            assert_eq!(f.frame_type, None);
            assert_eq!(f.reason, "\u{fffd}a");
        }
        other => panic!("unexpected frame {:?}", other),
    }
}

#[test]
fn connection_close_reason_incomplete() {
    let buf = vec![0x1d, 0x01, 0x05, b'a', b'b'];
    assert_eq!(be_frame(&buf), Err(ParseError::Incomplete(3)));
}

#[test]
fn test_read_data_blocked_frame() {
    let buf = vec![0x52, 0x34];
    let (_, frame) = be_data_blocked_frame(&buf).unwrap();
    assert_eq!(frame, DataBlockedFrame { limit: 0x1234 });
}

#[test]
fn test_write_data_blocked_frame() {
    let mut buf = Vec::new();
    buf.put_data_blocked_frame(&DataBlockedFrame { limit: 0x1234 });
    assert_eq!(buf, vec![DATA_BLOCKED_FRAME_TYPE, 0x52, 0x34]);
}

#[test]
fn data_blocked_encoding() {
    let mut buf = Vec::new();
    buf.put_data_blocked_frame(&DataBlockedFrame { limit: 0x1234 });
    assert_eq!(buf, vec![0x14, 0x52, 0x34]);
    assert_eq!(DataBlockedFrame { limit: 0x1234 }.encoding_size(), 3);
}

#[test]
fn test_read_max_stream_data_frame() {
    let buf = vec![0x52, 0x34, 0x80, 0, 0x56, 0x78];
    let (_, frame) = be_max_stream_data_frame(&buf).unwrap();
    assert_eq!(frame.stream_id, 0x1234);
    assert_eq!(frame.max_stream_data, 0x5678);
}

#[test]
fn test_write_max_stream_data_frame() {
    let mut buf = Vec::new();
    buf.put_max_stream_data_frame(&MaxStreamDataFrame { stream_id: 0x1234, max_stream_data: 0x5678 });
    assert_eq!(buf, vec![MAX_STREAM_DATA_FRAME_TYPE, 0x52, 0x34, 0x80, 0, 0x56, 0x78]);
}

#[test]
fn max_stream_data_encoding() {
    let frame = MaxStreamDataFrame { stream_id: 0x1234, max_stream_data: 0x5678 };
    let mut buf = Vec::new();
    buf.put_max_stream_data_frame(&frame);
    assert_eq!(buf, vec![0x11, 0x52, 0x34, 0x80, 0x00, 0x56, 0x78]);
    assert_eq!(be_frame(&buf), Ok((7, Frame::MaxStreamData(frame))));
}

#[test]
fn test_read_path_response_frame() {
    let buf = vec![PATH_RESPONSE_FRAME_TYPE, 0x01, 0x02, 0x03, 0x04, 0x05, 0x06, 0x07, 0x08];
    let (n, frame_type) = be_varint(&buf).unwrap();
    assert_eq!(frame_type, PATH_RESPONSE_FRAME_TYPE as u64);
    let (m, frame) = be_path_response_frame(&buf[n..]).unwrap();
    assert_eq!(&buf[n + m..], &[][..]);
    assert_eq!(frame, PathResponseFrame { data: [0x01, 0x02, 0x03, 0x04, 0x05, 0x06, 0x07, 0x08] });
}

#[test]
fn test_write_path_response_frame() {
    let mut buf = Vec::<u8>::new();
    let frame = PathResponseFrame { data: [0x01, 0x02, 0x03, 0x04, 0x05, 0x06, 0x07, 0x08] };
    buf.put_path_response_frame(&frame);
    assert_eq!(
        buf,
        vec![PATH_RESPONSE_FRAME_TYPE, 0x01, 0x02, 0x03, 0x04, 0x05, 0x06, 0x07, 0x08]
    );
}

#[test]
fn path_response_encoding() {
    let frame = PathResponseFrame::from_slice(&[1, 2, 3, 4, 5, 6, 7, 8]);
    let mut buf = Vec::new();
    buf.put_path_response_frame(&frame);
    assert_eq!(buf, vec![0x1b, 0x01, 0x02, 0x03, 0x04, 0x05, 0x06, 0x07, 0x08]);
    assert_eq!(be_frame(&buf), Ok((9, Frame::PathResponse(frame))));
}

#[test]
fn path_response_incomplete() {
    assert_eq!(be_path_response_frame(&[1, 2, 3]), Err(ParseError::Incomplete(5)));
}

#[test]
fn test_read_stream_frame() {
    let raw: Vec<u8> = vec![
        0x0e, 0x52, 0x34, 0x52, 0x34, 0x0b, b'h', b'e', b'l', b'l', b'o', b' ', b'w', b'o', b'r',
        b'l', b'd', 0,
    ];
    let (n, frame_type) = be_varint(&raw).unwrap();
    assert!(frame_type >= STREAM_FRAME_TYPE as u64);
    let (m, frame) = stream_frame_with_flag(frame_type as u8 & 0b111, &raw[n..]).unwrap();
    assert_eq!(
        &raw[n + m..],
        &[b'h', b'e', b'l', b'l', b'o', b' ', b'w', b'o', b'r', b'l', b'd', 0][..]
    );
    assert_eq!(frame, StreamFrame { id: 0x1234, offset: 0x1234, length: 11, flag: 0b110 });
}

#[test]
fn test_read_last_stream_frame() {
    let raw: Vec<u8> = vec![
        0x0c, 0x52, 0x34, 0x52, 0x34, b'h', b'e', b'l', b'l', b'o', b' ', b'w', b'o', b'r', b'l',
        b'd',
    ];
    let (n, frame_type) = be_varint(&raw).unwrap();
    assert!(frame_type >= STREAM_FRAME_TYPE as u64);
    let (m, frame) = stream_frame_with_flag(frame_type as u8 & 0b111, &raw[n..]).unwrap();
    assert_eq!(&raw[n + m..], &[b'h', b'e', b'l', b'l', b'o', b' ', b'w', b'o', b'r', b'l', b'd'][..]);
    assert_eq!(frame, StreamFrame { id: 0x1234, offset: 0x1234, length: 11, flag: 0b100 });
}

#[test]
fn test_write_initial_stream_frame() {
    let mut buf = Vec::new();
    let frame = StreamFrame { id: 0x1234, offset: 0, length: 11, flag: 0b011 };
    buf.put_stream_frame(&frame, b"hello world");
    assert_eq!(
        buf,
        vec![0xb, 0x52, 0x34, 0x0b, b'h', b'e', b'l', b'l', b'o', b' ', b'w', b'o', b'r', b'l', b'd']
    );
}

#[test]
fn test_write_last_stream_frame() {
    let mut buf = Vec::new();
    let frame = StreamFrame { id: 0x1234, offset: 0, length: 11, flag: 0b001 };
    buf.put_stream_frame(&frame, b"hello world");
    assert_eq!(
        buf,
        vec![0x9, 0x52, 0x34, b'h', b'e', b'l', b'l', b'o', b' ', b'w', b'o', b'r', b'l', b'd']
    );
}

#[test]
fn test_write_eos_frame() {
    let mut buf = Vec::new();
    let frame = StreamFrame { id: 0x1234, offset: 0x1234, length: 11, flag: 0b111 };
    buf.put_stream_frame(&frame, b"hello world");
    assert_eq!(
        buf,
        vec![
            0x0f, 0x52, 0x34, 0x52, 0x34, 0x0b, b'h', b'e', b'l', b'l', b'o', b' ', b'w', b'o',
            b'r', b'l', b'd'
        ]
    );
}

#[test]
fn test_write_unfinished_stream_frame() {
    let mut buf = Vec::new();
    let frame = StreamFrame { id: 0x1234, offset: 0x1234, length: 11, flag: 0b110 };
    buf.put_stream_frame(&frame, b"hello world");
    assert_eq!(
        buf,
        vec![
            0x0e, 0x52, 0x34, 0x52, 0x34, 0x0b, b'h', b'e', b'l', b'l', b'o', b' ', b'w', b'o',
            b'r', b'l', b'd'
        ]
    );
}

#[test]
fn stream_frame_with_offset_and_length() {
    let mut frame = StreamFrame::new(0x1234, 0x1234, 11);
    frame.carry_length();
    assert_eq!(frame, StreamFrame { id: 0x1234, offset: 0x1234, length: 11, flag: 0b110 });
    let mut buf = Vec::new();
    buf.put_stream_frame(&frame, b"hello world");
    let mut expected = vec![0x0e, 0x52, 0x34, 0x52, 0x34, 0x0b];
    expected.extend_from_slice(b"hello world");
    assert_eq!(buf, expected);
    assert_eq!(be_frame(&buf), Ok((17, Frame::Stream(frame))));
    assert_eq!(frame.range(), 0x1234..0x1234 + 11);
    assert!(!frame.is_fin());
}

#[test]
fn stream_frame_flags() {
    let mut frame = StreamFrame::new(4, 0, 3);
    assert_eq!(frame.flag, 0);
    frame.set_eos_flag(true);
    assert!(frame.is_fin());
    frame.set_eos_flag(false);
    assert!(!frame.is_fin());
    assert_eq!(frame.encoding_size(), 1 + 1 + 3);
}

#[test]
fn stream_frame_should_carry_length() {
    let frame = StreamFrame::new(0x1234, 0, 11);
    // 1 type + 2 id + 11 data
    assert_eq!(frame.encoding_size(), 14);
    assert_eq!(frame.should_carry_length(14), ShouldCarryLength::NoProblem);
    assert_eq!(frame.should_carry_length(15), ShouldCarryLength::PaddingFirst(1));
    assert_eq!(frame.should_carry_length(20), ShouldCarryLength::ShouldAfter(5, 6));
}

#[test]
fn stream_frame_estimate_max_capacity() {
    assert_eq!(StreamFrame::estimate_max_capacity(100, 0x1234, 0), Some(97));
    assert_eq!(StreamFrame::estimate_max_capacity(100, 0x1234, 0x1234), Some(95));
    assert_eq!(StreamFrame::estimate_max_capacity(3, 0x1234, 0), None);
}

#[test]
fn stream_frame_too_large_is_malformed() {
    // offset 2^62 - 1 with 1 byte of data goes past the varint range
    let mut buf = vec![0x0c, 0x01];
    put_varint(&mut buf, VARINT_MAX);
    buf.push(0xaa);
    assert_eq!(be_frame(&buf), Err(ParseError::Malformed));
}

#[test]
fn stream_frame_data_incomplete() {
    let buf = vec![0x0a, 0x01, 0x05, b'a'];
    assert_eq!(be_frame(&buf), Err(ParseError::Incomplete(4)));
}

#[test]
fn test_read_streams_blocked_frame() {
    let buf = vec![STREAMS_BLOCKED_FRAME_TYPE, 0x52, 0x34];
    let (n, frame_type) = be_varint(&buf).unwrap();
    assert_eq!(frame_type, STREAMS_BLOCKED_FRAME_TYPE as u64);
    let (m, frame) = streams_blocked_frame_with_dir(frame_type as u8, &buf[n..]).unwrap();
    assert_eq!(&buf[n + m..], &[][..]);
    assert_eq!(frame, StreamsBlockedFrame::Bi(0x1234));

    let buf = vec![STREAMS_BLOCKED_FRAME_TYPE | 0x1, 0x52, 0x34];
    let (n, frame_type) = be_varint(&buf).unwrap();
    assert_eq!(frame_type, (STREAMS_BLOCKED_FRAME_TYPE | 0x1) as u64);
    let (m, frame) = streams_blocked_frame_with_dir(frame_type as u8, &buf[n..]).unwrap();
    assert_eq!(&buf[n + m..], &[][..]);
    assert_eq!(frame, StreamsBlockedFrame::Uni(0x1234));
}

#[test]
fn test_write_streams_blocked_frame() {
    let mut buf = Vec::new();
    buf.put_streams_blocked_frame(&StreamsBlockedFrame::Bi(0x1234));
    assert_eq!(buf, vec![STREAMS_BLOCKED_FRAME_TYPE, 0x52, 0x34]);

    let mut buf = Vec::new();
    buf.put_streams_blocked_frame(&StreamsBlockedFrame::Uni(0x1234));
    assert_eq!(buf, vec![STREAMS_BLOCKED_FRAME_TYPE + 1, 0x52, 0x34]);
}

#[test]
fn varint_forms() {
    for (v, len) in [(0u64, 1usize), (63, 1), (64, 2), (16383, 2), (16384, 4), (0x3fff_ffff, 4), (0x4000_0000, 8), (VARINT_MAX, 8)] {
        let mut buf = Vec::new();
        put_varint(&mut buf, v);
        assert_eq!(buf.len(), len);
        assert_eq!(encoding_size(v), len);
        assert_eq!(be_varint(&buf), Ok((len, v)));
    }
    let mut buf = Vec::new();
    put_varint(&mut buf, 0x1234);
    assert_eq!(buf, vec![0x52, 0x34]);
}

#[test]
fn varint_accepts_longer_forms() {
    assert_eq!(be_varint(&[0x40, 0x25]), Ok((2, 37)));
    assert_eq!(be_varint(&[0x80, 0, 0, 0x25]), Ok((4, 37)));
    assert_eq!(be_varint(&[0xc0, 0, 0, 0, 0, 0, 0, 0x25]), Ok((8, 37)));
}

#[test]
fn varint_incomplete() {
    assert_eq!(be_varint(&[]), Err(ParseError::Incomplete(1)));
    assert_eq!(be_varint(&[0x80, 1]), Err(ParseError::Incomplete(2)));
}

#[test]
fn new_connection_id_round_trip() {
    let frame = NewConnectionIdFrame {
        sequence: 5,
        retire_prior_to: 2,
        id: vec![1, 2, 3, 4],
        reset_token: [9; 16],
    };
    let mut buf = Vec::new();
    buf.put_new_connection_id_frame(&frame);
    assert_eq!(buf.len(), 1 + 1 + 1 + 1 + 4 + 16);
    assert_eq!(be_frame(&buf), Ok((buf.len(), Frame::NewConnectionId(frame))));
}

#[test]
fn new_connection_id_rejects_retire_above_sequence() {
    let mut buf = vec![2, 3, 4, 1, 2, 3, 4];
    buf.extend_from_slice(&[0; 16]);
    assert_eq!(be_new_connection_id_frame(&buf), Err(ParseError::Malformed));
}

#[test]
fn new_connection_id_rejects_bad_length() {
    let mut buf = vec![3, 2, 0];
    buf.extend_from_slice(&[0; 16]);
    assert_eq!(be_new_connection_id_frame(&buf), Err(ParseError::Malformed));
    let mut buf = vec![3, 2, 21];
    buf.extend_from_slice(&[0; 40]);
    assert_eq!(be_new_connection_id_frame(&buf), Err(ParseError::Malformed));
}

#[test]
fn ack_frame_round_trip() {
    let frame = AckFrame {
        largest: 7,
        delay: 10_000,
        first_range: 0,
        ranges: vec![(1, 0), (0, 1)],
        ecn: None,
    };
    let mut buf = Vec::new();
    put_ack_frame(&mut buf, &frame);
    assert_eq!(buf, vec![0x02, 0x07, 0x67, 0x10, 0x02, 0x00, 0x01, 0x00, 0x00, 0x01]);
    assert_eq!(be_frame(&buf), Ok((buf.len(), Frame::Ack(frame))));
}

#[test]
fn ack_frame_with_ecn_round_trip() {
    let frame = AckFrame { largest: 100, delay: 3, first_range: 4, ranges: vec![], ecn: Some((1, 2, 3)) };
    let mut buf = Vec::new();
    put_ack_frame(&mut buf, &frame);
    assert_eq!(buf[0], 0x03);
    assert_eq!(be_frame(&buf), Ok((buf.len(), Frame::Ack(frame))));
}

#[test]
fn ack_frame_below_zero_is_malformed() {
    // largest 3, first range 4
    assert_eq!(ack_frame_with_flag(false, &[3, 0, 0, 4]), Err(ParseError::Malformed));
    // largest 3, first range 0, then a gap of 2 and a range of 0 reaches -1
    assert_eq!(ack_frame_with_flag(false, &[3, 0, 1, 0, 2, 0]), Err(ParseError::Malformed));
}

#[test]
fn unknown_frame_type() {
    assert_eq!(be_frame(&[0x1f]), Err(ParseError::UnknownType(0x1f)));
    assert_eq!(FrameType::from_value(0x07), Err(InvalidFrameType(0x07)));
    assert_eq!(FrameType::from_value(0x0d), Ok(FrameType::Stream(0b101)));
    assert_eq!(FrameType::from_value(0x1c), Ok(FrameType::ConnectionClose(1)));
}

#[test]
fn control_frames_round_trip() {
    let frames = vec![
        Frame::Padding,
        Frame::Ping,
        Frame::DataBlocked(DataBlockedFrame { limit: 77 }),
        Frame::MaxStreamData(MaxStreamDataFrame { stream_id: 4, max_stream_data: 1 << 40 }),
        Frame::StreamsBlocked(StreamsBlockedFrame::Uni(9)),
        Frame::PathResponse(PathResponseFrame { data: [8; 8] }),
    ];
    for f in frames {
        let mut buf = Vec::new();
        put_frame(&mut buf, &f);
        buf.push(0xff);
        assert_eq!(be_frame(&buf), Ok((buf.len() - 1, f)));
    }
}

#[test]
fn read_frame_shares_stream_data() {
    let mut raw = vec![0x01];
    raw.extend_from_slice(&[0x0e, 0x52, 0x34, 0x52, 0x34, 0x0b]);
    raw.extend_from_slice(b"hello world");
    raw.push(0x00);
    let raw = Bytes::from(raw);
    let (n, first) = read_frame(&raw, 0).unwrap();
    assert_eq!(n, 1);
    assert!(matches!(first, ReadFrame::Other(Frame::Ping)));
    let (m, second) = read_frame(&raw, n).unwrap();
    assert_eq!(m, 17);
    match second {
        ReadFrame::Stream(f, data) => {
            assert_eq!((f.id, f.offset, f.length), (0x1234, 0x1234, 11));
            assert_eq!(&data[..], b"hello world");
        }
        other => panic!("unexpected frame {:?}", other),
    }
    let (k, third) = read_frame(&raw, n + m).unwrap();
    assert_eq!(k, 1);
    assert!(matches!(third, ReadFrame::Other(Frame::Padding)));
}

#[test]
fn read_frame_crypto_data() {
    let raw = Bytes::from(vec![0x06, 0x00, 0x03, b'a', b'b', b'c']);
    let (n, frame) = read_frame(&raw, 0).unwrap();
    assert_eq!(n, 6);
    match frame {
        ReadFrame::Crypto(f, data) => {
            assert_eq!((f.offset, f.length), (0, 3));
            assert_eq!(&data[..], b"abc");
        }
        other => panic!("unexpected frame {:?}", other),
    }
    assert!(matches!(read_frame(&raw.slice(0..4), 0), Err(ParseError::Incomplete(2))));
}
