//! Parsing what the writers produce gives back what was written.

use vstd::prelude::*;
use vstd::utf8::{encode_utf8, encode_utf8_decode_utf8, encode_utf8_valid_utf8};

use crate::frame::ack::{ecn_bytes, ranges_bytes, ranges_ok, spec_ack, spec_ack_ranges, AckFields, AckFrame};
use crate::frame::connection_close::{opt_bytes, reason_text};
use crate::frame::flow::{
    DataBlockedFrame, MaxDataFrame, MaxStreamDataFrame, MaxStreamsFrame, StreamDataBlockedFrame,
    StreamsBlockedFrame,
};
use crate::frame::new_connection_id::NewConnectionIdFrame;
use crate::frame::path::{PathChallengeFrame, PathResponseFrame};
use crate::frame::connection_close::ConnectionCloseFrame;
use crate::frame::stream::{
    opt_varint_bytes, CryptoFrame, ResetStreamFrame, StopSendingFrame, StreamFrame,
};
use crate::frame::{frame_bytes, frame_data_len, frame_parsed, frame_type_of, frame_wf, spec_varint2, spec_varint3, Frame, FrameType};
use crate::varint::{lemma_varint_round_trip, spec_varint, varint_bytes, varint_len, ParseError, VARINT_MAX};

verus! {

/// A varint followed by anything reads back, leaving what follows.
pub proof fn lemma_varint_then(v: u64, rest: Seq<u8>)
    requires
        v <= VARINT_MAX,
    ensures
        spec_varint(varint_bytes(v) + rest) == Ok::<(int, u64), ParseError>((varint_len(v) as int, v)),
        (varint_bytes(v) + rest).skip(varint_len(v) as int) == rest,
        varint_bytes(v).len() == varint_len(v),
{
    lemma_varint_round_trip(v, rest);
    assert((varint_bytes(v) + rest).skip(varint_len(v) as int) =~= rest);
}

/// Two varints followed by anything read back.
pub proof fn lemma_varint2_then(a: u64, b: u64, rest: Seq<u8>)
    requires
        a <= VARINT_MAX,
        b <= VARINT_MAX,
    ensures
        spec_varint2(varint_bytes(a) + varint_bytes(b) + rest) == Ok::<(int, (u64, u64)), ParseError>(
            ((varint_len(a) + varint_len(b)) as int, (a, b)),
        ),
        (varint_bytes(a) + varint_bytes(b) + rest).skip((varint_len(a) + varint_len(b)) as int) == rest,
{
    let s = varint_bytes(a) + varint_bytes(b) + rest;
    assert(s =~= varint_bytes(a) + (varint_bytes(b) + rest));
    lemma_varint_then(a, varint_bytes(b) + rest);
    lemma_varint_then(b, rest);
    assert(s.skip((varint_len(a) + varint_len(b)) as int) =~= rest);
}

/// Three varints followed by anything read back.
pub proof fn lemma_varint3_then(a: u64, b: u64, c: u64, rest: Seq<u8>)
    requires
        a <= VARINT_MAX,
        b <= VARINT_MAX,
        c <= VARINT_MAX,
    ensures
        spec_varint3(varint_bytes(a) + varint_bytes(b) + varint_bytes(c) + rest) == Ok::<
            (int, (u64, u64, u64)),
            ParseError,
        >(((varint_len(a) + varint_len(b) + varint_len(c)) as int, (a, b, c))),
        (varint_bytes(a) + varint_bytes(b) + varint_bytes(c) + rest).skip(
            (varint_len(a) + varint_len(b) + varint_len(c)) as int,
        ) == rest,
{
    let s = varint_bytes(a) + varint_bytes(b) + varint_bytes(c) + rest;
    assert(s =~= varint_bytes(a) + varint_bytes(b) + (varint_bytes(c) + rest));
    lemma_varint2_then(a, b, varint_bytes(c) + rest);
    lemma_varint_then(c, rest);
    assert(s.skip((varint_len(a) + varint_len(b) + varint_len(c)) as int) =~= rest);
}

/// A type byte below 0x40 is a one-byte varint.
pub proof fn lemma_type_byte(t: u8, rest: Seq<u8>)
    requires
        t < 0x40,
    ensures
        spec_varint(seq![t] + rest) == Ok::<(int, u64), ParseError>((1, t as u64)),
        (seq![t] + rest).skip(1) == rest,
{
    assert((seq![t] + rest)[0] == t);
    assert(((t & 0x3f) as u64) == t as u64) by (bit_vector)
        requires t < 0x40;
    assert((seq![t] + rest).skip(1) =~= rest);
}

/// The pairs of an ACK frame read back.
pub proof fn lemma_ranges_then(rs: Seq<(u64, u64)>, rest: Seq<u8>)
    requires
        forall|i: int| 0 <= i < rs.len() ==> #[trigger] rs[i].0 <= VARINT_MAX && rs[i].1 <= VARINT_MAX,
    ensures
        spec_ack_ranges(ranges_bytes(rs) + rest, rs.len()) == Ok::<(int, Seq<(u64, u64)>), ParseError>(
            (ranges_bytes(rs).len() as int, rs),
        ),
    decreases rs.len(),
{
    if rs.len() == 0 {
        assert(rs =~= Seq::<(u64, u64)>::empty());
    } else {
        let tail = rs.skip(1);
        assert(rs[0].0 <= VARINT_MAX);
        assert forall|i: int| 0 <= i < tail.len() implies #[trigger] tail[i].0 <= VARINT_MAX && tail[i].1 <= VARINT_MAX by {
            assert(tail[i] == rs[i + 1]);
        }
        lemma_ranges_then(tail, rest);
        let s = ranges_bytes(rs) + rest;
        assert(s =~= varint_bytes(rs[0].0) + varint_bytes(rs[0].1) + (ranges_bytes(tail) + rest));
        lemma_varint2_then(rs[0].0, rs[0].1, ranges_bytes(tail) + rest);
        assert(seq![rs[0]] + tail =~= rs);
    }
}

/// The fixed head of an ACK body (largest, delay, count, first range) reads
/// back, leaving the rest.
proof fn lemma_ack_head(largest: u64, delay: u64, count: u64, first_range: u64, t: Seq<u8>)
    requires
        largest <= VARINT_MAX,
        delay <= VARINT_MAX,
        count <= VARINT_MAX,
        first_range <= VARINT_MAX,
    ensures
        ({
            let b = varint_bytes(largest) + varint_bytes(delay) + varint_bytes(count) + varint_bytes(first_range) + t;
            let n1 = (varint_len(largest) + varint_len(delay) + varint_len(count)) as int;
            let n2 = varint_len(first_range) as int;
            &&& spec_varint3(b) == Ok::<(int, (u64, u64, u64)), ParseError>((n1, (largest, delay, count)))
            &&& spec_varint(b.skip(n1)) == Ok::<(int, u64), ParseError>((n2, first_range))
            &&& b.skip(n1 + n2) == t
            &&& b.len() == n1 + n2 + t.len()
        }),
{
    let t1 = varint_bytes(first_range) + t;
    let b = varint_bytes(largest) + varint_bytes(delay) + varint_bytes(count) + varint_bytes(first_range) + t;
    assert(b =~= varint_bytes(largest) + varint_bytes(delay) + varint_bytes(count) + t1);
    lemma_varint3_then(largest, delay, count, t1);
    lemma_varint_then(first_range, t);
    let n1 = (varint_len(largest) + varint_len(delay) + varint_len(count)) as int;
    assert(b.skip(n1 + varint_len(first_range)) =~= t);
}

/// Reading an ACK body, step by step.
proof fn lemma_spec_ack_steps(
    ecn: bool,
    s: Seq<u8>,
    n1: int,
    largest: u64,
    delay: u64,
    count: u64,
    n2: int,
    first_range: u64,
    n3: int,
    rs: Seq<(u64, u64)>,
    n4: int,
    counts: Option<(u64, u64, u64)>,
)
    requires
        spec_varint3(s) == Ok::<(int, (u64, u64, u64)), ParseError>((n1, (largest, delay, count))),
        spec_varint(s.skip(n1)) == Ok::<(int, u64), ParseError>((n2, first_range)),
        first_range <= largest,
        spec_ack_ranges(s.skip(n1 + n2), count as nat) == Ok::<(int, Seq<(u64, u64)>), ParseError>((n3, rs)),
        ranges_ok(largest - first_range, rs),
        ecn == counts is Some,
        ecn ==> spec_varint3(s.skip(n1 + n2 + n3)) == Ok::<(int, (u64, u64, u64)), ParseError>((n4, counts->Some_0)),
        !ecn ==> n4 == 0,
    ensures
        spec_ack(ecn, s) == Ok::<(int, AckFields), ParseError>((n1 + n2 + n3 + n4, (largest, delay, first_range, rs, counts))),
{
}

/// An ACK body reads back, given what its head and its pairs read as.
#[verifier::spinoff_prover]
#[verifier::rlimit(100)]
proof fn lemma_ack_body(a: AckFrame, rest: Seq<u8>)
    requires
        a.wf(),
    ensures
        ({
            let body = a.spec_bytes().skip(1);
            spec_ack(a.ecn is Some, body + rest) == Ok::<(int, AckFields), ParseError>(
                (body.len() as int, (a.largest, a.delay, a.first_range, a.ranges@, a.ecn)),
            )
        }),
{
    let rs = a.ranges@;
    let count = rs.len() as u64;
    let body = a.spec_bytes().skip(1);
    let t3 = ecn_bytes(a.ecn) + rest;
    let t2 = ranges_bytes(rs) + t3;
    assert(body + rest =~= varint_bytes(a.largest) + varint_bytes(a.delay) + varint_bytes(count) + varint_bytes(a.first_range) + t2);
    lemma_ack_head(a.largest, a.delay, count, a.first_range, t2);
    lemma_ranges_then(rs, t3);
    let b = body + rest;
    let n1 = (varint_len(a.largest) + varint_len(a.delay) + varint_len(count)) as int;
    let n2 = varint_len(a.first_range) as int;
    let n3 = ranges_bytes(rs).len() as int;
    assert(b.skip(n1 + n2) == t2);
    assert(count as nat == rs.len());
    assert(b.skip(n1 + n2 + n3) =~= t3);
    match a.ecn {
        Some((x, y, z)) => {
            assert(t3 =~= varint_bytes(x) + varint_bytes(y) + varint_bytes(z) + rest);
            lemma_varint3_then(x, y, z, rest);
            let n4 = (varint_len(x) + varint_len(y) + varint_len(z)) as int;
            lemma_spec_ack_steps(true, b, n1, a.largest, a.delay, count, n2, a.first_range, n3, rs, n4, a.ecn);
            assert(body.len() == n1 + n2 + n3 + n4);
        },
        None => {
            assert(t3 =~= rest);
            lemma_spec_ack_steps(false, b, n1, a.largest, a.delay, count, n2, a.first_range, n3, rs, 0, a.ecn);
            assert(body.len() == n1 + n2 + n3);
        },
    }
}

#[verifier::spinoff_prover]
#[verifier::rlimit(100)]
proof fn lemma_round_trip_ack(a: AckFrame, rest: Seq<u8>)
    requires
        a.wf(),
        a.spec_bytes().len() <= usize::MAX,
    ensures
        frame_parsed(
            frame_bytes(Frame::Ack(a)) + Seq::<u8>::empty() + rest,
            Ok((frame_bytes(Frame::Ack(a)).len() as usize, Frame::Ack(a))),
        ),
{
    let bytes = a.spec_bytes();
    let b = bytes.skip(1) + rest;
    assert(bytes + Seq::<u8>::empty() + rest =~= seq![bytes[0]] + b);
    let ty: u8 = if a.ecn is Some { 3 } else { 2 };
    assert((2u8 | 1u8) == 3u8 && (2u8 | 0u8) == 2u8) by (bit_vector);
    assert(bytes[0] == ty);
    lemma_type_byte(ty, b);
    lemma_ack_body(a, rest);
    assert(b == bytes.skip(1) + rest);
    assert((bytes.len() - 1) as usize == (bytes.len() as usize - 1) as usize);
    reveal(frame_parsed);
}

/// A STREAM frame's type is 0x08 with its flag bits.
proof fn lemma_stream_type(flag: u8)
    requires
        flag < 8,
    ensures
        (0x08u8 | flag) < 0x40,
        frame_type_of((0x08u8 | flag) as u64) == Some(FrameType::Stream(flag)),
        flag & 7 == flag,
{
    assert((0x08u8 | flag) == 0x08 + flag && flag & 7 == flag) by (bit_vector)
        requires flag < 8;
}

proof fn lemma_round_trip_padding(data: Seq<u8>, rest: Seq<u8>)
    requires
        frame_wf(Frame::Padding),
        data.len() == frame_data_len(Frame::Padding),
        (Frame::Padding matches Frame::Stream(sf) && !sf.has_len()) ==> rest.len() == 0,
        frame_bytes(Frame::Padding).len() + data.len() <= usize::MAX,
    ensures
        frame_parsed(
            frame_bytes(Frame::Padding) + data + rest,
            Ok(((frame_bytes(Frame::Padding).len() + data.len()) as usize, Frame::Padding)),
        ),
{
    reveal(frame_parsed);
    let f = Frame::Padding;
    let bytes = frame_bytes(f);
    let s = bytes + data + rest;
    let b = bytes.skip(1) + data + rest;
    assert(s =~= seq![bytes[0]] + b);
        lemma_type_byte(0, b);
}

proof fn lemma_round_trip_ping(data: Seq<u8>, rest: Seq<u8>)
    requires
        frame_wf(Frame::Ping),
        data.len() == frame_data_len(Frame::Ping),
        (Frame::Ping matches Frame::Stream(sf) && !sf.has_len()) ==> rest.len() == 0,
        frame_bytes(Frame::Ping).len() + data.len() <= usize::MAX,
    ensures
        frame_parsed(
            frame_bytes(Frame::Ping) + data + rest,
            Ok(((frame_bytes(Frame::Ping).len() + data.len()) as usize, Frame::Ping)),
        ),
{
    reveal(frame_parsed);
    let f = Frame::Ping;
    let bytes = frame_bytes(f);
    let s = bytes + data + rest;
    let b = bytes.skip(1) + data + rest;
    assert(s =~= seq![bytes[0]] + b);
        lemma_type_byte(1, b);
}

proof fn lemma_round_trip_reset_stream(x: ResetStreamFrame, data: Seq<u8>, rest: Seq<u8>)
    requires
        frame_wf(Frame::ResetStream(x)),
        data.len() == frame_data_len(Frame::ResetStream(x)),
        (Frame::ResetStream(x) matches Frame::Stream(sf) && !sf.has_len()) ==> rest.len() == 0,
        frame_bytes(Frame::ResetStream(x)).len() + data.len() <= usize::MAX,
    ensures
        frame_parsed(
            frame_bytes(Frame::ResetStream(x)) + data + rest,
            Ok(((frame_bytes(Frame::ResetStream(x)).len() + data.len()) as usize, Frame::ResetStream(x))),
        ),
{
    reveal(frame_parsed);
    let f = Frame::ResetStream(x);
    let bytes = frame_bytes(f);
    let s = bytes + data + rest;
    let b = bytes.skip(1) + data + rest;
    assert(s =~= seq![bytes[0]] + b);
        lemma_type_byte(0x04, b);
        assert(b =~= varint_bytes(x.stream_id) + varint_bytes(x.app_error_code) + varint_bytes(x.final_size) + rest);
        lemma_varint3_then(x.stream_id, x.app_error_code, x.final_size, rest);
}

proof fn lemma_round_trip_stop_sending(x: StopSendingFrame, data: Seq<u8>, rest: Seq<u8>)
    requires
        frame_wf(Frame::StopSending(x)),
        data.len() == frame_data_len(Frame::StopSending(x)),
        (Frame::StopSending(x) matches Frame::Stream(sf) && !sf.has_len()) ==> rest.len() == 0,
        frame_bytes(Frame::StopSending(x)).len() + data.len() <= usize::MAX,
    ensures
        frame_parsed(
            frame_bytes(Frame::StopSending(x)) + data + rest,
            Ok(((frame_bytes(Frame::StopSending(x)).len() + data.len()) as usize, Frame::StopSending(x))),
        ),
{
    reveal(frame_parsed);
    let f = Frame::StopSending(x);
    let bytes = frame_bytes(f);
    let s = bytes + data + rest;
    let b = bytes.skip(1) + data + rest;
    assert(s =~= seq![bytes[0]] + b);
        lemma_type_byte(0x05, b);
        assert(b =~= varint_bytes(x.stream_id) + varint_bytes(x.app_error_code) + rest);
        lemma_varint2_then(x.stream_id, x.app_error_code, rest);
}

proof fn lemma_round_trip_crypto(x: CryptoFrame, data: Seq<u8>, rest: Seq<u8>)
    requires
        frame_wf(Frame::Crypto(x)),
        data.len() == frame_data_len(Frame::Crypto(x)),
        (Frame::Crypto(x) matches Frame::Stream(sf) && !sf.has_len()) ==> rest.len() == 0,
        frame_bytes(Frame::Crypto(x)).len() + data.len() <= usize::MAX,
    ensures
        frame_parsed(
            frame_bytes(Frame::Crypto(x)) + data + rest,
            Ok(((frame_bytes(Frame::Crypto(x)).len() + data.len()) as usize, Frame::Crypto(x))),
        ),
{
    reveal(frame_parsed);
    let f = Frame::Crypto(x);
    let bytes = frame_bytes(f);
    let s = bytes + data + rest;
    let b = bytes.skip(1) + data + rest;
    assert(s =~= seq![bytes[0]] + b);
        lemma_type_byte(0x06, b);
        assert(b =~= varint_bytes(x.offset) + varint_bytes(x.length) + (data + rest));
        lemma_varint2_then(x.offset, x.length, data + rest);
}

proof fn lemma_round_trip_new_connection_id(x: NewConnectionIdFrame, data: Seq<u8>, rest: Seq<u8>)
    requires
        frame_wf(Frame::NewConnectionId(x)),
        data.len() == frame_data_len(Frame::NewConnectionId(x)),
        (Frame::NewConnectionId(x) matches Frame::Stream(sf) && !sf.has_len()) ==> rest.len() == 0,
        frame_bytes(Frame::NewConnectionId(x)).len() + data.len() <= usize::MAX,
    ensures
        frame_parsed(
            frame_bytes(Frame::NewConnectionId(x)) + data + rest,
            Ok(((frame_bytes(Frame::NewConnectionId(x)).len() + data.len()) as usize, Frame::NewConnectionId(x))),
        ),
{
    reveal(frame_parsed);
    let f = Frame::NewConnectionId(x);
    let bytes = frame_bytes(f);
    let s = bytes + data + rest;
    let b = bytes.skip(1) + data + rest;
    assert(s =~= seq![bytes[0]] + b);
        lemma_type_byte(0x18, b);
        let tail = seq![x.id@.len() as u8] + x.id@ + x.reset_token@ + rest;
        assert(b =~= varint_bytes(x.sequence) + varint_bytes(x.retire_prior_to) + tail);
        lemma_varint2_then(x.sequence, x.retire_prior_to, tail);
        let n = (varint_len(x.sequence) + varint_len(x.retire_prior_to)) as int;
        assert(b[n] == x.id@.len() as u8);
        assert(x.reset_token@.len() == 16);
        assert(b.subrange(n + 1, n + 1 + x.id@.len()) =~= x.id@);
        assert(b.subrange(n + 1 + x.id@.len(), n + 1 + x.id@.len() + 16) =~= x.reset_token@);
}

proof fn lemma_round_trip_max_data(x: MaxDataFrame, data: Seq<u8>, rest: Seq<u8>)
    requires
        frame_wf(Frame::MaxData(x)),
        data.len() == frame_data_len(Frame::MaxData(x)),
        (Frame::MaxData(x) matches Frame::Stream(sf) && !sf.has_len()) ==> rest.len() == 0,
        frame_bytes(Frame::MaxData(x)).len() + data.len() <= usize::MAX,
    ensures
        frame_parsed(
            frame_bytes(Frame::MaxData(x)) + data + rest,
            Ok(((frame_bytes(Frame::MaxData(x)).len() + data.len()) as usize, Frame::MaxData(x))),
        ),
{
    reveal(frame_parsed);
    let f = Frame::MaxData(x);
    let bytes = frame_bytes(f);
    let s = bytes + data + rest;
    let b = bytes.skip(1) + data + rest;
    assert(s =~= seq![bytes[0]] + b);
        lemma_type_byte(0x10, b);
        assert(b =~= varint_bytes(x.max_data) + rest);
        lemma_varint_then(x.max_data, rest);
}

proof fn lemma_round_trip_max_stream_data(x: MaxStreamDataFrame, data: Seq<u8>, rest: Seq<u8>)
    requires
        frame_wf(Frame::MaxStreamData(x)),
        data.len() == frame_data_len(Frame::MaxStreamData(x)),
        (Frame::MaxStreamData(x) matches Frame::Stream(sf) && !sf.has_len()) ==> rest.len() == 0,
        frame_bytes(Frame::MaxStreamData(x)).len() + data.len() <= usize::MAX,
    ensures
        frame_parsed(
            frame_bytes(Frame::MaxStreamData(x)) + data + rest,
            Ok(((frame_bytes(Frame::MaxStreamData(x)).len() + data.len()) as usize, Frame::MaxStreamData(x))),
        ),
{
    reveal(frame_parsed);
    let f = Frame::MaxStreamData(x);
    let bytes = frame_bytes(f);
    let s = bytes + data + rest;
    let b = bytes.skip(1) + data + rest;
    assert(s =~= seq![bytes[0]] + b);
        lemma_type_byte(0x11, b);
        assert(b =~= varint_bytes(x.stream_id) + varint_bytes(x.max_stream_data) + rest);
        lemma_varint2_then(x.stream_id, x.max_stream_data, rest);
}

proof fn lemma_round_trip_max_streams(x: MaxStreamsFrame, data: Seq<u8>, rest: Seq<u8>)
    requires
        frame_wf(Frame::MaxStreams(x)),
        data.len() == frame_data_len(Frame::MaxStreams(x)),
        (Frame::MaxStreams(x) matches Frame::Stream(sf) && !sf.has_len()) ==> rest.len() == 0,
        frame_bytes(Frame::MaxStreams(x)).len() + data.len() <= usize::MAX,
    ensures
        frame_parsed(
            frame_bytes(Frame::MaxStreams(x)) + data + rest,
            Ok(((frame_bytes(Frame::MaxStreams(x)).len() + data.len()) as usize, Frame::MaxStreams(x))),
        ),
{
    reveal(frame_parsed);
    let f = Frame::MaxStreams(x);
    let bytes = frame_bytes(f);
    let s = bytes + data + rest;
    let b = bytes.skip(1) + data + rest;
    assert(s =~= seq![bytes[0]] + b);
        assert((0x12u8 | 1u8) == 0x13u8 && (1u8 & 1u8) == 1u8 && (0u8 & 1u8) == 0u8) by (bit_vector);
        match x {
            MaxStreamsFrame::Bi(n) => {
                lemma_type_byte(0x12, b);
                assert(b =~= varint_bytes(n) + rest);
                lemma_varint_then(n, rest);
            },
            MaxStreamsFrame::Uni(n) => {
                lemma_type_byte(0x13, b);
                assert(b =~= varint_bytes(n) + rest);
                lemma_varint_then(n, rest);
            },
        }
}

proof fn lemma_round_trip_data_blocked(x: DataBlockedFrame, data: Seq<u8>, rest: Seq<u8>)
    requires
        frame_wf(Frame::DataBlocked(x)),
        data.len() == frame_data_len(Frame::DataBlocked(x)),
        (Frame::DataBlocked(x) matches Frame::Stream(sf) && !sf.has_len()) ==> rest.len() == 0,
        frame_bytes(Frame::DataBlocked(x)).len() + data.len() <= usize::MAX,
    ensures
        frame_parsed(
            frame_bytes(Frame::DataBlocked(x)) + data + rest,
            Ok(((frame_bytes(Frame::DataBlocked(x)).len() + data.len()) as usize, Frame::DataBlocked(x))),
        ),
{
    reveal(frame_parsed);
    let f = Frame::DataBlocked(x);
    let bytes = frame_bytes(f);
    let s = bytes + data + rest;
    let b = bytes.skip(1) + data + rest;
    assert(s =~= seq![bytes[0]] + b);
        lemma_type_byte(0x14, b);
        assert(b =~= varint_bytes(x.limit) + rest);
        lemma_varint_then(x.limit, rest);
}

proof fn lemma_round_trip_stream_data_blocked(x: StreamDataBlockedFrame, data: Seq<u8>, rest: Seq<u8>)
    requires
        frame_wf(Frame::StreamDataBlocked(x)),
        data.len() == frame_data_len(Frame::StreamDataBlocked(x)),
        (Frame::StreamDataBlocked(x) matches Frame::Stream(sf) && !sf.has_len()) ==> rest.len() == 0,
        frame_bytes(Frame::StreamDataBlocked(x)).len() + data.len() <= usize::MAX,
    ensures
        frame_parsed(
            frame_bytes(Frame::StreamDataBlocked(x)) + data + rest,
            Ok(((frame_bytes(Frame::StreamDataBlocked(x)).len() + data.len()) as usize, Frame::StreamDataBlocked(x))),
        ),
{
    reveal(frame_parsed);
    let f = Frame::StreamDataBlocked(x);
    let bytes = frame_bytes(f);
    let s = bytes + data + rest;
    let b = bytes.skip(1) + data + rest;
    assert(s =~= seq![bytes[0]] + b);
        lemma_type_byte(0x15, b);
        assert(b =~= varint_bytes(x.stream_id) + varint_bytes(x.limit) + rest);
        lemma_varint2_then(x.stream_id, x.limit, rest);
}

proof fn lemma_round_trip_streams_blocked(x: StreamsBlockedFrame, data: Seq<u8>, rest: Seq<u8>)
    requires
        frame_wf(Frame::StreamsBlocked(x)),
        data.len() == frame_data_len(Frame::StreamsBlocked(x)),
        (Frame::StreamsBlocked(x) matches Frame::Stream(sf) && !sf.has_len()) ==> rest.len() == 0,
        frame_bytes(Frame::StreamsBlocked(x)).len() + data.len() <= usize::MAX,
    ensures
        frame_parsed(
            frame_bytes(Frame::StreamsBlocked(x)) + data + rest,
            Ok(((frame_bytes(Frame::StreamsBlocked(x)).len() + data.len()) as usize, Frame::StreamsBlocked(x))),
        ),
{
    reveal(frame_parsed);
    let f = Frame::StreamsBlocked(x);
    let bytes = frame_bytes(f);
    let s = bytes + data + rest;
    let b = bytes.skip(1) + data + rest;
    assert(s =~= seq![bytes[0]] + b);
        assert((0x16u8 | 1u8) == 0x17u8 && (1u8 & 1u8) == 1u8 && (0u8 & 1u8) == 0u8) by (bit_vector);
        match x {
            StreamsBlockedFrame::Bi(n) => {
                lemma_type_byte(0x16, b);
                assert(b =~= varint_bytes(n) + rest);
                lemma_varint_then(n, rest);
            },
            StreamsBlockedFrame::Uni(n) => {
                lemma_type_byte(0x17, b);
                assert(b =~= varint_bytes(n) + rest);
                lemma_varint_then(n, rest);
            },
        }
}

#[verifier::spinoff_prover]
#[verifier::rlimit(100)]
proof fn lemma_round_trip_stream(x: StreamFrame, data: Seq<u8>, rest: Seq<u8>)
    requires
        frame_wf(Frame::Stream(x)),
        data.len() == frame_data_len(Frame::Stream(x)),
        (Frame::Stream(x) matches Frame::Stream(sf) && !sf.has_len()) ==> rest.len() == 0,
        frame_bytes(Frame::Stream(x)).len() + data.len() <= usize::MAX,
    ensures
        frame_parsed(
            frame_bytes(Frame::Stream(x)) + data + rest,
            Ok(((frame_bytes(Frame::Stream(x)).len() + data.len()) as usize, Frame::Stream(x))),
        ),
{
    reveal(frame_parsed);
    let f = Frame::Stream(x);
    let bytes = frame_bytes(f);
    let s = bytes + data + rest;
    let b = bytes.skip(1) + data + rest;
    assert(s =~= seq![bytes[0]] + b);
        lemma_stream_type(x.flag);
        lemma_type_byte(0x08u8 | x.flag, b);
        let flag = x.flag;
        assert((flag & 4u8 != 0) == (flag & 0x04u8 != 0) && (flag & 2u8 != 0) == (flag & 0x02u8 != 0)) by (bit_vector);
        let off = opt_varint_bytes(x.offset != 0, x.offset);
        let len = opt_varint_bytes(x.has_len(), x.length as u64);
        assert(b =~= varint_bytes(x.id) + (off + (len + (data + rest))));
        lemma_varint_then(x.id, off + (len + (data + rest)));
        if x.offset != 0 {
            lemma_varint_then(x.offset, len + (data + rest));
        } else {
            assert(off + (len + (data + rest)) =~= len + (data + rest));
            assert((len + (data + rest)).skip(0) =~= len + (data + rest));
        }
        if x.has_len() {
            lemma_varint_then(x.length as u64, data + rest);
        } else {
            assert(len + (data + rest) =~= data + rest);
            assert((data + rest).skip(0) =~= data + rest);
        }
}

proof fn lemma_round_trip_path_challenge(x: PathChallengeFrame, data: Seq<u8>, rest: Seq<u8>)
    requires
        frame_wf(Frame::PathChallenge(x)),
        data.len() == frame_data_len(Frame::PathChallenge(x)),
        (Frame::PathChallenge(x) matches Frame::Stream(sf) && !sf.has_len()) ==> rest.len() == 0,
        frame_bytes(Frame::PathChallenge(x)).len() + data.len() <= usize::MAX,
    ensures
        frame_parsed(
            frame_bytes(Frame::PathChallenge(x)) + data + rest,
            Ok(((frame_bytes(Frame::PathChallenge(x)).len() + data.len()) as usize, Frame::PathChallenge(x))),
        ),
{
    reveal(frame_parsed);
    let f = Frame::PathChallenge(x);
    let bytes = frame_bytes(f);
    let s = bytes + data + rest;
    let b = bytes.skip(1) + data + rest;
    assert(s =~= seq![bytes[0]] + b);
        lemma_type_byte(0x1a, b);
        assert(x.data@.len() == 8);
        assert(b.take(8) =~= x.data@);
}

proof fn lemma_round_trip_path_response(x: PathResponseFrame, data: Seq<u8>, rest: Seq<u8>)
    requires
        frame_wf(Frame::PathResponse(x)),
        data.len() == frame_data_len(Frame::PathResponse(x)),
        (Frame::PathResponse(x) matches Frame::Stream(sf) && !sf.has_len()) ==> rest.len() == 0,
        frame_bytes(Frame::PathResponse(x)).len() + data.len() <= usize::MAX,
    ensures
        frame_parsed(
            frame_bytes(Frame::PathResponse(x)) + data + rest,
            Ok(((frame_bytes(Frame::PathResponse(x)).len() + data.len()) as usize, Frame::PathResponse(x))),
        ),
{
    reveal(frame_parsed);
    let f = Frame::PathResponse(x);
    let bytes = frame_bytes(f);
    let s = bytes + data + rest;
    let b = bytes.skip(1) + data + rest;
    assert(s =~= seq![bytes[0]] + b);
        lemma_type_byte(0x1b, b);
        assert(x.data@.len() == 8);
        assert(b.take(8) =~= x.data@);
}

#[verifier::spinoff_prover]
#[verifier::rlimit(100)]
proof fn lemma_round_trip_connection_close(x: ConnectionCloseFrame, data: Seq<u8>, rest: Seq<u8>)
    requires
        frame_wf(Frame::ConnectionClose(x)),
        data.len() == frame_data_len(Frame::ConnectionClose(x)),
        (Frame::ConnectionClose(x) matches Frame::Stream(sf) && !sf.has_len()) ==> rest.len() == 0,
        frame_bytes(Frame::ConnectionClose(x)).len() + data.len() <= usize::MAX,
    ensures
        frame_parsed(
            frame_bytes(Frame::ConnectionClose(x)) + data + rest,
            Ok(((frame_bytes(Frame::ConnectionClose(x)).len() + data.len()) as usize, Frame::ConnectionClose(x))),
        ),
{
    let f = Frame::ConnectionClose(x);
    let bytes = frame_bytes(f);
    let s = bytes + data + rest;
    let b = bytes.skip(1) + data + rest;
    assert(s =~= seq![bytes[0]] + b);
        let ty: u8 = if x.frame_type is Some { 0x1c } else { 0x1d };
        lemma_type_byte(ty, b);
        let raw = encode_utf8(x.reason@);
        let tail = opt_bytes(x.frame_type) + varint_bytes(raw.len() as u64) + raw + rest;
        assert(b =~= varint_bytes(x.error_code) + tail);
        lemma_varint_then(x.error_code, tail);
        let tail2 = varint_bytes(raw.len() as u64) + raw + rest;
        match x.frame_type {
            Some(t) => {
                assert(tail =~= varint_bytes(t) + tail2);
                lemma_varint_then(t, tail2);
            },
            None => {
                assert(tail =~= tail2);
                assert(tail.skip(0) =~= tail2);
            },
        }
        assert(tail2 =~= varint_bytes(raw.len() as u64) + (raw + rest));
        lemma_varint_then(raw.len() as u64, raw + rest);
        assert((raw + rest).take(raw.len() as int) =~= raw);
        encode_utf8_valid_utf8(x.reason@);
        encode_utf8_decode_utf8(x.reason@);
        assert(reason_text(raw) == x.reason@);
    reveal(frame_parsed);
}

/// Parsing the encoding of a frame, followed by its data (for STREAM and
/// CRYPTO) and by anything else, gives the frame back and takes exactly its
/// bytes and its data. A STREAM frame without a length runs to the end of
/// the payload, so nothing may follow its data.
pub proof fn lemma_frame_round_trip(f: Frame, data: Seq<u8>, rest: Seq<u8>)
    requires
        frame_wf(f),
        data.len() == frame_data_len(f),
        (f matches Frame::Stream(sf) && !sf.has_len()) ==> rest.len() == 0,
        frame_bytes(f).len() + data.len() <= usize::MAX,
    ensures
        frame_parsed(
            frame_bytes(f) + data + rest,
            Ok(((frame_bytes(f).len() + data.len()) as usize, f)),
        ),
{
    match f {
        Frame::Padding => lemma_round_trip_padding(data, rest),
        Frame::Ping => lemma_round_trip_ping(data, rest),
        Frame::Ack(x) => {
            assert(data =~= Seq::<u8>::empty());
            lemma_round_trip_ack(x, rest);
        },
        Frame::ResetStream(x) => lemma_round_trip_reset_stream(x, data, rest),
        Frame::StopSending(x) => lemma_round_trip_stop_sending(x, data, rest),
        Frame::Crypto(x) => lemma_round_trip_crypto(x, data, rest),
        Frame::NewConnectionId(x) => lemma_round_trip_new_connection_id(x, data, rest),
        Frame::MaxData(x) => lemma_round_trip_max_data(x, data, rest),
        Frame::MaxStreamData(x) => lemma_round_trip_max_stream_data(x, data, rest),
        Frame::MaxStreams(x) => lemma_round_trip_max_streams(x, data, rest),
        Frame::DataBlocked(x) => lemma_round_trip_data_blocked(x, data, rest),
        Frame::StreamDataBlocked(x) => lemma_round_trip_stream_data_blocked(x, data, rest),
        Frame::StreamsBlocked(x) => lemma_round_trip_streams_blocked(x, data, rest),
        Frame::Stream(x) => lemma_round_trip_stream(x, data, rest),
        Frame::PathChallenge(x) => lemma_round_trip_path_challenge(x, data, rest),
        Frame::PathResponse(x) => lemma_round_trip_path_response(x, data, rest),
        Frame::ConnectionClose(x) => lemma_round_trip_connection_close(x, data, rest),
    }
}

} // verus!
