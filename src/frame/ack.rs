//! ACK: the packet numbers a peer received, as a largest number, a first
//! range below it, and (gap, range) pairs further down.

use vstd::prelude::*;

use crate::frame::{slice_from, spec_varint3};
use crate::frame::flow::{be_varint2, be_varint3};
use crate::varint::{
    be_varint, encoding_size, put_varint, spec_varint, varint_bytes, ParseError, VARINT_MAX,
};
use crate::frame::spec_varint2;

verus! {

pub const ACK_FRAME_TYPE: u8 = 0x02;

/// ACK: packets `largest - first_range ..= largest` were received; then
/// each `(gap, range)` skips `gap + 1` packets and acknowledges `range + 1`.
#[derive(Debug, Clone, PartialEq, Eq)]
pub struct AckFrame {
    pub largest: u64,
    /// The delay, in microseconds, between receiving `largest` and sending this frame.
    pub delay: u64,
    pub first_range: u64,
    pub ranges: Vec<(u64, u64)>,
    /// The ECT(0), ECT(1) and ECN-CE counts.
    pub ecn: Option<(u64, u64, u64)>,
}

/// The encoding of the (gap, range) pairs, in order.
pub open spec fn ranges_bytes(rs: Seq<(u64, u64)>) -> Seq<u8>
    decreases rs.len(),
{
    if rs.len() == 0 {
        Seq::empty()
    } else {
        varint_bytes(rs[0].0) + varint_bytes(rs[0].1) + ranges_bytes(rs.skip(1))
    }
}

pub open spec fn ecn_bytes(ecn: Option<(u64, u64, u64)>) -> Seq<u8> {
    match ecn {
        Some((a, b, c)) => varint_bytes(a) + varint_bytes(b) + varint_bytes(c),
        None => Seq::empty(),
    }
}

/// The ranges stay at or above packet number 0, going down from `smallest`,
/// the lowest number of the range before them.
pub open spec fn ranges_ok(smallest: int, rs: Seq<(u64, u64)>) -> bool
    decreases rs.len(),
{
    if rs.len() == 0 {
        true
    } else {
        let next = smallest - rs[0].0 - 2 - rs[0].1;
        next >= 0 && ranges_ok(next, rs.skip(1))
    }
}

/// Whether packet `pn` lies in a range that starts at `smallest` going down,
/// given the pairs `rs` that follow.
pub open spec fn ranges_cover(smallest: int, rs: Seq<(u64, u64)>, pn: int) -> bool
    decreases rs.len(),
{
    if rs.len() == 0 {
        false
    } else {
        let top = smallest - rs[0].0 - 2;
        let bottom = top - rs[0].1;
        (bottom <= pn <= top) || ranges_cover(bottom, rs.skip(1), pn)
    }
}

/// The lowest packet number of the last range, going down from `smallest`.
pub open spec fn ranges_bottom(smallest: int, rs: Seq<(u64, u64)>) -> int
    decreases rs.len(),
{
    if rs.len() == 0 {
        smallest
    } else {
        ranges_bottom(smallest - rs[0].0 - 2 - rs[0].1, rs.skip(1))
    }
}

/// Appending a pair adds its range below the others.
pub proof fn lemma_ranges_push(smallest: int, rs: Seq<(u64, u64)>, p: (u64, u64), pn: int)
    ensures
        ({
            let b = ranges_bottom(smallest, rs);
            &&& ranges_bottom(smallest, rs.push(p)) == b - p.0 - 2 - p.1
            &&& ranges_ok(smallest, rs.push(p)) == (ranges_ok(smallest, rs) && b - p.0 - 2 - p.1 >= 0)
            &&& ranges_cover(smallest, rs.push(p), pn) == (ranges_cover(smallest, rs, pn) || (b - p.0
                - 2 - p.1 <= pn <= b - p.0 - 2))
        }),
    decreases rs.len(),
{
    assert(rs.push(p)[0] == if rs.len() == 0 { p } else { rs[0] });
    if rs.len() == 0 {
        let e = Seq::<(u64, u64)>::empty();
        assert(rs.push(p).skip(1) =~= e);
        let next = smallest - p.0 - 2 - p.1;
        assert(ranges_bottom(next, e) == next);
        assert(ranges_ok(next, e));
        assert(!ranges_cover(next, e, pn));
        assert(ranges_bottom(smallest, rs) == smallest);
        assert(!ranges_cover(smallest, rs, pn));
        assert(ranges_ok(smallest, rs));
    } else {
        assert(rs.push(p).skip(1) =~= rs.skip(1).push(p));
        lemma_ranges_push(smallest - rs[0].0 - 2 - rs[0].1, rs.skip(1), p, pn);
    }
}

/// A prefix of pairs that stays at or above 0 does so too.
pub proof fn lemma_ranges_ok_prefix(smallest: int, rs: Seq<(u64, u64)>, k: int)
    requires
        0 <= k <= rs.len(),
        ranges_ok(smallest, rs),
    ensures
        ranges_ok(smallest, rs.take(k)),
    decreases rs.len() - k,
{
    if k == rs.len() {
        assert(rs.take(k) =~= rs);
    } else {
        lemma_ranges_ok_prefix(smallest, rs, k + 1);
        assert(rs.take(k).push(rs[k]) =~= rs.take(k + 1));
        lemma_ranges_push(smallest, rs.take(k), rs[k], 0);
    }
}

/// Every covered packet lies between the bottom and `smallest`.
pub proof fn lemma_ranges_cover_bounds(smallest: int, rs: Seq<(u64, u64)>, pn: int)
    ensures
        ranges_bottom(smallest, rs) <= smallest,
        ranges_cover(smallest, rs, pn) ==> ranges_bottom(smallest, rs) <= pn < smallest,
    decreases rs.len(),
{
    if rs.len() > 0 {
        lemma_ranges_cover_bounds(smallest - rs[0].0 - 2 - rs[0].1, rs.skip(1), pn);
    }
}

impl AckFrame {
    pub open spec fn wf(&self) -> bool {
        &&& self.largest <= VARINT_MAX
        &&& self.delay <= VARINT_MAX
        &&& self.first_range <= self.largest
        &&& ranges_ok(self.largest - self.first_range, self.ranges@)
        &&& self.ranges@.len() <= VARINT_MAX
        &&& forall|i: int|
            0 <= i < self.ranges@.len() ==> #[trigger] self.ranges@[i].0 <= VARINT_MAX
                && self.ranges@[i].1 <= VARINT_MAX
        &&& (self.ecn matches Some((a, b, c)) ==> a <= VARINT_MAX && b <= VARINT_MAX && c
            <= VARINT_MAX)
    }

    pub open spec fn spec_bytes(&self) -> Seq<u8> {
        seq![ACK_FRAME_TYPE | if self.ecn is Some { 1u8 } else { 0u8 }] + varint_bytes(
            self.largest,
        ) + varint_bytes(self.delay) + varint_bytes(self.ranges@.len() as u64) + varint_bytes(
            self.first_range,
        ) + ranges_bytes(self.ranges@) + ecn_bytes(self.ecn)
    }

    /// Whether the frame acknowledges packet `pn`.
    pub open spec fn covers(&self, pn: int) -> bool {
        (self.largest - self.first_range <= pn <= self.largest) || ranges_cover(
            self.largest - self.first_range,
            self.ranges@,
            pn,
        )
    }
}

/// Reading `count` (gap, range) pairs.
pub open spec fn spec_ack_ranges(s: Seq<u8>, count: nat) -> Result<
    (int, Seq<(u64, u64)>),
    ParseError,
>
    decreases count,
{
    if count == 0 {
        Ok((0, Seq::empty()))
    } else {
        match spec_varint2(s) {
            Err(e) => Err(e),
            Ok((n, p)) => match spec_ack_ranges(s.skip(n), (count - 1) as nat) {
                Err(e) => Err(e),
                Ok((m, rs)) => Ok((n + m, seq![p] + rs)),
            },
        }
    }
}

/// What was read before, followed by what is read next.
pub open spec fn then_ranges(
    m: int,
    prefix: Seq<(u64, u64)>,
    rest: Result<(int, Seq<(u64, u64)>), ParseError>,
) -> Result<(int, Seq<(u64, u64)>), ParseError> {
    match rest {
        Err(e) => Err(e),
        Ok((k, rs)) => Ok((m + k, prefix + rs)),
    }
}

/// The fields of an ACK body: largest, delay, first range, the pairs and the
/// ECN counts.
pub type AckFields = (u64, u64, u64, Seq<(u64, u64)>, Option<(u64, u64, u64)>);

/// The body of an ACK frame; `ecn` tells whether the type asked for ECN counts.
pub open spec fn spec_ack(ecn: bool, s: Seq<u8>) -> Result<(int, AckFields), ParseError> {
    match spec_varint3(s) {
        Err(e) => Err(e),
        Ok((n1, (largest, delay, count))) => match spec_varint(s.skip(n1)) {
            Err(e) => Err(e),
            Ok((n2, first_range)) => if first_range > largest {
                Err(ParseError::Malformed)
            } else {
                match spec_ack_ranges(s.skip(n1 + n2), count as nat) {
                    Err(e) => Err(e),
                    Ok((n3, rs)) => if !ranges_ok(largest - first_range, rs) {
                        Err(ParseError::Malformed)
                    } else if ecn {
                        match spec_varint3(s.skip(n1 + n2 + n3)) {
                            Err(e) => Err(e),
                            Ok((n4, counts)) => Ok(
                                (n1 + n2 + n3 + n4, (largest, delay, first_range, rs, Some(counts))),
                            ),
                        }
                    } else {
                        Ok((n1 + n2 + n3, (largest, delay, first_range, rs, None)))
                    },
                }
            },
        },
    }
}

/// A parsed ACK frame against the body read over the input.
pub open spec fn ack_parsed(
    r: Result<(usize, AckFrame), ParseError>,
    s: Result<(int, AckFields), ParseError>,
) -> bool {
    match s {
        Ok((m, (largest, delay, first_range, rs, ecn))) => match r {
            Ok((n, f)) => n == m && f.largest == largest && f.delay == delay && f.first_range
                == first_range && f.ranges@ == rs && f.ecn == ecn,
            Err(_) => false,
        },
        Err(e) => r == Err::<(usize, AckFrame), ParseError>(e),
    }
}

/// Reads `count` (gap, range) pairs from the start of `input`.
fn be_ack_ranges(input: &[u8], count: u64) -> (r: Result<(usize, Vec<(u64, u64)>), ParseError>)
    ensures
        match r {
            Ok((n, rs)) => spec_ack_ranges(input@, count as nat) == Ok::<
                (int, Seq<(u64, u64)>),
                ParseError,
            >((n as int, rs@)),
            Err(e) => spec_ack_ranges(input@, count as nat) == Err::<
                (int, Seq<(u64, u64)>),
                ParseError,
            >(e),
        },
        match r {
            Ok((n, _)) => n <= input@.len(),
            Err(_) => true,
        },
{
    let total = input.len();
    let mut ranges: Vec<(u64, u64)> = Vec::new();
    let mut pos: usize = 0;
    let mut i: u64 = 0;
    proof {
        assert(input@.skip(0) =~= input@);
        match spec_ack_ranges(input@, count as nat) {
            Ok((k, rs)) => {
                assert(ranges@ + rs =~= rs);
            },
            Err(_) => {},
        }
    }
    while i < count
        invariant
            i <= count,
            pos <= input@.len(),
            total == input@.len(),
            spec_ack_ranges(input@, count as nat) == then_ranges(
                pos as int,
                ranges@,
                spec_ack_ranges(input@.skip(pos as int), (count - i) as nat),
            ),
        decreases count - i,
    {
        let rest = slice_from(input, pos);
        assert(rest@.len() == input@.len() - pos);
        match be_varint2(rest) {
            Err(e) => {
                return Err(e);
            },
            Ok((n, p)) => {
                proof {
                    assert(rest@.skip(n as int) =~= input@.skip(pos + n));
                    let tail = spec_ack_ranges(input@.skip(pos + n), (count - i - 1) as nat);
                    match tail {
                        Ok((k, rs)) => {
                            assert(ranges@ + (seq![p] + rs) =~= ranges@.push(p) + rs);
                        },
                        Err(_) => {},
                    }
                }
                ranges.push(p);
                pos = pos + n;
                i = i + 1;
            },
        }
    }
    assert(ranges@ + Seq::<(u64, u64)>::empty() =~= ranges@);
    Ok((pos, ranges))
}

/// Checks that the pairs stay at or above packet number 0 below `smallest`.
fn check_ranges(smallest: u64, ranges: &Vec<(u64, u64)>) -> (r: bool)
    ensures
        r == ranges_ok(smallest as int, ranges@),
{
    let mut sm = smallest;
    let mut i: usize = 0;
    assert(ranges@.skip(0) =~= ranges@);
    while i < ranges.len()
        invariant
            i <= ranges@.len(),
            ranges_ok(smallest as int, ranges@) == ranges_ok(sm as int, ranges@.skip(i as int)),
        decreases ranges@.len() - i,
    {
        let (gap, run) = ranges[i];
        assert(ranges@.skip(i as int)[0] == ranges@[i as int]);
        assert(ranges@.skip(i as int).skip(1) =~= ranges@.skip(i + 1));
        if gap as u128 + 2 + run as u128 > sm as u128 {
            return false;
        }
        sm = sm - gap - 2 - run;
        i += 1;
    }
    true
}

/// Parses the body of an ACK frame; `ecn` tells whether the type asked for
/// ECN counts.
pub fn ack_frame_with_flag(ecn: bool, input: &[u8]) -> (r: Result<(usize, AckFrame), ParseError>)
    ensures
        ack_parsed(r, spec_ack(ecn, input@)),
        crate::frame::within(r, input@.len()),
{
    let total = input.len();
    let (n1, (largest, delay, count)) = match be_varint3(input) {
        Ok(x) => x,
        Err(e) => return Err(e),
    };
    let r1 = slice_from(input, n1);
    let (n2, first_range) = match be_varint(r1) {
        Ok(x) => x,
        Err(e) => return Err(e),
    };
    if first_range > largest {
        return Err(ParseError::Malformed);
    }
    assert(r1@.skip(n2 as int) =~= input@.skip(n1 + n2));
    let r2 = slice_from(input, n1 + n2);
    let (n3, ranges) = match be_ack_ranges(r2, count) {
        Ok(x) => x,
        Err(e) => return Err(e),
    };
    if !check_ranges(largest - first_range, &ranges) {
        return Err(ParseError::Malformed);
    }
    assert(r2@.skip(n3 as int) =~= input@.skip(n1 + n2 + n3));
    let head = n1 + n2 + n3;
    if ecn {
        let r3 = slice_from(input, head);
        match be_varint3(r3) {
            Ok((n4, counts)) => Ok(
                (head + n4, AckFrame { largest, delay, first_range, ranges, ecn: Some(counts) }),
            ),
            Err(e) => Err(e),
        }
    } else {
        Ok((head, AckFrame { largest, delay, first_range, ranges, ecn: None }))
    }
}

proof fn lemma_ranges_bytes_push(rs: Seq<(u64, u64)>, p: (u64, u64))
    ensures
        ranges_bytes(rs.push(p)) == ranges_bytes(rs) + varint_bytes(p.0) + varint_bytes(p.1),
    decreases rs.len(),
{
    assert(rs.push(p)[0] == if rs.len() == 0 { p } else { rs[0] });
    if rs.len() == 0 {
        assert(rs.push(p).skip(1) =~= Seq::<(u64, u64)>::empty());
        assert(ranges_bytes(Seq::<(u64, u64)>::empty()) =~= Seq::<u8>::empty());
        assert(ranges_bytes(rs.push(p)) =~= ranges_bytes(rs) + varint_bytes(p.0) + varint_bytes(
            p.1,
        ));
    } else {
        assert(rs.push(p).skip(1) =~= rs.skip(1).push(p));
        lemma_ranges_bytes_push(rs.skip(1), p);
        assert(ranges_bytes(rs.push(p)) =~= ranges_bytes(rs) + varint_bytes(p.0) + varint_bytes(
            p.1,
        ));
    }
}

/// Writing the pairs, in order.
fn put_ack_ranges(buf: &mut Vec<u8>, ranges: &Vec<(u64, u64)>)
    requires
        forall|i: int|
            0 <= i < ranges@.len() ==> #[trigger] ranges@[i].0 <= VARINT_MAX && ranges@[i].1
                <= VARINT_MAX,
    ensures
        final(buf)@ == old(buf)@ + ranges_bytes(ranges@),
{
    let mut i: usize = 0;
    assert(ranges@.take(0) =~= Seq::<(u64, u64)>::empty());
    assert(buf@ =~= old(buf)@ + ranges_bytes(ranges@.take(0)));
    while i < ranges.len()
        invariant
            forall|i: int|
                0 <= i < ranges@.len() ==> #[trigger] ranges@[i].0 <= VARINT_MAX && ranges@[i].1
                    <= VARINT_MAX,
            i <= ranges@.len(),
            buf@ == old(buf)@ + ranges_bytes(ranges@.take(i as int)),
        decreases ranges@.len() - i,
    {
        let (gap, run) = ranges[i];
        assert(ranges@[i as int].0 <= VARINT_MAX);
        put_varint(buf, gap);
        put_varint(buf, run);
        proof {
            lemma_ranges_bytes_push(ranges@.take(i as int), (gap, run));
            assert(ranges@.take(i as int).push((gap, run)) =~= ranges@.take(i + 1));
            assert(buf@ =~= old(buf)@ + ranges_bytes(ranges@.take(i + 1)));
        }
        i += 1;
    }
    assert(ranges@.take(i as int) =~= ranges@);
}

/// Writing an ACK frame to a byte buffer.
pub fn put_ack_frame(buf: &mut Vec<u8>, frame: &AckFrame)
    requires
        frame.wf(),
    ensures
        final(buf)@ == old(buf)@ + frame.spec_bytes(),
{
    let ty: u8 = if frame.ecn.is_some() { ACK_FRAME_TYPE | 1 } else { ACK_FRAME_TYPE | 0 };
    buf.push(ty);
    put_varint(buf, frame.largest);
    put_varint(buf, frame.delay);
    put_varint(buf, frame.ranges.len() as u64);
    put_varint(buf, frame.first_range);
    let ghost head = buf@;
    put_ack_ranges(buf, &frame.ranges);
    let ghost mid = buf@;
    match frame.ecn {
        Some((a, b, c)) => {
            put_varint(buf, a);
            put_varint(buf, b);
            put_varint(buf, c);
        },
        None => {},
    }
    assert(buf@ =~= mid + ecn_bytes(frame.ecn));
    assert(buf@ =~= old(buf)@ + frame.spec_bytes());
}

/// Returns the number of bytes `put_ack_frame` writes.
pub fn ack_encoding_size(frame: &AckFrame) -> (r: usize)
    requires
        frame.wf(),
        frame.spec_bytes().len() <= usize::MAX,
    ensures
        r == frame.spec_bytes().len(),
{
    let mut size: usize = 1 + encoding_size(frame.largest) + encoding_size(frame.delay)
        + encoding_size(frame.ranges.len() as u64) + encoding_size(frame.first_range);
    let ghost head = size as int;
    let mut i: usize = 0;
    while i < frame.ranges.len()
        invariant
            frame.wf(),
            frame.spec_bytes().len() <= usize::MAX,
            i <= frame.ranges@.len(),
            size == head + ranges_bytes(frame.ranges@.take(i as int)).len(),
            head + ranges_bytes(frame.ranges@).len() <= frame.spec_bytes().len(),
        decreases frame.ranges@.len() - i,
    {
        let (gap, run) = frame.ranges[i];
        proof {
            lemma_ranges_bytes_push(frame.ranges@.take(i as int), (gap, run));
            assert(frame.ranges@.take(i as int).push((gap, run)) =~= frame.ranges@.take(i + 1));
            lemma_ranges_bytes_prefix(frame.ranges@, i + 1);
        }
        size = size + encoding_size(gap) + encoding_size(run);
        i += 1;
    }
    assert(frame.ranges@.take(i as int) =~= frame.ranges@);
    match frame.ecn {
        Some((a, b, c)) => size + encoding_size(a) + encoding_size(b) + encoding_size(c),
        None => size,
    }
}

/// Whether the frame's encoding fits in `capacity` bytes.
#[verifier::rlimit(40)]
pub fn ack_size_within(frame: &AckFrame, capacity: usize) -> (r: bool)
    requires
        frame.wf(),
    ensures
        r == (frame.spec_bytes().len() <= capacity),
{
    let mut size: u128 = 1 + encoding_size(frame.largest) as u128 + encoding_size(frame.delay) as u128
        + encoding_size(frame.ranges.len() as u64) as u128 + encoding_size(frame.first_range) as u128;
    let ghost head = size as int;
    let mut i: usize = 0;
    while i < frame.ranges.len()
        invariant
            frame.wf(),
            i <= frame.ranges@.len(),
            size == head + ranges_bytes(frame.ranges@.take(i as int)).len(),
            head <= 33,
            ranges_bytes(frame.ranges@.take(i as int)).len() <= 16 * i,
            i <= usize::MAX,
        decreases frame.ranges@.len() - i,
    {
        let (gap, run) = frame.ranges[i];
        proof {
            lemma_ranges_bytes_push(frame.ranges@.take(i as int), (gap, run));
            assert(frame.ranges@.take(i as int).push((gap, run)) =~= frame.ranges@.take(i + 1));
        }
        size = size + encoding_size(gap) as u128 + encoding_size(run) as u128;
        i += 1;
    }
    assert(frame.ranges@.take(i as int) =~= frame.ranges@);
    let total = match frame.ecn {
        Some((a, b, c)) => size + encoding_size(a) as u128 + encoding_size(b) as u128 + encoding_size(c) as u128,
        None => size,
    };
    total <= capacity as u128
}

/// The pairs of a prefix take no more bytes than all of them.
proof fn lemma_ranges_bytes_prefix(rs: Seq<(u64, u64)>, k: int)
    requires
        0 <= k <= rs.len(),
    ensures
        ranges_bytes(rs.take(k)).len() <= ranges_bytes(rs).len(),
    decreases rs.len() - k,
{
    if k < rs.len() {
        lemma_ranges_bytes_prefix(rs, k + 1);
        lemma_ranges_bytes_push(rs.take(k), rs[k]);
        assert(rs.take(k).push(rs[k]) =~= rs.take(k + 1));
    } else {
        assert(rs.take(k) =~= rs);
    }
}

} // verus!
