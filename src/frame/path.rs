//! PATH_CHALLENGE and PATH_RESPONSE: eight opaque bytes each.

use vstd::prelude::*;

use crate::frame::SpaceId;

verus! {

pub const PATH_CHALLENGE_FRAME_TYPE: u8 = 0x1a;
pub const PATH_RESPONSE_FRAME_TYPE: u8 = 0x1b;

/// PATH_CHALLENGE: data the peer must echo in a PATH_RESPONSE.
#[derive(Debug, Clone, Copy, PartialEq, Eq, Default)]
pub struct PathChallengeFrame {
    pub data: [u8; 8],
}

/// PATH_RESPONSE: the data of the PATH_CHALLENGE it answers.
#[derive(Debug, Clone, Copy, PartialEq, Eq, Default)]
pub struct PathResponseFrame {
    pub data: [u8; 8],
}

/// The eight bytes of `data`, as an array.
fn array8(data: &[u8]) -> (r: [u8; 8])
    requires
        data@.len() == 8,
    ensures
        r@ == data@,
{
    let r = [data[0], data[1], data[2], data[3], data[4], data[5], data[6], data[7]];
    assert(r@ =~= data@);
    r
}

/// Reading eight bytes at the start of `s`.
pub open spec fn spec_bytes8(s: Seq<u8>) -> Result<(int, Seq<u8>), crate::varint::ParseError> {
    if s.len() < 8 {
        Err(crate::varint::ParseError::Incomplete((8 - s.len()) as usize))
    } else {
        Ok((8, s.take(8)))
    }
}

impl PathChallengeFrame {
    pub open spec fn spec_bytes(&self) -> Seq<u8> {
        seq![PATH_CHALLENGE_FRAME_TYPE] + self.data@
    }

    /// A frame holding the eight bytes of `data`.
    pub fn from_slice(data: &[u8]) -> (r: Self)
        requires
            data@.len() == 8,
        ensures
            r.data@ == data@,
    {
        PathChallengeFrame { data: array8(data) }
    }
}

impl PathResponseFrame {
    pub open spec fn spec_bytes(&self) -> Seq<u8> {
        seq![PATH_RESPONSE_FRAME_TYPE] + self.data@
    }

    /// A frame holding the eight bytes of `data`.
    pub fn from_slice(data: &[u8]) -> (r: Self)
        requires
            data@.len() == 8,
        ensures
            r.data@ == data@,
    {
        PathResponseFrame { data: array8(data) }
    }

    pub fn belongs_to(&self, space: SpaceId) -> (r: bool)
        ensures
            r == (space == SpaceId::OneRtt),
    {
        space == SpaceId::OneRtt
    }

    pub fn max_encoding_size(&self) -> (r: usize)
        ensures
            r == 9,
    {
        1 + 8
    }

    pub fn encoding_size(&self) -> (r: usize)
        ensures
            r == self.spec_bytes().len(),
    {
        1 + 8
    }
}

/// Parses the eight bytes of a PATH_CHALLENGE or PATH_RESPONSE body.
pub fn be_bytes8(input: &[u8]) -> (r: Result<(usize, [u8; 8]), crate::varint::ParseError>)
    ensures
        match r {
            Ok((n, d)) => spec_bytes8(input@) == Ok::<(int, Seq<u8>), crate::varint::ParseError>(
                (n as int, d@),
            ),
            Err(e) => spec_bytes8(input@) == Err::<(int, Seq<u8>), crate::varint::ParseError>(e),
        },
        crate::frame::within(r, input@.len()),
{
    if input.len() < 8 {
        return Err(crate::varint::ParseError::Incomplete(8 - input.len()));
    }
    let d = array8(&input[0..8]);
    assert(input@.subrange(0, 8) =~= input@.take(8));
    Ok((8, d))
}

/// Parses the body of a PATH_RESPONSE frame.
pub fn be_path_response_frame(input: &[u8]) -> (r: Result<
    (usize, PathResponseFrame),
    crate::varint::ParseError,
>)
    ensures
        match r {
            Ok((n, f)) => spec_bytes8(input@) == Ok::<(int, Seq<u8>), crate::varint::ParseError>(
                (n as int, f.data@),
            ),
            Err(e) => spec_bytes8(input@) == Err::<(int, Seq<u8>), crate::varint::ParseError>(e),
        },
{
    match be_bytes8(input) {
        Ok((n, data)) => Ok((n, PathResponseFrame { data })),
        Err(e) => Err(e),
    }
}

/// Writing the eight data bytes.
fn put_array8(buf: &mut Vec<u8>, data: &[u8; 8])
    ensures
        final(buf)@ == old(buf)@ + data@,
{
    let mut i: usize = 0;
    while i < 8
        invariant
            i <= 8,
            data@.len() == 8,
            buf@ == old(buf)@ + data@.take(i as int),
        decreases 8 - i,
    {
        buf.push(data[i]);
        i += 1;
        assert(buf@ =~= old(buf)@ + data@.take(i as int));
    }
    assert(data@.take(8) =~= data@);
}

/// Writing a PATH_CHALLENGE frame to a byte buffer.
pub fn put_path_challenge_frame(buf: &mut Vec<u8>, frame: &PathChallengeFrame)
    ensures
        final(buf)@ == old(buf)@ + frame.spec_bytes(),
{
    buf.push(PATH_CHALLENGE_FRAME_TYPE);
    put_array8(buf, &frame.data);
    assert(buf@ =~= old(buf)@ + frame.spec_bytes());
}

/// Writing a PATH_RESPONSE frame to a byte buffer.
pub trait WritePathResponseFrame: View<V = Seq<u8>> + Sized {
    fn put_path_response_frame(&mut self, frame: &PathResponseFrame)
        ensures
            final(self)@ == old(self)@ + frame.spec_bytes(),
    ;
}

impl WritePathResponseFrame for Vec<u8> {
    fn put_path_response_frame(&mut self, frame: &PathResponseFrame) {
        self.push(PATH_RESPONSE_FRAME_TYPE);
        put_array8(self, &frame.data);
        assert(self@ =~= old(self)@ + frame.spec_bytes());
    }
}

} // verus!
