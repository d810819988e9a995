//! NEW_CONNECTION_ID: a connection ID the peer may use, with its sequence
//! number and stateless reset token.

use vstd::prelude::*;

use crate::frame::spec_varint2;
use crate::frame::flow::be_varint2;
use crate::frame::stream::put_slice;
use crate::varint::{encoding_size, put_varint, varint_bytes, ParseError, VARINT_MAX};

verus! {

pub const NEW_CONNECTION_ID_FRAME_TYPE: u8 = 0x18;
/// The longest connection ID.
pub const MAX_CID_SIZE: usize = 20;
/// The size of a stateless reset token.
pub const RESET_TOKEN_SIZE: usize = 16;

/// NEW_CONNECTION_ID: `retire_prior_to` never exceeds `sequence`, and the
/// ID holds 1 to 20 bytes.
#[derive(Debug, Clone, PartialEq, Eq)]
pub struct NewConnectionIdFrame {
    pub sequence: u64,
    pub retire_prior_to: u64,
    pub id: Vec<u8>,
    pub reset_token: [u8; 16],
}

impl NewConnectionIdFrame {
    pub open spec fn wf(&self) -> bool {
        &&& self.sequence <= VARINT_MAX
        &&& self.retire_prior_to <= self.sequence
        &&& 1 <= self.id@.len() <= MAX_CID_SIZE
    }

    pub open spec fn spec_bytes(&self) -> Seq<u8> {
        seq![NEW_CONNECTION_ID_FRAME_TYPE] + varint_bytes(self.sequence) + varint_bytes(
            self.retire_prior_to,
        ) + seq![self.id@.len() as u8] + self.id@ + self.reset_token@
    }
}

impl NewConnectionIdFrame {
    pub fn belongs_to(&self, space: crate::frame::SpaceId) -> (r: bool)
        ensures
            r == crate::frame::data_space(space),
    {
        crate::frame::is_data_space(space)
    }

    pub fn encoding_size(&self) -> (r: usize)
        requires
            self.wf(),
        ensures
            r == self.spec_bytes().len(),
    {
        1 + encoding_size(self.sequence) + encoding_size(self.retire_prior_to) + 1 + self.id.len()
            + RESET_TOKEN_SIZE
    }
}

/// The body of a NEW_CONNECTION_ID frame: sequence, retire-prior-to, the ID
/// and the reset token. A retire-prior-to above the sequence, or an ID
/// length outside 1..=20, is malformed.
pub open spec fn spec_new_connection_id(s: Seq<u8>) -> Result<
    (int, (u64, u64, Seq<u8>, Seq<u8>)),
    ParseError,
> {
    match spec_varint2(s) {
        Err(e) => Err(e),
        Ok((n, (sequence, retire_prior_to))) => if retire_prior_to > sequence {
            Err(ParseError::Malformed)
        } else if s.len() < n + 1 {
            Err(ParseError::Incomplete(1))
        } else {
            let len = s[n] as int;
            if len == 0 || len > MAX_CID_SIZE {
                Err(ParseError::Malformed)
            } else if s.len() < n + 1 + len + RESET_TOKEN_SIZE {
                Err(ParseError::Incomplete((n + 1 + len + RESET_TOKEN_SIZE - s.len()) as usize))
            } else {
                Ok(
                    (
                        n + 1 + len + RESET_TOKEN_SIZE,
                        (
                            sequence,
                            retire_prior_to,
                            s.subrange(n + 1, n + 1 + len),
                            s.subrange(n + 1 + len, n + 1 + len + RESET_TOKEN_SIZE),
                        ),
                    ),
                )
            }
        },
    }
}

/// A NEW_CONNECTION_ID body whose retire-prior-to exceeds its sequence, or
/// whose connection ID length is 0 or above 20, is rejected as malformed
/// once its two numbers and its length byte are read.
pub proof fn lemma_new_connection_id_rejects(s: Seq<u8>)
    requires
        spec_varint2(s) is Ok,
        ({
            let (n, (sequence, retire_prior_to)) = spec_varint2(s)->Ok_0;
            retire_prior_to > sequence || (s.len() > n && (s[n] == 0 || s[n] > MAX_CID_SIZE))
        }),
    ensures
        spec_new_connection_id(s) == Err::<(int, (u64, u64, Seq<u8>, Seq<u8>)), ParseError>(
            ParseError::Malformed,
        ),
{
}

/// A parsed NEW_CONNECTION_ID frame against the body read over the input.
pub open spec fn new_connection_id_parsed(
    r: Result<(usize, NewConnectionIdFrame), ParseError>,
    s: Result<(int, (u64, u64, Seq<u8>, Seq<u8>)), ParseError>,
) -> bool {
    match s {
        Ok((m, (sequence, retire_prior_to, id, token))) => match r {
            Ok((n, f)) => n == m && f.sequence == sequence && f.retire_prior_to == retire_prior_to
                && f.id@ == id && f.reset_token@ == token,
            Err(_) => false,
        },
        Err(e) => r == Err::<(usize, NewConnectionIdFrame), ParseError>(e),
    }
}

fn array16(data: &[u8]) -> (r: [u8; 16])
    requires
        data@.len() == 16,
    ensures
        r@ == data@,
{
    let r = [
        data[0],
        data[1],
        data[2],
        data[3],
        data[4],
        data[5],
        data[6],
        data[7],
        data[8],
        data[9],
        data[10],
        data[11],
        data[12],
        data[13],
        data[14],
        data[15],
    ];
    assert(r@ =~= data@);
    r
}

/// Parses the body of a NEW_CONNECTION_ID frame.
pub fn be_new_connection_id_frame(input: &[u8]) -> (r: Result<
    (usize, NewConnectionIdFrame),
    ParseError,
>)
    ensures
        new_connection_id_parsed(r, spec_new_connection_id(input@)),
        crate::frame::within(r, input@.len()),
{
    let (n, (sequence, retire_prior_to)) = match be_varint2(input) {
        Ok(x) => x,
        Err(e) => return Err(e),
    };
    if retire_prior_to > sequence {
        return Err(ParseError::Malformed);
    }
    if input.len() < n + 1 {
        return Err(ParseError::Incomplete(1));
    }
    let len = input[n] as usize;
    if len == 0 || len > MAX_CID_SIZE {
        return Err(ParseError::Malformed);
    }
    if input.len() < n + 1 + len + RESET_TOKEN_SIZE {
        return Err(ParseError::Incomplete(n + 1 + len + RESET_TOKEN_SIZE - input.len()));
    }
    let id = vstd::slice::slice_to_vec(&input[n + 1..n + 1 + len]);
    let reset_token = array16(&input[n + 1 + len..n + 1 + len + RESET_TOKEN_SIZE]);
    Ok((n + 1 + len + RESET_TOKEN_SIZE, NewConnectionIdFrame { sequence, retire_prior_to, id, reset_token }))
}

/// Writing a NEW_CONNECTION_ID frame to a byte buffer.
pub trait WriteNewConnectionIdFrame: View<V = Seq<u8>> + Sized {
    fn put_new_connection_id_frame(&mut self, frame: &NewConnectionIdFrame)
        requires
            frame.wf(),
        ensures
            final(self)@ == old(self)@ + frame.spec_bytes(),
    ;
}

impl WriteNewConnectionIdFrame for Vec<u8> {
    fn put_new_connection_id_frame(&mut self, frame: &NewConnectionIdFrame) {
        self.push(NEW_CONNECTION_ID_FRAME_TYPE);
        put_varint(self, frame.sequence);
        put_varint(self, frame.retire_prior_to);
        self.push(frame.id.len() as u8);
        put_slice(self, frame.id.as_slice());
        put_slice(self, &frame.reset_token);
        assert(self@ =~= old(self)@ + frame.spec_bytes());
    }
}

} // verus!
