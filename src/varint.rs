//! QUIC variable-length integers: 1, 2, 4 or 8 bytes, the two high bits of
//! the first byte giving the length.

use vstd::prelude::*;

verus! {

/// The largest value a variable-length integer can hold (2^62 - 1).
pub const VARINT_MAX: u64 = 0x3fff_ffff_ffff_ffff;

/// Why a parse did not produce a value.
#[derive(Debug, Clone, Copy, PartialEq, Eq, Structural)]
pub enum ParseError {
    /// The input ends early; this many more bytes are needed.
    Incomplete(usize),
    /// The bytes break a rule of the frame's encoding.
    Malformed,
    /// The frame type is not one this codec knows.
    UnknownType(u64),
}

/// The number of bytes of the shortest encoding of `v`.
pub open spec fn varint_len(v: u64) -> nat {
    if v < 0x40 {
        1
    } else if v < 0x4000 {
        2
    } else if v < 0x4000_0000 {
        4
    } else {
        8
    }
}

/// The shortest encoding of `v`, big-endian with the length tag in the top two bits.
pub open spec fn varint_bytes(v: u64) -> Seq<u8> {
    if v < 0x40 {
        seq![v as u8]
    } else if v < 0x4000 {
        seq![(0x40u64 | (v >> 8u64)) as u8, v as u8]
    } else if v < 0x4000_0000 {
        seq![(0x80u64 | (v >> 24u64)) as u8, (v >> 16u64) as u8, (v >> 8u64) as u8, v as u8]
    } else {
        seq![
            (0xc0u64 | (v >> 56u64)) as u8,
            (v >> 48u64) as u8,
            (v >> 40u64) as u8,
            (v >> 32u64) as u8,
            (v >> 24u64) as u8,
            (v >> 16u64) as u8,
            (v >> 8u64) as u8,
            v as u8,
        ]
    }
}

/// The length announced by a first byte.
pub open spec fn tag_len(b: u8) -> nat {
    if b < 0x40 {
        1
    } else if b < 0x80 {
        2
    } else if b < 0xc0 {
        4
    } else {
        8
    }
}

/// The value of an encoding that starts `s` (whose length covers the tag).
pub open spec fn varint_value(s: Seq<u8>) -> u64 {
    let b0 = (s[0] & 0x3f) as u64;
    let n = tag_len(s[0]);
    if n == 1 {
        b0
    } else if n == 2 {
        (b0 << 8u64) | (s[1] as u64)
    } else if n == 4 {
        (b0 << 24u64) | ((s[1] as u64) << 16u64) | ((s[2] as u64) << 8u64) | (s[3] as u64)
    } else {
        (b0 << 56u64) | ((s[1] as u64) << 48u64) | ((s[2] as u64) << 40u64) | ((s[3] as u64)
            << 32u64) | ((s[4] as u64) << 24u64) | ((s[5] as u64) << 16u64) | ((s[6] as u64)
            << 8u64) | (s[7] as u64)
    }
}

/// Reading a variable-length integer at the start of `s`: the number of bytes
/// it takes and its value.
pub open spec fn spec_varint(s: Seq<u8>) -> Result<(int, u64), ParseError> {
    if s.len() == 0 {
        Err(ParseError::Incomplete(1))
    } else if s.len() < tag_len(s[0]) {
        Err(ParseError::Incomplete((tag_len(s[0]) - s.len()) as usize))
    } else {
        Ok((tag_len(s[0]) as int, varint_value(s)))
    }
}

/// Returns the number of bytes of the shortest encoding of `v`.
pub fn encoding_size(v: u64) -> (r: usize)
    ensures
        r == varint_len(v),
{
    if v < 0x40 {
        1
    } else if v < 0x4000 {
        2
    } else if v < 0x4000_0000 {
        4
    } else {
        8
    }
}

/// Appends the shortest encoding of `v` to `buf`.
pub fn put_varint(buf: &mut Vec<u8>, v: u64)
    requires
        v <= VARINT_MAX,
    ensures
        final(buf)@ == old(buf)@ + varint_bytes(v),
        final(buf)@.len() == old(buf)@.len() + varint_len(v),
{
    let ghost start = buf@;
    if v < 0x40 {
        buf.push(v as u8);
    } else if v < 0x4000 {
        buf.push((0x40u64 | (v >> 8u64)) as u8);
        buf.push(v as u8);
    } else if v < 0x4000_0000 {
        buf.push((0x80u64 | (v >> 24u64)) as u8);
        buf.push((v >> 16u64) as u8);
        buf.push((v >> 8u64) as u8);
        buf.push(v as u8);
    } else {
        buf.push((0xc0u64 | (v >> 56u64)) as u8);
        buf.push((v >> 48u64) as u8);
        buf.push((v >> 40u64) as u8);
        buf.push((v >> 32u64) as u8);
        buf.push((v >> 24u64) as u8);
        buf.push((v >> 16u64) as u8);
        buf.push((v >> 8u64) as u8);
        buf.push(v as u8);
    }
    assert(buf@ =~= start + varint_bytes(v));
}

/// Reads a variable-length integer at the start of `input`, in any of its
/// forms, and returns the bytes it took and its value.
pub fn be_varint(input: &[u8]) -> (r: Result<(usize, u64), ParseError>)
    ensures
        match r {
            Ok((n, v)) => spec_varint(input@) == Ok::<(int, u64), ParseError>((n as int, v))
                && 1 <= n <= input@.len(),
            Err(e) => spec_varint(input@) == Err::<(int, u64), ParseError>(e),
        },
{
    if input.len() == 0 {
        return Err(ParseError::Incomplete(1));
    }
    let b0 = input[0];
    let n: usize = if b0 < 0x40 {
        1
    } else if b0 < 0x80 {
        2
    } else if b0 < 0xc0 {
        4
    } else {
        8
    };
    if input.len() < n {
        return Err(ParseError::Incomplete(n - input.len()));
    }
    let mut v: u64 = (b0 & 0x3f) as u64;
    let mut i: usize = 1;
    while i < n
        invariant
            1 <= i <= n <= input@.len(),
            n == tag_len(input@[0]),
            b0 == input@[0],
            i == 1 ==> v == (b0 & 0x3f) as u64,
            n == 2 && i == 2 ==> v == varint_value(input@),
            n == 4 && i == 2 ==> v == ((b0 & 0x3f) as u64) << 8u64 | (input@[1] as u64),
            n == 4 && i == 3 ==> v == ((b0 & 0x3f) as u64) << 16u64 | ((input@[1] as u64) << 8u64) | (input@[2] as u64),
            n == 4 && i == 4 ==> v == varint_value(input@),
            n == 8 ==> v == partial8(input@, i as int),
            n == 8 && i == 8 ==> v == varint_value(input@),
        decreases n - i,
    {
        let b = input[i];
        proof {
            lemma_step(input@, n as int, i as int, v, b);
        }
        v = (v << 8u64) | (b as u64);
        i += 1;
    }
    Ok((n, v))
}

/// The value of the first `i` bytes of an 8-byte encoding.
pub open spec fn partial8(s: Seq<u8>, i: int) -> u64
    decreases i,
{
    if i <= 1 {
        (s[0] & 0x3f) as u64
    } else {
        (partial8(s, i - 1) << 8u64) | (s[i - 1] as u64)
    }
}

proof fn lemma_step(s: Seq<u8>, n: int, i: int, v: u64, b: u8)
    requires
        1 <= i < n <= s.len(),
        n == tag_len(s[0]),
        b == s[i],
        i == 1 ==> v == (s[0] & 0x3f) as u64,
        n == 4 && i == 2 ==> v == ((s[0] & 0x3f) as u64) << 8u64 | (s[1] as u64),
        n == 4 && i == 3 ==> v == ((s[0] & 0x3f) as u64) << 16u64 | ((s[1] as u64) << 8u64) | (s[2] as u64),
        n == 8 ==> v == partial8(s, i),
    ensures
        n == 2 && i + 1 == 2 ==> ((v << 8u64) | (b as u64)) == varint_value(s),
        n == 4 && i + 1 == 2 ==> ((v << 8u64) | (b as u64)) == ((s[0] & 0x3f) as u64) << 8u64 | (s[1] as u64),
        n == 4 && i + 1 == 3 ==> ((v << 8u64) | (b as u64)) == ((s[0] & 0x3f) as u64) << 16u64 | ((s[1] as u64) << 8u64) | (s[2] as u64),
        n == 4 && i + 1 == 4 ==> ((v << 8u64) | (b as u64)) == varint_value(s),
        n == 8 ==> ((v << 8u64) | (b as u64)) == partial8(s, i + 1),
        n == 8 && i + 1 == 8 ==> ((v << 8u64) | (b as u64)) == varint_value(s),
{
    let b0 = s[0];
    let b1 = s[1];
    if n == 4 && i == 3 {
        let b2 = s[2];
        assert(((((b0 & 0x3f) as u64) << 16u64 | ((b1 as u64) << 8u64) | (b2 as u64)) << 8u64) | (b as u64)
            == ((b0 & 0x3f) as u64) << 24u64 | ((b1 as u64) << 16u64) | ((b2 as u64) << 8u64) | (b as u64)) by (bit_vector);
    }
    if n == 4 && i == 2 {
        assert(((((b0 & 0x3f) as u64) << 8u64 | (b1 as u64)) << 8u64) | (b as u64)
            == ((b0 & 0x3f) as u64) << 16u64 | ((b1 as u64) << 8u64) | (b as u64)) by (bit_vector);
    }
    if n == 8 && i == 7 {
        reveal_with_fuel(partial8, 8);
        let (b2, b3, b4, b5, b6) = (s[2], s[3], s[4], s[5], s[6]);
        let acc1 = (b0 & 0x3f) as u64;
        let acc2 = (acc1 << 8u64) | (b1 as u64);
        let acc3 = (acc2 << 8u64) | (b2 as u64);
        let acc4 = (acc3 << 8u64) | (b3 as u64);
        let acc5 = (acc4 << 8u64) | (b4 as u64);
        let acc6 = (acc5 << 8u64) | (b5 as u64);
        let acc7 = (acc6 << 8u64) | (b6 as u64);
        let acc8 = (acc7 << 8u64) | (b as u64);
        assert(acc8 == ((b0 & 0x3f) as u64) << 56u64 | ((b1 as u64) << 48u64) | ((b2 as u64)
            << 40u64) | ((b3 as u64) << 32u64) | ((b4 as u64) << 24u64) | ((b5 as u64) << 16u64)
            | ((b6 as u64) << 8u64) | (b as u64)) by (bit_vector)
            requires
                acc1 == (b0 & 0x3f) as u64,
                acc2 == (acc1 << 8u64) | (b1 as u64),
                acc3 == (acc2 << 8u64) | (b2 as u64),
                acc4 == (acc3 << 8u64) | (b3 as u64),
                acc5 == (acc4 << 8u64) | (b4 as u64),
                acc6 == (acc5 << 8u64) | (b5 as u64),
                acc7 == (acc6 << 8u64) | (b6 as u64),
                acc8 == (acc7 << 8u64) | (b as u64),
        ;
    }
}

/// Decoding the shortest encoding of `v` gives back `v` and takes exactly
/// its bytes, whatever follows them; that encoding is `varint_len(v)` long.
pub proof fn lemma_varint_round_trip(v: u64, rest: Seq<u8>)
    requires
        v <= VARINT_MAX,
    ensures
        varint_bytes(v).len() == varint_len(v),
        spec_varint(varint_bytes(v) + rest) == Ok::<(int, u64), ParseError>((varint_len(v) as int, v)),
{
    let s = varint_bytes(v) + rest;
    assert(s[0] == varint_bytes(v)[0]);
    if v < 0x40 {
        assert((v as u8) < 0x40 && ((v as u8) & 0x3f) as u64 == v) by (bit_vector)
            requires v < 0x40;
    } else if v < 0x4000 {
        assert(s[1] == varint_bytes(v)[1]);
        let b0 = (0x40u64 | (v >> 8u64)) as u8;
        let b1 = v as u8;
        assert(0x40 <= b0 < 0x80) by (bit_vector)
            requires 0x40 <= v < 0x4000, b0 == (0x40u64 | (v >> 8u64)) as u8;
        assert((((b0 & 0x3f) as u64) << 8u64) | (b1 as u64) == v) by (bit_vector)
            requires v < 0x4000, b0 == (0x40u64 | (v >> 8u64)) as u8, b1 == v as u8;
    } else if v < 0x4000_0000 {
        assert(s[1] == varint_bytes(v)[1] && s[2] == varint_bytes(v)[2] && s[3] == varint_bytes(v)[3]);
        let b0 = (0x80u64 | (v >> 24u64)) as u8;
        let b1 = (v >> 16u64) as u8;
        let b2 = (v >> 8u64) as u8;
        let b3 = v as u8;
        assert(0x80 <= b0 < 0xc0) by (bit_vector)
            requires 0x4000 <= v < 0x4000_0000, b0 == (0x80u64 | (v >> 24u64)) as u8;
        assert(((b0 & 0x3f) as u64) << 24u64 | ((b1 as u64) << 16u64) | ((b2 as u64) << 8u64) | (b3 as u64) == v) by (bit_vector)
            requires v < 0x4000_0000, b0 == (0x80u64 | (v >> 24u64)) as u8, b1 == (v >> 16u64) as u8, b2 == (v >> 8u64) as u8, b3 == v as u8;
    } else {
        assert(s[1] == varint_bytes(v)[1] && s[2] == varint_bytes(v)[2] && s[3] == varint_bytes(v)[3]);
        assert(s[4] == varint_bytes(v)[4] && s[5] == varint_bytes(v)[5] && s[6] == varint_bytes(v)[6] && s[7] == varint_bytes(v)[7]);
        let b0 = (0xc0u64 | (v >> 56u64)) as u8;
        let b1 = (v >> 48u64) as u8;
        let b2 = (v >> 40u64) as u8;
        let b3 = (v >> 32u64) as u8;
        let b4 = (v >> 24u64) as u8;
        let b5 = (v >> 16u64) as u8;
        let b6 = (v >> 8u64) as u8;
        let b7 = v as u8;
        assert(0xc0 <= b0) by (bit_vector)
            requires 0x4000_0000 <= v, b0 == (0xc0u64 | (v >> 56u64)) as u8;
        assert(((b0 & 0x3f) as u64) << 56u64 | ((b1 as u64) << 48u64) | ((b2 as u64) << 40u64) | ((b3 as u64) << 32u64) | ((b4 as u64) << 24u64) | ((b5 as u64) << 16u64) | ((b6 as u64) << 8u64) | (b7 as u64) == v) by (bit_vector)
            requires v <= 0x3fff_ffff_ffff_ffff, b0 == (0xc0u64 | (v >> 56u64)) as u8, b1 == (v >> 48u64) as u8, b2 == (v >> 40u64) as u8, b3 == (v >> 32u64) as u8, b4 == (v >> 24u64) as u8, b5 == (v >> 16u64) as u8, b6 == (v >> 8u64) as u8, b7 == v as u8;
    }
}

} // verus!
