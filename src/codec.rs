//! Length-prefixed framing: a frame is the payload's length as four
//! big-endian bytes, then the payload.

use vstd::prelude::*;

verus! {

/// Why a frame could not be made or read.
#[derive(Clone, Copy, Debug, PartialEq, Eq, Structural)]
pub enum FrameError {
    /// The payload is longer than a four-byte length can state.
    TooLong,
    /// The bytes end before the frame does.
    Incomplete,
}

/// The four big-endian bytes of `n`.
pub open spec fn be_bytes(n: u32) -> Seq<u8> {
    seq![(n >> 24u32) as u8, (n >> 16u32) as u8, (n >> 8u32) as u8, n as u8]
}

/// The number that four big-endian bytes state.
pub open spec fn be_value(b: Seq<u8>) -> u32 {
    ((b[0] as u32) << 24u32) | ((b[1] as u32) << 16u32) | ((b[2] as u32) << 8u32) | (b[3] as u32)
}

/// The frame that carries `payload`.
pub open spec fn frame(payload: Seq<u8>) -> Seq<u8> {
    be_bytes(payload.len() as u32) + payload
}

/// The payload of the frame at the start of `bytes` and the frame's
/// length, or nothing when `bytes` holds no whole frame.
pub open spec fn parse_frame(bytes: Seq<u8>) -> Option<(Seq<u8>, int)> {
    if bytes.len() >= 4 && bytes.len() >= 4 + be_value(bytes.take(4)) {
        let n = be_value(bytes.take(4)) as int;
        Some((bytes.subrange(4, 4 + n), 4 + n))
    } else {
        None
    }
}

proof fn lemma_be_round_trip(n: u32)
    ensures
        be_value(be_bytes(n)) == n,
{
    let b0 = (n >> 24u32) as u8;
    let b1 = (n >> 16u32) as u8;
    let b2 = (n >> 8u32) as u8;
    let b3 = n as u8;
    assert(((b0 as u32) << 24u32) | ((b1 as u32) << 16u32) | ((b2 as u32) << 8u32) | (b3 as u32) == n)
        by (bit_vector)
        requires
            b0 == (n >> 24u32) as u8,
            b1 == (n >> 16u32) as u8,
            b2 == (n >> 8u32) as u8,
            b3 == n as u8,
    ;
}

/// Decoding what encoding produced gives back the payload, whatever bytes
/// follow the frame on the stream.
pub proof fn lemma_frame_round_trip(payload: Seq<u8>, rest: Seq<u8>)
    requires
        payload.len() <= u32::MAX,
    ensures
        parse_frame(frame(payload) + rest) == Some((payload, 4 + payload.len() as int)),
{
    let n = payload.len() as u32;
    lemma_be_round_trip(n);
    let b = frame(payload) + rest;
    assert(b.take(4) =~= be_bytes(n));
    assert(b.subrange(4, 4 + payload.len() as int) =~= payload);
}

/// The frame that carries `payload`; `TooLong` exactly when its length
/// does not fit in four bytes.
pub fn encode_frame(payload: &Vec<u8>) -> (r: Result<Vec<u8>, FrameError>)
    ensures
        match r {
            Ok(bytes) => payload.len() <= u32::MAX && bytes@ == frame(payload@),
            Err(e) => payload.len() > u32::MAX && e == FrameError::TooLong,
        },
{
    if payload.len() > u32::MAX as usize {
        return Err(FrameError::TooLong);
    }
    let n = payload.len() as u32;
    let mut out: Vec<u8> = Vec::new();
    out.push((n >> 24u32) as u8);
    out.push((n >> 16u32) as u8);
    out.push((n >> 8u32) as u8);
    out.push(n as u8);
    let mut i: usize = 0;
    while i < payload.len()
        invariant
            i <= payload.len(),
            n == payload.len(),
            out@ == be_bytes(n) + payload@.take(i as int),
        decreases payload.len() - i,
    {
        out.push(payload[i]);
        assert(payload@.take(i + 1) == payload@.take(i as int).push(payload@[i as int]));
        i = i + 1;
    }
    assert(payload@.take(payload.len() as int) == payload@);
    Ok(out)
}

/// The payload length that a frame's four-byte header states.
pub fn payload_length(header: [u8; 4]) -> (r: u32)
    ensures
        r == be_value(header@),
{
    ((header[0] as u32) << 24u32) | ((header[1] as u32) << 16u32) | ((header[2] as u32) << 8u32) | (
    header[3] as u32)
}

/// The payload of the frame at the start of `bytes`, with the number of
/// bytes the frame takes; `Incomplete` when the bytes end before the
/// frame does.
pub fn decode_frame(bytes: &Vec<u8>) -> (r: Result<(Vec<u8>, usize), FrameError>)
    ensures
        match r {
            Ok((p, used)) => parse_frame(bytes@) == Some((p@, used as int)),
            Err(e) => parse_frame(bytes@) is None && e == FrameError::Incomplete,
        },
{
    if bytes.len() < 4 {
        return Err(FrameError::Incomplete);
    }
    let header = [bytes[0], bytes[1], bytes[2], bytes[3]];
    assert(header@ =~= bytes@.take(4));
    let n = payload_length(header) as usize;
    if bytes.len() - 4 < n {
        return Err(FrameError::Incomplete);
    }
    let mut p: Vec<u8> = Vec::new();
    let mut i: usize = 0;
    while i < n
        invariant
            i <= n,
            4 + n <= bytes.len(),
            p@ == bytes@.subrange(4, 4 + i),
        decreases n - i,
    {
        p.push(bytes[4 + i]);
        assert(bytes@.subrange(4, 4 + i + 1) == bytes@.subrange(4, 4 + i).push(bytes@[4 + i]));
        i = i + 1;
    }
    Ok((p, 4 + n))
}

} // verus!
