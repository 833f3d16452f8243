//! Length-prefixed framing: a payload preceded by its length as a 4-byte
//! big-endian unsigned integer.
use vstd::prelude::*;
use crate::text::{decimal, decimal_string};

verus! {

/// The largest payload a frame may announce: 16 MiB.
pub const MAX_FRAME_LEN: u32 = 16_777_216u32;

/// Why a byte string is not a frame.
#[derive(Clone, Copy, Debug, PartialEq, Eq, Structural)]
pub enum FrameError {
    /// The input ends before the header or the payload is complete.
    Truncated,
    /// The header announces more than the largest frame allowed.
    TooLarge(u32),
}

impl FrameError {
    /// The error's message: "Truncated frame", or "Frame length ", the
    /// announced length and " exceeds maximum size of 16 MiB".
    pub fn message(&self) -> (m: String)
        ensures
            match self {
                FrameError::Truncated => m@ == "Truncated frame"@,
                FrameError::TooLarge(len) => m@ == "Frame length "@ + decimal(*len as nat)
                    + " exceeds maximum size of 16 MiB"@,
            },
    {
        match self {
            FrameError::Truncated => String::from_str("Truncated frame"),
            FrameError::TooLarge(len) => {
                let mut m = String::from_str("Frame length ");
                let digits = decimal_string(*len as u64);
                m.append(digits.as_str());
                m.append(" exceeds maximum size of 16 MiB");
                m
            },
        }
    }
}

/// The 4-byte big-endian encoding of `x`.
pub open spec fn be_bytes(x: u32) -> Seq<u8> {
    seq![(x >> 24u32) as u8, (x >> 16u32) as u8, (x >> 8u32) as u8, x as u8]
}

/// The value of a 4-byte big-endian encoding.
pub open spec fn be_value(b: Seq<u8>) -> int {
    b[0] * 0x100_0000 + b[1] * 0x1_0000 + b[2] * 0x100 + b[3]
}

/// The frame of `payload`: its length, truncated to 32 bits, then the
/// payload itself.
pub open spec fn frame_of(payload: Seq<u8>) -> Seq<u8> {
    be_bytes((payload.len() % 0x1_0000_0000) as u32) + payload
}

proof fn lemma_be_roundtrip(x: u32)
    ensures
        be_value(be_bytes(x)) == x,
{
    let b0 = (x >> 24u32) as u8;
    let b1 = (x >> 16u32) as u8;
    let b2 = (x >> 8u32) as u8;
    let b3 = x as u8;
    assert(b0 as int * 0x100_0000 + b1 as int * 0x1_0000 + b2 as int * 0x100 + b3 as int == x as int) by (bit_vector)
        requires
            b0 == (x >> 24u32) as u8,
            b1 == (x >> 16u32) as u8,
            b2 == (x >> 8u32) as u8,
            b3 == x as u8,
    ;
}

/// The big-endian encoding of `x`.
pub fn encode_u32_be(x: u32) -> (b: [u8; 4])
    ensures
        b@ == be_bytes(x),
{
    let b = [(x >> 24u32) as u8, (x >> 16u32) as u8, (x >> 8u32) as u8, x as u8];
    assert(b@ =~= be_bytes(x));
    b
}

/// The value of a big-endian encoding.
pub fn decode_u32_be(b: &[u8; 4]) -> (x: u32)
    ensures
        x as int == be_value(b@),
{
    let b0 = b[0];
    let b1 = b[1];
    let b2 = b[2];
    let b3 = b[3];
    assert(b0 as int * 0x100_0000 + b1 as int * 0x1_0000 + b2 as int * 0x100 + b3 as int <= u32::MAX) by (
    nonlinear_arith)
        requires
            b0 <= 255,
            b1 <= 255,
            b2 <= 255,
            b3 <= 255,
    ;
    (b0 as u32) * 0x100_0000u32 + (b1 as u32) * 0x1_0000u32 + (b2 as u32) * 0x100u32 + (b3 as u32)
}

/// Builds the frame of `payload`: its length as a 4-byte big-endian integer
/// (truncated to 32 bits), then the payload.
pub fn encode_frame(payload: &[u8]) -> (frame: Vec<u8>)
    ensures
        frame@ == frame_of(payload@),
{
    let len = (payload.len() as u64 % 0x1_0000_0000u64) as u32;
    let header = encode_u32_be(len);
    let mut frame: Vec<u8> = Vec::new();
    let mut i: usize = 0;
    while i < 4
        invariant
            i <= 4,
            frame@ == header@.take(i as int),
        decreases 4 - i,
    {
        frame.push(header[i]);
        assert(header@.take(i + 1) =~= header@.take(i as int).push(header@[i as int]));
        i = i + 1;
    }
    let mut j: usize = 0;
    while j < payload.len()
        invariant
            j <= payload@.len(),
            frame@ == header@ + payload@.take(j as int),
        decreases payload@.len() - j,
    {
        frame.push(payload[j]);
        assert(payload@.take(j + 1) =~= payload@.take(j as int).push(payload@[j as int]));
        assert(header@ + payload@.take(j + 1) =~= (header@ + payload@.take(j as int)).push(payload@[j as int]));
        j = j + 1;
    }
    assert(header@.take(4) =~= header@);
    assert(payload@.take(payload@.len() as int) =~= payload@);
    frame
}

/// The payload length that a frame header announces, refused above `limit`.
pub fn check_frame_header(header: &[u8; 4], limit: Option<u32>) -> (res: Result<usize, FrameError>)
    ensures
        match limit {
            Some(m) if be_value(header@) > m => res == Err::<usize, FrameError>(FrameError::TooLarge(be_value(header@) as u32)),
            _ => res == Ok::<usize, FrameError>(be_value(header@) as usize),
        },
{
    let len = decode_u32_be(header);
    match limit {
        Some(m) => {
            if len > m {
                return Err(FrameError::TooLarge(len));
            }
        },
        None => {},
    }
    Ok(len as usize)
}

/// Reads one frame from the front of `bytes`: the announced payload and the
/// number of bytes the frame takes. A header above `limit` is refused before
/// the payload is looked at.
pub fn decode_frame_limited(bytes: &[u8], limit: Option<u32>) -> (res: Result<(Vec<u8>, usize), FrameError>)
    ensures
        bytes@.len() < 4 ==> res == Err::<(Vec<u8>, usize), FrameError>(FrameError::Truncated),
        bytes@.len() >= 4 ==> {
            let n = be_value(bytes@.take(4));
            match limit {
                Some(m) if n > m => res == Err::<(Vec<u8>, usize), FrameError>(FrameError::TooLarge(n as u32)),
                _ => if bytes@.len() < 4 + n {
                    res == Err::<(Vec<u8>, usize), FrameError>(FrameError::Truncated)
                } else {
                    res matches Ok((payload, used)) && payload@ == bytes@.subrange(4, 4 + n) && used == 4 + n
                },
            }
        },
{
    if bytes.len() < 4 {
        return Err(FrameError::Truncated);
    }
    let header = [bytes[0], bytes[1], bytes[2], bytes[3]];
    assert(header@ =~= bytes@.take(4));
    let n = match check_frame_header(&header, limit) {
        Ok(n) => n,
        Err(e) => {
            return Err(e);
        },
    };
    if bytes.len() - 4 < n {
        return Err(FrameError::Truncated);
    }
    let mut payload: Vec<u8> = Vec::new();
    let blen = bytes.len();
    let mut i: usize = 0;
    while i < n
        invariant
            blen == bytes@.len(),
            i <= n,
            4 + n <= bytes@.len(),
            payload@ == bytes@.subrange(4, 4 + i),
        decreases n - i,
    {
        payload.push(bytes[4 + i]);
        assert(bytes@.subrange(4, 4 + i + 1) =~= bytes@.subrange(4, 4 + i).push(bytes@[4 + i]));
        i = i + 1;
    }
    Ok((payload, 4 + n))
}

/// Reads one frame of at most `MAX_FRAME_LEN` payload bytes from the front
/// of `bytes`.
pub fn decode_frame(bytes: &[u8]) -> (res: Result<(Vec<u8>, usize), FrameError>)
    ensures
        bytes@.len() < 4 ==> res == Err::<(Vec<u8>, usize), FrameError>(FrameError::Truncated),
        bytes@.len() >= 4 ==> {
            let n = be_value(bytes@.take(4));
            if n > MAX_FRAME_LEN {
                res == Err::<(Vec<u8>, usize), FrameError>(FrameError::TooLarge(n as u32))
            } else if bytes@.len() < 4 + n {
                res == Err::<(Vec<u8>, usize), FrameError>(FrameError::Truncated)
            } else {
                res matches Ok((payload, used)) && payload@ == bytes@.subrange(4, 4 + n) && used == 4 + n
            }
        },
{
    decode_frame_limited(bytes, Some(MAX_FRAME_LEN))
}

/// Reads one length-prefixed buffer, of any announced length, from the
/// front of `bytes`.
pub fn decode_length_prefixed(bytes: &[u8]) -> (res: Result<(Vec<u8>, usize), FrameError>)
    ensures
        bytes@.len() < 4 ==> res == Err::<(Vec<u8>, usize), FrameError>(FrameError::Truncated),
        bytes@.len() >= 4 ==> {
            let n = be_value(bytes@.take(4));
            if bytes@.len() < 4 + n {
                res == Err::<(Vec<u8>, usize), FrameError>(FrameError::Truncated)
            } else {
                res matches Ok((payload, used)) && payload@ == bytes@.subrange(4, 4 + n) && used == 4 + n
            }
        },
{
    decode_frame_limited(bytes, None)
}

/// Reading back a frame gives the payload that was framed, for payloads up
/// to `MAX_FRAME_LEN` bytes; anything after the frame is left alone.
pub proof fn law_frame_roundtrip(payload: Seq<u8>, rest: Seq<u8>)
    requires
        payload.len() <= MAX_FRAME_LEN,
    ensures
        (frame_of(payload) + rest).take(4) == be_bytes(payload.len() as u32),
        be_value((frame_of(payload) + rest).take(4)) == payload.len(),
        (frame_of(payload) + rest).subrange(4, 4 + payload.len() as int) == payload,
        (frame_of(payload) + rest).len() >= 4 + payload.len(),
{
    let f = frame_of(payload) + rest;
    assert(f.take(4) =~= be_bytes(payload.len() as u32));
    lemma_be_roundtrip(payload.len() as u32);
    assert(f.subrange(4, 4 + payload.len() as int) =~= payload);
}

} // verus!
