//! Frames as bytes: magic, version, command, flags, payload length, request
//! number and payload, the numbers high byte first.

use vstd::prelude::*;

use crate::bytes::copy_bytes;
use crate::proto::{be_u32, complete_frame, frame_complete, frame_len, FRAME_HEADER};

verus! {

/// The four bytes that every frame begins with.
pub const MAGIC: u32 = 0x4d4e_454d;

/// What stands in front of a payload.
#[derive(Debug, Clone, Copy, PartialEq, Eq, Structural)]
pub struct FrameHead {
    pub version: u8,
    /// The command's number.
    pub cmd: u8,
    pub flags: u16,
    pub req_id: u32,
}

/// Why bytes are not a frame.
#[derive(Debug, Clone, Copy, PartialEq, Eq, Structural)]
pub enum FrameError {
    /// There is less than a frame.
    Incomplete,
    BadMagic,
}

/// Four bytes of a number, high byte first.
pub open spec fn be_bytes(n: u32) -> Seq<u8> {
    seq![(n / 0x100_0000) as u8, ((n / 0x1_0000) % 0x100) as u8, ((n / 0x100) % 0x100) as u8, (n % 0x100) as u8]
}

/// The bytes of a frame.
pub open spec fn frame_bytes(h: FrameHead, payload: Seq<u8>) -> Seq<u8> {
    be_bytes(MAGIC) + seq![h.version, h.cmd, (h.flags / 0x100) as u8, (h.flags % 0x100) as u8] + be_bytes(
        payload.len() as u32,
    ) + be_bytes(h.req_id) + payload
}

/// The first frame of a buffer: its head, its payload, and its length.
pub open spec fn frame_read(b: Seq<u8>) -> Result<(FrameHead, Seq<u8>, nat), FrameError> {
    if !frame_complete(b) {
        Err(FrameError::Incomplete)
    } else if be_u32(b.subrange(0, 4)) != MAGIC {
        Err(FrameError::BadMagic)
    } else {
        let n = frame_len(b)->0;
        Ok(
            (
                FrameHead {
                    version: b[4],
                    cmd: b[5],
                    flags: (b[6] * 0x100 + b[7]) as u16,
                    req_id: be_u32(b.subrange(12, 16)) as u32,
                },
                b.subrange(FRAME_HEADER as int, n as int),
                n,
            ),
        )
    }
}

proof fn lemma_be(n: u32)
    ensures
        be_u32(be_bytes(n)) == n,
        be_bytes(n).len() == 4,
{
    let b = be_bytes(n);
    let hi = (n / 0x100_0000) as int;
    let a = ((n / 0x1_0000) % 0x100) as int;
    let c = ((n / 0x100) % 0x100) as int;
    assert(b[0] == hi && b[1] == a && b[2] == c && b[3] == n % 0x100);
    assert(n / 0x1_0000 == hi * 0x100 + a);
    assert(n / 0x100 == (n / 0x1_0000) * 0x100 + c);
}

/// A frame that was written is read back, whatever stands behind it.
pub proof fn law_frame_round_trip(h: FrameHead, payload: Seq<u8>, behind: Seq<u8>)
    requires
        payload.len() <= u32::MAX,
    ensures
        frame_read(frame_bytes(h, payload) + behind) == Ok::<(FrameHead, Seq<u8>, nat), FrameError>(
            (h, payload, frame_bytes(h, payload).len()),
        ),
        frame_bytes(h, payload).len() == FRAME_HEADER + payload.len(),
{
    let f = frame_bytes(h, payload);
    let b = f + behind;
    lemma_be(MAGIC);
    lemma_be(payload.len() as u32);
    lemma_be(h.req_id);
    assert(b.subrange(0, 4) =~= be_bytes(MAGIC));
    assert(b.subrange(8, 12) =~= be_bytes(payload.len() as u32));
    assert(b.subrange(12, 16) =~= be_bytes(h.req_id));
    assert(b[4] == h.version && b[5] == h.cmd);
    assert(b[6] == (h.flags / 0x100) as u8 && b[7] == (h.flags % 0x100) as u8);
    assert(b.subrange(16, (16 + payload.len()) as int) =~= payload);
}

fn put_be(out: &mut Vec<u8>, n: u32)
    ensures
        final(out)@ == old(out)@ + be_bytes(n),
{
    out.push((n / 0x100_0000) as u8);
    out.push(((n / 0x1_0000) % 0x100) as u8);
    out.push(((n / 0x100) % 0x100) as u8);
    out.push((n % 0x100) as u8);
    assert(out@ =~= old(out)@ + be_bytes(n));
}

fn get_be(b: &[u8], at: usize) -> (r: u32)
    requires
        at + 4 <= b@.len(),
    ensures
        r == be_u32(b@.subrange(at as int, at + 4)),
{
    let ghost s = b@.subrange(at as int, at + 4);
    assert(s[0] == b@[at as int] && s[1] == b@[at + 1] && s[2] == b@[at + 2] && s[3] == b@[at + 3]);
    b[at] as u32 * 0x100_0000 + b[at + 1] as u32 * 0x1_0000 + b[at + 2] as u32 * 0x100 + b[at + 3] as u32
}

/// The bytes of a frame.
pub fn encode_frame(h: FrameHead, payload: &[u8]) -> (r: Vec<u8>)
    requires
        payload@.len() <= u32::MAX,
    ensures
        r@ == frame_bytes(h, payload@),
{
    let mut out: Vec<u8> = Vec::new();
    put_be(&mut out, MAGIC);
    out.push(h.version);
    out.push(h.cmd);
    out.push((h.flags / 0x100) as u8);
    out.push((h.flags % 0x100) as u8);
    put_be(&mut out, payload.len() as u32);
    put_be(&mut out, h.req_id);
    let mut tail = copy_bytes(payload);
    out.append(&mut tail);
    assert(out@ =~= frame_bytes(h, payload@));
    out
}

/// The first frame of a buffer: its head, its payload, and how many bytes it
/// takes.
pub fn decode_frame(b: &[u8]) -> (r: Result<(FrameHead, Vec<u8>, usize), FrameError>)
    ensures
        match frame_read(b@) {
            Ok((h, payload, n)) => r matches Ok(x) && x.0 == h && x.1@ == payload && x.2 == n,
            Err(e) => r matches Err(x) && x == e,
        },
{
    let n: usize = match complete_frame(b) {
        Some(n) => n,
        None => return Err(FrameError::Incomplete),
    };
    if get_be(b, 0) != MAGIC {
        return Err(FrameError::BadMagic);
    }
    let head = FrameHead {
        version: b[4],
        cmd: b[5],
        flags: b[6] as u16 * 0x100 + b[7] as u16,
        req_id: get_be(b, 12),
    };
    let payload = vstd::slice::slice_subrange(b, FRAME_HEADER, n);
    Ok((head, copy_bytes(payload), n))
}

/// Where things stand in a frame: the letters `MNEM`, the version, the command,
/// the flags, the length of the payload and the number of the request, each
/// number with its high byte first, and then the payload.
pub proof fn law_frame_layout(h: FrameHead, payload: Seq<u8>)
    requires
        payload.len() <= u32::MAX,
    ensures
        ({
            let b = frame_bytes(h, payload);
            &&& b.len() == 16 + payload.len()
            &&& b[0] == 0x4d && b[1] == 0x4e && b[2] == 0x45 && b[3] == 0x4d
            &&& b[4] == h.version
            &&& b[5] == h.cmd
            &&& b[6] * 256 + b[7] == h.flags
            &&& b[8] * 16777216 + b[9] * 65536 + b[10] * 256 + b[11] == payload.len()
            &&& b[12] * 16777216 + b[13] * 65536 + b[14] * 256 + b[15] == h.req_id
            &&& b.skip(16) == payload
        }),
{
    let b = frame_bytes(h, payload);
    lemma_be(payload.len() as u32);
    lemma_be(h.req_id);
    let n = be_bytes(payload.len() as u32);
    let q = be_bytes(h.req_id);
    assert(b[8] == n[0] && b[9] == n[1] && b[10] == n[2] && b[11] == n[3]);
    assert(b[12] == q[0] && b[13] == q[1] && b[14] == q[2] && b[15] == q[3]);
    assert(b[6] == (h.flags / 0x100) as u8 && b[7] == (h.flags % 0x100) as u8);
    assert(b[0] == be_bytes(MAGIC)[0] && b[1] == be_bytes(MAGIC)[1] && b[2] == be_bytes(MAGIC)[2] && b[3] == be_bytes(MAGIC)[3]);
    assert(b.skip(16) =~= payload);
}

/// As long as bytes of a frame are missing, there is no frame; other first
/// bytes are no frame either.
pub proof fn law_part_of_a_frame_is_none(h: FrameHead, payload: Seq<u8>, n: int, other: Seq<u8>)
    requires
        payload.len() <= u32::MAX,
        0 <= n < 16 + payload.len(),
        other.len() >= 4,
        other[0] != 0x4d || other[1] != 0x4e || other[2] != 0x45 || other[3] != 0x4d,
    ensures
        frame_read(frame_bytes(h, payload).take(n)) == Err::<(FrameHead, Seq<u8>, nat), FrameError>(FrameError::Incomplete),
        frame_read(other) is Err,
{
    law_frame_layout(h, payload);
    let b = frame_bytes(h, payload);
    let t = b.take(n);
    if n >= 16 {
        assert(t[8] == b[8] && t[9] == b[9] && t[10] == b[10] && t[11] == b[11]);
    }
    let m = other.subrange(0, 4);
    assert(m[0] == other[0] && m[1] == other[1] && m[2] == other[2] && m[3] == other[3]);
}

} // verus!
