//! Wire protocol: the messages exchanged between the scanner agent and the
//! client, and their framing (`u32` little-endian length, then the payload).

use vstd::bytes::{spec_u32_from_le_bytes, spec_u32_to_le_bytes, u32_from_le_bytes, u32_to_le_bytes};
use vstd::prelude::*;
use vstd::slice::slice_subrange;

verus! {

/// Magic bytes opening every stream (`b"LDS1"`).
pub const MAGIC: [u8; 4] = [76u8, 68u8, 83u8, 49u8];

/// Version of the wire protocol.
pub const WIRE_VERSION: u32 = 1;

pub const KIND_FILE: u8 = 0;

pub const KIND_DIR: u8 = 1;

pub const KIND_SYMLINK: u8 = 2;

pub const KIND_OTHER: u8 = 3;

/// First frame of a stream.
#[derive(Debug, Clone)]
pub struct Header {
    pub magic: [u8; 4],
    pub version: u32,
    pub root: String,
    pub started_unix: u64,
}

/// A filesystem entry. `parent_id` references the `id` of a previously emitted
/// directory entry; the root is emitted first with `id == parent_id` (by
/// convention both 0), and a self-reference marks a root.
#[derive(Debug, Clone)]
pub struct Entry {
    pub id: u32,
    pub parent_id: u32,
    pub name: String,
    pub size: u64,
    pub mtime: i64,
    pub kind: u8,
}

/// Last frame of a stream.
#[derive(Debug, Clone, Copy, PartialEq, Eq, Structural)]
pub struct Summary {
    pub entries: u64,
    pub bytes: u64,
    pub errors: u64,
    pub elapsed_ms: u64,
}

/// One message of the stream.
#[derive(Debug, Clone)]
pub enum Frame {
    Header(Header),
    Entry(Entry),
    Summary(Summary),
}

/// Why a frame could not be written or read.
#[derive(Debug, Clone, Copy, PartialEq, Eq, Structural)]
pub enum FrameError {
    /// The payload is longer than a `u32` length prefix can describe.
    TooLarge,
    /// The buffer ends inside the payload announced by the length prefix.
    UnexpectedEof,
}

/// The bytes of one frame: the payload length as a little-endian `u32`, then the payload.
pub open spec fn framed(payload: Seq<u8>) -> Seq<u8> {
    spec_u32_to_le_bytes(payload.len() as u32) + payload
}

/// The payload length announced by the first four bytes of `buf`.
pub open spec fn announced_len(buf: Seq<u8>) -> nat {
    spec_u32_from_le_bytes(buf.take(4)) as nat
}

/// What reading one frame from the front of `buf` gives: nothing when fewer than
/// four bytes are there (end of stream), an error when the announced payload
/// runs past the end, and otherwise the payload with the number of bytes used.
pub open spec fn spec_decode_frame(buf: Seq<u8>) -> Result<Option<(Seq<u8>, nat)>, FrameError> {
    if buf.len() < 4 {
        Ok(None)
    } else if 4 + announced_len(buf) > buf.len() {
        Err(FrameError::UnexpectedEof)
    } else {
        Ok(Some((buf.subrange(4, 4 + announced_len(buf) as int), 4 + announced_len(buf))))
    }
}

/// Frames `payload`: its length as a little-endian `u32`, then the payload.
pub fn encode_frame(payload: &[u8]) -> (res: Result<Vec<u8>, FrameError>)
    ensures
        match res {
            Ok(bytes) => payload@.len() <= u32::MAX && bytes@ == framed(payload@),
            Err(e) => payload@.len() > u32::MAX && e == FrameError::TooLarge,
        },
{
    if payload.len() > 0xffff_ffffusize {
        return Err(FrameError::TooLarge);
    }
    let n: u32 = payload.len() as u32;
    let mut out = u32_to_le_bytes(n);
    let mut i: usize = 0;
    while i < payload.len()
        invariant
            i <= payload@.len(),
            payload@.len() <= u32::MAX,
            n == payload@.len(),
            out@ == spec_u32_to_le_bytes(n) + payload@.take(i as int),
        decreases payload@.len() - i,
    {
        out.push(payload[i]);
        i = i + 1;
        assert(payload@.take(i as int) =~= payload@.take(i - 1).push(payload@[i - 1]));
    }
    assert(payload@.take(i as int) =~= payload@);
    Ok(out)
}

/// The payload length announced by a four-byte prefix.
pub fn decode_len(prefix: &[u8; 4]) -> (n: u32)
    ensures
        n == spec_u32_from_le_bytes(prefix@),
{
    u32_from_le_bytes(prefix.as_slice())
}

/// Reads one frame from the front of `buf`: see [`spec_decode_frame`].
pub fn decode_frame(buf: &[u8]) -> (res: Result<Option<(Vec<u8>, usize)>, FrameError>)
    ensures
        match (res, spec_decode_frame(buf@)) {
            (Ok(None), Ok(None)) => true,
            (Ok(Some((p, used))), Ok(Some((q, m)))) => p@ == q && used == m,
            (Err(e), Err(f)) => e == f,
            _ => false,
        },
{
    if buf.len() < 4 {
        return Ok(None);
    }
    let head = slice_subrange(buf, 0, 4);
    assert(head@ =~= buf@.take(4));
    let n = u32_from_le_bytes(head);
    if n as usize > buf.len() - 4 {
        return Err(FrameError::UnexpectedEof);
    }
    let end: usize = 4 + n as usize;
    let body = slice_subrange(buf, 4, end);
    let mut out: Vec<u8> = Vec::new();
    let mut i: usize = 0;
    while i < body.len()
        invariant
            i <= body@.len(),
            out@ == body@.take(i as int),
        decreases body@.len() - i,
    {
        out.push(body[i]);
        i = i + 1;
        assert(body@.take(i as int) =~= body@.take(i - 1).push(body@[i - 1]));
    }
    assert(body@.take(i as int) =~= body@);
    Ok(Some((out, end)))
}

/// Reading back a framed payload gives the payload and the frame's length,
/// whatever follows it in the stream.
pub proof fn lemma_frame_roundtrip(payload: Seq<u8>, rest: Seq<u8>)
    requires
        payload.len() <= u32::MAX,
    ensures
        spec_decode_frame(framed(payload) + rest) == Ok::<Option<(Seq<u8>, nat)>, FrameError>(
            Some((payload, payload.len() + 4)),
        ),
{
    vstd::bytes::lemma_auto_spec_u32_to_from_le_bytes();
    let buf = framed(payload) + rest;
    let hdr = spec_u32_to_le_bytes(payload.len() as u32);
    assert(buf.take(4) =~= hdr);
    assert(announced_len(buf) == payload.len());
    assert(buf.subrange(4, 4 + payload.len() as int) =~= payload);
}

} // verus!
