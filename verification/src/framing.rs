//! Messages between the server and its client:
//! `u32 length | u8 kind | payload`, little-endian, where the length counts kind
//! and payload.

use vstd::prelude::*;
use crate::bytes::{copy_range, get_u32, put_bytes, put_u32};
#[allow(unused_imports)]
use crate::bytes::{group_le_len, le32, lemma_le32, u32_at};

verus! {

/// UTF-8 JSON.
pub const KIND_JSON: u8 = 0x4a;

/// A frame of samples.
pub const KIND_FRAME: u8 = 0x46;

/// A message as it is sent.
pub open spec fn encoded(kind: u8, payload: Seq<u8>) -> Seq<u8> {
    le32((payload.len() + 1) as u32) + seq![kind] + payload
}

/// A message as it is sent.
pub fn encode(kind: u8, payload: &[u8]) -> (r: Vec<u8>)
    requires
        payload@.len() < u32::MAX,
    ensures
        r@ == encoded(kind, payload@),
{
    let mut out: Vec<u8> = Vec::new();
    put_u32(&mut out, payload.len() as u32 + 1);
    out.push(kind);
    put_bytes(&mut out, payload);
    assert(out@ =~= encoded(kind, payload@));
    out
}

/// What a frame of samples carries: the session it belongs to, a reserved word,
/// and the samples.
pub open spec fn frame_payload(session: u32, samples: Seq<u8>) -> Seq<u8> {
    le32(session) + le32(0) + samples
}

/// A session's frame of samples as it is sent.
pub fn encode_frame(session: u32, samples: &[u8]) -> (r: Vec<u8>)
    requires
        samples@.len() + 8 < u32::MAX,
    ensures
        r@ == encoded(KIND_FRAME, frame_payload(session, samples@)),
{
    broadcast use group_le_len;

    let mut payload: Vec<u8> = Vec::new();
    put_u32(&mut payload, session);
    put_u32(&mut payload, 0);
    put_bytes(&mut payload, samples);
    assert(payload@ =~= frame_payload(session, samples@));
    encode(KIND_FRAME, payload.as_slice())
}

/// What the bytes that have arrived begin with.
#[derive(Debug)]
pub enum Arrived {
    /// Not a whole message yet
    Part,
    /// A message without a kind
    Empty,
    Message { kind: u8, payload: Vec<u8>, used: usize },
}

/// What the bytes that have arrived begin with.
pub enum ArrivedView {
    Part,
    Empty,
    Message { kind: u8, payload: Seq<u8>, used: usize },
}

impl View for Arrived {
    type V = ArrivedView;

    open spec fn view(&self) -> ArrivedView {
        match self {
            Arrived::Part => ArrivedView::Part,
            Arrived::Empty => ArrivedView::Empty,
            Arrived::Message { kind, payload, used } => ArrivedView::Message {
                kind: *kind,
                payload: payload@,
                used: *used,
            },
        }
    }
}

/// What the bytes that have arrived begin with.
pub open spec fn arrived(bytes: Seq<u8>) -> ArrivedView {
    if bytes.len() < 4 {
        ArrivedView::Part
    } else if u32_at(bytes, 0) == 0 {
        ArrivedView::Empty
    } else if bytes.len() - 4 < u32_at(bytes, 0) {
        ArrivedView::Part
    } else {
        let end = 4 + u32_at(bytes, 0);
        ArrivedView::Message {
            kind: bytes[4],
            payload: bytes.subrange(5, end),
            used: end as usize,
        }
    }
}

/// The message that the bytes which have arrived begin with, if it is whole.
pub fn decode(bytes: &[u8]) -> (r: Arrived)
    ensures
        r@ == arrived(bytes@),
{
    let have: usize = bytes.len();
    if have < 4 {
        return Arrived::Part;
    }
    let len: u32 = get_u32(bytes, 0);
    if len == 0 {
        return Arrived::Empty;
    }
    if ((have - 4) as u64) < len as u64 {
        return Arrived::Part;
    }
    let used: usize = 4 + len as usize;
    Arrived::Message { kind: bytes[4], payload: copy_range(bytes, 5, used), used }
}

/// What was sent is what arrives, whatever comes behind it.
pub proof fn lemma_message_round_trip(kind: u8, payload: Seq<u8>, rest: Seq<u8>)
    requires
        payload.len() + 5 <= u32::MAX,
    ensures
        arrived(encoded(kind, payload) + rest) == (ArrivedView::Message {
            kind,
            payload,
            used: (payload.len() + 5) as usize,
        }),
{
    broadcast use group_le_len;

    let n = (payload.len() + 1) as u32;
    let bytes = encoded(kind, payload) + rest;
    assert(bytes.subrange(0, 4) =~= le32(n));
    lemma_le32(bytes, 0, n);
    assert(bytes.subrange(5, 4 + n) =~= payload);
}

/// Half a message is no message: nothing is taken before all of it is there.
pub proof fn lemma_half_a_message_waits(kind: u8, payload: Seq<u8>, n: int)
    requires
        payload.len() + 5 <= u32::MAX,
        0 <= n < encoded(kind, payload).len(),
    ensures
        arrived(encoded(kind, payload).take(n)) is Part,
{
    broadcast use group_le_len;

    let len = (payload.len() + 1) as u32;
    let bytes = encoded(kind, payload).take(n);
    if n >= 4 {
        assert(bytes.subrange(0, 4) =~= le32(len));
        lemma_le32(bytes, 0, len);
    }
}

} // verus!
