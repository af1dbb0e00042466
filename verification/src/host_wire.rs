//! Host adapters for the framed protocol of [`crate::wire`].

use vstd::prelude::*;
use vstd::string::*;
#[allow(unused_imports)]
use vstd::utf8::*;
use crate::bytes::{get_u16, get_u32, get_u64, put_u32};
#[allow(unused_imports)]
use crate::bytes::{group_le_len, le32, u16_at, u32_at, u64_at};
use crate::wire::{self, Header, Writer, MAX_FRAME, MAX_PAYLOAD};
#[allow(unused_imports)]
use crate::wire::{fed, frame_bytes, lemma_frame_round_trip, packets, Packet, Stream};

verus! {

broadcast use group_le_len;

/// What a status byte says to the person who asked.
pub open spec fn spec_status_message(status: u8) -> Seq<char> {
    if status == 0 {
        "ok"@
    } else if status == 1 {
        "the firmware could not parse the request"@
    } else if status == 2 {
        "the firmware does not know this command"@
    } else if status == 3 {
        "the firmware has no value with this id"@
    } else if status == 4 {
        "this value is read-only"@
    } else if status == 5 {
        "the value is outside the range the firmware allows"@
    } else if status == 6 {
        "the firmware only allows this change in a safe state"@
    } else if status == 7 {
        "the value's type does not match the firmware's"@
    } else if status == 8 {
        "this session no longer holds the tuning lease"@
    } else if status == 9 {
        "another tool holds the tuning lease"@
    } else if status == 10 {
        "the watch list would exceed the firmware's sample budget"@
    } else if status == 11 {
        "the firmware's storage is unavailable, or the write to it failed"@
    } else if status == 12 {
        "this firmware does not support saving"@
    } else {
        "the firmware refused the request"@
    }
}

/// A reply's status byte, as a message for the person who asked.
pub fn status_message(status: u8) -> (r: &'static str)
    ensures
        r@ == spec_status_message(status),
{
    match status {
        0 => "ok",
        1 => "the firmware could not parse the request",
        2 => "the firmware does not know this command",
        3 => "the firmware has no value with this id",
        4 => "this value is read-only",
        5 => "the value is outside the range the firmware allows",
        6 => "the firmware only allows this change in a safe state",
        7 => "the value's type does not match the firmware's",
        8 => "this session no longer holds the tuning lease",
        9 => "another tool holds the tuning lease",
        10 => "the watch list would exceed the firmware's sample budget",
        11 => "the firmware's storage is unavailable, or the write to it failed",
        12 => "this firmware does not support saving",
        _ => "the firmware refused the request",
    }
}

/// [`wire::Status::Budget`] on the wire.
pub const STATUS_BUDGET: u8 = 10;

/// [`wire::Status::Busy`] on the wire.
pub const STATUS_BUSY: u8 = 9;

/// One whole frame.
pub fn encode(cmd: u8, seq: u16, payload: &[u8]) -> (r: Vec<u8>)
    requires
        payload@.len() <= MAX_PAYLOAD,
    ensures
        r@ == frame_bytes(Header { cmd, flags: 0, seq }, payload@),
{
    match Writer::new(MAX_FRAME, Header { cmd, flags: 0, seq }) {
        Ok(mut writer) => {
            let _ = writer.bytes(payload);
            assert(writer.spec_payload() =~= payload@);
            writer.finish()
        },
        Err(_) => Vec::new(),
    }
}

#[derive(Debug)]
pub struct Frame {
    pub cmd: u8,
    pub seq: u16,
    pub payload: Vec<u8>,
}

/// Whether a frame is the host's form of a packet.
pub open spec fn frame_is(f: Frame, p: Packet) -> bool {
    &&& f.cmd == p.header.cmd
    &&& f.seq == p.header.seq
    &&& f.payload@ == p.payload
}

/// Host adapter around the same bounded codec used by firmware.
#[derive(Debug)]
pub struct Decoder {
    /// The firmware's codec.
    pub inner: wire::Decoder,
    pub bad_frames: u64,
}

impl Default for Decoder {
    fn default() -> (r: Self)
        ensures
            r.held() == Seq::<u8>::empty(),
            r.inner_bad_frames() == 0,
            r.bad_frames == 0,
    {
        Decoder { inner: wire::Decoder::new(), bad_frames: 0 }
    }
}

impl Decoder {
    /// The bytes received of a frame that is not complete.
    pub open spec fn held(self) -> Seq<u8> {
        self.inner.held()
    }

    /// The codec's own count of bad frames, which wraps.
    pub open spec fn inner_bad_frames(self) -> u32 {
        self.inner.spec_bad_frames()
    }

    /// The decoder as a stream that has delivered nothing.
    pub open spec fn stream(self) -> Stream {
        Stream { frames: Seq::empty(), buf: self.held(), bad: self.inner_bad_frames() }
    }

    /// Feed received bytes; returns each complete, valid frame in order.
    pub fn feed(&mut self, bytes: &[u8]) -> (r: Vec<Frame>)
        requires
            old(self).bad_frames <= u64::MAX - u32::MAX,
        ensures
            ({
                let end = fed(old(self).stream(), bytes@);
                &&& r@.len() == end.frames.len()
                &&& forall|i: int| 0 <= i < r@.len() ==> frame_is(#[trigger] r@[i], end.frames[i])
                &&& final(self).held() == end.buf
                &&& final(self).inner_bad_frames() == end.bad
                &&& final(self).bad_frames == old(self).bad_frames + end.bad.wrapping_sub(
                    old(self).inner_bad_frames(),
                )
            }),
    {
        let before: u32 = self.inner.bad_frames();
        let mut list: Vec<(Header, Vec<u8>)> = self.inner.feed(bytes);
        let ghost got = packets(list@);
        let mut frames: Vec<Frame> = Vec::new();
        let mut i: usize = 0;
        let n: usize = list.len();
        while i < n
            invariant
                i <= n == list@.len() == got.len(),
                frames@.len() == i,
                packets(list@) == got,
                forall|k: int| 0 <= k < i ==> frame_is(#[trigger] frames@[k], got[k]),
            decreases n - i,
        {
            let header: Header = list[i].0;
            let payload: Vec<u8> = crate::bytes::copy_range(
                list[i].1.as_slice(),
                0,
                list[i].1.len(),
            );
            assert(payload@ =~= list@[i as int].1@);
            assert(got[i as int].payload == list@[i as int].1@);
            frames.push(Frame { cmd: header.cmd, seq: header.seq, payload });
            i = i + 1;
        }
        let after: u32 = self.inner.bad_frames();
        self.bad_frames = self.bad_frames + after.wrapping_sub(before) as u64;
        frames
    }
}

/// What [`String::from_utf8_lossy`] makes of these bytes.
pub uninterp spec fn lossy_text(bytes: Seq<u8>) -> Seq<char>;

/// [`String::from_utf8_lossy`]: a text for any bytes. Where they are the UTF-8
/// encoding of a text it is that text; what stands for other bytes is only
/// named.
#[verifier::external_body]
pub(crate) fn text_lossy(bytes: &[u8]) -> (r: String)
    ensures
        r@ == lossy_text(bytes@),
        forall|s: Seq<char>| bytes@ == #[trigger] encode_utf8(s) ==> r@ == s,
{
    String::from_utf8_lossy(bytes).into_owned()
}

/// Reads a payload front to back.
#[derive(Debug)]
pub struct Reader<'a> {
    bytes: &'a [u8],
}

impl<'a> Reader<'a> {
    /// The bytes not read yet.
    pub closed spec fn rest(self) -> Seq<u8> {
        self.bytes@
    }

    /// What taking `n` bytes does: it shortens the rest by them, or fails and
    /// leaves it.
    pub open spec fn took(self, next: Self, n: nat, some: bool) -> bool {
        &&& some <==> self.rest().len() >= n
        &&& some ==> next.rest() == self.rest().skip(n as int)
        &&& !some ==> next.rest() == self.rest()
    }

    pub fn new(bytes: &'a [u8]) -> (r: Self)
        ensures
            r.rest() == bytes@,
    {
        Reader { bytes }
    }

    pub fn remaining(&self) -> (r: usize)
        ensures
            r == self.rest().len(),
    {
        self.bytes.len()
    }

    pub fn u8(&mut self) -> (r: Option<u8>)
        ensures
            old(self).took(*final(self), 1, r is Some),
            r matches Some(v) ==> v == old(self).rest()[0],
    {
        match self.bytes(1) {
            Some(head) => Some(head[0]),
            None => None,
        }
    }

    pub fn u16(&mut self) -> (r: Option<u16>)
        ensures
            old(self).took(*final(self), 2, r is Some),
            r matches Some(v) ==> v == u16_at(old(self).rest(), 0),
    {
        match self.bytes(2) {
            Some(head) => Some(get_u16(head, 0)),
            None => None,
        }
    }

    pub fn u32(&mut self) -> (r: Option<u32>)
        ensures
            old(self).took(*final(self), 4, r is Some),
            r matches Some(v) ==> v == u32_at(old(self).rest(), 0),
    {
        match self.bytes(4) {
            Some(head) => Some(get_u32(head, 0)),
            None => None,
        }
    }

    pub fn u64(&mut self) -> (r: Option<u64>)
        ensures
            old(self).took(*final(self), 8, r is Some),
            r matches Some(v) ==> v == u64_at(old(self).rest(), 0),
    {
        match self.bytes(8) {
            Some(head) => Some(get_u64(head, 0)),
            None => None,
        }
    }

    pub fn bytes(&mut self, n: usize) -> (r: Option<&'a [u8]>)
        ensures
            old(self).took(*final(self), n as nat, r is Some),
            r matches Some(head) ==> head@ == old(self).rest().take(n as int),
    {
        if self.bytes.len() < n {
            return None;
        }
        let (head, rest) = self.bytes.split_at(n);
        assert(head@ =~= self.bytes@.take(n as int));
        assert(rest@ =~= self.bytes@.skip(n as int));
        self.bytes = rest;
        Some(head)
    }

    /// A length-prefixed UTF-8 string. A length that runs past the end fails
    /// after the length byte has been read.
    pub fn text(&mut self) -> (r: Option<String>)
        ensures
            ({
                let rest = old(self).rest();
                &&& rest.len() == 0 ==> r is None && final(self).rest() == rest
                &&& rest.len() > 0 && rest.len() - 1 < rest[0] ==> r is None && final(self).rest()
                    == rest.skip(1)
                &&& rest.len() > 0 && rest.len() - 1 >= rest[0] ==> {
                    &&& r matches Some(text) && text@ == lossy_text(rest.subrange(1, 1 + rest[0]))
                    &&& final(self).rest() == rest.skip(1 + rest[0])
                    &&& forall|s: Seq<char>|
                        rest.subrange(1, 1 + rest[0]) == #[trigger] encode_utf8(s) ==> r->0@ == s
                }
            }),
    {
        let ghost rest = self.rest();
        let n: usize = match self.u8() {
            Some(n) => n as usize,
            None => {
                return None;
            },
        };
        match self.bytes(n) {
            Some(b) => {
                proof {
                    assert(b@ =~= rest.subrange(1, 1 + rest[0]));
                    assert(self.rest() =~= rest.skip(1 + rest[0]));
                }
                Some(text_lossy(b))
            },
            None => None,
        }
    }
}

/// An 8-byte value slot: type tag, three reserved bytes, bits.
pub open spec fn slot_bytes(tag: u8, bits: u32) -> Seq<u8> {
    seq![tag, 0u8, 0u8, 0u8] + le32(bits)
}

/// An 8-byte value slot: type tag, three reserved bytes, bits.
pub fn slot(tag: u8, bits: u32) -> (r: Vec<u8>)
    ensures
        r@ == slot_bytes(tag, bits),
        r@.len() == 8,
{
    let mut out: Vec<u8> = Vec::new();
    out.push(tag);
    out.push(0);
    out.push(0);
    out.push(0);
    put_u32(&mut out, bits);
    assert(out@ =~= slot_bytes(tag, bits));
    out
}

/// A slot the host writes is the slot the firmware reads.
pub proof fn lemma_slot_round_trip(tag: u8, bits: u32)
    ensures
        ({
            let s = slot_bytes(tag, bits);
            s.len() == 8 && s[0] == tag && u32_at(s, 4) == bits
        }),
{
    let s = slot_bytes(tag, bits);
    assert(s.subrange(4, 8) =~= le32(bits));
    crate::bytes::lemma_le32(s, 4, bits);
}

/// What a host encodes, a decoder between frames delivers.
pub proof fn lemma_encode_round_trip(st: Stream, cmd: u8, seq: u16, payload: Seq<u8>)
    requires
        st.buf.len() == 0,
        payload.len() <= MAX_PAYLOAD,
    ensures
        fed(st, frame_bytes(Header { cmd, flags: 0, seq }, payload)) == (Stream {
            frames: st.frames.push(Packet { header: Header { cmd, flags: 0, seq }, payload }),
            ..st
        }),
{
    lemma_frame_round_trip(st, Header { cmd, flags: 0, seq }, payload);
}

} // verus!
