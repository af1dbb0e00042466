//! Frames for a byte-stream link (USB CDC, RTT, UART).
//!
//! ```text
//! magic u8 | version u8 | cmd u8 | flags u8 | seq u16 | len u16 | payload | crc16
//! ```
//!
//! Little-endian throughout. The CRC is CRC-16/MCRF4XX over the header and
//! payload. A reply carries `cmd | REPLY`, the request's `seq`, and a payload
//! that starts with a [`Status`] byte. Asynchronous frames (samples) number
//! their own `seq`, so a gap shows a dropped frame.

use vstd::prelude::*;
use crate::bytes::{copy_range, get_u16, get_u32, lemma_le16, put_bytes, put_u16, put_u32, put_u64};
#[allow(unused_imports)]
use crate::bytes::{group_le_len, le16, le32, le64, lemma_two_bytes, u16_at, u32_at};

verus! {

broadcast use group_le_len;

pub const MAGIC: u8 = 0xa5;

pub const VERSION: u8 = 1;

pub const HEADER_LEN: usize = 8;

pub const MAX_PAYLOAD: usize = 256;

/// Header, payload and CRC.
pub const MAX_FRAME: usize = 266;

/// Set on a reply's `cmd`.
pub const REPLY: u8 = 0x80;

/// The first byte of every reply payload.
#[derive(Copy, Clone, Debug, PartialEq, Eq, Structural)]
pub enum Status {
    Okay,
    /// The payload is not the command's shape.
    BadFrame,
    UnknownCommand,
    UnknownId,
    ReadOnly,
    /// Not a number, or outside the declared range.
    Range,
    /// The value may change only while the robot is safe.
    StateDenied,
    /// The value slot's type tag is not the entry's kind.
    WrongKind,
    /// Writing needs the lease, and this token does not hold it.
    SessionRequired,
    /// Another token holds the lease.
    Busy,
    /// The subscription would exceed the sample byte budget.
    Budget,
    /// Storage is missing, or the write did not verify.
    Storage,
    /// This firmware intentionally has no persistence implementation.
    SaveUnsupported,
}

impl Status {
    /// The byte that stands for the status on the wire.
    pub open spec fn spec_code(self) -> u8 {
        match self {
            Status::Okay => 0,
            Status::BadFrame => 1,
            Status::UnknownCommand => 2,
            Status::UnknownId => 3,
            Status::ReadOnly => 4,
            Status::Range => 5,
            Status::StateDenied => 6,
            Status::WrongKind => 7,
            Status::SessionRequired => 8,
            Status::Busy => 9,
            Status::Budget => 10,
            Status::Storage => 11,
            Status::SaveUnsupported => 12,
        }
    }

    /// The byte that stands for the status on the wire.
    pub fn code(self) -> (r: u8)
        ensures
            r == self.spec_code(),
    {
        match self {
            Status::Okay => 0,
            Status::BadFrame => 1,
            Status::UnknownCommand => 2,
            Status::UnknownId => 3,
            Status::ReadOnly => 4,
            Status::Range => 5,
            Status::StateDenied => 6,
            Status::WrongKind => 7,
            Status::SessionRequired => 8,
            Status::Busy => 9,
            Status::Budget => 10,
            Status::Storage => 11,
            Status::SaveUnsupported => 12,
        }
    }
}

/// One bit of the CRC register's shift.
pub open spec fn crc_shift(crc: u16) -> u16 {
    if crc & 1 == 1 {
        (crc >> 1) ^ 0x8408
    } else {
        crc >> 1
    }
}

/// `n` bits of the CRC register's shift.
pub open spec fn crc_shifts(crc: u16, n: nat) -> u16
    decreases n,
{
    if n == 0 {
        crc
    } else {
        crc_shift(crc_shifts(crc, (n - 1) as nat))
    }
}

/// The CRC register after `s`, starting from 0xffff.
pub open spec fn crc_of(s: Seq<u8>) -> u16
    decreases s.len(),
{
    if s.len() == 0 {
        0xffff
    } else {
        crc_shifts(crc_of(s.drop_last()) ^ (s.last() as u16), 8)
    }
}

/// CRC-16/MCRF4XX: reflected 0x1021, init 0xffff, no final xor.
pub fn crc16(bytes: &[u8]) -> (r: u16)
    ensures
        r == crc_of(bytes@),
{
    let mut crc: u16 = 0xffff;
    let mut i: usize = 0;
    assert(bytes@.subrange(0, 0) =~= Seq::<u8>::empty());
    while i < bytes.len()
        invariant
            i <= bytes@.len(),
            crc == crc_of(bytes@.subrange(0, i as int)),
        decreases bytes@.len() - i,
    {
        let ghost before = crc;
        crc = crc ^ (bytes[i] as u16);
        let ghost start = crc;
        let mut k: u8 = 0;
        while k < 8
            invariant
                k <= 8,
                crc == crc_shifts(start, k as nat),
            decreases 8 - k,
        {
            crc = if crc & 1 == 1 {
                (crc >> 1) ^ 0x8408
            } else {
                crc >> 1
            };
            k = k + 1;
        }
        i = i + 1;
        proof {
            let s = bytes@.subrange(0, i as int);
            assert(s.drop_last() =~= bytes@.subrange(0, i - 1));
            assert(s.last() == bytes@[i - 1]);
        }
    }
    assert(bytes@.subrange(0, bytes@.len() as int) =~= bytes@);
    crc
}

/// The CRC of no bytes is the register's first value.
pub proof fn lemma_crc_of_nothing()
    ensures
        crc_of(Seq::empty()) == 0xffff,
{
}

/// Eight shifts of a register whose low byte is zero move its high byte down.
proof fn lemma_shift_high_byte(crc: u16)
    ensures
        crc_shifts(crc & 0xff00, 8) == crc >> 8,
        crc_shifts(0, 8) == 0,
{
    reveal_with_fuel(crc_shifts, 9);
    assert(crc_shift(
        crc_shift(
            crc_shift(crc_shift(crc_shift(crc_shift(crc_shift(crc_shift(crc & 0xff00))))))
        ),
    ) == crc >> 8) by (bit_vector);
    assert(crc_shift(0) == 0) by (bit_vector);
}

/// A receiver that takes in the CRC behind the bytes it covers ends at zero.
pub proof fn lemma_crc_closes(data: Seq<u8>)
    ensures
        crc_of(data + le16(crc_of(data))) == 0,
{
    let crc = crc_of(data);
    let all = data + le16(crc);
    reveal(le16);
    let low = (crc % 256) as u8;
    let high = (crc / 256) as u8;
    let first = data.push(low);
    assert(all.drop_last() =~= first);
    assert(first.drop_last() =~= data);
    assert(all.last() == high);
    lemma_shift_high_byte(crc);
    assert(crc ^ (((crc % 256) as u8) as u16) == crc & 0xff00) by (bit_vector);
    assert((crc >> 8) ^ (((crc / 256) as u8) as u16) == 0) by (bit_vector);
    assert(crc_of(first) == crc >> 8);
}

/// A shift loses nothing of the register.
proof fn lemma_shifts_differ(a: u16, b: u16, n: nat)
    requires
        a != b,
    ensures
        crc_shifts(a, n) != crc_shifts(b, n),
    decreases n,
{
    if n > 0 {
        lemma_shifts_differ(a, b, (n - 1) as nat);
        let x = crc_shifts(a, (n - 1) as nat);
        let y = crc_shifts(b, (n - 1) as nat);
        assert(x != y ==> crc_shift(x) != crc_shift(y)) by (bit_vector);
    }
}

/// Changing one byte changes the CRC.
pub proof fn lemma_crc_finds_a_changed_byte(data: Seq<u8>, at: int, byte: u8)
    requires
        0 <= at < data.len(),
        byte != data[at],
    ensures
        crc_of(data.update(at, byte)) != crc_of(data),
    decreases data.len(),
{
    let other = data.update(at, byte);
    let a = data.last() as u16;
    let b = other.last() as u16;
    let before = crc_of(data.drop_last());
    let changed = crc_of(other.drop_last());
    if at == data.len() - 1 {
        assert(other.drop_last() =~= data.drop_last());
        assert(a != b ==> before ^ a != before ^ b) by (bit_vector);
        lemma_shifts_differ(before ^ a, before ^ b, 8);
    } else {
        lemma_crc_finds_a_changed_byte(data.drop_last(), at, byte);
        assert(other.drop_last() =~= data.drop_last().update(at, byte));
        assert(before != changed ==> before ^ a != changed ^ a) by (bit_vector);
        lemma_shifts_differ(before ^ a, changed ^ a, 8);
    }
}

/// Flipping any one bit changes the CRC.
pub proof fn lemma_crc_finds_a_flipped_bit(data: Seq<u8>, at: int, bit: u8)
    requires
        0 <= at < data.len(),
        bit < 8,
    ensures
        crc_of(data.update(at, data[at] ^ (1u8 << bit))) != crc_of(data),
{
    let byte = data[at];
    assert(byte ^ (1u8 << bit) != byte) by (bit_vector)
        requires
            bit < 8,
    ;
    lemma_crc_finds_a_changed_byte(data, at, byte ^ (1u8 << bit));
}

#[derive(Copy, Clone, Debug, PartialEq, Eq, Structural)]
pub struct Header {
    pub cmd: u8,
    pub flags: u8,
    pub seq: u16,
}

/// The first eight bytes of a frame.
pub open spec fn head_bytes(header: Header, len: u16) -> Seq<u8> {
    seq![MAGIC, VERSION, header.cmd, header.flags] + le16(header.seq) + le16(len)
}

/// What the CRC covers: the header and the payload.
pub open spec fn frame_body(header: Header, payload: Seq<u8>) -> Seq<u8> {
    head_bytes(header, payload.len() as u16) + payload
}

/// The bytes of one frame.
#[verifier::opaque]
pub open spec fn frame_bytes(header: Header, payload: Seq<u8>) -> Seq<u8> {
    frame_body(header, payload) + le16(crc_of(frame_body(header, payload)))
}

/// The payload did not fit in [`MAX_PAYLOAD`] or the output buffer.
#[derive(Copy, Clone, Debug, PartialEq, Eq, Structural)]
pub struct Overflow;

/// Builds one frame that must fit an output buffer of `room` bytes.
#[derive(Debug)]
pub struct Writer {
    header: Header,
    payload: Vec<u8>,
    room: usize,
}

impl Writer {
    #[verifier::type_invariant]
    spec fn well_formed(self) -> bool {
        &&& self.payload@.len() <= MAX_PAYLOAD
        &&& HEADER_LEN + self.payload@.len() + 2 <= self.room
    }

    pub closed spec fn spec_header(self) -> Header {
        self.header
    }

    /// The payload written so far.
    pub closed spec fn spec_payload(self) -> Seq<u8> {
        self.payload@
    }

    /// The size of the output buffer.
    pub closed spec fn spec_room(self) -> nat {
        self.room as nat
    }

    /// Whether `n` more payload bytes fit both limits.
    pub open spec fn spec_fits(self, n: nat) -> bool {
        &&& self.spec_payload().len() + n <= MAX_PAYLOAD
        &&& HEADER_LEN + self.spec_payload().len() + n + 2 <= self.spec_room()
    }

    /// What appending `more` does: all of it when it fits, else nothing.
    pub open spec fn appended(self, next: Self, r: Result<(), Overflow>, more: Seq<u8>) -> bool {
        &&& next.spec_header() == self.spec_header()
        &&& next.spec_room() == self.spec_room()
        &&& r is Ok <==> self.spec_fits(more.len())
        &&& r is Ok ==> next.spec_payload() == self.spec_payload() + more
        &&& r is Err ==> next.spec_payload() == self.spec_payload()
    }

    /// A frame for an output buffer of `room` bytes; refused when that cannot
    /// hold even an empty frame.
    pub fn new(room: usize, header: Header) -> (r: Result<Self, Overflow>)
        ensures
            r is Ok <==> room >= HEADER_LEN + 2,
            r matches Ok(w) ==> {
                &&& w.spec_header() == header
                &&& w.spec_payload() == Seq::<u8>::empty()
                &&& w.spec_room() == room
            },
    {
        if room < HEADER_LEN + 2 {
            return Err(Overflow);
        }
        Ok(Writer { header, payload: Vec::new(), room })
    }

    /// Payload bytes written so far.
    pub fn payload_len(&self) -> (r: usize)
        ensures
            r == self.spec_payload().len(),
    {
        self.payload.len()
    }

    /// Whether `n` more payload bytes fit.
    pub fn fits(&self, n: usize) -> (r: bool)
        ensures
            r == self.spec_fits(n as nat),
    {
        proof {
            use_type_invariant(self);
        }
        let len: usize = self.payload.len();
        n <= MAX_PAYLOAD - len && n <= self.room - HEADER_LEN - len - 2
    }

    /// Appends `bytes`, or nothing when they do not fit.
    pub fn bytes(&mut self, bytes: &[u8]) -> (r: Result<(), Overflow>)
        ensures
            old(self).appended(*final(self), r, bytes@),
    {
        if !self.fits(bytes.len()) {
            return Err(Overflow);
        }
        proof {
            use_type_invariant(&*self);
        }
        let mut payload: Vec<u8> = Vec::new();
        std::mem::swap(&mut payload, &mut self.payload);
        put_bytes(&mut payload, bytes);
        self.payload = payload;
        Ok(())
    }

    /// Appends one byte, or nothing when it does not fit.
    pub fn u8(&mut self, v: u8) -> (r: Result<(), Overflow>)
        ensures
            old(self).appended(*final(self), r, seq![v]),
    {
        let mut buf: Vec<u8> = Vec::new();
        buf.push(v);
        assert(buf@ =~= seq![v]);
        self.bytes(buf.as_slice())
    }

    /// Appends two bytes, or nothing when they do not fit.
    pub fn u16(&mut self, v: u16) -> (r: Result<(), Overflow>)
        ensures
            old(self).appended(*final(self), r, le16(v)),
    {
        let mut buf: Vec<u8> = Vec::new();
        put_u16(&mut buf, v);
        assert(buf@ =~= le16(v));
        self.bytes(buf.as_slice())
    }

    /// Appends four bytes, or nothing when they do not fit.
    pub fn u32(&mut self, v: u32) -> (r: Result<(), Overflow>)
        ensures
            old(self).appended(*final(self), r, le32(v)),
    {
        let mut buf: Vec<u8> = Vec::new();
        put_u32(&mut buf, v);
        assert(buf@ =~= le32(v));
        self.bytes(buf.as_slice())
    }

    /// Appends eight bytes, or nothing when they do not fit.
    pub fn u64(&mut self, v: u64) -> (r: Result<(), Overflow>)
        ensures
            old(self).appended(*final(self), r, le64(v)),
    {
        let mut buf: Vec<u8> = Vec::new();
        put_u64(&mut buf, v);
        assert(buf@ =~= le64(v));
        self.bytes(buf.as_slice())
    }

    /// Overwrites a byte already written, at payload offset `at`.
    pub fn patch_u8(&mut self, at: usize, v: u8)
        requires
            at < old(self).spec_payload().len(),
        ensures
            final(self).spec_header() == old(self).spec_header(),
            final(self).spec_room() == old(self).spec_room(),
            final(self).spec_payload() == old(self).spec_payload().update(at as int, v),
    {
        proof {
            use_type_invariant(&*self);
        }
        let mut payload: Vec<u8> = Vec::new();
        std::mem::swap(&mut payload, &mut self.payload);
        payload.set(at, v);
        self.payload = payload;
    }

    /// The frame: header with the payload's length, payload, CRC.
    pub fn finish(self) -> (r: Vec<u8>)
        ensures
            r@ == frame_bytes(self.spec_header(), self.spec_payload()),
            r@.len() <= self.spec_room(),
            r@.len() == HEADER_LEN + self.spec_payload().len() + 2,
    {
        proof {
            use_type_invariant(&self);
        }
        let mut out: Vec<u8> = Vec::new();
        out.push(MAGIC);
        out.push(VERSION);
        out.push(self.header.cmd);
        out.push(self.header.flags);
        put_u16(&mut out, self.header.seq);
        put_u16(&mut out, self.payload.len() as u16);
        assert(out@ =~= head_bytes(self.header, self.payload@.len() as u16));
        put_bytes(&mut out, self.payload.as_slice());
        assert(out@ =~= frame_body(self.header, self.payload@));
        let crc: u16 = crc16(out.as_slice());
        put_u16(&mut out, crc);
        proof {
            reveal(frame_bytes);
        }
        out
    }
}

/// A decoded frame.
pub struct Packet {
    pub header: Header,
    pub payload: Seq<u8>,
}

/// A decoder's history: the frames it has delivered, the bytes it holds, and
/// the frames it has dropped.
#[verifier::ext_equal]
pub struct Stream {
    pub frames: Seq<Packet>,
    pub buf: Seq<u8>,
    pub bad: u32,
}

/// `buf` from its first magic byte on.
pub open spec fn from_magic(buf: Seq<u8>) -> Seq<u8>
    decreases buf.len(),
{
    if buf.len() == 0 || buf[0] == MAGIC {
        buf
    } else {
        from_magic(buf.drop_first())
    }
}

/// [`from_magic`] only shortens.
pub proof fn lemma_from_magic(buf: Seq<u8>)
    ensures
        from_magic(buf).len() <= buf.len(),
        from_magic(buf).len() > 0 ==> from_magic(buf)[0] == MAGIC,
    decreases buf.len(),
{
    if buf.len() == 0 || buf[0] == MAGIC {
    } else {
        lemma_from_magic(buf.drop_first());
    }
}

/// The header that the first eight bytes of `buf` hold.
pub open spec fn header_at(buf: Seq<u8>) -> Header {
    Header { cmd: buf[2], flags: buf[3], seq: u16_at(buf, 4) }
}

/// The length field of the header at the start of `buf`.
pub open spec fn payload_len_at(buf: Seq<u8>) -> int {
    u16_at(buf, 6) as int
}

/// Whether the header at the start of `buf` cannot begin a frame.
pub open spec fn bad_header(buf: Seq<u8>) -> bool {
    buf[1] != VERSION || payload_len_at(buf) > MAX_PAYLOAD
}

/// Whether `buf` is too short to tell more of its first frame.
pub open spec fn waiting(buf: Seq<u8>) -> bool {
    ||| buf.len() < HEADER_LEN
    ||| !bad_header(buf) && buf.len() < HEADER_LEN + payload_len_at(buf) + 2
}

/// Whether the frame at the start of `buf` carries the CRC of its bytes.
pub open spec fn good_crc(buf: Seq<u8>) -> bool {
    let body = HEADER_LEN + payload_len_at(buf);
    u16_at(buf, body) == crc_of(buf.subrange(0, body))
}

/// One more bad frame; the count wraps.
pub open spec fn one_more(bad: u32) -> u32 {
    if bad == u32::MAX {
        0
    } else {
        (bad + 1) as u32
    }
}

/// Takes every complete frame off the front of the held bytes. A bad header or
/// CRC costs one byte and the search for the next magic byte.
pub open spec fn drained(st: Stream) -> Stream
    decreases st.buf.len(),
{
    let buf = st.buf;
    proof {
        lemma_from_magic(buf.drop_first());
        lemma_from_magic(buf.skip(HEADER_LEN + payload_len_at(buf) + 2));
    }
    if waiting(buf) {
        st
    } else if bad_header(buf) || !good_crc(buf) {
        drained(Stream { buf: from_magic(buf.drop_first()), bad: one_more(st.bad), ..st })
    } else {
        let body = HEADER_LEN + payload_len_at(buf);
        let packet = Packet { header: header_at(buf), payload: buf.subrange(HEADER_LEN as int, body) };
        drained(Stream { frames: st.frames.push(packet), buf: from_magic(buf.skip(body + 2)), ..st })
    }
}

/// One received byte. Bytes before a magic byte are dropped.
pub open spec fn received(st: Stream, byte: u8) -> Stream {
    if st.buf.len() == 0 && byte != MAGIC {
        st
    } else {
        drained(Stream { buf: st.buf.push(byte), ..st })
    }
}

/// Every byte of `bytes` in turn.
pub open spec fn fed(st: Stream, bytes: Seq<u8>) -> Stream
    decreases bytes.len(),
{
    if bytes.len() == 0 {
        st
    } else {
        received(fed(st, bytes.drop_last()), bytes.last())
    }
}

/// What a decoder holds between bytes: a frame's beginning, or nothing.
pub open spec fn settled(buf: Seq<u8>) -> bool {
    &&& waiting(buf)
    &&& buf.len() > 0 ==> buf[0] == MAGIC
}

/// Draining always ends in a settled buffer, which is shorter than a frame.
pub proof fn lemma_drained_settles(st: Stream)
    requires
        st.buf.len() > 0 ==> st.buf[0] == MAGIC,
    ensures
        settled(drained(st).buf),
        drained(st).buf.len() < MAX_FRAME,
    decreases st.buf.len(),
{
    let buf = st.buf;
    if waiting(buf) {
    } else {
        lemma_from_magic(buf.drop_first());
        lemma_from_magic(buf.skip(HEADER_LEN + payload_len_at(buf) + 2));
        if bad_header(buf) || !good_crc(buf) {
            lemma_drained_settles(
                Stream { buf: from_magic(buf.drop_first()), bad: one_more(st.bad), ..st },
            );
        } else {
            let body = HEADER_LEN + payload_len_at(buf);
            let packet = Packet {
                header: header_at(buf),
                payload: buf.subrange(HEADER_LEN as int, body),
            };
            lemma_drained_settles(
                Stream {
                    frames: st.frames.push(packet),
                    buf: from_magic(buf.skip(body + 2)),
                    ..st
                },
            );
        }
    }
}

/// A decoder that only ever sees bytes through [`received`] holds less than a
/// frame, whatever the bytes are.
pub proof fn lemma_fed_settles(st: Stream, bytes: Seq<u8>)
    requires
        settled(st.buf),
    ensures
        settled(fed(st, bytes).buf),
        fed(st, bytes).buf.len() < MAX_FRAME,
    decreases bytes.len(),
{
    if bytes.len() > 0 {
        let before = fed(st, bytes.drop_last());
        lemma_fed_settles(st, bytes.drop_last());
        if before.buf.len() == 0 && bytes.last() != MAGIC {
        } else {
            lemma_drained_settles(Stream { buf: before.buf.push(bytes.last()), ..before });
        }
    }
}

/// How a stream is cut into feeds makes no difference.
pub proof fn lemma_feeds_join(st: Stream, a: Seq<u8>, b: Seq<u8>)
    ensures
        fed(fed(st, a), b) == fed(st, a + b),
    decreases b.len(),
{
    if b.len() == 0 {
        assert(a + b =~= a);
    } else {
        lemma_feeds_join(st, a, b.drop_last());
        assert((a + b).drop_last() =~= a + b.drop_last());
    }
}

/// Between frames, bytes without a magic byte leave a decoder as it was.
pub proof fn lemma_noise_is_dropped(st: Stream, noise: Seq<u8>)
    requires
        st.buf.len() == 0,
        !noise.contains(MAGIC),
    ensures
        fed(st, noise) == st,
    decreases noise.len(),
{
    if noise.len() > 0 {
        let rest = noise.drop_last();
        assert forall|i: int| 0 <= i < rest.len() implies rest[i] != MAGIC by {
            assert(noise[i] == rest[i]);
        }
        assert(!rest.contains(MAGIC));
        assert(noise[noise.len() - 1] == noise.last());
        lemma_noise_is_dropped(st, rest);
    }
}

/// The parts of a frame that a decoder looks at.
proof fn lemma_frame_parts(header: Header, payload: Seq<u8>, k: int)
    requires
        payload.len() <= MAX_PAYLOAD,
        HEADER_LEN <= k <= payload.len() + HEADER_LEN + 2,
    ensures
        frame_bytes(header, payload).len() == payload.len() + HEADER_LEN + 2,
        frame_bytes(header, payload)[0] == MAGIC,
        payload_len_at(frame_bytes(header, payload).take(k)) == payload.len(),
        !bad_header(frame_bytes(header, payload).take(k)),
        header_at(frame_bytes(header, payload)) == header,
{
    reveal(frame_bytes);
    let f = frame_bytes(header, payload);
    let head = head_bytes(header, payload.len() as u16);
    let g = f.take(k);
    assert forall|i: int| 0 <= i < 8 implies f[i] == head[i] && g[i] == head[i] by {}
    assert(g.subrange(6, 8) =~= le16(payload.len() as u16));
    lemma_le16(g, 6, payload.len() as u16);
    assert(f.subrange(4, 6) =~= le16(header.seq));
    lemma_le16(f, 4, header.seq);
}

/// A decoder between frames takes in a frame's beginning without reaction.
proof fn lemma_frame_prefix(st: Stream, header: Header, payload: Seq<u8>, k: int)
    requires
        st.buf.len() == 0,
        payload.len() <= MAX_PAYLOAD,
        0 <= k < payload.len() + HEADER_LEN + 2,
    ensures
        fed(st, frame_bytes(header, payload).take(k)) == (Stream {
            buf: frame_bytes(header, payload).take(k),
            ..st
        }),
    decreases k,
{
    let f = frame_bytes(header, payload);
    if k == 0 {
        assert(f.take(0) =~= st.buf);
    } else {
        lemma_frame_prefix(st, header, payload, k - 1);
        lemma_frame_parts(header, payload, HEADER_LEN as int);
        assert(f.take(k).drop_last() =~= f.take(k - 1));
        assert(f.take(k - 1).push(f.take(k).last()) =~= f.take(k));
        if k >= HEADER_LEN {
            lemma_frame_parts(header, payload, k);
        }
    }
}

/// What a writer finishes, a decoder between frames delivers: exactly that
/// header and payload, with nothing left over and nothing counted as bad.
pub proof fn lemma_frame_round_trip(st: Stream, header: Header, payload: Seq<u8>)
    requires
        st.buf.len() == 0,
        payload.len() <= MAX_PAYLOAD,
    ensures
        fed(st, frame_bytes(header, payload)) == (Stream {
            frames: st.frames.push(Packet { header, payload }),
            ..st
        }),
{
    reveal(frame_bytes);
    let f = frame_bytes(header, payload);
    let n = f.len() as int;
    lemma_frame_parts(header, payload, payload.len() + HEADER_LEN + 2);
    lemma_frame_prefix(st, header, payload, n - 1);
    assert(f.drop_last() =~= f.take(n - 1));
    assert(f.drop_last().push(f.last()) =~= f);
    assert(f.take(n) =~= f);
    let body = HEADER_LEN + payload.len();
    assert(f.subrange(0, body) =~= frame_body(header, payload));
    assert(f.subrange(body, body + 2) =~= le16(crc_of(frame_body(header, payload))));
    lemma_le16(f, body, crc_of(frame_body(header, payload)));
    assert(f.subrange(HEADER_LEN as int, body) =~= payload);
    assert(f.skip(body + 2) =~= Seq::<u8>::empty());
    let end = Stream { frames: st.frames.push(Packet { header, payload }), buf: Seq::empty(), ..st };
    assert(st.buf =~= Seq::<u8>::empty());
    assert(drained(end) == end);
}

/// A frame after noise without a magic byte is still delivered.
pub proof fn lemma_frame_after_noise(st: Stream, noise: Seq<u8>, header: Header, payload: Seq<u8>)
    requires
        st.buf.len() == 0,
        !noise.contains(MAGIC),
        payload.len() <= MAX_PAYLOAD,
    ensures
        fed(st, noise + frame_bytes(header, payload)) == (Stream {
            frames: st.frames.push(Packet { header, payload }),
            ..st
        }),
{
    lemma_noise_is_dropped(st, noise);
    lemma_frame_round_trip(st, header, payload);
    lemma_feeds_join(st, noise, frame_bytes(header, payload));
}

/// Whether `part` stands somewhere in `all`.
pub open spec fn stands_in(all: Seq<u8>, part: Seq<u8>) -> bool {
    exists|at: int|
        0 <= at <= all.len() - part.len() && #[trigger] all.subrange(at, at + part.len()) == part
}

/// Whether a frame is one that this version defines, and came over the link: a
/// payload that is not too long, and among the bytes received the magic byte, the
/// version, the header, the payload and their CRC, one after another.
pub open spec fn came_whole(received: Seq<u8>, frame: Packet) -> bool {
    &&& frame.payload.len() <= MAX_PAYLOAD
    &&& stands_in(received, frame_bytes(frame.header, frame.payload))
}

/// What stands in the end of some bytes stands in them.
proof fn lemma_stands_in_rest(all: Seq<u8>, from: int, part: Seq<u8>)
    requires
        0 <= from <= all.len(),
        stands_in(all.skip(from), part),
    ensures
        stands_in(all, part),
{
    let rest = all.skip(from);
    let at = choose|at: int|
        0 <= at <= rest.len() - part.len() && #[trigger] rest.subrange(at, at + part.len()) == part;
    assert(all.subrange(from + at, from + at + part.len()) =~= rest.subrange(at, at + part.len()));
}

/// What stands in some bytes stands in more of them.
proof fn lemma_stands_in_more(all: Seq<u8>, more: Seq<u8>, part: Seq<u8>)
    requires
        stands_in(all, part),
    ensures
        stands_in(all + more, part),
{
    let at = choose|at: int|
        0 <= at <= all.len() - part.len() && #[trigger] all.subrange(at, at + part.len()) == part;
    assert((all + more).subrange(at, at + part.len()) =~= all.subrange(at, at + part.len()));
}

/// From the first magic byte on is an end of the bytes.
proof fn lemma_from_magic_is_an_end(buf: Seq<u8>)
    ensures
        from_magic(buf).len() <= buf.len(),
        from_magic(buf) == buf.skip(buf.len() - from_magic(buf).len()),
    decreases buf.len(),
{
    if buf.len() == 0 || buf[0] == MAGIC {
        assert(buf.skip(0) =~= buf);
    } else {
        let rest = buf.drop_first();
        lemma_from_magic_is_an_end(rest);
        let n = from_magic(rest).len();
        assert(rest.skip(rest.len() - n) =~= buf.skip(buf.len() - n));
    }
}

/// What is taken as a frame is one.
proof fn lemma_taken_frame(buf: Seq<u8>)
    requires
        buf.len() > 0,
        buf[0] == MAGIC,
        !waiting(buf),
        !bad_header(buf),
        good_crc(buf),
    ensures
        ({
            let body = HEADER_LEN + payload_len_at(buf);
            buf.take(body + 2) == frame_bytes(
                header_at(buf),
                buf.subrange(HEADER_LEN as int, body),
            )
        }),
{
    reveal(frame_bytes);
    let body = HEADER_LEN + payload_len_at(buf);
    let header = header_at(buf);
    let payload = buf.subrange(HEADER_LEN as int, body);
    lemma_two_bytes(buf, 4);
    lemma_two_bytes(buf, 6);
    lemma_two_bytes(buf, body);
    let head = head_bytes(header, payload.len() as u16);
    assert(payload.len() as u16 == u16_at(buf, 6));
    assert(head =~= buf.take(HEADER_LEN as int)) by {
        assert(buf.subrange(4, 6) == le16(header.seq));
        assert(buf.subrange(6, 8) == le16(u16_at(buf, 6)));
        assert forall|i: int| 0 <= i < 8 implies head[i] == buf[i] by {
            if 4 <= i < 6 {
                assert(head[i] == le16(header.seq)[i - 4]);
                assert(buf[i] == buf.subrange(4, 6)[i - 4]);
            } else if 6 <= i {
                assert(head[i] == le16(u16_at(buf, 6))[i - 6]);
                assert(buf[i] == buf.subrange(6, 8)[i - 6]);
            }
        }
    }
    assert(frame_body(header, payload) =~= buf.take(body));
    assert(buf.take(body) =~= buf.subrange(0, body));
    assert(buf.take(body + 2) =~= buf.take(body) + buf.subrange(body, body + 2));
}

/// Draining delivers whole frames of what is held, and keeps an end of it.
proof fn lemma_drained_frames(st: Stream)
    requires
        st.buf.len() > 0 ==> st.buf[0] == MAGIC,
    ensures
        ({
            let after = drained(st);
            &&& after.buf.len() <= st.buf.len()
            &&& after.buf == st.buf.skip(st.buf.len() - after.buf.len())
            &&& after.frames.len() >= st.frames.len()
            &&& after.frames.take(st.frames.len() as int) == st.frames
            &&& forall|k: int|
                st.frames.len() <= k < after.frames.len() ==> came_whole(
                    st.buf,
                    #[trigger] after.frames[k],
                )
        }),
    decreases st.buf.len(),
{
    let buf = st.buf;
    let after = drained(st);
    if waiting(buf) {
        assert(buf.skip(0) =~= buf);
        assert(st.frames.take(st.frames.len() as int) =~= st.frames);
    } else {
        let body = HEADER_LEN + payload_len_at(buf);
        let bad = bad_header(buf) || !good_crc(buf);
        let cut = if bad { 1 } else { body + 2 };
        let rest = buf.skip(cut);
        lemma_from_magic(rest);
        lemma_from_magic_is_an_end(rest);
        assert(buf.drop_first() =~= buf.skip(1));
        let next = if bad {
            Stream { buf: from_magic(rest), bad: one_more(st.bad), ..st }
        } else {
            Stream {
                frames: st.frames.push(
                    Packet {
                        header: header_at(buf),
                        payload: buf.subrange(HEADER_LEN as int, body),
                    },
                ),
                buf: from_magic(rest),
                ..st
            }
        };
        assert(after == drained(next));
        lemma_drained_frames(next);
        let from = buf.len() - next.buf.len();
        assert(buf.skip(from) =~= next.buf);
        assert(buf.skip(buf.len() - after.buf.len()) =~= next.buf.skip(
            next.buf.len() - after.buf.len(),
        ));
        assert(after.frames.take(st.frames.len() as int) =~= after.frames.take(
            next.frames.len() as int,
        ).take(st.frames.len() as int));
        assert(next.frames.take(st.frames.len() as int) =~= st.frames);
        assert forall|k: int| st.frames.len() <= k < after.frames.len() implies came_whole(
            buf,
            #[trigger] after.frames[k],
        ) by {
            if k < next.frames.len() {
                lemma_taken_frame(buf);
                assert(after.frames[k] == after.frames.take(next.frames.len() as int)[k]);
                let whole = frame_bytes(after.frames[k].header, after.frames[k].payload);
                assert(buf.subrange(0, 0 + whole.len() as int) =~= buf.take(body + 2));
            } else {
                let frame = after.frames[k];
                lemma_stands_in_rest(buf, from, frame_bytes(frame.header, frame.payload));
            }
        }
    }
}

/// A decoder delivers only whole frames that came over the link: each begins with
/// the magic byte and the version, says a length that is not too long, and carries
/// the CRC of its bytes; and it never takes back a frame it delivered.
pub proof fn lemma_only_whole_frames(st: Stream, bytes: Seq<u8>)
    requires
        settled(st.buf),
    ensures
        ({
            let after = fed(st, bytes);
            &&& after.frames.len() >= st.frames.len()
            &&& after.frames.take(st.frames.len() as int) == st.frames
            &&& forall|k: int|
                st.frames.len() <= k < after.frames.len() ==> came_whole(
                    st.buf + bytes,
                    #[trigger] after.frames[k],
                )
            &&& after.buf.len() <= st.buf.len() + bytes.len()
            &&& after.buf == (st.buf + bytes).skip(
                st.buf.len() + bytes.len() - after.buf.len(),
            )
        }),
    decreases bytes.len(),
{
    let all = st.buf + bytes;
    let after = fed(st, bytes);
    if bytes.len() == 0 {
        assert(st.frames.take(st.frames.len() as int) =~= st.frames);
        assert(all.skip(0) =~= st.buf);
    } else {
        let head = bytes.drop_last();
        let before = fed(st, head);
        lemma_only_whole_frames(st, head);
        lemma_fed_settles(st, head);
        let had = st.buf + head;
        assert(all =~= had + seq![bytes.last()]);
        let held = before.buf.push(bytes.last());
        let from = all.len() - held.len();
        assert(all.skip(from) =~= held);
        if before.buf.len() == 0 && bytes.last() != MAGIC {
            assert(all.skip(all.len() as int) =~= after.buf);
        } else {
            let got = Stream { buf: held, ..before };
            lemma_drained_frames(got);
            assert(all.skip(all.len() - after.buf.len()) =~= held.skip(
                held.len() - after.buf.len(),
            ));
            assert(after.frames.take(st.frames.len() as int) =~= after.frames.take(
                before.frames.len() as int,
            ).take(st.frames.len() as int));
        }
        assert forall|k: int| st.frames.len() <= k < after.frames.len() implies came_whole(
            all,
            #[trigger] after.frames[k],
        ) by {
            let frame = after.frames[k];
            let whole = frame_bytes(frame.header, frame.payload);
            if k < before.frames.len() {
                assert(after.frames.take(before.frames.len() as int)[k] == before.frames[k]);
                assert(came_whole(had, before.frames[k]));
                lemma_stands_in_more(had, seq![bytes.last()], whole);
            } else {
                assert(came_whole(held, frame));
                lemma_stands_in_rest(all, from, whole);
            }
        }
    }
}

/// The packets that a list of decoded frames stands for.
pub open spec fn packets(list: Seq<(Header, Vec<u8>)>) -> Seq<Packet> {
    Seq::new(list.len(), |i: int| Packet { header: list[i].0, payload: list[i].1@ })
}

/// Reassembles frames from a byte stream, resynchronising on the magic byte
/// after noise, a bad length or a bad CRC.
#[derive(Debug)]
pub struct Decoder {
    buf: Vec<u8>,
    bad: u32,
}

impl Default for Decoder {
    fn default() -> (r: Self)
        ensures
            r.held() == Seq::<u8>::empty(),
            r.spec_bad_frames() == 0,
    {
        Self::new()
    }
}

impl Decoder {
    #[verifier::type_invariant]
    spec fn well_formed(self) -> bool {
        settled(self.buf@) && self.buf@.len() < MAX_FRAME
    }

    /// The bytes received of a frame that is not complete.
    pub closed spec fn held(self) -> Seq<u8> {
        self.buf@
    }

    pub closed spec fn spec_bad_frames(self) -> u32 {
        self.bad
    }

    /// The decoder as a stream that has delivered `frames`.
    pub open spec fn stream(self, frames: Seq<Packet>) -> Stream {
        Stream { frames, buf: self.held(), bad: self.spec_bad_frames() }
    }

    pub fn new() -> (r: Self)
        ensures
            r.held() == Seq::<u8>::empty(),
            r.spec_bad_frames() == 0,
    {
        Decoder { buf: Vec::new(), bad: 0 }
    }

    /// Frames dropped for a bad length, version or CRC.
    pub fn bad_frames(&self) -> (r: u32)
        ensures
            r == self.spec_bad_frames(),
    {
        self.bad
    }

    /// Feed received bytes; returns each complete, valid frame in order.
    pub fn feed(&mut self, bytes: &[u8]) -> (r: Vec<(Header, Vec<u8>)>)
        ensures
            final(self).stream(packets(r@)) == fed(old(self).stream(Seq::empty()), bytes@),
    {
        let mut frames: Vec<(Header, Vec<u8>)> = Vec::new();
        let ghost start = self.stream(Seq::empty());
        let mut i: usize = 0;
        assert(packets(frames@) =~= Seq::empty());
        assert(bytes@.take(0) =~= Seq::<u8>::empty());
        while i < bytes.len()
            invariant
                i <= bytes@.len(),
                self.stream(packets(frames@)) == fed(start, bytes@.take(i as int)),
            decreases bytes@.len() - i,
        {
            let byte: u8 = bytes[i];
            i = i + 1;
            proof {
                assert(bytes@.take(i as int).drop_last() =~= bytes@.take(i - 1));
                assert(bytes@.take(i as int).last() == byte);
            }
            if self.buf.len() == 0 && byte != MAGIC {
                continue;
            }
            self.take_byte(byte, &mut frames);
        }
        assert(bytes@.take(bytes@.len() as int) =~= bytes@);
        frames
    }

    /// Appends one byte and takes off what it completes.
    fn take_byte(&mut self, byte: u8, frames: &mut Vec<(Header, Vec<u8>)>)
        requires
            old(self).held().len() > 0 || byte == MAGIC,
        ensures
            final(self).stream(packets(final(frames)@)) == received(
                old(self).stream(packets(old(frames)@)),
                byte,
            ),
    {
        proof {
            use_type_invariant(&*self);
        }
        let mut buf: Vec<u8> = Vec::new();
        std::mem::swap(&mut buf, &mut self.buf);
        buf.push(byte);
        let bad: u32 = parse(&mut buf, self.bad, frames);
        proof {
            lemma_drained_settles(
                Stream {
                    frames: packets(old(frames)@),
                    buf: old(self).buf@.push(byte),
                    bad: old(self).bad,
                },
            );
        }
        self.buf = buf;
        self.bad = bad;
    }
}

/// Takes every complete frame off the front of `buf`; returns the count of bad
/// frames.
fn parse(buf: &mut Vec<u8>, count: u32, frames: &mut Vec<(Header, Vec<u8>)>) -> (r: u32)
    ensures
        (Stream { frames: packets(final(frames)@), buf: final(buf)@, bad: r }) == drained(
            Stream { frames: packets(old(frames)@), buf: old(buf)@, bad: count },
        ),
{
    let ghost start = Stream { frames: packets(frames@), buf: buf@, bad: count };
    let mut bad: u32 = count;
    loop
        invariant
            start == (Stream { frames: packets(old(frames)@), buf: old(buf)@, bad: count }),
            drained(Stream { frames: packets(frames@), buf: buf@, bad }) == drained(start),
        decreases buf@.len(),
    {
        if buf.len() < HEADER_LEN {
            return bad;
        }
        let payload_len: usize = get_u16(buf.as_slice(), 6) as usize;
        if buf[1] != VERSION || payload_len > MAX_PAYLOAD {
            bad = bad.wrapping_add(1);
            skip(buf);
            continue;
        }
        let body: usize = HEADER_LEN + payload_len;
        let total: usize = body + 2;
        if buf.len() < total {
            return bad;
        }
        let crc: u16 = get_u16(buf.as_slice(), body);
        let covered: Vec<u8> = copy_range(buf.as_slice(), 0, body);
        if crc != crc16(covered.as_slice()) {
            bad = bad.wrapping_add(1);
            skip(buf);
            continue;
        }
        let header = Header { cmd: buf[2], flags: buf[3], seq: get_u16(buf.as_slice(), 4) };
        let payload: Vec<u8> = copy_range(buf.as_slice(), HEADER_LEN, body);
        let ghost before = packets(frames@);
        let ghost packet = Packet { header, payload: payload@ };
        frames.push((header, payload));
        assert(packets(frames@) =~= before.push(packet));
        drop_front(buf, total);
        skip_to_magic(buf);
    }
}

/// Removes the first `n` bytes.
fn drop_front(buf: &mut Vec<u8>, n: usize)
    requires
        n <= old(buf)@.len(),
    ensures
        final(buf)@ == old(buf)@.skip(n as int),
{
    let rest: Vec<u8> = copy_range(buf.as_slice(), n, buf.len());
    assert(rest@ =~= buf@.skip(n as int));
    *buf = rest;
}

/// Drops the leading byte and looks for the next magic byte.
fn skip(buf: &mut Vec<u8>)
    requires
        old(buf)@.len() > 0,
    ensures
        final(buf)@ == from_magic(old(buf)@.drop_first()),
        final(buf)@.len() < old(buf)@.len(),
{
    drop_front(buf, 1);
    assert(buf@ =~= old(buf)@.drop_first());
    skip_to_magic(buf);
}

/// Drops what stands before the first magic byte.
fn skip_to_magic(buf: &mut Vec<u8>)
    ensures
        final(buf)@ == from_magic(old(buf)@),
        final(buf)@.len() <= old(buf)@.len(),
{
    let mut start: usize = 0;
    assert(buf@.skip(0) =~= buf@);
    while start < buf.len() && buf[start] != MAGIC
        invariant
            start <= buf@.len(),
            from_magic(buf@.skip(start as int)) == from_magic(buf@),
        decreases buf@.len() - start,
    {
        assert(buf@.skip(start as int).drop_first() =~= buf@.skip(start + 1));
        start = start + 1;
    }
    drop_front(buf, start);
}

/// Reads a payload front to back; every read fails once it runs out.
#[derive(Debug)]
pub struct Reader<'a> {
    bytes: &'a [u8],
}

impl<'a> Reader<'a> {
    /// The bytes not read yet.
    pub closed spec fn rest(self) -> Seq<u8> {
        self.bytes@
    }

    /// What taking `n` bytes does: it shortens the rest by them, or fails and
    /// leaves it.
    pub open spec fn took(self, next: Self, n: nat, some: bool) -> bool {
        &&& some <==> self.rest().len() >= n
        &&& some ==> next.rest() == self.rest().skip(n as int)
        &&& !some ==> next.rest() == self.rest()
    }

    pub fn new(bytes: &'a [u8]) -> (r: Self)
        ensures
            r.rest() == bytes@,
    {
        Reader { bytes }
    }

    pub fn remaining(&self) -> (r: usize)
        ensures
            r == self.rest().len(),
    {
        self.bytes.len()
    }

    fn take(&mut self, n: usize) -> (r: Option<&'a [u8]>)
        ensures
            old(self).took(*final(self), n as nat, r is Some),
            r matches Some(head) ==> head@ == old(self).rest().take(n as int),
    {
        if self.bytes.len() < n {
            return None;
        }
        let (head, rest) = self.bytes.split_at(n);
        assert(head@ =~= self.bytes@.take(n as int));
        assert(rest@ =~= self.bytes@.skip(n as int));
        self.bytes = rest;
        Some(head)
    }

    pub fn u8(&mut self) -> (r: Option<u8>)
        ensures
            old(self).took(*final(self), 1, r is Some),
            r matches Some(v) ==> v == old(self).rest()[0],
    {
        match self.take(1) {
            Some(head) => Some(head[0]),
            None => None,
        }
    }

    pub fn u16(&mut self) -> (r: Option<u16>)
        ensures
            old(self).took(*final(self), 2, r is Some),
            r matches Some(v) ==> v == u16_at(old(self).rest(), 0),
    {
        match self.take(2) {
            Some(head) => Some(get_u16(head, 0)),
            None => None,
        }
    }

    pub fn u32(&mut self) -> (r: Option<u32>)
        ensures
            old(self).took(*final(self), 4, r is Some),
            r matches Some(v) ==> v == u32_at(old(self).rest(), 0),
    {
        match self.take(4) {
            Some(head) => Some(get_u32(head, 0)),
            None => None,
        }
    }

    /// An 8-byte value slot: type tag u8, three reserved bytes, bits u32.
    pub fn slot(&mut self) -> (r: Option<(u8, u32)>)
        ensures
            old(self).took(*final(self), 8, r is Some),
            r matches Some(v) ==> v.0 == old(self).rest()[0] && v.1 == u32_at(old(self).rest(), 4),
    {
        match self.take(8) {
            Some(head) => Some((head[0], get_u32(head, 4))),
            None => None,
        }
    }
}

} // verus!
