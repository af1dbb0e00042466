//! The firmware end of a framed link: answers requests against a [`Table`]
//! and produces sample frames for one subscription.
//!
//! It owns no transport and reads no clock. The caller feeds it decoded
//! frames with the time and whether the robot is safe, and sends what it
//! returns. One server serves one link; several may serve one table.

use vstd::prelude::*;
#[allow(unused_imports)]
use vstd::string::*;
#[allow(unused_imports)]
use vstd::utf8::*;
#[allow(unused_imports)]
use crate::bytes::{group_le_len, le16, le32, le64, u16_at, u32_at};
use crate::cmd;
use crate::float_bits::in_range;
#[allow(unused_imports)]
use crate::float_bits::f32_in_range;
use crate::table::{Access, Entry, Kind, Table, TABLE_VERSION};
#[allow(unused_imports)]
use crate::table::{descriptors, fnv_of, lemma_position_is, position_of, EntryView};
use crate::wire::{Header, Overflow, Reader, Status, Writer, MAX_FRAME, MAX_PAYLOAD, REPLY, VERSION};
#[allow(unused_imports)]
use crate::wire::{fed, frame_bytes, lemma_frame_round_trip, Packet, Stream};

verus! {

broadcast use group_le_len;

/// A lease not renewed for this long lapses, and writes need it taken again.
pub const LEASE_MS: u16 = 3000;

pub const MAX_WATCHES: usize = 32;

/// Sample frame bytes per second one subscription may cost.
pub const SAMPLE_BUDGET_BYTES_PER_S: u32 = 64_000;

/// The longest sampling period, in microseconds.
pub const MAX_PERIOD_US: u64 = 65_535_000;

/// Per-request facts the server cannot know itself.
#[derive(Copy, Clone, Debug)]
pub struct Context {
    pub now_us: u64,
    /// The robot is in a state where `SafeOnly` values may change.
    pub safe: bool,
    /// Frames the link's decoder has dropped, reported by `STATS`.
    pub bad_frames: u32,
}

/// A server's state.
#[verifier::ext_equal]
pub struct ServerView {
    pub save_supported: bool,
    /// Token and expiry time.
    pub lease: Option<(u32, u64)>,
    /// Table positions of the watched entries, in subscription order.
    pub watches: Seq<u16>,
    pub period_us: u64,
    pub next_sample_us: u64,
    pub sample_seq: u16,
    pub sent: u32,
    pub dropped: u32,
    /// Sequence number of the SAVE waiting on storage.
    pub save: Option<u16>,
}

impl ServerView {
    /// Whether `token` holds a lease that has not lapsed.
    pub open spec fn leased(self, token: u32, now_us: u64) -> bool {
        self.lease matches Some((held, until)) && held == token && until > now_us
    }

    /// Whether a token other than `token` holds a lease that has not lapsed.
    pub open spec fn leased_by_other(self, token: u32, now_us: u64) -> bool {
        self.lease matches Some((held, until)) && held != token && until > now_us
    }

    /// Whether every watched position is one of a table of `len` entries.
    pub open spec fn serves(self, len: nat) -> bool {
        forall|i: int| 0 <= i < self.watches.len() ==> (#[trigger] self.watches[i]) < len
    }
}

/// What a request leads to: the state after it, the table after it, and the
/// reply's payload behind its status byte or the status that refuses it.
pub struct Outcome {
    pub server: ServerView,
    pub table: Seq<EntryView>,
    pub answer: Result<Seq<u8>, Status>,
}

/// A request refused with `status` changes nothing.
pub open spec fn refused(s: ServerView, t: Seq<EntryView>, status: Status) -> Outcome {
    Outcome { server: s, table: t, answer: Err(status) }
}

/// A request answered with `body` that changes nothing.
pub open spec fn told(s: ServerView, t: Seq<EntryView>, body: Seq<u8>) -> Outcome {
    Outcome { server: s, table: t, answer: Ok(body) }
}

pub open spec fn on_hello(s: ServerView, t: Seq<EntryView>, p: Seq<u8>) -> Outcome {
    if p.len() != 0 {
        refused(s, t, Status::BadFrame)
    } else {
        told(
            s,
            t,
            seq![VERSION] + le32(TABLE_VERSION) + le16(t.len() as u16) + le32(
                fnv_of(descriptors(t)),
            ) + le16(MAX_PAYLOAD as u16) + le16(LEASE_MS),
        )
    }
}

pub open spec fn on_lease(s: ServerView, t: Seq<EntryView>, ctx: Context, p: Seq<u8>) -> Outcome {
    let token = u32_at(p, 0);
    if p.len() != 4 {
        refused(s, t, Status::BadFrame)
    } else if s.leased_by_other(token, ctx.now_us) {
        refused(s, t, Status::Busy)
    } else {
        Outcome {
            server: ServerView {
                lease: Some((token, (ctx.now_us + LEASE_MS * 1000) as u64)),
                ..s
            },
            table: t,
            answer: Ok(Seq::empty()),
        }
    }
}

pub open spec fn on_release(s: ServerView, t: Seq<EntryView>, p: Seq<u8>) -> Outcome {
    if p.len() != 4 {
        refused(s, t, Status::BadFrame)
    } else if s.lease matches Some((held, _)) && held == u32_at(p, 0) {
        Outcome { server: ServerView { lease: None, ..s }, table: t, answer: Ok(Seq::empty()) }
    } else {
        told(s, t, Seq::empty())
    }
}

/// One entry of a catalog page.
pub open spec fn catalog_item(e: EntryView) -> Seq<u8> {
    le32(e.id) + seq![e.kind.spec_tag(), e.access.spec_tag()] + le32(e.default) + le32(e.min)
        + le32(e.max) + le32(e.max_step) + seq![encode_utf8(e.name).len() as u8] + encode_utf8(
        e.name,
    ) + seq![encode_utf8(e.unit).len() as u8] + encode_utf8(e.unit)
}

/// The first `n` catalog items from `from` on.
pub open spec fn catalog_items(t: Seq<EntryView>, from: int, n: nat) -> Seq<u8>
    decreases n,
{
    if n == 0 {
        Seq::empty()
    } else {
        catalog_items(t, from, (n - 1) as nat) + catalog_item(t[from + n - 1])
    }
}

/// Bytes of a page before its items: status, total and count.
pub const PAGE_HEAD: usize = 4;

/// Whether `n` entries from `from` on exist and fit one frame.
pub open spec fn page_fits(t: Seq<EntryView>, from: int, n: nat) -> bool {
    &&& from + n <= t.len()
    &&& PAGE_HEAD + catalog_items(t, from, n).len() <= MAX_PAYLOAD
}

/// How many entries a page from `from` on holds: as many as there are and fit,
/// at most `limit`.
pub open spec fn page_count(t: Seq<EntryView>, from: int, limit: nat) -> nat
    decreases limit,
{
    if limit == 0 {
        0
    } else {
        let before = page_count(t, from, (limit - 1) as nat);
        if before == limit - 1 && page_fits(t, from, limit) {
            limit
        } else {
            before
        }
    }
}

pub open spec fn on_catalog(s: ServerView, t: Seq<EntryView>, p: Seq<u8>) -> Outcome {
    if p.len() != 3 {
        refused(s, t, Status::BadFrame)
    } else {
        let from = u16_at(p, 0) as int;
        let n = page_count(t, from, p[2] as nat);
        told(s, t, le16(t.len() as u16) + seq![n as u8] + catalog_items(t, from, n))
    }
}

/// Answers to the first `n` ids of a READ: each entry's id and cells, refused
/// at the first id that is unknown or whose answer no longer fits the frame.
pub open spec fn read_items(t: Seq<EntryView>, p: Seq<u8>, n: nat) -> Result<Seq<u8>, Status>
    decreases n,
{
    if n == 0 {
        Ok(Seq::empty())
    } else {
        match read_items(t, p, (n - 1) as nat) {
            Err(status) => Err(status),
            Ok(before) => {
                let id = u32_at(p, 4 * n - 3);
                match position_of(t, id) {
                    None => Err(Status::UnknownId),
                    Some(at) => if 2 + 12 * n > MAX_PAYLOAD {
                        Err(Status::BadFrame)
                    } else {
                        let e = t[at as int];
                        Ok(before + (le32(id) + le32(e.requested) + le32(e.applied)))
                    },
                }
            },
        }
    }
}

pub open spec fn on_read(s: ServerView, t: Seq<EntryView>, p: Seq<u8>) -> Outcome {
    if p.len() < 1 || p.len() - 1 != p[0] * 4 {
        refused(s, t, Status::BadFrame)
    } else {
        match read_items(t, p, p[0] as nat) {
            Err(status) => refused(s, t, status),
            Ok(items) => told(s, t, seq![p[0]] + items),
        }
    }
}

/// Why an access class refuses a write, if it does.
pub open spec fn access_refusal(access: Access, safe: bool) -> Option<Status> {
    match access {
        Access::ReadOnly => Some(Status::ReadOnly),
        Access::SafeOnly => if safe {
            None
        } else {
            Some(Status::StateDenied)
        },
        Access::Live => None,
    }
}

/// Why an entry refuses a write of `bits` tagged `tag`, if it does.
pub open spec fn write_refusal(e: EntryView, safe: bool, tag: u8, bits: u32) -> Option<Status> {
    if access_refusal(e.access, safe) is Some {
        access_refusal(e.access, safe)
    } else if tag != e.kind.spec_tag() {
        Some(Status::WrongKind)
    } else if e.kind == Kind::F32 && !f32_in_range(bits, e.min, e.max) {
        Some(Status::Range)
    } else {
        None
    }
}

pub open spec fn on_write(s: ServerView, t: Seq<EntryView>, ctx: Context, p: Seq<u8>) -> Outcome {
    let id = u32_at(p, 4);
    let bits = u32_at(p, 12);
    if p.len() != 16 {
        refused(s, t, Status::BadFrame)
    } else if !s.leased(u32_at(p, 0), ctx.now_us) {
        refused(s, t, Status::SessionRequired)
    } else {
        match position_of(t, id) {
            None => refused(s, t, Status::UnknownId),
            Some(at) => match write_refusal(t[at as int], ctx.safe, p[8], bits) {
                Some(status) => refused(s, t, status),
                None => Outcome {
                    server: s,
                    table: t.update(at as int, t[at as int].requesting(bits)),
                    answer: Ok(le32(id) + le32(bits)),
                },
            },
        }
    }
}

/// The entry with its request back at its default, if it takes requests.
pub open spec fn discarded(e: EntryView) -> EntryView {
    if e.tunable() {
        e.requesting(e.default)
    } else {
        e
    }
}

/// How many entries take requests.
pub open spec fn tunables(t: Seq<EntryView>) -> nat
    decreases t.len(),
{
    if t.len() == 0 {
        0
    } else if t.last().tunable() {
        tunables(t.drop_last()) + 1
    } else {
        tunables(t.drop_last())
    }
}

/// Whether some entry may change only while the robot is safe.
pub open spec fn has_safe_only(t: Seq<EntryView>) -> bool {
    exists|i: int| 0 <= i < t.len() && (#[trigger] t[i]).access == Access::SafeOnly
}

pub open spec fn on_discard(s: ServerView, t: Seq<EntryView>, ctx: Context, p: Seq<u8>) -> Outcome {
    if p.len() != 4 {
        refused(s, t, Status::BadFrame)
    } else if !s.leased(u32_at(p, 0), ctx.now_us) {
        refused(s, t, Status::SessionRequired)
    } else if !ctx.safe && has_safe_only(t) {
        refused(s, t, Status::StateDenied)
    } else {
        Outcome {
            server: s,
            table: Seq::new(t.len(), |i: int| discarded(t[i])),
            answer: Ok(le16(tunables(t) as u16)),
        }
    }
}

/// The id at place `i` of a WATCH.
pub open spec fn watch_id(p: Seq<u8>, i: int) -> u32 {
    u32_at(p, 3 + 4 * i)
}

/// Whether a subscription of `count` values every `period_ms` costs too many
/// bytes per second.
pub open spec fn over_budget(count: int, period_ms: u16) -> bool {
    (MAX_FRAME - MAX_PAYLOAD + 9 + 4 * count) * 1000 / (period_ms as int)
        > SAMPLE_BUDGET_BYTES_PER_S
}

pub open spec fn on_watch(s: ServerView, t: Seq<EntryView>, ctx: Context, p: Seq<u8>) -> Outcome {
    let period_ms = u16_at(p, 0);
    if p.len() < 3 || p[2] > MAX_WATCHES || p.len() - 3 != p[2] * 4 {
        refused(s, t, Status::BadFrame)
    } else {
        let count = p[2] as nat;
        if exists|i: int| 0 <= i < count && position_of(t, #[trigger] watch_id(p, i)) is None {
            refused(s, t, Status::UnknownId)
        } else if period_ms == 0 || count == 0 {
            Outcome {
                server: ServerView { watches: Seq::empty(), ..s },
                table: t,
                answer: Ok(seq![0u8]),
            }
        } else if over_budget(count as int, period_ms) {
            refused(s, t, Status::Budget)
        } else {
            Outcome {
                server: ServerView {
                    watches: Seq::new(count, |i: int| position_of(t, watch_id(p, i))->0 as u16),
                    period_us: (period_ms * 1000) as u64,
                    next_sample_us: ctx.now_us,
                    ..s
                },
                table: t,
                answer: Ok(seq![p[2]]),
            }
        }
    }
}

pub open spec fn on_stats(s: ServerView, t: Seq<EntryView>, ctx: Context, p: Seq<u8>) -> Outcome {
    if p.len() != 0 {
        refused(s, t, Status::BadFrame)
    } else {
        told(s, t, le32(s.sent) + le32(s.dropped) + le32(ctx.bad_frames))
    }
}

/// What a request other than SAVE leads to.
pub open spec fn answered(
    s: ServerView,
    t: Seq<EntryView>,
    ctx: Context,
    code: u8,
    p: Seq<u8>,
) -> Outcome {
    if code == cmd::HELLO {
        on_hello(s, t, p)
    } else if code == cmd::LEASE {
        on_lease(s, t, ctx, p)
    } else if code == cmd::RELEASE {
        on_release(s, t, p)
    } else if code == cmd::CATALOG {
        on_catalog(s, t, p)
    } else if code == cmd::READ {
        on_read(s, t, p)
    } else if code == cmd::WRITE {
        on_write(s, t, ctx, p)
    } else if code == cmd::DISCARD {
        on_discard(s, t, ctx, p)
    } else if code == cmd::WATCH {
        on_watch(s, t, ctx, p)
    } else if code == cmd::STATS {
        on_stats(s, t, ctx, p)
    } else {
        refused(s, t, Status::UnknownCommand)
    }
}

/// What a SAVE leads to; accepted, it has no answer yet.
pub open spec fn save_begun(s: ServerView, ctx: Context, seq: u16, p: Seq<u8>) -> (
    ServerView,
    Result<(), Status>,
) {
    if p.len() != 4 {
        (s, Err(Status::BadFrame))
    } else if !s.leased(u32_at(p, 0), ctx.now_us) {
        (s, Err(Status::SessionRequired))
    } else if !s.save_supported {
        (s, Err(Status::SaveUnsupported))
    } else if s.save is Some {
        (s, Err(Status::Busy))
    } else {
        (ServerView { save: Some(seq), ..s }, Ok(()))
    }
}

/// The header of the reply to a request.
pub open spec fn reply_header(header: Header) -> Header {
    Header { cmd: header.cmd | REPLY, flags: 0, seq: header.seq }
}

/// The frame that answers a request.
pub open spec fn reply_frame(reply: Header, answer: Result<Seq<u8>, Status>) -> Seq<u8> {
    match answer {
        Ok(body) => frame_bytes(reply, seq![Status::Okay.spec_code()] + body),
        Err(status) => frame_bytes(reply, seq![status.spec_code()]),
    }
}

/// Everything a request leads to: the state, the table and the bytes to send.
pub open spec fn handled(
    s: ServerView,
    t: Seq<EntryView>,
    ctx: Context,
    header: Header,
    p: Seq<u8>,
) -> (ServerView, Seq<EntryView>, Seq<u8>) {
    if header.cmd == cmd::SAVE {
        match save_begun(s, ctx, header.seq, p) {
            (next, Ok(())) => (next, t, Seq::empty()),
            (next, Err(status)) => (next, t, reply_frame(reply_header(header), Err(status))),
        }
    } else {
        let o = answered(s, t, ctx, header.cmd, p);
        (o.server, o.table, reply_frame(reply_header(header), o.answer))
    }
}

/// The applied values at these table positions.
pub open spec fn applied_values(t: Seq<EntryView>, watches: Seq<u16>) -> Seq<u8>
    decreases watches.len(),
{
    if watches.len() == 0 {
        Seq::empty()
    } else {
        applied_values(t, watches.drop_last()) + le32(t[watches.last() as int].applied)
    }
}

/// Whether a sample frame is due.
pub open spec fn sample_due(s: ServerView, now_us: u64) -> bool {
    s.watches.len() > 0 && now_us >= s.next_sample_us
}

/// How many periods have passed since the sample that is due.
pub open spec fn periods_late(s: ServerView, now_us: u64) -> int {
    (now_us - s.next_sample_us) / (s.period_us as int)
}

/// The state after a sample frame.
pub open spec fn sampled(s: ServerView, now_us: u64) -> ServerView {
    let late = periods_late(s, now_us);
    ServerView {
        next_sample_us: (s.next_sample_us + (late + 1) * s.period_us) as u64,
        dropped: s.dropped.saturating_add(late as u32),
        sample_seq: s.sample_seq.wrapping_add(1),
        sent: s.sent.saturating_add(1),
        ..s
    }
}

/// A sample frame.
pub open spec fn sample_frame(s: ServerView, t: Seq<EntryView>, now_us: u64) -> Seq<u8> {
    frame_bytes(
        Header { cmd: cmd::SAMPLE, flags: 0, seq: s.sample_seq },
        le64(now_us) + seq![s.watches.len() as u8] + applied_values(t, s.watches),
    )
}

/// A page holds no more than its limit, and what it holds fits.
pub proof fn lemma_page_count(t: Seq<EntryView>, from: int, limit: nat)
    ensures
        page_count(t, from, limit) <= limit,
        page_count(t, from, limit) > 0 ==> page_fits(t, from, page_count(t, from, limit)),
        page_count(t, from, limit) < limit ==> !page_fits(
            t,
            from,
            page_count(t, from, limit) + 1,
        ),
    decreases limit,
{
    if limit > 0 {
        lemma_page_count(t, from, (limit - 1) as nat);
    }
}

/// A page that is full stays as it is under a greater limit.
proof fn lemma_page_full(t: Seq<EntryView>, from: int, n: nat, limit: nat)
    requires
        n <= limit,
        page_count(t, from, n) == n,
        n < limit ==> !page_fits(t, from, n + 1),
    ensures
        page_count(t, from, limit) == n,
    decreases limit,
{
    if n < limit {
        lemma_page_full(t, from, n, (limit - 1) as nat);
    }
}

/// A table has at least as many tunables as its beginning.
proof fn lemma_tunables_grow(t: Seq<EntryView>, n: int)
    requires
        0 <= n <= t.len(),
    ensures
        tunables(t.take(n)) <= tunables(t),
    decreases t.len(),
{
    if n < t.len() {
        assert(t.drop_last().take(n) =~= t.take(n));
        lemma_tunables_grow(t.drop_last(), n);
    } else {
        assert(t.take(n) =~= t);
    }
}

/// A READ refused at one id stays refused.
proof fn lemma_read_refused(t: Seq<EntryView>, p: Seq<u8>, n: nat, m: nat)
    requires
        read_items(t, p, n) is Err,
        n <= m,
    ensures
        read_items(t, p, m) == read_items(t, p, n),
    decreases m - n,
{
    if n < m {
        lemma_read_refused(t, p, n, (m - 1) as nat);
    }
}

/// An answered READ is as long as its ids make it, and fits a frame.
proof fn lemma_read_len(t: Seq<EntryView>, p: Seq<u8>, n: nat)
    ensures
        read_items(t, p, n) matches Ok(items) ==> items.len() == 12 * n && (n > 0 ==> 2 + 12 * n
            <= MAX_PAYLOAD),
    decreases n,
{
    if n > 0 {
        lemma_read_len(t, p, (n - 1) as nat);
    }
}

#[derive(Debug)]
pub struct Server {
    save_supported: bool,
    lease: Option<(u32, u64)>,
    watches: Vec<u16>,
    period_us: u64,
    next_sample_us: u64,
    sample_seq: u16,
    sent: u32,
    dropped: u32,
    save: Option<u16>,
}

impl View for Server {
    type V = ServerView;

    closed spec fn view(&self) -> ServerView {
        ServerView {
            save_supported: self.save_supported,
            lease: self.lease,
            watches: self.watches@,
            period_us: self.period_us,
            next_sample_us: self.next_sample_us,
            sample_seq: self.sample_seq,
            sent: self.sent,
            dropped: self.dropped,
            save: self.save,
        }
    }
}

/// A frame that holds only a status.
fn status_reply(reply: Header, status: Status) -> (r: Vec<u8>)
    ensures
        r@ == frame_bytes(reply, seq![status.spec_code()]),
        r@.len() <= MAX_FRAME,
{
    match Writer::new(MAX_FRAME, reply) {
        Ok(mut w) => {
            let _ = w.u8(status.code());
            assert(w.spec_payload() =~= seq![status.spec_code()]);
            w.finish()
        },
        Err(_) => Vec::new(),
    }
}

/// Whether a payload has been read to its end.
fn done(r: &Reader<'_>) -> (ok: Result<(), Status>)
    ensures
        ok == (if r.rest().len() == 0 {
            Ok(())
        } else {
            Err(Status::BadFrame)
        }),
{
    if r.remaining() == 0 {
        Ok(())
    } else {
        Err(Status::BadFrame)
    }
}

/// The token that is a payload's whole content.
fn token(payload: &[u8]) -> (r: Result<u32, Status>)
    ensures
        r == (if payload@.len() == 4 {
            Ok(u32_at(payload@, 0))
        } else {
            Err(Status::BadFrame)
        }),
{
    let mut r = Reader::new(payload);
    match r.u32() {
        None => Err(Status::BadFrame),
        Some(token) => match done(&r) {
            Err(status) => Err(status),
            Ok(()) => Ok(token),
        },
    }
}

/// Why an access class refuses a write, if it does.
fn check_access(access: Access, safe: bool) -> (r: Result<(), Status>)
    ensures
        r == (match access_refusal(access, safe) {
            Some(status) => Err(status),
            None => Ok(()),
        }),
{
    match access {
        Access::ReadOnly => Err(Status::ReadOnly),
        Access::SafeOnly => if safe {
            Ok(())
        } else {
            Err(Status::StateDenied)
        },
        Access::Live => Ok(()),
    }
}

/// Whether a body was appended to a writer that held the status byte.
spec fn written(before: Writer, after: Writer, r: Result<(), Status>, o: Outcome) -> bool {
    match o.answer {
        Ok(body) => r is Ok && after.spec_payload() == before.spec_payload() + body
            && after.spec_header() == before.spec_header() && after.spec_room()
            == before.spec_room(),
        Err(status) => r == Err::<(), Status>(status),
    }
}

/// Writes one entry of a catalog page.
fn write_item(e: &Entry, w: &mut Writer)
    requires
        old(w).spec_fits(catalog_item(e@).len()),
    ensures
        final(w).spec_payload() == old(w).spec_payload() + catalog_item(e@),
        final(w).spec_header() == old(w).spec_header(),
        final(w).spec_room() == old(w).spec_room(),
{
    let name: &[u8] = e.name().as_bytes();
    let unit: &[u8] = e.unit().as_bytes();
    let (min, max, step) = e.range();
    let _ = w.u32(e.id());
    let _ = w.u8(e.kind().tag());
    let _ = w.u8(e.access().tag());
    let _ = w.u32(e.default_bits());
    let _ = w.u32(min);
    let _ = w.u32(max);
    let _ = w.u32(step);
    let _ = w.u8(name.len() as u8);
    let _ = w.bytes(name);
    let _ = w.u8(unit.len() as u8);
    let _ = w.bytes(unit);
    assert(w.spec_payload() =~= old(w).spec_payload() + catalog_item(e@));
}

/// Whether a writer holds a status byte and nothing else, with a frame's room.
spec fn fresh(w: Writer) -> bool {
    w.spec_payload().len() == 1 && w.spec_room() == MAX_FRAME
}

impl Default for Server {
    fn default() -> (r: Self)
        ensures
            r@ == initial(true),
    {
        Self::new()
    }
}

/// A server that has served nothing.
pub open spec fn initial(save_supported: bool) -> ServerView {
    ServerView {
        save_supported,
        lease: None,
        watches: Seq::empty(),
        period_us: 0,
        next_sample_us: 0,
        sample_seq: 0,
        sent: 0,
        dropped: 0,
        save: None,
    }
}

impl Server {
    #[verifier::type_invariant]
    spec fn well_formed(self) -> bool {
        &&& self.watches@.len() <= MAX_WATCHES
        &&& self.watches@.len() > 0 ==> 0 < self.period_us <= MAX_PERIOD_US
    }

    pub fn new() -> (r: Self)
        ensures
            r@ == initial(true),
    {
        let r = Server {
            save_supported: true,
            lease: None,
            watches: Vec::new(),
            period_us: 0,
            next_sample_us: 0,
            sample_seq: 0,
            sent: 0,
            dropped: 0,
            save: None,
        };
        assert(r@ =~= initial(true));
        r
    }

    /// Serve volatile tuning without a persistence implementation.
    /// SAVE returns `SaveUnsupported` and never becomes pending.
    pub fn without_storage() -> (r: Self)
        ensures
            r@ == initial(false),
    {
        let mut server = Self::new();
        proof {
            use_type_invariant(&server);
        }
        server.save_supported = false;
        assert(server@ =~= initial(false));
        server
    }

    /// Answer one request; returns the reply frame.
    ///
    /// An accepted SAVE has no reply yet: the caller sees [`Self::save_pending`],
    /// writes [`crate::store`] and answers with [`Self::finish_save`].
    pub fn handle(&mut self, table: &mut Table, ctx: Context, header: Header, payload: &[u8]) -> (r:
        Vec<u8>)
        requires
            old(self)@.serves(old(table)@.len()),
            header.cmd == cmd::DISCARD ==> tunables(old(table)@) <= u16::MAX,
            header.cmd == cmd::LEASE ==> ctx.now_us <= u64::MAX - LEASE_MS * 1000,
        ensures
            (final(self)@, final(table)@, r@) == handled(
                old(self)@,
                old(table)@,
                ctx,
                header,
                payload@,
            ),
            final(self)@.serves(final(table)@.len()),
            r@.len() <= MAX_FRAME,
    {
        let reply = Header { cmd: header.cmd | REPLY, flags: 0, seq: header.seq };
        if header.cmd == cmd::SAVE {
            return match self.begin_save(ctx, header.seq, payload) {
                Ok(()) => {
                    let none: Vec<u8> = Vec::new();
                    assert(none@ =~= Seq::<u8>::empty());
                    none
                },
                Err(status) => status_reply(reply, status),
            };
        }
        match Writer::new(MAX_FRAME, reply) {
            Err(Overflow) => Vec::new(),
            Ok(mut w) => {
                let _ = w.u8(Status::Okay.code());
                let ghost head = w.spec_payload();
                match self.body(table, ctx, header.cmd, payload, &mut w) {
                    Ok(()) => {
                        assert(head =~= seq![Status::Okay.spec_code()]);
                        w.finish()
                    },
                    Err(status) => status_reply(reply, status),
                }
            },
        }
    }

    fn begin_save(&mut self, ctx: Context, seq: u16, payload: &[u8]) -> (r: Result<(), Status>)
        ensures
            (final(self)@, r) == save_begun(old(self)@, ctx, seq, payload@),
    {
        proof {
            use_type_invariant(&*self);
        }
        let held: u32 = match token(payload) {
            Ok(token) => token,
            Err(status) => {
                return Err(status);
            },
        };
        if !self.leased(held, ctx.now_us) {
            return Err(Status::SessionRequired);
        }
        if !self.save_supported {
            return Err(Status::SaveUnsupported);
        }
        if self.save.is_some() {
            return Err(Status::Busy);
        }
        self.save = Some(seq);
        Ok(())
    }

    /// A SAVE is waiting for the caller to write storage.
    pub fn save_pending(&self) -> (r: bool)
        ensures
            r == (self@.save is Some),
    {
        self.save.is_some()
    }

    /// Answer the pending SAVE with the saved generation or why it failed;
    /// returns the reply, empty when none was pending.
    pub fn finish_save(&mut self, result: Result<u32, Status>) -> (r: Vec<u8>)
        ensures
            final(self)@ == (ServerView { save: None, ..old(self)@ }),
            r@ == (match old(self)@.save {
                None => Seq::<u8>::empty(),
                Some(seq) => reply_frame(
                    Header { cmd: cmd::SAVE | REPLY, flags: 0, seq },
                    match result {
                        Ok(generation) => Ok(le32(generation)),
                        Err(status) => Err(status),
                    },
                ),
            }),
    {
        proof {
            use_type_invariant(&*self);
        }
        let seq: u16 = match self.save {
            None => {
                let none: Vec<u8> = Vec::new();
                assert(none@ =~= Seq::<u8>::empty());
                return none;
            },
            Some(seq) => seq,
        };
        self.save = None;
        let reply = Header { cmd: cmd::SAVE | REPLY, flags: 0, seq };
        match result {
            Ok(generation) => match Writer::new(MAX_FRAME, reply) {
                Err(_) => Vec::new(),
                Ok(mut w) => {
                    let _ = w.u8(Status::Okay.code());
                    let _ = w.u32(generation);
                    assert(w.spec_payload() =~= seq![Status::Okay.spec_code()] + le32(generation));
                    w.finish()
                },
            },
            Err(status) => status_reply(reply, status),
        }
    }

    fn body(
        &mut self,
        table: &mut Table,
        ctx: Context,
        code: u8,
        payload: &[u8],
        w: &mut Writer,
    ) -> (r: Result<(), Status>)
        requires
            fresh(*old(w)),
            old(self)@.serves(old(table)@.len()),
            code == cmd::DISCARD ==> tunables(old(table)@) <= u16::MAX,
            code == cmd::LEASE ==> ctx.now_us <= u64::MAX - LEASE_MS * 1000,
        ensures
            final(self)@ == answered(old(self)@, old(table)@, ctx, code, payload@).server,
            final(table)@ == answered(old(self)@, old(table)@, ctx, code, payload@).table,
            written(
                *old(w),
                *final(w),
                r,
                answered(old(self)@, old(table)@, ctx, code, payload@),
            ),
            final(self)@.serves(final(table)@.len()),
    {
        let ghost start = w.spec_payload();
        assert(start + Seq::<u8>::empty() =~= start);
        if code == cmd::HELLO {
            self.hello(table, payload, w)
        } else if code == cmd::LEASE {
            self.take_lease(ctx, payload)
        } else if code == cmd::RELEASE {
            self.release(payload)
        } else if code == cmd::CATALOG {
            self.catalog(table, payload, w)
        } else if code == cmd::READ {
            self.read(table, payload, w)
        } else if code == cmd::WRITE {
            self.write(table, ctx, payload, w)
        } else if code == cmd::DISCARD {
            self.discard(table, ctx, payload, w)
        } else if code == cmd::WATCH {
            self.watch(table, ctx, payload, w)
        } else if code == cmd::STATS {
            self.stats(table, ctx, payload, w)
        } else {
            Err(Status::UnknownCommand)
        }
    }

    fn hello(&self, table: &Table, payload: &[u8], w: &mut Writer) -> (r: Result<(), Status>)
        requires
            fresh(*old(w)),
        ensures
            written(*old(w), *final(w), r, on_hello(self@, table@, payload@)),
    {
        done(&Reader::new(payload))?;
        let _ = w.u8(VERSION);
        let (_, version) = table.format();
        let known: u32 = if version < TABLE_VERSION {
            version
        } else {
            TABLE_VERSION
        };
        let _ = w.u32(known);
        let _ = w.u16(table.len() as u16);
        let _ = w.u32(table.fingerprint());
        let _ = w.u16(MAX_PAYLOAD as u16);
        let _ = w.u16(LEASE_MS);
        proof {
            assert(w.spec_payload() =~= old(w).spec_payload() + (on_hello(
                self@,
                table@,
                payload@,
            ).answer->Ok_0));
        }
        Ok(())
    }

    fn take_lease(&mut self, ctx: Context, payload: &[u8]) -> (r: Result<(), Status>)
        requires
            ctx.now_us <= u64::MAX - LEASE_MS * 1000,
        ensures
            final(self)@.watches == old(self)@.watches,
            forall|t: Seq<EntryView>|
                #![trigger on_lease(old(self)@, t, ctx, payload@)]
                on_lease(old(self)@, t, ctx, payload@) == (Outcome {
                    server: final(self)@,
                    table: t,
                    answer: match r {
                        Ok(()) => Ok(Seq::empty()),
                        Err(status) => Err(status),
                    },
                }),
    {
        proof {
            use_type_invariant(&*self);
        }
        let token: u32 = match token(payload) {
            Ok(token) => token,
            Err(status) => {
                return Err(status);
            },
        };
        if let Some((held, until)) = self.lease {
            if held != token && until > ctx.now_us {
                return Err(Status::Busy);
            }
        }
        self.lease = Some((token, ctx.now_us + LEASE_MS as u64 * 1000));
        Ok(())
    }

    fn release(&mut self, payload: &[u8]) -> (r: Result<(), Status>)
        ensures
            final(self)@.watches == old(self)@.watches,
            forall|t: Seq<EntryView>|
                #![trigger on_release(old(self)@, t, payload@)]
                on_release(old(self)@, t, payload@) == (Outcome {
                    server: final(self)@,
                    table: t,
                    answer: match r {
                        Ok(()) => Ok(Seq::empty()),
                        Err(status) => Err(status),
                    },
                }),
    {
        proof {
            use_type_invariant(&*self);
        }
        let token: u32 = match token(payload) {
            Ok(token) => token,
            Err(status) => {
                return Err(status);
            },
        };
        if let Some((held, _)) = self.lease {
            if held == token {
                self.lease = None;
            }
        }
        Ok(())
    }

    fn catalog(&self, table: &Table, payload: &[u8], w: &mut Writer) -> (r: Result<(), Status>)
        requires
            fresh(*old(w)),
        ensures
            written(*old(w), *final(w), r, on_catalog(self@, table@, payload@)),
    {
        let mut r = Reader::new(payload);
        let offset: usize = match r.u16() {
            Some(v) => v as usize,
            None => {
                return Err(Status::BadFrame);
            },
        };
        let limit: usize = match r.u8() {
            Some(v) => v as usize,
            None => {
                return Err(Status::BadFrame);
            },
        };
        done(&r)?;
        let ghost t = table@;
        let ghost p = payload@;
        let ghost start = w.spec_payload();
        let _ = w.u16(table.len() as u16);
        let count_at: usize = w.payload_len();
        let _ = w.u8(0);
        let ghost head = start + le16(t.len() as u16) + seq![0u8];
        let mut returned: usize = 0;
        assert(w.spec_payload() =~= head + catalog_items(t, offset as int, 0));
        while returned < limit && returned < table.len() && offset < table.len() - returned
            invariant_except_break
                w.spec_payload() == head + catalog_items(t, offset as int, returned as nat),
                page_count(t, offset as int, returned as nat) == returned,
            invariant
                returned <= limit <= 255,
                offset <= 65535,
                t == table@,
                head.len() == PAGE_HEAD,
                w.spec_room() == MAX_FRAME,
                w.spec_header() == old(w).spec_header(),
            ensures
                w.spec_payload() == head + catalog_items(t, offset as int, returned as nat),
                page_count(t, offset as int, returned as nat) == returned,
                returned < limit ==> !page_fits(t, offset as int, (returned + 1) as nat),
            decreases limit - returned,
        {
            let e: &Entry = table.entry(offset + returned);
            let size: usize = 24 + e.name().len() + e.unit().len();
            let ghost item = catalog_item(t[offset + returned]);
            let ghost items = catalog_items(t, offset as int, returned as nat);
            assert(catalog_items(t, offset as int, (returned + 1) as nat) == items + item);
            if !w.fits(size) {
                break;
            }
            write_item(e, w);
            assert(w.spec_payload() =~= head + (items + item));
            returned = returned + 1;
        }
        proof {
            lemma_page_full(t, offset as int, returned as nat, limit as nat);
        }
        let ghost items = catalog_items(t, offset as int, returned as nat);
        w.patch_u8(count_at, returned as u8);
        assert(w.spec_payload() =~= start + (le16(t.len() as u16) + seq![returned as u8] + items));
        Ok(())
    }

    fn read(&self, table: &Table, payload: &[u8], w: &mut Writer) -> (r: Result<(), Status>)
        requires
            fresh(*old(w)),
        ensures
            written(*old(w), *final(w), r, on_read(self@, table@, payload@)),
    {
        let mut r = Reader::new(payload);
        let count: u8 = match r.u8() {
            Some(v) => v,
            None => {
                return Err(Status::BadFrame);
            },
        };
        if r.remaining() != count as usize * 4 {
            return Err(Status::BadFrame);
        }
        let ghost t = table@;
        let ghost p = payload@;
        let ghost start = w.spec_payload();
        let _ = w.u8(count);
        let ghost head = w.spec_payload();
        let mut n: usize = 0;
        let len: usize = table.len();
        assert(head =~= head + Seq::<u8>::empty());
        while n < count as usize
            invariant
                n <= count,
                len == t.len(),
                p == payload@,
                p.len() == 1 + 4 * count,
                r.rest() == p.skip(1 + 4 * n),
                t == table@,
                count == p[0],
                head.len() == 2,
                read_items(t, p, n as nat) is Ok,
                w.spec_payload() == head + read_items(t, p, n as nat)->Ok_0,
                w.spec_room() == MAX_FRAME,
                w.spec_header() == old(w).spec_header(),
                w.spec_payload().len() == 2 + 12 * n,
            decreases count - n,
        {
            let id: u32 = match r.u32() {
                Some(v) => v,
                None => {
                    return Err(Status::BadFrame);
                },
            };
            assert(id == u32_at(p, 4 * (n + 1) - 3));
            let at: usize = match table.find(id) {
                Some(at) => at,
                None => {
                    proof {
                        lemma_read_refused(t, p, (n + 1) as nat, count as nat);
                    }
                    return Err(Status::UnknownId);
                },
            };
            proof {
                lemma_position_is(t, id);
            }
            let e: &Entry = table.entry(at);
            let ghost before = w.spec_payload();
            let ok: bool = w.fits(12);
            if !ok {
                proof {
                    lemma_read_refused(t, p, (n + 1) as nat, count as nat);
                }
                return Err(Status::BadFrame);
            }
            let _ = w.u32(id);
            let _ = w.u32(e.requested_bits());
            let _ = w.u32(e.applied_bits());
            n = n + 1;
            assert(r.rest() =~= p.skip(1 + 4 * n));
            assert(w.spec_payload() =~= head + read_items(t, p, n as nat)->Ok_0);
        }
        assert(w.spec_payload() =~= start + (seq![count] + read_items(t, p, count as nat)->Ok_0));
        Ok(())
    }

    fn write(&self, table: &mut Table, ctx: Context, payload: &[u8], w: &mut Writer) -> (r: Result<
        (),
        Status,
    >)
        requires
            fresh(*old(w)),
        ensures
            written(*old(w), *final(w), r, on_write(self@, old(table)@, ctx, payload@)),
            final(table)@ == on_write(self@, old(table)@, ctx, payload@).table,
            final(table)@.len() == old(table)@.len(),
    {
        let mut r = Reader::new(payload);
        let token: u32 = match r.u32() {
            Some(v) => v,
            None => {
                return Err(Status::BadFrame);
            },
        };
        let id: u32 = match r.u32() {
            Some(v) => v,
            None => {
                return Err(Status::BadFrame);
            },
        };
        let (tag, bits) = match r.slot() {
            Some(v) => v,
            None => {
                return Err(Status::BadFrame);
            },
        };
        done(&r)?;
        assert(payload@.len() == 16);
        assert(id == u32_at(payload@, 4) && tag == payload@[8] && bits == u32_at(payload@, 12));
        if !self.leased(token, ctx.now_us) {
            return Err(Status::SessionRequired);
        }
        let at: usize = match table.find(id) {
            Some(at) => at,
            None => {
                return Err(Status::UnknownId);
            },
        };
        let len: usize = table.len();
        proof {
            lemma_position_is(table@, id);
        }
        let e: &Entry = table.entry(at);
        check_access(e.access(), ctx.safe)?;
        if tag != e.kind().tag() {
            return Err(Status::WrongKind);
        }
        if e.kind() == Kind::F32 {
            let (min, max, _) = e.range();
            if !in_range(bits, min, max) {
                return Err(Status::Range);
            }
        }
        table.request(at, bits);
        let _ = w.u32(id);
        let _ = w.u32(table.entry(at).requested_bits());
        assert(w.spec_payload() =~= old(w).spec_payload() + (le32(id) + le32(bits)));
        Ok(())
    }

    fn discard(&self, table: &mut Table, ctx: Context, payload: &[u8], w: &mut Writer) -> (r: Result<
        (),
        Status,
    >)
        requires
            fresh(*old(w)),
            tunables(old(table)@) <= u16::MAX,
        ensures
            written(*old(w), *final(w), r, on_discard(self@, old(table)@, ctx, payload@)),
            final(table)@ == on_discard(self@, old(table)@, ctx, payload@).table,
            final(table)@.len() == old(table)@.len(),
    {
        let token: u32 = match token(payload) {
            Ok(token) => token,
            Err(status) => {
                return Err(status);
            },
        };
        if !self.leased(token, ctx.now_us) {
            return Err(Status::SessionRequired);
        }
        let ghost t = table@;
        let len: usize = table.len();
        if !ctx.safe {
            let mut i: usize = 0;
            while i < len
                invariant
                    i <= len == t.len(),
                    table@ == t,
                    t == old(table)@,
                    w == old(w),
                    !ctx.safe,
                    payload@.len() == 4,
                    self@.leased(u32_at(payload@, 0), ctx.now_us),
                    forall|k: int| 0 <= k < i ==> (#[trigger] t[k]).access != Access::SafeOnly,
                decreases len - i,
            {
                if table.entry(i).access() == Access::SafeOnly {
                    assert(t[i as int].access == Access::SafeOnly);
                    return Err(Status::StateDenied);
                }
                i = i + 1;
            }
        }
        let mut count: u16 = 0;
        let mut i: usize = 0;
        assert(t.take(0) =~= Seq::<EntryView>::empty());
        assert(table@ =~= Seq::new(
            t.len(),
            |k: int|
                if k < 0 {
                    discarded(t[k])
                } else {
                    t[k]
                },
        ));
        while i < len
            invariant
                i <= len == t.len(),
                tunables(t) <= u16::MAX,
                count == tunables(t.take(i as int)),
                table@ == Seq::new(
                    t.len(),
                    |k: int|
                        if k < i {
                            discarded(t[k])
                        } else {
                            t[k]
                        },
                ),
            decreases len - i,
        {
            proof {
                assert(t.take(i + 1).drop_last() =~= t.take(i as int));
                assert(t.take(i + 1).last() == t[i as int]);
                lemma_tunables_grow(t, i + 1);
            }
            let e: &Entry = table.entry(i);
            if e.is_tunable() {
                let bits: u32 = e.default_bits();
                table.request(i, bits);
                count = count + 1;
            }
            assert(table@ =~= Seq::new(
                t.len(),
                |k: int|
                    if k < i + 1 {
                        discarded(t[k])
                    } else {
                        t[k]
                    },
            ));
            i = i + 1;
        }
        assert(t.take(t.len() as int) =~= t);
        assert(table@ =~= Seq::new(t.len(), |k: int| discarded(t[k])));
        let _ = w.u16(count);
        Ok(())
    }

    fn watch(&mut self, table: &Table, ctx: Context, payload: &[u8], w: &mut Writer) -> (r: Result<
        (),
        Status,
    >)
        requires
            fresh(*old(w)),
            old(self)@.serves(table@.len()),
        ensures
            written(*old(w), *final(w), r, on_watch(old(self)@, table@, ctx, payload@)),
            final(self)@ == on_watch(old(self)@, table@, ctx, payload@).server,
            final(self)@.serves(table@.len()),
    {
        proof {
            use_type_invariant(&*self);
        }
        let mut r = Reader::new(payload);
        let period_ms: u16 = match r.u16() {
            Some(v) => v,
            None => {
                return Err(Status::BadFrame);
            },
        };
        let count: usize = match r.u8() {
            Some(v) => v as usize,
            None => {
                return Err(Status::BadFrame);
            },
        };
        let ghost p = payload@;
        assert(period_ms == u16_at(p, 0) && count == p[2]);
        if count > MAX_WATCHES || r.remaining() != count * 4 {
            return Err(Status::BadFrame);
        }
        let ghost t = table@;
        let mut watches: Vec<u16> = Vec::new();
        assert(r.rest() =~= p.skip(3));
        while watches.len() < count
            invariant
                watches@.len() <= count <= MAX_WATCHES,
                p == payload@,
                t == table@,
                p.len() == 3 + 4 * count,
                count == p[2],
                r.rest() == p.skip(3 + 4 * (watches@.len() as int)),
                w == old(w),
                self == old(self),
                old(self)@.serves(t.len()),
                forall|i: int|
                    0 <= i < watches@.len() ==> {
                        &&& position_of(t, #[trigger] watch_id(p, i)) is Some
                        &&& watches@[i] == position_of(t, watch_id(p, i))->0 as u16
                        &&& watches@[i] < t.len()
                    },
            decreases count - watches@.len(),
        {
            let id: u32 = match r.u32() {
                Some(v) => v,
                None => {
                    return Err(Status::BadFrame);
                },
            };
            assert(id == watch_id(p, watches@.len() as int));
            let at: usize = match table.find(id) {
                Some(at) => at,
                None => {
                    return Err(Status::UnknownId);
                },
            };
            let len: usize = table.len();
            proof {
                lemma_position_is(t, id);
                assert(at as u16 <= at) by (bit_vector);
            }
            watches.push(at as u16);
            assert(r.rest() =~= p.skip(3 + 4 * (watches@.len() as int)));
        }
        if period_ms == 0 || count == 0 {
            self.watches = Vec::new();
            assert(self@ =~= (ServerView { watches: Seq::empty(), ..old(self)@ }));
            let _ = w.u8(0);
        } else {
            let frame_bytes: u32 = (MAX_FRAME - MAX_PAYLOAD + 9 + 4 * count) as u32;
            if frame_bytes * 1000 / (period_ms as u32) > SAMPLE_BUDGET_BYTES_PER_S {
                return Err(Status::Budget);
            }
            *self = Server {
                save_supported: self.save_supported,
                lease: self.lease,
                watches,
                period_us: period_ms as u64 * 1000,
                next_sample_us: ctx.now_us,
                sample_seq: self.sample_seq,
                sent: self.sent,
                dropped: self.dropped,
                save: self.save,
            };
            proof {
                assert(self@.watches =~= Seq::new(
                    count as nat,
                    |i: int| position_of(t, watch_id(p, i))->0 as u16,
                )) by {
                    assert forall|i: int| 0 <= i < count implies self@.watches[i] == position_of(
                        t,
                        #[trigger] watch_id(p, i),
                    )->0 as u16 by {}
                }
                assert forall|i: int| 0 <= i < self@.watches.len() implies (
                #[trigger] self@.watches[i]) < t.len() by {
                    let _ = watch_id(p, i);
                }
            }
            let _ = w.u8(self.watches.len() as u8);
        }
        Ok(())
    }

    fn stats(&self, table: &Table, ctx: Context, payload: &[u8], w: &mut Writer) -> (r: Result<
        (),
        Status,
    >)
        requires
            fresh(*old(w)),
        ensures
            written(*old(w), *final(w), r, on_stats(self@, table@, ctx, payload@)),
    {
        done(&Reader::new(payload))?;
        let _ = w.u32(self.sent);
        let _ = w.u32(self.dropped);
        let _ = w.u32(ctx.bad_frames);
        assert(w.spec_payload() =~= old(w).spec_payload() + (le32(self.sent) + le32(self.dropped)
            + le32(ctx.bad_frames)));
        Ok(())
    }

    /// Whether `token` holds a lease that has not lapsed.
    fn leased(&self, token: u32, now_us: u64) -> (r: bool)
        ensures
            r == self@.leased(token, now_us),
    {
        match self.lease {
            Some((held, until)) => held == token && until > now_us,
            None => false,
        }
    }

    /// When the next sample frame is due, if anything is watched.
    pub fn next_sample_us(&self) -> (r: Option<u64>)
        ensures
            r == (if self@.watches.len() == 0 {
                None
            } else {
                Some(self@.next_sample_us)
            }),
    {
        if self.watches.len() == 0 {
            None
        } else {
            Some(self.next_sample_us)
        }
    }

    /// A sample frame when one is due, else nothing. Samples missed because
    /// the caller came late are counted as dropped.
    pub fn sample(&mut self, table: &Table, now_us: u64) -> (r: Vec<u8>)
        requires
            old(self)@.serves(table@.len()),
            sample_due(old(self)@, now_us) ==> old(self)@.next_sample_us + (periods_late(
                old(self)@,
                now_us,
            ) + 1) * old(self)@.period_us <= u64::MAX,
        ensures
            sample_due(old(self)@, now_us) ==> {
                &&& final(self)@ == sampled(old(self)@, now_us)
                &&& r@ == sample_frame(old(self)@, table@, now_us)
            },
            !sample_due(old(self)@, now_us) ==> final(self)@ == old(self)@ && r@.len() == 0,
            final(self)@.serves(table@.len()),
            r@.len() <= MAX_FRAME,
    {
        proof {
            use_type_invariant(&*self);
        }
        if self.watches.len() == 0 || now_us < self.next_sample_us {
            return Vec::new();
        }
        let ghost start = self@;
        let gap: u64 = now_us - self.next_sample_us;
        let late: u64 = gap / self.period_us;
        proof {
            let period = self.period_us as int;
            assert(late * period <= gap && gap < late * period + period) by (nonlinear_arith)
                requires
                    period > 0,
                    gap >= 0,
                    late == gap as int / period,
            ;
            assert((late + 1) * period == late * period + period) by (nonlinear_arith);
        }
        let header = Header { cmd: cmd::SAMPLE, flags: 0, seq: self.sample_seq };
        let mut w = match Writer::new(MAX_FRAME, header) {
            Ok(w) => w,
            Err(Overflow) => {
                return Vec::new();
            },
        };
        let _ = w.u64(now_us);
        let _ = w.u8(self.watches.len() as u8);
        let ghost head = w.spec_payload();
        assert(head =~= le64(now_us) + seq![start.watches.len() as u8]);
        let mut i: usize = 0;
        assert(start.watches.take(0) =~= Seq::<u16>::empty());
        assert(head =~= head + Seq::<u8>::empty());
        while i < self.watches.len()
            invariant
                i <= self.watches@.len(),
                start == self@,
                start.watches.len() <= MAX_WATCHES,
                start.serves(table@.len()),
                head.len() == 9,
                w.spec_room() == MAX_FRAME,
                w.spec_header() == header,
                w.spec_payload() == head + applied_values(table@, start.watches.take(i as int)),
                w.spec_payload().len() == 9 + 4 * i,
            decreases self.watches@.len() - i,
        {
            let at: usize = self.watches[i] as usize;
            assert(start.watches[i as int] < table@.len());
            let _ = w.u32(table.entry(at).applied_bits());
            i = i + 1;
            proof {
                let seen = start.watches.take(i as int);
                assert(seen.drop_last() =~= start.watches.take(i - 1));
                assert(seen.last() == at);
                assert(w.spec_payload() =~= head + applied_values(table@, seen));
            }
        }
        assert(start.watches.take(start.watches.len() as int) =~= start.watches);
        let frame: Vec<u8> = w.finish();
        self.dropped = self.dropped.saturating_add(late as u32);
        self.next_sample_us = self.next_sample_us + (late + 1) * self.period_us;
        self.sample_seq = self.sample_seq.wrapping_add(1);
        self.sent = self.sent.saturating_add(1);
        assert(self@ =~= sampled(start, now_us));
        frame
    }

    /// The caller could not send a frame [`Server::sample`] produced.
    pub fn sample_dropped(&mut self)
        ensures
            final(self)@ == (ServerView {
                sent: old(self)@.sent.saturating_sub(1),
                dropped: old(self)@.dropped.saturating_add(1),
                ..old(self)@
            }),
    {
        proof {
            use_type_invariant(&*self);
        }
        self.sent = self.sent.saturating_sub(1);
        self.dropped = self.dropped.saturating_add(1);
    }
}

/// While one host's lease runs, no other host can take it, write, discard or
/// save; each gets told so.
pub proof fn lemma_one_host_at_a_time(
    s: ServerView,
    t: Seq<EntryView>,
    ctx: Context,
    seq: u16,
    p: Seq<u8>,
)
    requires
        s.leased_by_other(u32_at(p, 0), ctx.now_us),
    ensures
        p.len() == 4 ==> answered(s, t, ctx, cmd::LEASE, p) == refused(s, t, Status::Busy),
        p.len() == 16 ==> answered(s, t, ctx, cmd::WRITE, p) == refused(
            s,
            t,
            Status::SessionRequired,
        ),
        p.len() == 4 ==> answered(s, t, ctx, cmd::DISCARD, p) == refused(
            s,
            t,
            Status::SessionRequired,
        ),
        p.len() == 4 ==> save_begun(s, ctx, seq, p) == (s, Err::<(), Status>(
            Status::SessionRequired,
        )),
{
}

/// A lease is good until exactly [`LEASE_MS`] after it was taken or renewed;
/// from then on it is free for any token.
pub proof fn lemma_lease_lapses(s: ServerView, t: Seq<EntryView>, ctx: Context, p: Seq<u8>, later: u64)
    requires
        p.len() == 4,
        !s.leased_by_other(u32_at(p, 0), ctx.now_us),
        ctx.now_us <= u64::MAX - LEASE_MS * 1000,
        later >= ctx.now_us,
    ensures
        ({
            let o = answered(s, t, ctx, cmd::LEASE, p);
            &&& o.answer == Ok::<Seq<u8>, Status>(Seq::empty())
            &&& o.table == t
            &&& o.server.leased(u32_at(p, 0), later) <==> later < ctx.now_us + LEASE_MS * 1000
            &&& later >= ctx.now_us + LEASE_MS * 1000 ==> forall|other: u32|
                !o.server.leased_by_other(other, later)
        }),
{
}

/// A request that is refused changes neither the server nor the table.
pub proof fn lemma_refusal_changes_nothing(
    s: ServerView,
    t: Seq<EntryView>,
    ctx: Context,
    code: u8,
    p: Seq<u8>,
)
    requires
        answered(s, t, ctx, code, p).answer is Err,
    ensures
        answered(s, t, ctx, code, p).server == s,
        answered(s, t, ctx, code, p).table == t,
{
}

/// Whether two tables list the same descriptors.
pub open spec fn same_descriptors(a: Seq<EntryView>, b: Seq<EntryView>) -> bool {
    &&& a.len() == b.len()
    &&& forall|i: int|
        0 <= i < a.len() ==> (#[trigger] a[i]).requesting(0).running(0) == b[i].requesting(
            0,
        ).running(0)
}

/// No request changes a descriptor, what a value runs with, or the request of
/// a value that takes none; and only WRITE and DISCARD change a request.
pub proof fn lemma_requests_only(
    s: ServerView,
    t: Seq<EntryView>,
    ctx: Context,
    header: Header,
    p: Seq<u8>,
)
    requires
        t.len() <= usize::MAX,
    ensures
        ({
            let after = handled(s, t, ctx, header, p).1;
            &&& same_descriptors(t, after)
            &&& forall|i: int|
                0 <= i < t.len() ==> {
                    &&& (#[trigger] after[i]).applied == t[i].applied
                    &&& !t[i].tunable() ==> after[i] == t[i]
                }
            &&& header.cmd != cmd::WRITE && header.cmd != cmd::DISCARD ==> after == t
        }),
{
    if header.cmd == cmd::WRITE {
        lemma_position_is(t, u32_at(p, 4));
    }
}

/// Whether every tunable asks for a number inside its range.
pub open spec fn requests_in_range(t: Seq<EntryView>) -> bool {
    forall|i: int|
        0 <= i < t.len() && (#[trigger] t[i]).tunable() ==> f32_in_range(
            t[i].requested,
            t[i].min,
            t[i].max,
        )
}

/// No request, whatever its payload, makes a tunable ask for something outside
/// its range.
pub proof fn lemma_requests_stay_in_range(
    s: ServerView,
    t: Seq<EntryView>,
    ctx: Context,
    header: Header,
    p: Seq<u8>,
)
    requires
        t.len() <= usize::MAX,
        requests_in_range(t),
        forall|i: int| 0 <= i < t.len() ==> (#[trigger] t[i]).valid(),
    ensures
        requests_in_range(handled(s, t, ctx, header, p).1),
{
    if header.cmd == cmd::WRITE {
        lemma_position_is(t, u32_at(p, 4));
    }
}

/// An accepted write is what a READ of the same id then reports.
pub proof fn lemma_write_then_read(
    s: ServerView,
    t: Seq<EntryView>,
    ctx: Context,
    p: Seq<u8>,
    r: Seq<u8>,
)
    requires
        t.len() <= usize::MAX,
        answered(s, t, ctx, cmd::WRITE, p).answer is Ok,
        r.len() == 5,
        r[0] == 1,
        u32_at(r, 1) == u32_at(p, 4),
    ensures
        ({
            let after = answered(s, t, ctx, cmd::WRITE, p);
            let id = u32_at(p, 4);
            answered(after.server, after.table, ctx, cmd::READ, r).answer == Ok::<Seq<u8>, Status>(
                seq![1u8] + (le32(id) + le32(u32_at(p, 12)) + le32(
                    t[position_of(t, id)->0 as int].applied,
                )),
            )
        }),
{
    let id = u32_at(p, 4);
    let o = answered(s, t, ctx, cmd::WRITE, p);
    lemma_position_is(t, id);
    let at = position_of(t, id)->0 as int;
    assert forall|k: int| 0 <= k < at implies (#[trigger] o.table[k]).id != id by {
        assert(t[k].id != id);
    }
    crate::table::lemma_position(o.table, id, at);
    let e = o.table[at];
    reveal_with_fuel(read_items, 2);
    let item = le32(id) + le32(e.requested) + le32(e.applied);
    assert(Seq::<u8>::empty() + item =~= item);
}

/// After an accepted DISCARD every tunable asks for its default.
pub proof fn lemma_discard_resets(s: ServerView, t: Seq<EntryView>, ctx: Context, p: Seq<u8>)
    requires
        answered(s, t, ctx, cmd::DISCARD, p).answer is Ok,
    ensures
        forall|i: int|
            0 <= i < t.len() && t[i].tunable() ==> (#[trigger] answered(
                s,
                t,
                ctx,
                cmd::DISCARD,
                p,
            ).table[i]).requested == t[i].default,
{
}

/// A value that may change only while the robot is safe keeps its request
/// through every request made while it is not.
pub proof fn lemma_safe_only_needs_safe(
    s: ServerView,
    t: Seq<EntryView>,
    ctx: Context,
    header: Header,
    p: Seq<u8>,
    i: int,
)
    requires
        t.len() <= usize::MAX,
        0 <= i < t.len(),
        t[i].access == Access::SafeOnly,
        !ctx.safe,
    ensures
        handled(s, t, ctx, header, p).1[i] == t[i],
{
    if header.cmd == cmd::WRITE {
        lemma_position_is(t, u32_at(p, 4));
    }
}

/// A subscription that was accepted stays inside the byte budget: its frames,
/// at the accepted period, cost no more than the budget per second.
pub proof fn lemma_watch_within_budget(s: ServerView, t: Seq<EntryView>, ctx: Context, p: Seq<u8>)
    requires
        answered(s, t, ctx, cmd::WATCH, p).answer is Ok,
        answered(s, t, ctx, cmd::WATCH, p).server.watches.len() > 0,
    ensures
        ({
            let o = answered(s, t, ctx, cmd::WATCH, p).server;
            &&& o.watches.len() <= MAX_WATCHES
            &&& !over_budget(o.watches.len() as int, u16_at(p, 0))
            &&& o.period_us == u16_at(p, 0) * 1000
        }),
{
}

/// What refuses a READ is a refusal.
proof fn lemma_read_refusal(t: Seq<EntryView>, p: Seq<u8>, n: nat)
    ensures
        read_items(t, p, n) !== Err(Status::Okay),
    decreases n,
{
    if n > 0 {
        lemma_read_refusal(t, p, (n - 1) as nat);
    }
}

/// An answer fits a payload behind its status.
proof fn lemma_answer_len(s: ServerView, t: Seq<EntryView>, ctx: Context, code: u8, p: Seq<u8>)
    ensures
        answered(s, t, ctx, code, p).answer matches Ok(body) ==> body.len() < MAX_PAYLOAD,
        answered(s, t, ctx, code, p).answer !== Err(Status::Okay),
{
    if code == cmd::CATALOG && p.len() == 3 {
        lemma_page_count(t, u16_at(p, 0) as int, p[2] as nat);
    }
    if code == cmd::READ {
        lemma_read_len(t, p, p[0] as nat);
        lemma_read_refusal(t, p, p[0] as nat);
    }
}

/// Every reply to a request other than SAVE is one whole frame that answers
/// the request: it carries the command with the reply bit, the request's
/// sequence number, and a payload that starts with the status.
pub proof fn lemma_reply_is_a_frame(
    s: ServerView,
    t: Seq<EntryView>,
    ctx: Context,
    header: Header,
    p: Seq<u8>,
    st: Stream,
)
    requires
        header.cmd != cmd::SAVE,
        st.buf.len() == 0,
    ensures
        ({
            let o = answered(s, t, ctx, header.cmd, p);
            let payload = match o.answer {
                Ok(body) => seq![0u8] + body,
                Err(status) => seq![status.spec_code()],
            };
            fed(st, handled(s, t, ctx, header, p).2) == (Stream {
                frames: st.frames.push(Packet { header: reply_header(header), payload }),
                ..st
            })
        }),
{
    let payload = match answered(s, t, ctx, header.cmd, p).answer {
        Ok(body) => seq![0u8] + body,
        Err(status) => seq![status.spec_code()],
    };
    if header.cmd == cmd::CATALOG && p.len() == 3 {
        lemma_page_count(t, u16_at(p, 0) as int, p[2] as nat);
    }
    if header.cmd == cmd::READ {
        lemma_read_len(t, p, p[0] as nat);
    }
    lemma_frame_round_trip(st, reply_header(header), payload);
}

/// A server that came late counts every period it missed, and the next sample
/// is due within one period after now.
pub proof fn lemma_sample_schedule(s: ServerView, now_us: u64)
    requires
        sample_due(s, now_us),
        0 < s.period_us,
        now_us <= u64::MAX - s.period_us,
    ensures
        now_us < sampled(s, now_us).next_sample_us <= now_us + s.period_us,
        (sampled(s, now_us).next_sample_us - s.next_sample_us) % (s.period_us as int) == 0,
        !sample_due(sampled(s, now_us), now_us),
{
    let gap = now_us - s.next_sample_us;
    let late = periods_late(s, now_us);
    let period = s.period_us as int;
    assert(late * period <= gap && gap < late * period + period && late >= 0) by (nonlinear_arith)
        requires
            period > 0,
            gap >= 0,
            late == gap / period,
    ;
    assert((late + 1) * period == late * period + period) by (nonlinear_arith);
    assert(((late + 1) * period) % period == 0) by (nonlinear_arith)
        requires
            period > 0,
    ;
}

/// The payload of the reply to a request: a status, and behind [`Status::Okay`]
/// what was asked for. An accepted SAVE has no reply yet.
pub open spec fn reply_payload(
    s: ServerView,
    t: Seq<EntryView>,
    ctx: Context,
    header: Header,
    p: Seq<u8>,
) -> Option<Seq<u8>> {
    if header.cmd == cmd::SAVE {
        match save_begun(s, ctx, header.seq, p).1 {
            Ok(()) => None,
            Err(status) => Some(seq![status.spec_code()]),
        }
    } else {
        match answered(s, t, ctx, header.cmd, p).answer {
            Ok(body) => Some(seq![Status::Okay.spec_code()] + body),
            Err(status) => Some(seq![status.spec_code()]),
        }
    }
}

/// Whether a byte stands for a status.
pub open spec fn is_status(code: u8) -> bool {
    exists|status: Status| (#[trigger] status.spec_code()) == code
}

/// Every request is answered at once, but for an accepted SAVE. Nothing is sent
/// exactly where a SAVE is accepted, which then waits and changes nothing else.
/// Whatever else is asked, valid or not, the reply is one whole frame that a
/// decoder delivers: with the request's command and the reply bit, no flags, the
/// request's sequence number, and a payload that begins with a status. Where
/// that is not [`Status::Okay`], the payload is that byte alone, and the lease,
/// the subscription, a waiting SAVE and every requested value are as before.
pub proof fn lemma_every_request_is_answered(
    s: ServerView,
    t: Seq<EntryView>,
    ctx: Context,
    header: Header,
    p: Seq<u8>,
    st: Stream,
)
    requires
        st.buf.len() == 0,
    ensures
        ({
            let (next, after, sent) = handled(s, t, ctx, header, p);
            &&& sent.len() == 0 <==> header.cmd == cmd::SAVE && s.save is None && next.save == Some(
                header.seq,
            )
            &&& sent.len() == 0 ==> next == (ServerView { save: Some(header.seq), ..s }) && after == t
            &&& sent.len() == 0 <==> reply_payload(s, t, ctx, header, p) is None
            &&& sent.len() > 0 ==> {
                let payload = reply_payload(s, t, ctx, header, p)->0;
                let reply = Header { cmd: header.cmd | 0x80, flags: 0, seq: header.seq };
                &&& fed(st, sent) == (Stream {
                    frames: st.frames.push(Packet { header: reply, payload }),
                    ..st
                })
                &&& 1 <= payload.len() <= MAX_PAYLOAD
                &&& is_status(payload[0])
                &&& payload[0] != Status::Okay.spec_code() ==> {
                    &&& payload.len() == 1
                    &&& next == s
                    &&& after == t
                }
            }
        }),
{
    let (next, after, sent) = handled(s, t, ctx, header, p);
    reveal(frame_bytes);
    if header.cmd == cmd::SAVE {
        let begun = save_begun(s, ctx, header.seq, p);
        if let Err(status) = begun.1 {
            let payload = seq![status.spec_code()];
            lemma_frame_round_trip(st, reply_header(header), payload);
            assert(is_status(payload[0]));
        }
    } else {
        let answer = answered(s, t, ctx, header.cmd, p).answer;
        lemma_reply_is_a_frame(s, t, ctx, header, p, st);
        lemma_answer_len(s, t, ctx, header.cmd, p);
        match answer {
            Ok(_) => {
                assert(is_status(Status::Okay.spec_code()));
            },
            Err(status) => {
                assert(is_status(status.spec_code()));
                lemma_refusal_changes_nothing(s, t, ctx, header.cmd, p);
            },
        }
    }
}

} // verus!
