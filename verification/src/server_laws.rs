//! What a host can rely on in the payloads that a server sends, byte by byte.

use vstd::prelude::*;
use vstd::utf8::*;
use crate::bytes::{group_le_len, le16, le32, le64, u16_at, u32_at};
use crate::server::{
    answered, applied_values, catalog_item, catalog_items, lemma_page_count, page_count,
    handled, read_items, reply_frame, sample_due, sample_frame, sampled,
    watch_id, Context, ServerView,
};
use crate::table::{
    descriptors, fnv_of, lemma_position, lemma_position_is, position_of, Access,
    EntryView, Kind,
};
use crate::wire::{fed, lemma_frame_round_trip, Header, Packet, Status, Stream, MAX_PAYLOAD};

verus! {

broadcast use group_le_len;

/// The number in the two bytes from `at` on, the least significant first.
pub open spec fn word16(b: Seq<u8>, at: int) -> int {
    b[at] + 0x100 * b[at + 1]
}

/// The number in the four bytes from `at` on, the least significant first.
pub open spec fn word32(b: Seq<u8>, at: int) -> int {
    b[at] + 0x100 * b[at + 1] + 0x1_0000 * b[at + 2] + 0x100_0000 * b[at + 3]
}

/// The number in the eight bytes from `at` on, the least significant first.
pub open spec fn word64(b: Seq<u8>, at: int) -> int {
    word32(b, at) + 0x1_0000_0000 * word32(b, at + 4)
}

/// The id at place `i` of those that a payload lists from `from` on.
pub open spec fn id_in(p: Seq<u8>, from: int, i: int) -> int {
    word32(p, from + 4 * i)
}

/// Whether entry `k` is the one that an id stands for: the first that has it.
pub open spec fn stands_for(t: Seq<EntryView>, id: int, k: int) -> bool {
    &&& 0 <= k < t.len()
    &&& t[k].id == id
    &&& forall|j: int| 0 <= j < k ==> (#[trigger] t[j]).id != id
}

/// Whether a table has an id.
pub open spec fn has_id(t: Seq<EntryView>, id: int) -> bool {
    exists|k: int| 0 <= k < t.len() && (#[trigger] t[k]).id == id
}

/// Numbers are sent least significant byte first.
pub proof fn lemma_numbers_are_little_endian(b: Seq<u8>, at: int, x: u16, y: u32, z: u64)
    requires
        0 <= at,
        at + 8 <= b.len(),
    ensures
        b.subrange(at, at + 2) == le16(x) ==> word16(b, at) == x,
        b.subrange(at, at + 4) == le32(y) ==> word32(b, at) == y,
        b.subrange(at, at + 8) == le64(z) ==> word64(b, at) == z,
        u16_at(b, at) == word16(b, at),
        u32_at(b, at) == word32(b, at),
{
    lemma_word16(b, at, x);
    lemma_word32(b, at, y);
    lemma_word64(b, at, z);
}

proof fn lemma_word16(b: Seq<u8>, at: int, x: u16)
    requires
        0 <= at,
        at + 2 <= b.len(),
    ensures
        b.subrange(at, at + 2) == le16(x) ==> word16(b, at) == x,
{
    reveal(le16);
    let s = b.subrange(at, at + 2);
    assert(s[0] == b[at] && s[1] == b[at + 1]);
}

proof fn lemma_word32(b: Seq<u8>, at: int, x: u32)
    requires
        0 <= at,
        at + 4 <= b.len(),
    ensures
        b.subrange(at, at + 4) == le32(x) ==> word32(b, at) == x,
{
    reveal(le32);
    let s = b.subrange(at, at + 4);
    assert(s[0] == b[at] && s[1] == b[at + 1] && s[2] == b[at + 2] && s[3] == b[at + 3]);
}

proof fn lemma_word64(b: Seq<u8>, at: int, x: u64)
    requires
        0 <= at,
        at + 8 <= b.len(),
    ensures
        b.subrange(at, at + 8) == le64(x) ==> word64(b, at) == x,
{
    reveal(le64);
    let s = b.subrange(at, at + 8);
    let low = crate::bytes::low32(x);
    let high = crate::bytes::high32(x);
    if s == le64(x) {
        assert(b.subrange(at, at + 4) =~= le32(low)) by {
            assert(s.subrange(0, 4) =~= le32(low));
            assert(b.subrange(at, at + 4) =~= s.subrange(0, 4));
        }
        assert(b.subrange(at + 4, at + 8) =~= le32(high)) by {
            assert(s.subrange(4, 8) =~= le32(high));
            assert(b.subrange(at + 4, at + 8) =~= s.subrange(4, 8));
        }
        lemma_word32(b, at, low);
        lemma_word32(b, at + 4, high);
    }
}

/// The first entry with an id is the one that is found for it.
proof fn lemma_found(t: Seq<EntryView>, id: u32, k: int)
    requires
        t.len() <= usize::MAX,
        stands_for(t, id as int, k),
    ensures
        position_of(t, id) == Some(k as usize),
{
    lemma_position(t, id, k);
}

/// Where an applied value stands among those of a sample.
proof fn lemma_applied_value(t: Seq<EntryView>, watches: Seq<u16>, i: int)
    requires
        0 <= i < watches.len(),
    ensures
        applied_values(t, watches).len() == 4 * watches.len(),
        applied_values(t, watches).subrange(4 * i, 4 * i + 4) == le32(
            t[watches[i] as int].applied,
        ),
    decreases watches.len(),
{
    let rest = watches.drop_last();
    let n = rest.len() as int;
    let all = applied_values(t, watches);
    if i < n {
        lemma_applied_value(t, rest, i);
        assert(all.subrange(4 * i, 4 * i + 4) =~= applied_values(t, rest).subrange(
            4 * i,
            4 * i + 4,
        ));
    } else {
        if n > 0 {
            lemma_applied_value(t, rest, 0);
        } else {
            assert(applied_values(t, rest).len() == 0);
        }
        assert(all.subrange(4 * i, 4 * i + 4) =~= le32(t[watches[i] as int].applied));
    }
}

/// A sample carries what was asked for: every frame that a subscription sends holds
/// the time, how many values follow, and one value per id of the accepted WATCH, in
/// the order in which the ids stood there, each what the entry with that id runs
/// with when the frame is made. The frames come at the period that was asked for.
pub proof fn lemma_samples_carry_what_was_watched(
    s: ServerView,
    t: Seq<EntryView>,
    ctx: Context,
    p: Seq<u8>,
    later: Seq<EntryView>,
    now_us: u64,
    st: Stream,
)
    requires
        t.len() <= 0x1_0000,
        answered(s, t, ctx, 0x20, p).answer is Ok,
        answered(s, t, ctx, 0x20, p).server.watches.len() > 0,
        later.len() == t.len(),
        forall|j: int| 0 <= j < t.len() ==> (#[trigger] later[j]).id == t[j].id,
        st.buf.len() == 0,
    ensures
        ({
            let o = answered(s, t, ctx, 0x20, p).server;
            &&& o.period_us == 1000 * word16(p, 0)
            &&& o.next_sample_us == ctx.now_us
            &&& exists|q: Seq<u8>| #[trigger]
                sent_sample(st, fed(st, sample_frame(o, later, now_us)), s.sample_seq, q)
                    && word64(q, 0) == now_us && q[8] == p[2] && q.len() == 9 + 4 * p[2]
                    && forall|i: int, k: int|
                    0 <= i < p[2] && #[trigger] stands_for(later, #[trigger] id_in(p, 3, i), k)
                        ==> word32(q, 9 + 4 * i) == later[k].applied
        }),
{
    let o = answered(s, t, ctx, 0x20, p).server;
    let count = p[2] as int;
    let values = applied_values(later, o.watches);
    let q = le64(now_us) + seq![o.watches.len() as u8] + values;
    lemma_applied_value(later, o.watches, 0);
    assert(o.watches.len() == count);
    lemma_frame_round_trip(st, Header { cmd: 0x40, flags: 0, seq: s.sample_seq }, q);
    assert(q.subrange(0, 8) =~= le64(now_us));
    lemma_word64(q, 0, now_us);
    assert(sent_sample(st, fed(st, sample_frame(o, later, now_us)), s.sample_seq, q));
    assert forall|i: int, k: int|
        0 <= i < p[2] && #[trigger] stands_for(later, #[trigger] id_in(p, 3, i), k) implies word32(
        q,
        9 + 4 * i,
    ) == later[k].applied by {
        let id = watch_id(p, i);
        assert(id == word32(p, 3 + 4 * i));
        assert(t[k].id == later[k].id);
        assert forall|j: int| 0 <= j < k implies (#[trigger] t[j]).id != id by {
            assert(later[j].id == t[j].id);
        }
        lemma_found(t, id, k);
        assert(o.watches[i] == k);
        lemma_applied_value(later, o.watches, i);
        assert(q.subrange(9 + 4 * i, 9 + 4 * i + 4) =~= values.subrange(4 * i, 4 * i + 4));
        lemma_word32(q, 9 + 4 * i, later[k].applied);
    }
}

/// Whether a decoder that was between frames took one sample frame with this
/// payload.
pub open spec fn sent_sample(before: Stream, after: Stream, seq: u16, payload: Seq<u8>) -> bool {
    after == (Stream {
        frames: before.frames.push(
            Packet { header: Header { cmd: 0x40, flags: 0, seq }, payload },
        ),
        ..before
    })
}

/// Each sample counts: one more is sent, its number is one more than the last, and
/// every period that passed without one is counted as dropped.
pub proof fn lemma_samples_are_counted(s: ServerView, now_us: u64)
    requires
        sample_due(s, now_us),
        0 < s.period_us,
        now_us <= u64::MAX - s.period_us,
    ensures
        ({
            let after = sampled(s, now_us);
            let missed = (now_us - s.next_sample_us) / (s.period_us as int);
            &&& s.sent < u32::MAX ==> after.sent == s.sent + 1
            &&& s.sample_seq < u16::MAX ==> after.sample_seq == s.sample_seq + 1
            &&& s.sample_seq == u16::MAX ==> after.sample_seq == 0
            &&& s.dropped + missed <= u32::MAX ==> after.dropped == s.dropped + missed
            &&& after.next_sample_us == s.next_sample_us + (missed + 1) * s.period_us
            &&& after.lease == s.lease && after.watches == s.watches && after.save == s.save
                && after.period_us == s.period_us
        }),
{
    crate::server::lemma_sample_schedule(s, now_us);
    let gap = now_us - s.next_sample_us;
    let missed = gap / (s.period_us as int);
    let period = s.period_us as int;
    assert(missed >= 0 && missed * period <= gap && (missed + 1) * period == missed * period
        + period) by (nonlinear_arith)
        requires
            period > 0,
            gap >= 0,
            missed == gap / period,
    ;
}

/// What a READ answers for its ids, as long as it answers.
proof fn lemma_read_item(t: Seq<EntryView>, p: Seq<u8>, n: nat, i: int)
    requires
        t.len() <= usize::MAX,
        0 <= i < n,
        read_items(t, p, n) is Ok,
    ensures
        read_items(t, p, n)->Ok_0.len() == 12 * n,
        ({
            let id = u32_at(p, 1 + 4 * i);
            let item = read_items(t, p, n)->Ok_0.subrange(12 * i, 12 * i + 12);
            &&& position_of(t, id) matches Some(k) && k < t.len() && item == le32(id) + le32(
                t[k as int].requested,
            ) + le32(t[k as int].applied)
        }),
    decreases n,
{
    let m = (n - 1) as nat;
    let all = read_items(t, p, n)->Ok_0;
    let before = read_items(t, p, m)->Ok_0;
    assert(4 * n - 3 == 1 + 4 * m);
    if m > 0 {
        lemma_read_item(t, p, m, if i < m { i } else { 0 });
    }
    lemma_position_is(t, u32_at(p, 1 + 4 * i));
    if i < m {
        assert(all.subrange(12 * i, 12 * i + 12) =~= before.subrange(12 * i, 12 * i + 12));
    } else {
        let id = u32_at(p, 1 + 4 * i);
        let k = position_of(t, id)->0 as int;
        assert(all.subrange(12 * i, 12 * i + 12) =~= le32(id) + le32(t[k].requested) + le32(
            t[k].applied,
        ));
    }
}

/// A READ is answered as far as its ids are known and fit.
proof fn lemma_read_answered(t: Seq<EntryView>, p: Seq<u8>, n: nat)
    requires
        t.len() <= usize::MAX,
        n > 0 ==> 2 + 12 * n <= MAX_PAYLOAD,
        forall|i: int| 0 <= i < n ==> has_id(t, #[trigger] id_in(p, 1, i)),
    ensures
        read_items(t, p, n) is Ok,
    decreases n,
{
    if n > 0 {
        let m = n - 1;
        lemma_read_answered(t, p, m as nat);
        let id = u32_at(p, 4 * n - 3);
        assert(4 * n - 3 == 1 + 4 * m);
        assert(id == word32(p, 1 + 4 * m));
        assert(has_id(t, id_in(p, 1, m)));
        lemma_position_is(t, id);
    }
}

/// A READ is answered exactly where it is whole, its ids are all in the table and
/// the answer fits a frame. The answer holds, for each id in the order of the
/// request, the id, what the entry with that id was asked for and what it runs with.
pub proof fn lemma_reads_report_their_ids(
    s: ServerView,
    t: Seq<EntryView>,
    ctx: Context,
    p: Seq<u8>,
)
    requires
        t.len() <= usize::MAX,
    ensures
        ({
            let o = answered(s, t, ctx, 0x11, p);
            &&& o.answer is Ok <==> {
                &&& p.len() >= 1
                &&& p.len() == 1 + 4 * p[0]
                &&& p[0] > 0 ==> 2 + 12 * p[0] <= MAX_PAYLOAD
                &&& forall|i: int| 0 <= i < p[0] ==> has_id(t, #[trigger] id_in(p, 1, i))
            }
            &&& o.answer matches Ok(body) ==> {
                &&& body.len() == 1 + 12 * p[0]
                &&& body[0] == p[0]
                &&& forall|i: int, k: int|
                    0 <= i < p[0] && #[trigger] stands_for(t, #[trigger] id_in(p, 1, i), k)
                        ==> {
                        &&& word32(body, 1 + 12 * i) == t[k].id
                        &&& word32(body, 5 + 12 * i) == t[k].requested
                        &&& word32(body, 9 + 12 * i) == t[k].applied
                    }
            }
            &&& o.server == s && o.table == t
        }),
{
    let o = answered(s, t, ctx, 0x11, p);
    if p.len() >= 1 && p.len() == 1 + 4 * p[0] {
        let n = p[0] as nat;
        if (n > 0 ==> 2 + 12 * n <= MAX_PAYLOAD) && (forall|i: int|
            0 <= i < n ==> has_id(t, #[trigger] id_in(p, 1, i))) {
            lemma_read_answered(t, p, n);
        }
        if read_items(t, p, n) is Ok {
            let items = read_items(t, p, n)->Ok_0;
            let body = seq![p[0]] + items;
            if n > 0 {
                lemma_read_item(t, p, n, 0);
            }
            assert forall|i: int| 0 <= i < n implies has_id(t, #[trigger] id_in(p, 1, i)) by {
                lemma_read_item(t, p, n, i);
                lemma_position_is(t, u32_at(p, 1 + 4 * i));
                let k = position_of(t, u32_at(p, 1 + 4 * i))->0 as int;
                assert(t[k].id == word32(p, 1 + 4 * i));
            }
            lemma_read_fits(t, p, n);
            assert forall|i: int, k: int|
                0 <= i < p[0] && #[trigger] stands_for(t, #[trigger] id_in(p, 1, i), k) implies {
                &&& word32(body, 1 + 12 * i) == t[k].id
                &&& word32(body, 5 + 12 * i) == t[k].requested
                &&& word32(body, 9 + 12 * i) == t[k].applied
            } by {
                let id = u32_at(p, 1 + 4 * i);
                lemma_read_item(t, p, n, i);
                lemma_found(t, id, k);
                let item = items.subrange(12 * i, 12 * i + 12);
                assert(body.subrange(1 + 12 * i, 5 + 12 * i) =~= item.subrange(0, 4));
                assert(item.subrange(0, 4) =~= le32(id));
                assert(body.subrange(5 + 12 * i, 9 + 12 * i) =~= item.subrange(4, 8));
                assert(item.subrange(4, 8) =~= le32(t[k].requested));
                assert(body.subrange(9 + 12 * i, 13 + 12 * i) =~= item.subrange(8, 12));
                assert(item.subrange(8, 12) =~= le32(t[k].applied));
                lemma_word32(body, 1 + 12 * i, id);
                lemma_word32(body, 5 + 12 * i, t[k].requested);
                lemma_word32(body, 9 + 12 * i, t[k].applied);
            }
        }
    }
}

proof fn lemma_read_fits(t: Seq<EntryView>, p: Seq<u8>, n: nat)
    requires
        read_items(t, p, n) is Ok,
    ensures
        n > 0 ==> 2 + 12 * n <= MAX_PAYLOAD,
{
}

/// Where item `n` of a catalog page starts, as a host finds it: behind the total
/// and the count, and behind every item before it, which says how long its name
/// and its unit are.
pub open spec fn item_start(body: Seq<u8>, n: nat) -> int
    decreases n,
{
    if n == 0 {
        3
    } else {
        let a = item_start(body, (n - 1) as nat);
        a + 24 + body[a + 22] + body[a + 23 + body[a + 22]]
    }
}

/// Whether an entry stands in a catalog page from `a` on.
pub open spec fn described_at(body: Seq<u8>, a: int, e: EntryView) -> bool {
    let name = encode_utf8(e.name);
    let unit = encode_utf8(e.unit);
    let u = a + 23 + name.len();
    &&& 0 <= a && u + 1 + unit.len() <= body.len()
    &&& word32(body, a) == e.id
    &&& body[a + 4] == (match e.kind {
        Kind::F32 => 0u8,
        Kind::I32 => 1u8,
        Kind::U32 => 2u8,
        Kind::Bool => 3u8,
    })
    &&& body[a + 5] == (match e.access {
        Access::ReadOnly => 0u8,
        Access::Live => 1u8,
        Access::SafeOnly => 2u8,
    })
    &&& word32(body, a + 6) == e.default
    &&& word32(body, a + 10) == e.min
    &&& word32(body, a + 14) == e.max
    &&& word32(body, a + 18) == e.max_step
    &&& body[a + 22] == name.len()
    &&& body.subrange(a + 23, u) == name
    &&& body[u] == unit.len()
    &&& body.subrange(u + 1, u + 1 + unit.len()) == unit
}

/// One item in a page.
proof fn lemma_item(body: Seq<u8>, a: int, e: EntryView)
    requires
        0 <= a,
        a + catalog_item(e).len() <= body.len(),
        body.subrange(a, a + catalog_item(e).len()) == catalog_item(e),
        encode_utf8(e.name).len() <= 255,
        encode_utf8(e.unit).len() <= 255,
    ensures
        described_at(body, a, e),
        catalog_item(e).len() == 24 + body[a + 22] + body[a + 23 + body[a + 22]],
{
    let item = catalog_item(e);
    let name = encode_utf8(e.name);
    let unit = encode_utf8(e.unit);
    let n = name.len() as int;
    assert(item.len() == 24 + n + unit.len());
    assert forall|i: int| 0 <= i < item.len() implies body[a + i] == #[trigger] item[i] by {
        assert(body.subrange(a, a + item.len())[i] == body[a + i]);
    }
    assert(item.subrange(0, 4) =~= le32(e.id));
    assert(body.subrange(a, a + 4) =~= item.subrange(0, 4));
    assert(item.subrange(6, 10) =~= le32(e.default));
    assert(body.subrange(a + 6, a + 10) =~= item.subrange(6, 10));
    assert(item.subrange(10, 14) =~= le32(e.min));
    assert(body.subrange(a + 10, a + 14) =~= item.subrange(10, 14));
    assert(item.subrange(14, 18) =~= le32(e.max));
    assert(body.subrange(a + 14, a + 18) =~= item.subrange(14, 18));
    assert(item.subrange(18, 22) =~= le32(e.max_step));
    assert(body.subrange(a + 18, a + 22) =~= item.subrange(18, 22));
    lemma_word32(body, a, e.id);
    lemma_word32(body, a + 6, e.default);
    lemma_word32(body, a + 10, e.min);
    lemma_word32(body, a + 14, e.max);
    lemma_word32(body, a + 18, e.max_step);
    assert(body[a + 4] == item[4] && body[a + 5] == item[5]);
    assert(body[a + 22] == item[22]);
    assert(item[22] == n as u8);
    assert(item[23 + n] == unit.len() as u8);
    assert(body[a + (23 + n)] == item[23 + n]);
    assert(body.subrange(a + 23, a + 23 + n) =~= name) by {
        assert(item.subrange(23, 23 + n) =~= name);
        assert(body.subrange(a + 23, a + 23 + n) =~= item.subrange(23, 23 + n));
    }
    assert(body.subrange(a + 24 + n, a + 24 + n + unit.len()) =~= unit) by {
        assert(item.subrange(24 + n, 24 + n + unit.len()) =~= unit);
        assert(body.subrange(a + 24 + n, a + 24 + n + unit.len()) =~= item.subrange(
            24 + n,
            24 + n + unit.len(),
        ));
    }
}

/// An item stands behind those before it.
proof fn lemma_item_in(t: Seq<EntryView>, from: int, n: nat, m: nat, body: Seq<u8>)
    requires
        0 <= from,
        from + n <= t.len(),
        m < n,
        body.len() >= 3,
        body.skip(3) == catalog_items(t, from, n),
        encode_utf8(t[from + m].name).len() <= 255,
        encode_utf8(t[from + m].unit).len() <= 255,
    ensures
        ({
            let a = 3 + catalog_items(t, from, m).len() as int;
            &&& described_at(body, a, t[from + m])
            &&& 3 + catalog_items(t, from, m + 1).len() == a + 24 + body[a + 22] + body[a + 23 + body[a
                + 22]]
        }),
{
    let e = t[from + m];
    let item = catalog_item(e);
    let before = catalog_items(t, from, m);
    let b = before.len() as int;
    let a = 3 + b;
    let whole = body.skip(3);
    lemma_items_prefix(t, from, m + 1, n);
    let part = catalog_items(t, from, m + 1);
    assert(part == before + item);
    assert forall|i: int| 0 <= i < item.len() implies body[a + i] == #[trigger] item[i] by {
        assert(whole.take(part.len() as int)[b + i] == part[b + i]);
        assert(whole[b + i] == body[a + i]);
    }
    assert(body.subrange(a, a + item.len()) =~= item);
    lemma_item(body, a, e);
}

/// Items in a page: a host finds each where the one before it ends.
proof fn lemma_items(t: Seq<EntryView>, from: int, n: nat, m: nat, body: Seq<u8>)
    requires
        0 <= from,
        from + n <= t.len(),
        m < n,
        body.len() >= 3,
        body.skip(3) == catalog_items(t, from, n),
        forall|i: int|
            0 <= i < t.len() ==> encode_utf8((#[trigger] t[i]).name).len() <= 255 && encode_utf8(
                t[i].unit,
            ).len() <= 255,
    ensures
        item_start(body, m) == 3 + catalog_items(t, from, m).len(),
        described_at(body, item_start(body, m), t[from + m]),
    decreases m,
{
    lemma_item_in(t, from, n, m, body);
    if m > 0 {
        let k = (m - 1) as nat;
        lemma_items(t, from, n, k, body);
        lemma_item_in(t, from, n, k, body);
    }
}

proof fn lemma_items_prefix(t: Seq<EntryView>, from: int, m: nat, n: nat)
    requires
        m <= n,
    ensures
        catalog_items(t, from, m).len() <= catalog_items(t, from, n).len(),
        catalog_items(t, from, n).take(catalog_items(t, from, m).len() as int) == catalog_items(
            t,
            from,
            m,
        ),
    decreases n - m,
{
    let part = catalog_items(t, from, m);
    if m < n {
        lemma_items_prefix(t, from, m, (n - 1) as nat);
        let all = catalog_items(t, from, n);
        let before = catalog_items(t, from, (n - 1) as nat);
        assert(all.take(part.len() as int) =~= before.take(part.len() as int));
    } else {
        assert(part.take(part.len() as int) =~= part);
    }
}

/// A catalog page lists the table in order: how many entries there are, how many it
/// holds, and for each of those from the offset on its descriptor, whole and in the
/// table's order. It holds no more than were asked for, and fewer only where the
/// table ends or the next would not fit a frame.
pub proof fn lemma_catalog_pages_list_the_table(
    s: ServerView,
    t: Seq<EntryView>,
    ctx: Context,
    p: Seq<u8>,
)
    requires
        p.len() == 3,
        t.len() <= 0xffff,
        forall|i: int|
            0 <= i < t.len() ==> encode_utf8((#[trigger] t[i]).name).len() <= 255 && encode_utf8(
                t[i].unit,
            ).len() <= 255,
    ensures
        ({
            let o = answered(s, t, ctx, 0x10, p);
            let from = word16(p, 0);
            &&& o.server == s && o.table == t
            &&& o.answer matches Ok(body) && body.len() >= 3 && {
                &&& word16(body, 0) == t.len()
                &&& body[2] <= p[2]
                &&& body[2] > 0 ==> from + body[2] <= t.len()
                &&& forall|i: nat|
                    i < body[2] ==> described_at(
                        body,
                        #[trigger] item_start(body, i),
                        t[from + i],
                    )
                &&& body[2] < p[2] && from + body[2] < t.len() ==> {
                    let next = t[from + body[2]];
                    1 + body.len() + 24 + encode_utf8(next.name).len() + encode_utf8(
                        next.unit,
                    ).len() > MAX_PAYLOAD
                }
            }
        }),
{
    let from = u16_at(p, 0) as int;
    let n = page_count(t, from, p[2] as nat);
    lemma_page_count(t, from, p[2] as nat);
    let items = catalog_items(t, from, n);
    let body = le16(t.len() as u16) + seq![n as u8] + items;
    assert(body.subrange(0, 2) =~= le16(t.len() as u16));
    lemma_word16(body, 0, t.len() as u16);
    assert(body.skip(3) =~= items);
    if n > 0 {
        assert forall|i: nat| i < n implies described_at(
            body,
            #[trigger] item_start(body, i),
            t[from + i],
        ) by {
            lemma_items(t, from, n, i, body);
        }
    }
    if n < p[2] && from + n < t.len() {
        let e = t[from + n];
        assert(catalog_items(t, from, n + 1) == items + catalog_item(e));
    }
}

/// HELLO tells a host what it talks to: the protocol, the format and size of the
/// table and its fingerprint, and the limits. STATS tells how the samples went.
pub proof fn lemma_hello_and_stats(s: ServerView, t: Seq<EntryView>, ctx: Context)
    requires
        t.len() <= 0xffff,
    ensures
        answered(s, t, ctx, 0x01, Seq::empty()).answer matches Ok(body) && {
            &&& body.len() == 15
            &&& body[0] == 1
            &&& word32(body, 1) == 1
            &&& word16(body, 5) == t.len()
            &&& word32(body, 7) == fnv_of(descriptors(t))
            &&& word16(body, 11) == 256
            &&& word16(body, 13) == 3000
        },
        answered(s, t, ctx, 0x22, Seq::empty()).answer matches Ok(body) && {
            &&& body.len() == 12
            &&& word32(body, 0) == s.sent
            &&& word32(body, 4) == s.dropped
            &&& word32(body, 8) == ctx.bad_frames
        },
{
    let h = answered(s, t, ctx, 0x01, Seq::empty()).answer->Ok_0;
    let print = fnv_of(descriptors(t));
    assert(h.subrange(1, 5) =~= le32(1));
    assert(h.subrange(5, 7) =~= le16(t.len() as u16));
    assert(h.subrange(7, 11) =~= le32(print));
    assert(h.subrange(11, 13) =~= le16(256));
    assert(h.subrange(13, 15) =~= le16(3000));
    lemma_word32(h, 1, 1);
    lemma_word16(h, 5, t.len() as u16);
    lemma_word32(h, 7, print);
    lemma_word16(h, 11, 256);
    lemma_word16(h, 13, 3000);
    let b = answered(s, t, ctx, 0x22, Seq::empty()).answer->Ok_0;
    assert(b.subrange(0, 4) =~= le32(s.sent));
    assert(b.subrange(4, 8) =~= le32(s.dropped));
    assert(b.subrange(8, 12) =~= le32(ctx.bad_frames));
    lemma_word32(b, 0, s.sent);
    lemma_word32(b, 4, s.dropped);
    lemma_word32(b, 8, ctx.bad_frames);
}

/// A WRITE asks one entry for a value: the one that the id stands for, and nothing
/// else changes. It is accepted from the host that holds the lease, for an entry
/// that takes requests and, where it needs it, while the robot is safe, if the value
/// is of the entry's kind and in its range. The answer repeats the id and the value.
pub proof fn lemma_writes_ask_one_entry(
    s: ServerView,
    t: Seq<EntryView>,
    ctx: Context,
    p: Seq<u8>,
    k: int,
)
    requires
        p.len() == 16,
        t.len() <= usize::MAX,
        stands_for(t, word32(p, 4), k),
    ensures
        ({
            let o = answered(s, t, ctx, 0x12, p);
            let bits = word32(p, 12);
            let holds = s.lease matches Some((token, until)) && token == word32(p, 0) && until
                > ctx.now_us;
            let tag = match t[k].kind {
                Kind::F32 => 0u8,
                Kind::I32 => 1u8,
                Kind::U32 => 2u8,
                Kind::Bool => 3u8,
            };
            &&& o.server == s
            &&& o.answer is Ok <==> {
                &&& holds
                &&& t[k].access != Access::ReadOnly
                &&& t[k].access == Access::SafeOnly ==> ctx.safe
                &&& p[8] == tag
                &&& t[k].kind == Kind::F32 ==> crate::float_bits::f32_in_range(
                    bits as u32,
                    t[k].min,
                    t[k].max,
                )
            }
            &&& o.answer matches Ok(body) ==> {
                &&& o.table.len() == t.len()
                &&& o.table[k].requested == bits
                &&& o.table[k] == (EntryView { requested: bits as u32, ..t[k] })
                &&& forall|j: int| 0 <= j < t.len() && j != k ==> #[trigger] o.table[j] == t[j]
                &&& body.len() == 8 && word32(body, 0) == t[k].id && word32(body, 4) == bits
            }
            &&& o.answer is Err ==> o.table == t
        }),
{
    let id = u32_at(p, 4);
    let bits = u32_at(p, 12);
    lemma_found(t, id, k);
    let o = answered(s, t, ctx, 0x12, p);
    if o.answer is Ok {
        let body = o.answer->Ok_0;
        assert(body.subrange(0, 4) =~= le32(id));
        assert(body.subrange(4, 8) =~= le32(bits));
        lemma_word32(body, 0, id);
        lemma_word32(body, 4, bits);
    }
}

/// A WRITE for an id that the table does not have is refused as such, from the host
/// that holds the lease.
pub proof fn lemma_unknown_ids_are_refused(
    s: ServerView,
    t: Seq<EntryView>,
    ctx: Context,
    p: Seq<u8>,
)
    requires
        t.len() <= usize::MAX,
    ensures
        p.len() == 16 && !has_id(t, word32(p, 4)) && (s.lease matches Some((token, until))
            && token == word32(p, 0) && until > ctx.now_us) ==> answered(
            s,
            t,
            ctx,
            0x12,
            p,
        ).answer == Err::<Seq<u8>, Status>(Status::UnknownId),
        (p.len() >= 3 && p[2] <= 32 && p.len() == 3 + 4 * p[2] && exists|i: int|
            0 <= i < p[2] && !has_id(t, #[trigger] id_in(p, 3, i))) ==> answered(
            s,
            t,
            ctx,
            0x20,
            p,
        ).answer == Err::<Seq<u8>, Status>(Status::UnknownId),
{
    if p.len() == 16 && !has_id(t, word32(p, 4)) {
        lemma_position_is(t, u32_at(p, 4));
        if position_of(t, u32_at(p, 4)) is Some {
            assert(t[position_of(t, u32_at(p, 4))->0 as int].id == word32(p, 4));
        }
    }
    if p.len() >= 3 && p[2] <= 32 && p.len() == 3 + 4 * p[2] && exists|i: int|
        0 <= i < p[2] && !has_id(t, #[trigger] id_in(p, 3, i)) {
        let i = choose|i: int| 0 <= i < p[2] && !has_id(t, #[trigger] id_in(p, 3, i));
        let id = watch_id(p, i);
        assert(id == id_in(p, 3, i));
        lemma_position_is(t, id);
        if position_of(t, id) is Some {
            assert(t[position_of(t, id)->0 as int].id == id_in(p, 3, i));
        }
    }
}

/// How many of these entries take requests, one by one.
pub open spec fn taking_requests(t: Seq<EntryView>) -> Seq<EntryView> {
    t.filter(|e: EntryView| e.access != Access::ReadOnly)
}

/// An accepted DISCARD says how many values it reset: as many as take requests.
pub proof fn lemma_discard_counts(s: ServerView, t: Seq<EntryView>, ctx: Context, p: Seq<u8>)
    requires
        answered(s, t, ctx, 0x13, p).answer is Ok,
        t.len() <= 0xffff,
    ensures
        ({
            let o = answered(s, t, ctx, 0x13, p);
            &&& o.answer matches Ok(body) && body.len() == 2 && word16(body, 0) == taking_requests(
                t,
            ).len()
            &&& o.table.len() == t.len()
            &&& forall|i: int|
                0 <= i < t.len() ==> #[trigger] o.table[i] == (if t[i].access == Access::ReadOnly {
                    t[i]
                } else {
                    EntryView { requested: t[i].default, ..t[i] }
                })
        }),
{
    let body = answered(s, t, ctx, 0x13, p).answer->Ok_0;
    lemma_tunables_are_filtered(t);
    assert(body.subrange(0, 2) =~= body);
    lemma_word16(body, 0, crate::server::tunables(t) as u16);
}

proof fn lemma_tunables_are_filtered(t: Seq<EntryView>)
    ensures
        crate::server::tunables(t) == taking_requests(t).len(),
        taking_requests(t).len() <= t.len(),
    decreases t.len(),
{
    reveal(Seq::filter);
    if t.len() > 0 {
        lemma_tunables_are_filtered(t.drop_last());
    }
}

/// A reply starts with the status: zero and the answer behind it, or another number
/// alone, and every status has its own.
pub proof fn lemma_statuses_are_told_apart(
    st: Stream,
    reply: Header,
    generation: u32,
    a: Status,
    b: Status,
)
    requires
        st.buf.len() == 0,
        a != Status::Okay,
    ensures
        a.spec_code() == b.spec_code() ==> a == b,
        a.spec_code() != 0,
        exists|q: Seq<u8>|
            fed(st, reply_frame(reply, Ok(le32(generation)))) == (Stream {
                frames: st.frames.push(Packet { header: reply, payload: q }),
                ..st
            }) && q.len() == 5 && q[0] == 0 && #[trigger] word32(q, 1) == generation,
        fed(st, reply_frame(reply, Err(a))) == (Stream {
            frames: st.frames.push(Packet { header: reply, payload: seq![a.spec_code()] }),
            ..st
        }),
{
    let q = seq![0u8] + le32(generation);
    assert(q.subrange(1, 5) =~= le32(generation));
    lemma_word32(q, 1, generation);
    assert(seq![Status::Okay.spec_code()] + le32(generation) =~= q);
    lemma_frame_round_trip(st, reply, q);
    lemma_frame_round_trip(st, reply, seq![a.spec_code()]);
    assert(word32(q, 1) == generation);
}

/// A lease is the token of the host that took it, and that host alone can give it
/// back.
pub proof fn lemma_leases_are_given_back_by_their_holder(
    s: ServerView,
    t: Seq<EntryView>,
    ctx: Context,
    p: Seq<u8>,
)
    requires
        p.len() == 4,
        ctx.now_us <= u64::MAX - 3_000_000,
    ensures
        answered(s, t, ctx, 0x02, p).answer is Ok ==> answered(s, t, ctx, 0x02, p).server.lease
            == Some((word32(p, 0) as u32, (ctx.now_us + 3_000_000) as u64)),
        answered(s, t, ctx, 0x03, p).answer is Ok,
        (s.lease matches Some((token, _)) && token == word32(p, 0)) ==> answered(
            s,
            t,
            ctx,
            0x03,
            p,
        ).server.lease is None,
        !(s.lease matches Some((token, _)) && token == word32(p, 0)) ==> answered(
            s,
            t,
            ctx,
            0x03,
            p,
        ).server == s,
{
}

/// Every status has its own number on the wire.
pub proof fn lemma_statuses_have_their_numbers()
    ensures
        Status::Okay.spec_code() == 0,
        Status::BadFrame.spec_code() == 1,
        Status::UnknownCommand.spec_code() == 2,
        Status::UnknownId.spec_code() == 3,
        Status::ReadOnly.spec_code() == 4,
        Status::Range.spec_code() == 5,
        Status::StateDenied.spec_code() == 6,
        Status::WrongKind.spec_code() == 7,
        Status::SessionRequired.spec_code() == 8,
        Status::Busy.spec_code() == 9,
        Status::Budget.spec_code() == 10,
        Status::Storage.spec_code() == 11,
        Status::SaveUnsupported.spec_code() == 12,
{
}

/// Whether the answer to a request is a refusal with this status that changes nothing.
pub open spec fn refused_with(
    s: ServerView,
    t: Seq<EntryView>,
    ctx: Context,
    code: u8,
    p: Seq<u8>,
    status: Status,
) -> bool {
    let o = answered(s, t, ctx, code, p);
    o.answer == Err::<Seq<u8>, Status>(status) && o.server == s && o.table == t
}

/// Whether a token holds a lease that has not lapsed.
pub open spec fn holds_lease(s: ServerView, token: int, now_us: u64) -> bool {
    s.lease matches Some((held, until)) && held == token && until > now_us
}

/// A request of the wrong length is a bad frame, and one that is not known is told so.
pub proof fn lemma_malformed_requests_are_refused(
    s: ServerView,
    t: Seq<EntryView>,
    ctx: Context,
    code: u8,
    p: Seq<u8>,
)
    ensures
        p.len() > 0 ==> refused_with(s, t, ctx, 0x01, p, Status::BadFrame),
        p.len() != 4 ==> refused_with(s, t, ctx, 0x02, p, Status::BadFrame),
        p.len() != 4 ==> refused_with(s, t, ctx, 0x03, p, Status::BadFrame),
        p.len() != 3 ==> refused_with(s, t, ctx, 0x10, p, Status::BadFrame),
        p.len() == 0 || p.len() != 1 + 4 * p[0] ==> refused_with(
            s,
            t,
            ctx,
            0x11,
            p,
            Status::BadFrame,
        ),
        p.len() != 16 ==> refused_with(s, t, ctx, 0x12, p, Status::BadFrame),
        p.len() != 4 ==> refused_with(s, t, ctx, 0x13, p, Status::BadFrame),
        p.len() < 3 || p[2] > 32 || p.len() != 3 + 4 * p[2] ==> refused_with(
            s,
            t,
            ctx,
            0x20,
            p,
            Status::BadFrame,
        ),
        p.len() > 0 ==> refused_with(s, t, ctx, 0x22, p, Status::BadFrame),
        code != 0x01 && code != 0x02 && code != 0x03 && code != 0x10 && code != 0x11 && code != 0x12
            && code != 0x13 && code != 0x20 && code != 0x22 ==> refused_with(
            s,
            t,
            ctx,
            code,
            p,
            Status::UnknownCommand,
        ),
{
}

/// A request that may not be carried out is told why: another tool holds the lease,
/// this one does not, the value takes no requests or not in this state, or the kind or
/// the range is wrong.
pub proof fn lemma_refusals_say_why(
    s: ServerView,
    t: Seq<EntryView>,
    ctx: Context,
    p: Seq<u8>,
    k: int,
)
    requires
        t.len() <= usize::MAX,
    ensures
        p.len() == 4 && (s.lease matches Some((held, until)) && held != word32(p, 0) && until
            > ctx.now_us) ==> refused_with(s, t, ctx, 0x02, p, Status::Busy),
        p.len() == 4 && !(s.lease matches Some((held, until)) && held != word32(p, 0) && until
            > ctx.now_us) ==> answered(s, t, ctx, 0x02, p).answer is Ok,
        p.len() == 16 && !holds_lease(s, word32(p, 0), ctx.now_us) ==> refused_with(
            s,
            t,
            ctx,
            0x12,
            p,
            Status::SessionRequired,
        ),
        p.len() == 4 && !holds_lease(s, word32(p, 0), ctx.now_us) ==> refused_with(
            s,
            t,
            ctx,
            0x13,
            p,
            Status::SessionRequired,
        ),
        p.len() == 4 && holds_lease(s, word32(p, 0), ctx.now_us) && !ctx.safe && 0 <= k < t.len()
            && t[k].access == Access::SafeOnly ==> refused_with(
            s,
            t,
            ctx,
            0x13,
            p,
            Status::StateDenied,
        ),
        p.len() == 4 && holds_lease(s, word32(p, 0), ctx.now_us) && (ctx.safe || forall|i: int|
            0 <= i < t.len() ==> (#[trigger] t[i]).access != Access::SafeOnly) ==> answered(
            s,
            t,
            ctx,
            0x13,
            p,
        ).answer is Ok,
        p.len() == 16 && holds_lease(s, word32(p, 0), ctx.now_us) && stands_for(
            t,
            word32(p, 4),
            k,
        ) ==> {
            &&& t[k].access == Access::ReadOnly ==> refused_with(
                s,
                t,
                ctx,
                0x12,
                p,
                Status::ReadOnly,
            )
            &&& t[k].access == Access::SafeOnly && !ctx.safe ==> refused_with(
                s,
                t,
                ctx,
                0x12,
                p,
                Status::StateDenied,
            )
            &&& t[k].access == Access::Live && p[8] != t[k].kind.spec_tag() ==> refused_with(
                s,
                t,
                ctx,
                0x12,
                p,
                Status::WrongKind,
            )
            &&& t[k].access == Access::Live && t[k].kind == Kind::F32 && p[8] == 0
                && !crate::float_bits::f32_in_range(word32(p, 12) as u32, t[k].min, t[k].max)
                ==> refused_with(s, t, ctx, 0x12, p, Status::Range)
        },
{
    if p.len() >= 4 {
        assert(u32_at(p, 0) == word32(p, 0));
    }
    if p.len() == 16 {
        assert(u32_at(p, 4) == word32(p, 4));
        assert(u32_at(p, 12) == word32(p, 12));
        if stands_for(t, word32(p, 4), k) {
            lemma_position(t, word32(p, 4) as u32, k);
        }
    }
}

/// Watching nothing, or at no rate, ends the watch; a watch that would send more than
/// 64000 bytes a second is refused, and any other on values that are there is taken.
pub proof fn lemma_watches_keep_to_the_budget(
    s: ServerView,
    t: Seq<EntryView>,
    ctx: Context,
    p: Seq<u8>,
)
    requires
        p.len() >= 3,
        p[2] <= 32,
        p.len() == 3 + 4 * p[2],
        t.len() <= usize::MAX,
        forall|i: int| 0 <= i < p[2] ==> has_id(t, #[trigger] id_in(p, 3, i)),
    ensures
        ({
            let o = answered(s, t, ctx, 0x20, p);
            let period = word16(p, 0);
            &&& o.table == t
            &&& period == 0 || p[2] == 0 ==> o.answer == Ok::<Seq<u8>, Status>(seq![0u8])
                && o.server.watches.len() == 0 && o.server.lease == s.lease
            &&& period > 0 && p[2] > 0 && (19 + 4 * p[2]) * 1000 / period > 64_000 ==> o.answer
                == Err::<Seq<u8>, Status>(Status::Budget) && o.server == s
            &&& period > 0 && p[2] > 0 && (19 + 4 * p[2]) * 1000 / period <= 64_000 ==> o.answer
                == Ok::<Seq<u8>, Status>(seq![p[2]]) && o.server.watches.len() == p[2]
                && o.server.lease == s.lease && o.server.save == s.save
        }),
{
    assert(u16_at(p, 0) == word16(p, 0));
    assert forall|i: int| 0 <= i < p[2] implies position_of(
        t,
        #[trigger] watch_id(p, i),
    ) is Some by {
        assert(watch_id(p, i) == id_in(p, 3, i));
        assert(has_id(t, id_in(p, 3, i)));
        lemma_position_is(t, watch_id(p, i));
    }
}

/// A save needs the lease, storage and no other save; one that is taken up is answered
/// later, and whatever is answered at once is answered under its own number.
pub proof fn lemma_saves_are_taken_one_by_one(
    s: ServerView,
    t: Seq<EntryView>,
    ctx: Context,
    header: Header,
    p: Seq<u8>,
)
    requires
        header.cmd < 0x80,
    ensures
        ({
            let (after, table, reply) = handled(
                s,
                t,
                ctx,
                Header { cmd: 0x14, ..header },
                p,
            );
            let again = Header { cmd: 0x94, flags: 0, seq: header.seq };
            &&& table == t
            &&& p.len() != 4 ==> after == s && reply == reply_frame(again, Err(Status::BadFrame))
            &&& p.len() == 4 && !holds_lease(s, word32(p, 0), ctx.now_us) ==> after == s && reply
                == reply_frame(again, Err(Status::SessionRequired))
            &&& p.len() == 4 && holds_lease(s, word32(p, 0), ctx.now_us) && !s.save_supported
                ==> after == s && reply == reply_frame(again, Err(Status::SaveUnsupported))
            &&& p.len() == 4 && holds_lease(s, word32(p, 0), ctx.now_us) && s.save_supported
                && s.save is Some ==> after == s && reply == reply_frame(again, Err(Status::Busy))
            &&& p.len() == 4 && holds_lease(s, word32(p, 0), ctx.now_us) && s.save_supported
                && s.save is None ==> after == (ServerView { save: Some(header.seq), ..s })
                && reply.len() == 0
        }),
        header.cmd != 0x14 ==> ({
            let o = answered(s, t, ctx, header.cmd, p);
            handled(s, t, ctx, header, p) == (
                o.server,
                o.table,
                reply_frame(
                    Header { cmd: (header.cmd + 0x80) as u8, flags: 0, seq: header.seq },
                    o.answer,
                ),
            )
        }),
{
    let c = header.cmd;
    assert(c < 0x80 ==> c | 0x80 == c + 0x80) by (bit_vector);
    assert(0x14u8 | 0x80u8 == 0x94u8) by (bit_vector);
    if p.len() == 4 {
        assert(u32_at(p, 0) == word32(p, 0));
    }
}

} // verus!
