//! Where everything stands in what is sent and stored, byte by byte.

use vstd::prelude::*;
use vstd::string::*;
use crate::bytes::{group_le_len, le16, le32};
use crate::framing::{encoded, frame_payload};
use crate::host_wire::{slot_bytes, spec_status_message};
use crate::server_laws::{word16, word32};
use crate::store::{
    item_bytes, items_bytes, lemma_items_len, record_body, record_bytes, saved_items,
    Item, RecordView,
};
use crate::table::{Access, EntryView, Kind};
use crate::task_trace::{event_bytes, events_bytes, trace_image, Event};
use crate::wire::{crc_of, frame_body, frame_bytes, head_bytes, Header, Status};

verus! {

broadcast use group_le_len;

proof fn lemma_two(b: Seq<u8>, at: int, x: u16)
    requires
        0 <= at,
        at + 2 <= b.len(),
        b.subrange(at, at + 2) == le16(x),
    ensures
        word16(b, at) == x,
{
    reveal(le16);
    assert(b[at] == b.subrange(at, at + 2)[0] && b[at + 1] == b.subrange(at, at + 2)[1]);
}

proof fn lemma_four(b: Seq<u8>, at: int, x: u32)
    requires
        0 <= at,
        at + 4 <= b.len(),
        b.subrange(at, at + 4) == le32(x),
    ensures
        word32(b, at) == x,
{
    reveal(le32);
    let s = b.subrange(at, at + 4);
    assert(b[at] == s[0] && b[at + 1] == s[1] && b[at + 2] == s[2] && b[at + 3] == s[3]);
}

/// A frame is a mark, the protocol's version, the command, the flags, the sequence
/// number and the payload's length, then the payload, and at the end the check over
/// all that is before it.
pub proof fn lemma_frames_are_laid_out(header: Header, payload: Seq<u8>)
    requires
        payload.len() <= 256,
    ensures
        ({
            let f = frame_bytes(header, payload);
            let n = payload.len() as int;
            &&& f.len() == 10 + n
            &&& f[0] == 0xa5
            &&& f[1] == 1
            &&& f[2] == header.cmd
            &&& f[3] == header.flags
            &&& word16(f, 4) == header.seq
            &&& word16(f, 6) == n
            &&& f.subrange(8, 8 + n) == payload
            &&& word16(f, 8 + n) == crc_of(f.take(8 + n))
        }),
{
    reveal(frame_bytes);
    let f = frame_bytes(header, payload);
    let n = payload.len() as int;
    let body = frame_body(header, payload);
    let head = head_bytes(header, payload.len() as u16);
    assert(f.subrange(4, 6) =~= le16(header.seq));
    assert(f.subrange(6, 8) =~= le16(payload.len() as u16));
    lemma_two(f, 4, header.seq);
    lemma_two(f, 6, payload.len() as u16);
    assert(f.subrange(8, 8 + n) =~= payload);
    assert(f.take(8 + n) =~= body);
    assert(f.subrange(8 + n, 8 + n + 2) =~= le16(crc_of(body)));
    lemma_two(f, 8 + n, crc_of(body));
}

/// A slot is a value's kind, three bytes that are zero, and its bits.
pub proof fn lemma_slots_are_laid_out(tag: u8, bits: u32)
    ensures
        slot_bytes(tag, bits).len() == 8,
        slot_bytes(tag, bits)[0] == tag,
        slot_bytes(tag, bits)[1] == 0,
        slot_bytes(tag, bits)[2] == 0,
        slot_bytes(tag, bits)[3] == 0,
        word32(slot_bytes(tag, bits), 4) == bits,
{
    let s = slot_bytes(tag, bits);
    assert(s.subrange(4, 8) =~= le32(bits));
    lemma_four(s, 4, bits);
}

/// A message is the length of what follows, its kind, and what it carries; a frame
/// of samples carries its session, a word that is zero, and the samples.
pub proof fn lemma_messages_are_laid_out(
    kind: u8,
    payload: Seq<u8>,
    session: u32,
    samples: Seq<u8>,
)
    requires
        payload.len() < u32::MAX,
    ensures
        ({
            let m = encoded(kind, payload);
            &&& m.len() == 5 + payload.len()
            &&& word32(m, 0) == 1 + payload.len()
            &&& m[4] == kind
            &&& m.skip(5) == payload
        }),
        ({
            let f = frame_payload(session, samples);
            &&& f.len() == 8 + samples.len()
            &&& word32(f, 0) == session
            &&& word32(f, 4) == 0
            &&& f.skip(8) == samples
        }),
{
    let m = encoded(kind, payload);
    assert(m.subrange(0, 4) =~= le32((payload.len() + 1) as u32));
    lemma_four(m, 0, (payload.len() + 1) as u32);
    assert(m.skip(5) =~= payload);
    let f = frame_payload(session, samples);
    assert(f.subrange(0, 4) =~= le32(session));
    assert(f.subrange(4, 8) =~= le32(0));
    lemma_four(f, 0, session);
    lemma_four(f, 4, 0);
    assert(f.skip(8) =~= samples);
}

proof fn lemma_item_in(items: Seq<Item>, i: int)
    requires
        0 <= i < items.len(),
    ensures
        items_bytes(items).len() == 12 * items.len(),
        items_bytes(items).subrange(12 * i, 12 * i + 12) == item_bytes(items[i]),
    decreases items.len(),
{
    lemma_items_len(items);
    let rest = items.drop_last();
    lemma_items_len(rest);
    let all = items_bytes(items);
    if i < rest.len() {
        lemma_item_in(rest, i);
        assert(all.subrange(12 * i, 12 * i + 12) =~= items_bytes(rest).subrange(
            12 * i,
            12 * i + 12,
        ));
    } else {
        assert(all.subrange(12 * i, 12 * i + 12) =~= item_bytes(items[i]));
    }
}

/// A record is its mark, its version, how many values it holds and its generation,
/// then each value's id, kind, three bytes that are zero and its bits, and at the end
/// the check over all that is before it.
pub proof fn lemma_records_are_laid_out(r: RecordView, i: int)
    requires
        r.items.len() <= 0xffff,
        0 <= i < r.items.len(),
    ensures
        ({
            let b = record_bytes(r);
            let n = r.items.len() as int;
            let at = 12 + 12 * i;
            &&& b.len() == 14 + 12 * n
            &&& word32(b, 0) == 0x5354_4d52
            &&& word16(b, 4) == 1
            &&& word16(b, 6) == n
            &&& word32(b, 8) == r.generation
            &&& word32(b, at) == r.items[i].id
            &&& b[at + 4] == r.items[i].kind
            &&& b[at + 5] == 0 && b[at + 6] == 0 && b[at + 7] == 0
            &&& word32(b, at + 8) == r.items[i].bits
            &&& word16(b, 12 + 12 * n) == crc_of(b.take(12 + 12 * n))
        }),
{
    let b = record_bytes(r);
    let body = record_body(r);
    let n = r.items.len() as int;
    let items = items_bytes(r.items);
    let item = item_bytes(r.items[i]);
    let at = 12 + 12 * i;
    lemma_item_in(r.items, i);
    assert(b.subrange(0, 4) =~= le32(0x5354_4d52));
    assert(b.subrange(4, 6) =~= le16(1));
    assert(b.subrange(6, 8) =~= le16(n as u16));
    assert(b.subrange(8, 12) =~= le32(r.generation));
    lemma_four(b, 0, 0x5354_4d52);
    lemma_two(b, 4, 1);
    lemma_two(b, 6, n as u16);
    lemma_four(b, 8, r.generation);
    assert(b.subrange(at, at + 12) =~= item) by {
        assert(b.subrange(at, at + 12) =~= items.subrange(12 * i, 12 * i + 12));
    }
    let s = b.subrange(at, at + 12);
    assert(b.subrange(at, at + 4) =~= s.subrange(0, 4));
    assert(item.subrange(0, 4) =~= le32(r.items[i].id));
    lemma_four(b, at, r.items[i].id);
    assert(b.subrange(at + 8, at + 12) =~= s.subrange(8, 12));
    assert(item.subrange(8, 12) =~= le32(r.items[i].bits));
    lemma_four(b, at + 8, r.items[i].bits);
    assert(s[4] == b[at + 4] && s[5] == b[at + 5] && s[6] == b[at + 6] && s[7] == b[at + 7]);
    assert(b.take(12 + 12 * n) =~= body);
    assert(b.subrange(12 + 12 * n, 14 + 12 * n) =~= le16(crc_of(body)));
    lemma_two(b, 12 + 12 * n, crc_of(body));
}

/// What is saved is what every value that takes requests was asked for, in the
/// table's order, under its id and with its kind.
pub proof fn lemma_requests_are_saved(t: Seq<EntryView>)
    ensures
        ({
            let kept = t.filter(|e: EntryView| e.access != Access::ReadOnly);
            let items = saved_items(t);
            &&& items.len() == kept.len()
            &&& forall|i: int|
                0 <= i < kept.len() ==> (#[trigger] items[i]).id == kept[i].id && items[i].bits
                    == kept[i].requested && items[i].kind == (match kept[i].kind {
                    Kind::F32 => 0u8,
                    Kind::I32 => 1u8,
                    Kind::U32 => 2u8,
                    Kind::Bool => 3u8,
                })
        }),
    decreases t.len(),
{
    reveal(Seq::filter);
    if t.len() > 0 {
        lemma_requests_are_saved(t.drop_last());
        let p = |e: EntryView| e.access != Access::ReadOnly;
        let kept0 = t.drop_last().filter(p);
        let items0 = saved_items(t.drop_last());
        let kept = t.filter(p);
        let items = saved_items(t);
        assert forall|i: int| 0 <= i < kept0.len() implies kept[i] == #[trigger] kept0[i] && items[i]
            == items0[i] by {}
    }
}

proof fn lemma_event_in(events: Seq<Event>, i: int)
    requires
        0 <= i < events.len(),
    ensures
        events_bytes(events).len() == 24 * events.len(),
        events_bytes(events).subrange(24 * i, 24 * i + 24) == event_bytes(events[i]),
    decreases events.len(),
{
    let rest = events.drop_last();
    let all = events_bytes(events);
    if rest.len() > 0 {
        lemma_event_in(rest, if i < rest.len() { i } else { 0 });
    } else {
        assert(events_bytes(rest).len() == 0);
    }
    if i < rest.len() {
        assert(all.subrange(24 * i, 24 * i + 24) =~= events_bytes(rest).subrange(
            24 * i,
            24 * i + 24,
        ));
    } else {
        assert(all.subrange(24 * i, 24 * i + 24) =~= event_bytes(events[i]));
    }
}

/// A trace in memory is its mark, its version, how many slots it has, its clock's
/// rate and how many events were recorded, then the slots: an event's number, its
/// time, its task, its kind and its number again.
pub proof fn lemma_traces_are_laid_out(hz: u32, head: u32, events: Seq<Event>, i: int)
    requires
        0 <= i < events.len() <= u32::MAX,
    ensures
        ({
            let b = trace_image(hz, head, events);
            let at = 20 + 24 * i;
            &&& b.len() == 20 + 24 * events.len()
            &&& word32(b, 0) == 0x5354_5452
            &&& word32(b, 4) == 1
            &&& word32(b, 8) == events.len()
            &&& word32(b, 12) == hz
            &&& word32(b, 16) == head
            &&& word32(b, at) == events[i].first
            &&& word32(b, at + 4) == events[i].low
            &&& word32(b, at + 8) == events[i].high
            &&& word32(b, at + 12) == events[i].task
            &&& word32(b, at + 16) == events[i].kind
            &&& word32(b, at + 20) == events[i].last
        }),
{
    let b = trace_image(hz, head, events);
    let all = events_bytes(events);
    let e = event_bytes(events[i]);
    let at = 20 + 24 * i;
    lemma_event_in(events, i);
    assert(b.subrange(0, 4) =~= le32(0x5354_5452));
    assert(b.subrange(4, 8) =~= le32(1));
    assert(b.subrange(8, 12) =~= le32(events.len() as u32));
    assert(b.subrange(12, 16) =~= le32(hz));
    assert(b.subrange(16, 20) =~= le32(head));
    lemma_four(b, 0, 0x5354_5452);
    lemma_four(b, 4, 1);
    lemma_four(b, 8, events.len() as u32);
    lemma_four(b, 12, hz);
    lemma_four(b, 16, head);
    let s = b.subrange(at, at + 24);
    assert(s =~= e) by {
        assert(s =~= all.subrange(24 * i, 24 * i + 24));
    }
    assert(b.subrange(at, at + 4) =~= s.subrange(0, 4));
    assert(b.subrange(at + 4, at + 8) =~= s.subrange(4, 8));
    assert(b.subrange(at + 8, at + 12) =~= s.subrange(8, 12));
    assert(b.subrange(at + 12, at + 16) =~= s.subrange(12, 16));
    assert(b.subrange(at + 16, at + 20) =~= s.subrange(16, 20));
    assert(b.subrange(at + 20, at + 24) =~= s.subrange(20, 24));
    assert(e.subrange(0, 4) =~= le32(events[i].first));
    assert(e.subrange(4, 8) =~= le32(events[i].low));
    assert(e.subrange(8, 12) =~= le32(events[i].high));
    assert(e.subrange(12, 16) =~= le32(events[i].task));
    assert(e.subrange(16, 20) =~= le32(events[i].kind));
    assert(e.subrange(20, 24) =~= le32(events[i].last));
    lemma_four(b, at, events[i].first);
    lemma_four(b, at + 4, events[i].low);
    lemma_four(b, at + 8, events[i].high);
    lemma_four(b, at + 12, events[i].task);
    lemma_four(b, at + 16, events[i].kind);
    lemma_four(b, at + 20, events[i].last);
}

/// What a status says to a person is what it stands for on the wire.
pub proof fn lemma_statuses_are_explained()
    ensures
        spec_status_message(Status::Okay.spec_code()) == "ok"@,
        spec_status_message(Status::BadFrame.spec_code())
            == "the firmware could not parse the request"@,
        spec_status_message(Status::UnknownCommand.spec_code())
            == "the firmware does not know this command"@,
        spec_status_message(Status::UnknownId.spec_code())
            == "the firmware has no value with this id"@,
        spec_status_message(Status::ReadOnly.spec_code()) == "this value is read-only"@,
        spec_status_message(Status::Range.spec_code())
            == "the value is outside the range the firmware allows"@,
        spec_status_message(Status::StateDenied.spec_code())
            == "the firmware only allows this change in a safe state"@,
        spec_status_message(Status::WrongKind.spec_code())
            == "the value's type does not match the firmware's"@,
        spec_status_message(Status::SessionRequired.spec_code())
            == "this session no longer holds the tuning lease"@,
        spec_status_message(Status::Busy.spec_code()) == "another tool holds the tuning lease"@,
        spec_status_message(Status::Budget.spec_code())
            == "the watch list would exceed the firmware's sample budget"@,
        spec_status_message(Status::SaveUnsupported.spec_code())
            == "this firmware does not support saving"@,
{
}

} // verus!
