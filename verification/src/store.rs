//! Saved requests: a record format for two erase blocks written in turn.
//!
//! ```text
//! magic u32 | version u16 | count u16 | generation u32 | count × (id u32, kind u8, 0 0 0, bits u32) | crc16
//! ```
//!
//! A save writes the slot that does not hold the newest valid record, with the
//! next generation, so power lost mid-write leaves the older record intact.
//! Values are matched by id and kind on restore, so a record survives a
//! rebuild that adds, removes or reorders values. The library owns no flash
//! driver; the caller moves the bytes.

use vstd::prelude::*;
use crate::bytes::{copy_range, get_u16, get_u32, put_u16, put_u32};
#[allow(unused_imports)]
use crate::bytes::{group_le_len, le16, le32, lemma_le16, lemma_le32, u16_at, u32_at};
use crate::float_bits::in_range;
#[allow(unused_imports)]
use crate::float_bits::f32_in_range;
#[allow(unused_imports)]
use crate::server::{requests_in_range, same_descriptors, tunables};
use crate::table::{Entry, Kind, Table};
#[allow(unused_imports)]
use crate::table::EntryView;
use crate::wire::{crc16, Overflow};
#[allow(unused_imports)]
use crate::wire::crc_of;

verus! {

broadcast use group_le_len;

/// `RMTS` in little-endian byte order.
pub const RECORD_MAGIC: u32 = 0x5354_4d52;

pub const RECORD_VERSION: u16 = 1;

/// Bytes before a record's values.
pub const HEADER_LEN: usize = 12;

/// Bytes of one saved value.
pub const ITEM_LEN: usize = 12;

/// Bytes of a record's CRC.
pub const CRC_LEN: usize = 2;

/// A saved value: its id, kind tag and bits.
pub struct Item {
    pub id: u32,
    pub kind: u8,
    pub bits: u32,
}

/// What a record holds.
#[verifier::ext_equal]
pub struct RecordView {
    pub generation: u32,
    pub items: Seq<Item>,
}

/// The bytes of one saved value.
pub open spec fn item_bytes(item: Item) -> Seq<u8> {
    le32(item.id) + seq![item.kind, 0u8, 0u8, 0u8] + le32(item.bits)
}

/// The bytes of saved values, one after another.
pub open spec fn items_bytes(items: Seq<Item>) -> Seq<u8>
    decreases items.len(),
{
    if items.len() == 0 {
        Seq::empty()
    } else {
        items_bytes(items.drop_last()) + item_bytes(items.last())
    }
}

/// The bytes before a record's values.
pub open spec fn record_head(count: u16, generation: u32) -> Seq<u8> {
    le32(RECORD_MAGIC) + le16(RECORD_VERSION) + le16(count) + le32(generation)
}

/// What a record's CRC covers.
pub open spec fn record_body(r: RecordView) -> Seq<u8> {
    record_head(r.items.len() as u16, r.generation) + items_bytes(r.items)
}

/// The bytes of a record.
pub open spec fn record_bytes(r: RecordView) -> Seq<u8> {
    record_body(r) + le16(crc_of(record_body(r)))
}

/// The request of every tunable, in table order.
pub open spec fn saved_items(t: Seq<EntryView>) -> Seq<Item>
    decreases t.len(),
{
    if t.len() == 0 {
        Seq::empty()
    } else if t.last().tunable() {
        let e = t.last();
        saved_items(t.drop_last()).push(
            Item { id: e.id, kind: e.kind.spec_tag(), bits: e.requested },
        )
    } else {
        saved_items(t.drop_last())
    }
}

/// Bytes a record of `count` values needs.
pub open spec fn len_for(count: nat) -> nat {
    HEADER_LEN as nat + count * ITEM_LEN as nat + CRC_LEN as nat
}

/// The count field of the record at the start of `bytes`.
pub open spec fn count_at(bytes: Seq<u8>) -> nat {
    u16_at(bytes, 6) as nat
}

/// Whether a valid record stands at the start of `bytes`: this format, whole,
/// with the CRC of its bytes.
pub open spec fn holds_record(bytes: Seq<u8>) -> bool {
    &&& bytes.len() >= HEADER_LEN
    &&& u32_at(bytes, 0) == RECORD_MAGIC
    &&& u16_at(bytes, 4) == RECORD_VERSION
    &&& bytes.len() >= len_for(count_at(bytes))
    &&& u16_at(bytes, HEADER_LEN + count_at(bytes) * ITEM_LEN) == crc_of(
        bytes.take(HEADER_LEN + count_at(bytes) * ITEM_LEN),
    )
}

/// The saved value at place `i` of the record at the start of `bytes`.
pub open spec fn item_at(bytes: Seq<u8>, i: int) -> Item {
    let at = HEADER_LEN + i * ITEM_LEN;
    Item { id: u32_at(bytes, at), kind: bytes[at + 4], bits: u32_at(bytes, at + 8) }
}

/// The record at the start of `bytes`.
pub open spec fn record_at(bytes: Seq<u8>) -> RecordView {
    RecordView {
        generation: u32_at(bytes, 8),
        items: Seq::new(count_at(bytes), |i: int| item_at(bytes, i)),
    }
}

/// Bytes a record for `table` needs.
pub fn record_len(table: &Table) -> (r: usize)
    requires
        len_for(tunables(table@)) <= usize::MAX,
    ensures
        r == len_for(tunables(table@)),
{
    let mut count: usize = 0;
    let mut i: usize = 0;
    let entries: &[Entry] = table.entries();
    assert(table@.take(0) =~= Seq::<EntryView>::empty());
    while i < entries.len()
        invariant
            i <= entries@.len(),
            crate::table::views(entries@) == table@,
            count == tunables(table@.take(i as int)),
            count <= i,
        decreases entries@.len() - i,
    {
        let tunable: bool = entries[i].is_tunable();
        assert(entries@[i as int]@ == table@[i as int]);
        if tunable {
            count = count + 1;
        }
        i = i + 1;
        proof {
            assert(table@.take(i as int).drop_last() =~= table@.take(i - 1));
        }
    }
    assert(table@.take(table@.len() as int) =~= table@);
    HEADER_LEN + count * ITEM_LEN + CRC_LEN
}

/// As many values are saved as there are tunables.
pub proof fn lemma_saved_len(t: Seq<EntryView>)
    ensures
        saved_items(t).len() == tunables(t),
    decreases t.len(),
{
    if t.len() > 0 {
        lemma_saved_len(t.drop_last());
    }
}

/// Values take twelve bytes each.
pub proof fn lemma_items_len(items: Seq<Item>)
    ensures
        items_bytes(items).len() == items.len() * ITEM_LEN,
    decreases items.len(),
{
    if items.len() > 0 {
        lemma_items_len(items.drop_last());
    }
}

/// Every tunable's current request as a record, for a slot of `room` bytes.
///
/// Refused when the slot is shorter than [`record_len`], or when the count
/// does not fit its field.
pub fn encode(table: &Table, generation: u32, room: usize) -> (r: Result<Vec<u8>, Overflow>)
    requires
        len_for(tunables(table@)) <= usize::MAX,
    ensures
        r is Ok <==> tunables(table@) <= u16::MAX && len_for(tunables(table@)) <= room,
        r matches Ok(record) ==> {
            &&& record@ == record_bytes(RecordView { generation, items: saved_items(table@) })
            &&& record@.len() == len_for(tunables(table@))
        },
{
    let len: usize = record_len(table);
    let count: usize = (len - HEADER_LEN - CRC_LEN) / ITEM_LEN;
    if count > u16::MAX as usize || len > room {
        return Err(Overflow);
    }
    let mut record: Vec<u8> = Vec::new();
    put_u32(&mut record, RECORD_MAGIC);
    put_u16(&mut record, RECORD_VERSION);
    put_u16(&mut record, count as u16);
    put_u32(&mut record, generation);
    let ghost head = record_head(count as u16, generation);
    assert(record@ =~= head);
    let entries: &[Entry] = table.entries();
    let mut i: usize = 0;
    assert(table@.take(0) =~= Seq::<EntryView>::empty());
    assert(head =~= head + Seq::<u8>::empty());
    while i < entries.len()
        invariant
            i <= entries@.len(),
            crate::table::views(entries@) == table@,
            record@ == head + items_bytes(saved_items(table@.take(i as int))),
        decreases entries@.len() - i,
    {
        let e: &Entry = &entries[i];
        assert(e@ == table@[i as int]);
        let ghost before = saved_items(table@.take(i as int));
        proof {
            assert(table@.take(i + 1).drop_last() =~= table@.take(i as int));
        }
        if e.is_tunable() {
            let ghost item = Item { id: e@.id, kind: e@.kind.spec_tag(), bits: e@.requested };
            put_u32(&mut record, e.id());
            record.push(e.kind().tag());
            record.push(0);
            record.push(0);
            record.push(0);
            put_u32(&mut record, e.requested_bits());
            proof {
                assert(before.push(item).drop_last() =~= before);
                assert(record@ =~= head + (items_bytes(before) + item_bytes(item)));
            }
        }
        i = i + 1;
    }
    proof {
        assert(table@.take(table@.len() as int) =~= table@);
        lemma_saved_len(table@);
        lemma_items_len(saved_items(table@));
    }
    let crc: u16 = crc16(record.as_slice());
    put_u16(&mut record, crc);
    Ok(record)
}

/// A valid record found at the start of a slot.
#[derive(Debug)]
pub struct Record<'a> {
    bytes: &'a [u8],
    count: usize,
}

impl View for Record<'_> {
    type V = RecordView;

    closed spec fn view(&self) -> RecordView {
        record_at(self.bytes@)
    }
}

impl<'a> Record<'a> {
    #[verifier::type_invariant]
    spec fn well_formed(self) -> bool {
        holds_record(self.bytes@) && self.count == count_at(self.bytes@)
    }

    /// Parse the record at the start of `bytes`; anything after it is ignored.
    /// Erased flash, a torn write or another format reads as `None`.
    pub fn decode(bytes: &'a [u8]) -> (r: Option<Self>)
        ensures
            r is Some <==> holds_record(bytes@),
            r matches Some(record) ==> record@ == record_at(bytes@),
    {
        if bytes.len() < HEADER_LEN {
            return None;
        }
        if get_u32(bytes, 0) != RECORD_MAGIC || get_u16(bytes, 4) != RECORD_VERSION {
            return None;
        }
        let count: usize = get_u16(bytes, 6) as usize;
        let body: usize = HEADER_LEN + count * ITEM_LEN;
        if bytes.len() < body + CRC_LEN {
            return None;
        }
        let covered: Vec<u8> = copy_range(bytes, 0, body);
        assert(covered@ =~= bytes@.take(body as int));
        if get_u16(bytes, body) != crc16(covered.as_slice()) {
            return None;
        }
        Some(Record { bytes, count })
    }

    /// The generation the record was saved with.
    pub fn generation(&self) -> (r: u32)
        ensures
            r == self@.generation,
    {
        proof {
            use_type_invariant(self);
        }
        get_u32(self.bytes, 8)
    }

    fn item(&self, i: usize) -> (r: (u32, u8, u32))
        requires
            i < self@.items.len(),
        ensures
            self@.items[i as int] == (Item { id: r.0, kind: r.1, bits: r.2 }),
    {
        proof {
            use_type_invariant(self);
        }
        let at: usize = HEADER_LEN + i * ITEM_LEN;
        (get_u32(self.bytes, at), self.bytes[at + 4], get_u32(self.bytes, at + 8))
    }

    /// Saved `(id, kind tag, bits)` in record order.
    pub fn items(&self) -> (r: Vec<(u32, u8, u32)>)
        ensures
            r@.len() == self@.items.len(),
            forall|i: int|
                0 <= i < r@.len() ==> #[trigger] self@.items[i] == (Item {
                    id: r@[i].0,
                    kind: r@[i].1,
                    bits: r@[i].2,
                }),
    {
        proof {
            use_type_invariant(self);
        }
        let mut out: Vec<(u32, u8, u32)> = Vec::new();
        while out.len() < self.count
            invariant
                out@.len() <= self.count == self@.items.len(),
                forall|i: int|
                    0 <= i < out@.len() ==> #[trigger] self@.items[i] == (Item {
                        id: out@[i].0,
                        kind: out@[i].1,
                        bits: out@[i].2,
                    }),
            decreases self.count - out@.len(),
        {
            let item: (u32, u8, u32) = self.item(out.len());
            out.push(item);
        }
        out
    }

    /// Request each saved value that still names a tunable of the same kind
    /// and, for `f32`, is finite and in range. Returns how many were restored.
    ///
    /// The owner still applies the request at its declared step, so a restored
    /// value is reached from the code default over the first ticks.
    pub fn restore(&self, table: &mut Table) -> (r: usize)
        ensures
            (final(table)@, r as nat) == restored(old(table)@, self@.items),
    {
        proof {
            use_type_invariant(self);
        }
        let ghost t = table@;
        let ghost items = self@.items;
        let mut count: usize = 0;
        let mut i: usize = 0;
        assert(items.take(0) =~= Seq::<Item>::empty());
        while i < self.count
            invariant
                i <= self.count == items.len(),
                items == self@.items,
                count <= i,
                (table@, count as nat) == restored(t, items.take(i as int)),
            decreases self.count - i,
        {
            let (id, kind, bits) = self.item(i);
            let ghost item = items[i as int];
            let ghost before = table@;
            proof {
                assert(items.take(i + 1).drop_last() =~= items.take(i as int));
                assert(items.take(i + 1).last() == item);
            }
            match find_tunable(table, id) {
                Some(at) => {
                    let e: &Entry = table.entry(at);
                    if takes(e, kind, bits) {
                        table.request(at, bits);
                        count = count + 1;
                    }
                },
                None => {},
            }
            i = i + 1;
        }
        assert(items.take(items.len() as int) =~= items);
        count
    }
}

/// Where the first tunable with this id stands.
pub open spec fn tunable_position(t: Seq<EntryView>, id: u32) -> Option<int>
    decreases t.len(),
{
    if t.len() == 0 {
        None
    } else if tunable_position(t.drop_last(), id) is Some {
        tunable_position(t.drop_last(), id)
    } else if t.last().id == id && t.last().tunable() {
        Some(t.len() - 1)
    } else {
        None
    }
}

/// The first tunable with an id is where [`tunable_position`] says, and inside
/// the table.
proof fn lemma_tunable_position(t: Seq<EntryView>, id: u32)
    ensures
        tunable_position(t, id) matches Some(at) ==> {
            &&& 0 <= at < t.len()
            &&& t[at].id == id
            &&& t[at].tunable()
            &&& forall|k: int| 0 <= k < at ==> !((#[trigger] t[k]).id == id && t[k].tunable())
        },
        tunable_position(t, id) is None ==> forall|k: int|
            0 <= k < t.len() ==> !((#[trigger] t[k]).id == id && t[k].tunable()),
    decreases t.len(),
{
    if t.len() > 0 {
        let rest = t.drop_last();
        lemma_tunable_position(rest, id);
        assert forall|k: int| 0 <= k < rest.len() implies (#[trigger] t[k]) == rest[k] by {}
    }
}

fn find_tunable(table: &Table, id: u32) -> (r: Option<usize>)
    ensures
        tunable_position(table@, id) == (match r {
            Some(at) => Some(at as int),
            None => None,
        }),
        r matches Some(at) ==> at < table@.len(),
{
    let entries: &[Entry] = table.entries();
    let ghost t = table@;
    let mut i: usize = 0;
    while i < entries.len()
        invariant
            i <= entries@.len(),
            crate::table::views(entries@) == t,
            t == table@,
            forall|k: int| 0 <= k < i ==> !((#[trigger] t[k]).id == id && t[k].tunable()),
        decreases entries@.len() - i,
    {
        let hit: bool = entries[i].id() == id && entries[i].is_tunable();
        assert(entries@[i as int]@ == t[i as int]);
        if hit {
            proof {
                lemma_tunable_position(t, id);
            }
            return Some(i);
        }
        i = i + 1;
    }
    proof {
        lemma_tunable_position(t, id);
    }
    None
}

/// Whether an entry takes a saved value: the same kind and, for `f32`, a
/// finite number in range.
pub open spec fn restorable(e: EntryView, item: Item) -> bool {
    &&& e.kind.spec_tag() == item.kind
    &&& e.kind == Kind::F32 ==> f32_in_range(item.bits, e.min, e.max)
}

fn takes(e: &Entry, kind: u8, bits: u32) -> (r: bool)
    ensures
        r == restorable(e@, Item { id: e@.id, kind, bits }),
{
    if e.kind().tag() != kind {
        return false;
    }
    if e.kind() == Kind::F32 {
        let (min, max, _) = e.range();
        in_range(bits, min, max)
    } else {
        true
    }
}

/// The table after restoring saved values in order, and how many were taken.
pub open spec fn restored(t: Seq<EntryView>, items: Seq<Item>) -> (Seq<EntryView>, nat)
    decreases items.len(),
{
    if items.len() == 0 {
        (t, 0)
    } else {
        let (before, n) = restored(t, items.drop_last());
        let item = items.last();
        match tunable_position(before, item.id) {
            Some(at) => if restorable(before[at], item) {
                (before.update(at, before[at].requesting(item.bits)), n + 1)
            } else {
                (before, n)
            },
            None => (before, n),
        }
    }
}

/// One of the two slots a store alternates between.
#[derive(Copy, Clone, Debug, PartialEq, Eq, Structural)]
pub enum Slot {
    A,
    B,
}

/// Where to load from and where the next save goes, given the generation of
/// the valid record in each slot.
#[derive(Copy, Clone, Debug, PartialEq, Eq, Structural)]
pub struct Plan {
    /// The slot holding the newest record, if either is valid.
    pub newest: Option<Slot>,
    /// The slot to overwrite: never the newest.
    pub target: Slot,
    pub next_generation: u32,
}

/// Which slot holds the newest record; the first on a tie.
pub open spec fn newest_slot(a: Option<u32>, b: Option<u32>) -> Option<Slot> {
    match (a, b) {
        (None, None) => None,
        (Some(_), None) => Some(Slot::A),
        (None, Some(_)) => Some(Slot::B),
        (Some(a), Some(b)) => Some(
            if b > a {
                Slot::B
            } else {
                Slot::A
            },
        ),
    }
}

/// The generation after the newest; the count wraps and starts at 1.
pub open spec fn generation_after(a: Option<u32>, b: Option<u32>) -> u32 {
    match newest_slot(a, b) {
        None => 1,
        Some(Slot::A) => a->0.wrapping_add(1),
        Some(Slot::B) => b->0.wrapping_add(1),
    }
}

pub fn plan(a: Option<u32>, b: Option<u32>) -> (r: Plan)
    ensures
        r.newest == newest_slot(a, b),
        r.target == (if r.newest == Some(Slot::A) {
            Slot::B
        } else {
            Slot::A
        }),
        r.next_generation == generation_after(a, b),
        r.newest != Some(r.target),
{
    match (a, b) {
        (None, None) => Plan { newest: None, target: Slot::A, next_generation: 1 },
        (Some(a), None) => Plan {
            newest: Some(Slot::A),
            target: Slot::B,
            next_generation: a.wrapping_add(1),
        },
        (None, Some(b)) => Plan {
            newest: Some(Slot::B),
            target: Slot::A,
            next_generation: b.wrapping_add(1),
        },
        (Some(a), Some(b)) => if b > a {
            Plan { newest: Some(Slot::B), target: Slot::A, next_generation: b.wrapping_add(1) }
        } else {
            Plan { newest: Some(Slot::A), target: Slot::B, next_generation: a.wrapping_add(1) }
        },
    }
}

proof fn lemma_item_bytes_at(items: Seq<Item>, head: Seq<u8>, tail: Seq<u8>, i: int)
    requires
        head.len() == HEADER_LEN,
        0 <= i < items.len(),
    ensures
        item_at(head + items_bytes(items) + tail, i) == items[i],
    decreases items.len(),
{
    let rest = items.drop_last();
    let last = item_bytes(items.last());
    let all = head + items_bytes(items) + tail;
    lemma_items_len(rest);
    lemma_items_len(items);
    if i < rest.len() {
        assert(all =~= head + items_bytes(rest) + (last + tail));
        lemma_item_bytes_at(rest, head, last + tail, i);
    } else {
        let at = HEADER_LEN + i * ITEM_LEN;
        assert(all.subrange(at, at + 4) =~= le32(items.last().id));
        lemma_le32(all, at, items.last().id);
        assert(all[at + 4] == items.last().kind);
        assert(all.subrange(at + 8, at + 12) =~= le32(items.last().bits));
        lemma_le32(all, at + 8, items.last().bits);
    }
}

/// What [`encode`] writes, [`Record::decode`] reads back: the same generation
/// and the same values in the same order, whatever stands after the record.
pub proof fn lemma_record_round_trip(r: RecordView, after: Seq<u8>)
    requires
        r.items.len() <= u16::MAX,
    ensures
        holds_record(record_bytes(r) + after),
        record_at(record_bytes(r) + after) == r,
{
    let n = r.items.len() as u16;
    let head = record_head(n, r.generation);
    let body = record_body(r);
    let all = record_bytes(r) + after;
    lemma_items_len(r.items);
    assert(all.subrange(0, 4) =~= le32(RECORD_MAGIC));
    lemma_le32(all, 0, RECORD_MAGIC);
    assert(all.subrange(4, 6) =~= le16(RECORD_VERSION));
    lemma_le16(all, 4, RECORD_VERSION);
    assert(all.subrange(6, 8) =~= le16(n));
    lemma_le16(all, 6, n);
    assert(all.subrange(8, 12) =~= le32(r.generation));
    lemma_le32(all, 8, r.generation);
    let end = body.len() as int;
    assert(all.take(end) =~= body);
    assert(all.subrange(end, end + 2) =~= le16(crc_of(body)));
    lemma_le16(all, end, crc_of(body));
    let tail = le16(crc_of(body)) + after;
    assert(all =~= head + items_bytes(r.items) + tail);
    assert forall|i: int| 0 <= i < r.items.len() implies item_at(all, i) == r.items[i] by {
        lemma_item_bytes_at(r.items, head, tail, i);
    }
    assert(record_at(all).items =~= r.items);
}

/// What a tunable is saved as: its id, its kind and what it asks for.
pub open spec fn saved_item(e: EntryView) -> Item {
    Item { id: e.id, kind: e.kind.spec_tag(), bits: e.requested }
}

/// What is saved of a table is one value for each tunable and for nothing else,
/// in table order.
pub proof fn lemma_tunables_are_saved(t: Seq<EntryView>)
    ensures
        saved_items(t) == t.filter(|e: EntryView| e.tunable()).map_values(
            |e: EntryView| saved_item(e),
        ),
    decreases t.len(),
{
    reveal(Seq::filter);
    let takes = |e: EntryView| e.tunable();
    let saved = |e: EntryView| saved_item(e);
    if t.len() == 0 {
        assert(saved_items(t) =~= t.filter(takes).map_values(saved));
    } else {
        lemma_tunables_are_saved(t.drop_last());
        let before = t.drop_last().filter(takes);
        assert(before.push(t.last()).map_values(saved) =~= before.map_values(saved).push(
            saved_item(t.last()),
        ));
    }
}

/// A saved table reads back: the record of a table that [`encode`] makes, with
/// anything behind it, holds the generation it was saved with and, in table
/// order, the id, kind and request of every tunable; and it takes fourteen bytes
/// and twelve for each.
pub proof fn lemma_saved_table_reads_back(t: Seq<EntryView>, generation: u32, after: Seq<u8>)
    requires
        tunables(t) <= u16::MAX,
    ensures
        ({
            let record = record_bytes(RecordView { generation, items: saved_items(t) });
            &&& record.len() == 14 + 12 * tunables(t)
            &&& holds_record(record + after)
            &&& record_at(record + after).generation == generation
            &&& record_at(record + after).items == t.filter(
                |e: EntryView| e.tunable(),
            ).map_values(|e: EntryView| saved_item(e))
        }),
{
    lemma_saved_len(t);
    lemma_items_len(saved_items(t));
    lemma_tunables_are_saved(t);
    lemma_record_round_trip(RecordView { generation, items: saved_items(t) }, after);
}

/// A record cut short anywhere is no record.
pub proof fn lemma_short_record_is_refused(r: RecordView, n: int)
    requires
        r.items.len() <= u16::MAX,
        0 <= n < record_bytes(r).len(),
    ensures
        !holds_record(record_bytes(r).take(n)),
{
    let all = record_bytes(r);
    let cut = all.take(n);
    let count = r.items.len() as u16;
    lemma_items_len(r.items);
    if n >= HEADER_LEN {
        assert(cut.subrange(6, 8) =~= le16(count));
        lemma_le16(cut, 6, count);
    }
}

/// Restoring never changes a descriptor or what runs, and never makes a
/// tunable ask for something outside its range.
pub proof fn lemma_restore_is_safe(t: Seq<EntryView>, items: Seq<Item>)
    requires
        requests_in_range(t),
        forall|i: int| 0 <= i < t.len() ==> (#[trigger] t[i]).valid(),
    ensures
        same_descriptors(t, restored(t, items).0),
        requests_in_range(restored(t, items).0),
        forall|i: int|
            0 <= i < t.len() ==> (#[trigger] restored(t, items).0[i]).applied == t[i].applied,
    decreases items.len(),
{
    if items.len() > 0 {
        let before = restored(t, items.drop_last()).0;
        lemma_restore_is_safe(t, items.drop_last());
        let item = items.last();
        lemma_tunable_position(before, item.id);
        let after = restored(t, items).0;
        assert forall|i: int| 0 <= i < t.len() implies (#[trigger] t[i]).requesting(0).running(0)
            == after[i].requesting(0).running(0) && after[i].applied == t[i].applied && (
        after[i].tunable() ==> f32_in_range(after[i].requested, after[i].min, after[i].max)) by {
            let b = before[i];
            let a = after[i];
            assert(t[i].requesting(0).running(0) == b.requesting(0).running(0));
            assert(t[i].tunable() == b.requesting(0).running(0).tunable());
        }
    }
}

/// A save goes to the slot that does not hold the newest record, so whatever
/// happens to that slot the newest record is still there; and a completed save
/// is the newest record afterwards.
pub proof fn lemma_save_keeps_the_newest(a: Option<u32>, b: Option<u32>)
    requires
        a matches Some(g) ==> g < u32::MAX,
        b matches Some(g) ==> g < u32::MAX,
    ensures
        newest_slot(a, b) == Some(Slot::A) ==> {
            &&& newest_slot(a, Some(generation_after(a, b))) == Some(Slot::B)
            &&& newest_slot(a, None) == Some(Slot::A)
        },
        newest_slot(a, b) != Some(Slot::A) ==> {
            &&& newest_slot(Some(generation_after(a, b)), b) == Some(Slot::A)
            &&& newest_slot(None, b) == newest_slot(a, b)
        },
{
}

} // verus!
