//! What files, carriers, the SDK's process and saved records promise as a whole.

use vstd::prelude::*;
use vstd::string::*;
use crate::calls::{can_refused, Call};
use crate::capture::Request;
use crate::carriers::CarrierErrorView;
use crate::catalog::{CatalogEntry, ReadItem};
use crate::connect::{
    counters_outcome, request_outcome, task_regions, tunable_names, Carrier, Changes, Probe, Reply,
    TunableName, Watches,
};
use crate::dwarf_parser::ParsedSymbol;
use crate::elf::{ElfInfo, SymbolInfo};
use crate::elf_image::{held_at, region_holding, regions_in, PartView};
use crate::elf_load::{is_writable, over, placed, PlacementView};
use crate::float_bits::f32_in_range;
use crate::remote::{call_outcome, work, RemoteView, Response, Task};
use crate::search::{first, lemma_first, lemma_first_none};
use crate::store::{newest_slot, restored, tunable_position, Item, Slot};
use crate::table::{EntryView, Kind};
use crate::text::{
    begins_with, decimal, ends_in, hex8, lower, trimmed_end, trimmed_start,
};
use crate::values::{pointer_word, value_alone, value_in};

verus! {

/// A section can be written where it is both writable and loaded: the two lowest bits
/// of its flags.
pub proof fn lemma_writable_sections_are_flagged(flags: u64)
    ensures
        is_writable(flags) <==> flags % 4 == 3,
{
}

/// A symbol keeps what the debug information says of it, and is in the section that
/// its address lies in, which says whether it can be written.
pub proof fn lemma_symbols_lie_in_their_sections(
    sections: Seq<PlacementView>,
    p: ParsedSymbol,
    s: SymbolInfo,
    i: int,
)
    requires
        placed(sections, p, s),
    ensures
        s.demangled_name@ == p.name@,
        s.address == p.address,
        s.size == p.size,
        s.type_id == Some(p.type_id),
        s.status == p.status,
        s.is_function == false,
        0 <= i < sections.len() && sections[i].1 <= p.address && p.address < sections[i].1
            + sections[i].2 && sections[i].1 + sections[i].2 <= u64::MAX && (forall|k: int|
            0 <= k < i ==> !((#[trigger] sections[k]).1 <= p.address && p.address < sections[k].1
                + sections[k].2)) ==> s.section@ == sections[i].0 && s.writable == (sections[i].3 % 4
            == 3),
        (forall|k: int|
            0 <= k < sections.len() ==> !((#[trigger] sections[k]).1 <= p.address && p.address
                < sections[k].1 + sections[k].2)) ==> s.section@.len() == 0 && !s.writable,
{
    let at = over(p.address);
    if 0 <= i < sections.len() && sections[i].1 <= p.address && p.address < sections[i].1
        + sections[i].2 && sections[i].1 + sections[i].2 <= u64::MAX && (forall|k: int|
        0 <= k < i ==> !((#[trigger] sections[k]).1 <= p.address && p.address < sections[k].1
            + sections[k].2)) {
        assert forall|k: int| 0 <= k < i implies !at(#[trigger] sections[k]) by {}
        crate::search::lemma_first_is(sections, at, i);
        lemma_writable_sections_are_flagged(sections[i].3);
    }
    if forall|k: int|
        0 <= k < sections.len() ==> !((#[trigger] sections[k]).1 <= p.address && p.address
            < sections[k].1 + sections[k].2) {
        assert forall|k: int| 0 <= k < sections.len() implies !at(#[trigger] sections[k]) by {}
        lemma_first_none(sections, at);
    }
}

/// What a file initialises is its loaded sections that have an address and data, in
/// their order.
pub proof fn lemma_loaded_sections_initialise(parts: Seq<PartView>, more: PartView)
    ensures
        regions_in(Seq::empty()).len() == 0,
        more.0 is Loaded && more.1 != 0 && more.3 is Some ==> regions_in(parts.push(more))
            == regions_in(parts).push((more.1, more.3->0)),
        more.0 !is Loaded || more.3 is None || (more.1 == 0 && more.2 > 0) ==> regions_in(
            parts.push(more),
        ) == regions_in(parts),
{
    assert(parts.push(more).drop_last() =~= parts);
}

proof fn lemma_region_found(regions: Seq<(u64, Seq<u8>)>, address: u64, len: nat)
    ensures
        region_holding(regions, address, len) matches Some((start, data)) ==> start <= address
            && address + len <= start + data.len() && exists|k: int|
            0 <= k < regions.len() && #[trigger] regions[k] == (start, data),
        region_holding(regions, address, len) is None ==> forall|k: int|
            0 <= k < regions.len() ==> !((#[trigger] regions[k]).0 <= address && address + len
                <= regions[k].0 + regions[k].1.len()),
    decreases regions.len(),
{
    if regions.len() > 0 {
        let rest = regions.skip(1);
        lemma_region_found(rest, address, len);
        let (start, data) = regions[0];
        if !(start <= address && address + len <= start + data.len()) {
            if let Some(found) = region_holding(rest, address, len) {
                let k = choose|k: int| 0 <= k < rest.len() && #[trigger] rest[k] == found;
                assert(regions[k + 1] == found);
            } else {
                assert forall|k: int| 0 <= k < regions.len() implies !((#[trigger] regions[k]).0
                    <= address && address + len <= regions[k].0 + regions[k].1.len()) by {
                    if k > 0 {
                        assert(rest[k - 1] == regions[k]);
                    }
                }
            }
        } else {
            assert(regions[0] == (start, data));
        }
    }
}

/// Bytes that a file initialises are read from a region that holds all of them, each
/// at its own address; where none does the read is refused with what was asked for.
pub proof fn lemma_initialised_bytes_are_read(
    regions: Seq<(u64, Seq<u8>)>,
    address: u64,
    len: usize,
)
    ensures
        held_at(regions, address, len) matches Ok(bytes) ==> bytes.len() == len && exists|k: int|
            0 <= k < regions.len() && (#[trigger] regions[k]).0 <= address && address + len
                <= regions[k].0 + regions[k].1.len() && forall|i: int|
                0 <= i < len ==> bytes[i] == #[trigger] regions[k].1[address - regions[k].0 + i],
        held_at(regions, address, len) is Err <==> forall|k: int|
            0 <= k < regions.len() ==> !((#[trigger] regions[k]).0 <= address && address + len
                <= regions[k].0 + regions[k].1.len()),
        held_at(regions, address, len) matches Err(e) ==> e == (CarrierErrorView::Read {
            address,
            len,
            reason: "not initialised by the ELF"@,
        }),
{
    lemma_region_found(regions, address, len as nat);
    if let Some((start, data)) = region_holding(regions, address, len as nat) {
        let k = choose|k: int| 0 <= k < regions.len() && #[trigger] regions[k] == (start, data);
        let bytes = held_at(regions, address, len)->Ok_0;
        assert(regions[k].0 <= address);
        assert forall|i: int| 0 <= i < len implies bytes[i] == #[trigger] regions[k].1[address
            - regions[k].0 + i] by {}
    }
}

/// What went wrong on a carrier is told with what was tried and why it failed.
pub proof fn lemma_carrier_errors_are_told(
    text: Seq<char>,
    port: Seq<char>,
    address: u64,
    len: usize,
)
    ensures
        CarrierErrorView::ProbeNotFound(text).shown() == "no debug probe matches `"@ + text + "`"@,
        CarrierErrorView::Probe(text).shown() == "could not open the probe: "@ + text,
        CarrierErrorView::Attach(text).shown() == "could not attach to the target: "@ + text,
        CarrierErrorView::Stream(text).shown() == "the link to the target was lost: "@ + text,
        CarrierErrorView::Other(text).shown() == text,
        (CarrierErrorView::Port { port, reason: text }).shown() == "could not open "@ + port
            + ": "@ + text,
        (CarrierErrorView::Read { address, len, reason: text }).shown() == "read of "@ + decimal(
            len as nat,
        ) + " bytes at "@ + hex8(address as nat) + " failed: "@ + text,
        (CarrierErrorView::Write { address, len, reason: text }).shown() == "write of "@ + decimal(
            len as nat,
        ) + " bytes at "@ + hex8(address as nat) + " failed: "@ + text,
{
}

/// Without an adapter only what needs none is taken, and a session that only reads
/// neither connects to a bus nor sends.
pub proof fn lemma_can_is_kept_from_what_it_must_not_do(r: Request, mock: bool, read_only: bool)
    ensures
        can_refused(r, false, false) is None,
        r is Poll || r is Disconnect ==> can_refused(r, mock, read_only) is None,
        mock && !(r is Poll) && !(r is Disconnect) ==> can_refused(r, mock, read_only) == Some(
            "Physical CAN access is disabled in --mock mode"@,
        ),
        !mock && read_only && (r is Connect || r is Send) ==> can_refused(r, mock, read_only)
            is Some,
        !mock && (r is Scan || r is Record || r is StopRecording) ==> can_refused(
            r,
            mock,
            read_only,
        ) is None,
{
}

/// The calls that answer at once are those that neither touch a file nor wait for the
/// target.
pub proof fn lemma_quick_calls_do_not_wait(call: Call, r: bool)
    requires
        call_ensures(Call::is_quick, (call,), r),
    ensures
        r <==> match call {
            Call::SymbolChildren => true,
            Call::StartupElfPath => true,
            Call::SessionSetWatches => true,
            Call::SessionSetRate => true,
            Call::WatchableLeaves => true,
            Call::AppState => true,
            _ => false,
        },
{
}

/// The SDK's process looks for adapters first and once; before that it has nothing to
/// start, to send on or to drain.
pub proof fn lemma_the_sdk_is_loaded_once(
    request: crate::remote::Request,
    loaded: bool,
    r: Result<Task, String>,
)
    requires
        call_ensures(work, (&request, loaded), r),
    ensures
        r is Err <==> (request is Scan && loaded) || ((request is Start || request is Send)
            && !loaded),
        r matches Ok(task) ==> {
            &&& task == Task::Load <==> request is Scan
            &&& task == Task::Start <==> request is Start
            &&& task == Task::Send <==> request is Send
            &&& task == Task::Drain <==> request is Poll && loaded
            &&& task == Task::StopAndDrain <==> request is Stop && loaded
            &&& task == Task::Nothing <==> (request is Poll || request is Stop) && !loaded
        },
{
}

/// An answer without an error is taken; one with an error, or none at all, is the
/// error. An answer that does not come stops the process and is remembered.
pub proof fn lemma_answers_are_told_apart(v: RemoteView, response: Response, e: String)
    ensures
        response.error is None ==> call_outcome(Ok(response)) == Ok::<Response, Seq<char>>(
            response,
        ),
        response.error is Some ==> call_outcome(Ok(response)) == Err::<Response, Seq<char>>(
            response.error->0@,
        ),
        call_outcome(Err(e)) == Err::<Response, Seq<char>>(e@),
        v.answered(Ok(response)).dropped == response.dropped,
        v.answered(Ok(response)).stopped == v.stopped,
        v.answered(Ok(response)).error == v.error,
        v.answered(Ok(response)).pending == v.pending,
        v.answered(Err(e)).stopped,
        v.answered(Err(e)).error == Some(e@),
        v.answered(Err(e)).dropped == v.dropped,
        v.answered(Err(e)).pending == v.pending,
{
}

/// What runs is sampled where it runs, and what was asked for where that stands, each
/// under the id it was asked with.
pub proof fn lemma_values_are_sampled_where_they_stand(
    e: CatalogEntry,
    id: u32,
    applied: ReadItem,
    requested: ReadItem,
)
    requires
        call_ensures(CatalogEntry::applied_item, (&e, id), applied),
        call_ensures(CatalogEntry::requested_item, (&e, id), requested),
    ensures
        applied.id == id,
        applied.address == e.applied_address,
        requested.id == id,
        requested.address == e.requested_address,
        applied.scalar == requested.scalar,
        applied.bit_size is None && applied.bit_offset is None,
        requested.bit_size is None && requested.bit_offset is None,
{
}

/// On a carrier that was opened again, a probe is told the numbers to read and a
/// serial link the values to watch, where there are any.
pub proof fn lemma_watches_go_where_they_are_read(w: Watches, carrier: Carrier, r: Changes)
    requires
        call_ensures(Watches::resent, (&w, carrier), r),
    ensures
        r.items <==> carrier == Carrier::Probe && w.items@.len() > 0,
        r.cells <==> carrier == Carrier::Serial && w.cells@.len() > 0,
{
}

/// Every value of the table is named, in the table's order.
pub proof fn lemma_every_tunable_is_named(
    catalog: crate::catalog::Catalog,
    r: Vec<TunableName>,
    i: int,
)
    requires
        call_ensures(tunable_names, (&catalog,), r),
        0 <= i < catalog.entries@.len(),
    ensures
        r@.len() == catalog.entries@.len(),
        r@[i].id == catalog.entries@[i].id,
        r@[i].name@ == catalog.entries@[i].name@,
        catalog.entries@[i].unit@.len() > 0 ==> (r@[i].unit matches Some(unit) && unit@
            == catalog.entries@[i].unit@),
        catalog.entries@[i].unit@.len() == 0 ==> r@[i].unit is None,
{
}

/// The regions to read are those of the tasks, with the counters' behind them.
pub proof fn lemma_counters_are_read_last(
    probes: Vec<Probe>,
    counters: Option<(u64, usize)>,
    r: Vec<(u64, usize)>,
)
    requires
        call_ensures(task_regions, (&probes, counters), r),
    ensures
        counters matches Some(region) ==> r@.last() == region && r@.drop_last()
            == crate::connect::regions_for(probes@),
        counters is None ==> r@ == crate::connect::regions_for(probes@),
{
    if counters is Some {
        assert(r@.drop_last() =~= crate::connect::regions_for(probes@));
    }
}

/// Counters come where the firmware has them and they could be read; otherwise what
/// went wrong is told.
pub proof fn lemma_counters_come_or_are_missed(
    layout: Option<Result<(), String>>,
    decoded: Option<Result<u64, String>>,
    r: (Option<u64>, Option<String>),
)
    requires
        call_ensures(counters_outcome::<u64>, (layout, decoded), r),
    ensures
        layout is None ==> r.0 is None && r.1 is None,
        layout matches Some(Err(e)) ==> r.0 is None && (r.1 matches Some(t) && t@ == e@),
        layout matches Some(Ok(_)) ==> (decoded matches Some(Ok(v)) ==> r.0 == Some(v) && r.1
            is None),
        r.0 is Some ==> r.1 is None && decoded == Some(Ok::<u64, String>(r.0->0)),
        layout matches Some(Ok(_)) ==> (decoded is None ==> (r.1 matches Some(t) && t@
            == "short read"@)),
{
}

/// A write that was taken is answered as such; otherwise with why it was not.
pub proof fn lemma_writes_are_answered(reply: Reply<()>, r: Result<(), String>)
    requires
        call_ensures(request_outcome, (reply,), r),
    ensures
        r is Ok <==> reply == Reply::Answered(Ok::<(), String>(())),
        reply is NotSent ==> (r matches Err(e) && e@ == "connect to the target first"@),
        reply is Late ==> (r matches Err(e) && e@ == "the target did not take the write in time"@),
        reply matches Reply::Answered(Err(text)) ==> (r matches Err(e) && e@ == text@),
{
}

/// A symbol is found by its own name, and the first that has it.
pub proof fn lemma_symbols_are_found_by_name(
    elf: ElfInfo,
    name: &str,
    r: Option<&SymbolInfo>,
    i: int,
)
    requires
        call_ensures(ElfInfo::find_symbol, (&elf, name), r),
        0 <= i < elf.symbols@.len(),
    ensures
        r matches Some(s) ==> s.demangled_name@ == name@,
        elf.symbols@[i].demangled_name@ == name@ && (forall|k: int|
            0 <= k < i ==> (#[trigger] elf.symbols@[k]).demangled_name@ != name@) ==> r == Some(
            &elf.symbols@[i],
        ),
        r is None ==> elf.symbols@[i].demangled_name@ != name@,
{
    let p = crate::elf::symbol_named(name@);
    lemma_first(elf.symbols@, p);
    if elf.symbols@[i].demangled_name@ == name@ && (forall|k: int|
        0 <= k < i ==> (#[trigger] elf.symbols@[k]).demangled_name@ != name@) {
        crate::search::lemma_first_is(elf.symbols@, p, i);
    }
    assert(p(elf.symbols@[i]) == (elf.symbols@[i].demangled_name@ == name@));
}

/// A pointer is the number that its bytes are, in the order of the target.
pub proof fn lemma_pointers_are_read_in_the_targets_order(b: Seq<u8>, e: Seq<char>, len: usize)
    requires
        b.len() == 4,
    ensures
        pointer_word(true, 4, Ok(seq![b])) == Ok::<u64, Seq<char>>(
            (b[0] + 0x100 * b[1] + 0x1_0000 * b[2] + 0x100_0000 * b[3]) as u64,
        ),
        pointer_word(false, 4, Ok(seq![b])) == Ok::<u64, Seq<char>>(
            (b[3] + 0x100 * b[2] + 0x1_0000 * b[1] + 0x100_0000 * b[0]) as u64,
        ),
        pointer_word(true, len, Err(e)) == Err::<u64, Seq<char>>(e),
        len != 4 ==> pointer_word(true, len, Ok(seq![b])) is Err,
        pointer_word(true, len, Ok(Seq::empty())) is Err,
{
    reveal_with_fuel(crate::preview::le_value, 5);
    reveal_with_fuel(crate::preview::be_value, 5);
}

/// A number that was read is its own bytes, as many as it has; one that could not be
/// is told why and has no value.
pub proof fn lemma_numbers_are_their_own_bytes(
    item: ReadItem,
    span: (u64, u64),
    bytes: Seq<u8>,
    e: Seq<char>,
    regions: Seq<u64>,
    blocks: Seq<Seq<u8>>,
)
    ensures
        bytes.len() == span.1 ==> value_alone(Ok(item), Some(span), Ok(seq![bytes])).value == Some(
            (item, bytes),
        ) && value_alone(Ok(item), Some(span), Ok(seq![bytes])).error is None,
        bytes.len() != span.1 ==> value_alone(Ok(item), Some(span), Ok(seq![bytes])).value is None,
        value_alone(Ok(item), Some(span), Err(e)).value is None,
        value_alone(Ok(item), Some(span), Err(e)).error == Some(e),
        value_alone(Err(e), Some(span), Ok(seq![bytes])).value is None,
        value_alone(Err(e), Some(span), Ok(seq![bytes])).error == Some(e),
        value_in(Err(e), Some(span), regions, blocks).error == Some(e),
        value_in(Err(e), Some(span), regions, blocks).value is None,
        value_in(Ok(item), None, regions, blocks).value is None,
        value_in(Ok(item), Some(span), regions, blocks).error is Some <==> value_in(
            Ok(item),
            Some(span),
            regions,
            blocks,
        ).value is None,
        crate::values::covering(regions, blocks, span.0, span.1, 0) matches Some(found)
            ==> value_in(Ok(item), Some(span), regions, blocks).value == Some((item, found)),
{
}

proof fn lemma_tunable_found(t: Seq<EntryView>, id: u32)
    ensures
        tunable_position(t, id) matches Some(at) ==> 0 <= at < t.len() && t[at].id == id
            && t[at].tunable(),
        tunable_position(t, id) is None ==> forall|k: int|
            0 <= k < t.len() ==> !((#[trigger] t[k]).id == id && t[k].tunable()),
    decreases t.len(),
{
    if t.len() > 0 {
        lemma_tunable_found(t.drop_last(), id);
        assert forall|k: int|
            tunable_position(t, id) is None && 0 <= k < t.len() implies !((#[trigger] t[k]).id
            == id && t[k].tunable()) by {
            if k < t.len() - 1 {
                assert(t.drop_last()[k] == t[k]);
            }
        }
    }
}

/// Restoring asks each value for what was last saved under its id, where the kinds
/// agree and its range allows; nothing but requests changes, and a value without a
/// saved one keeps its own.
pub proof fn lemma_saved_requests_are_restored(t: Seq<EntryView>, items: Seq<Item>, item: Item, k: int)
    requires
        0 <= k < t.len(),
    ensures
        ({
            let (before, n) = restored(t, items);
            let (after, m) = restored(t, items.push(item));
            &&& before.len() == t.len()
            &&& after.len() == t.len()
            &&& after[k] == before[k].requesting(after[k].requested)
            &&& after[k] != before[k] ==> before[k].id == item.id && before[k].tunable()
                && after[k].requested == item.bits && before[k].kind.spec_tag() == item.kind
            &&& m == n || m == n + 1
            &&& m == n ==> after == before
            &&& m == n + 1 ==> exists|at: int|
                0 <= at < t.len() && (#[trigger] after[at]).id == item.id && after[at].requested
                    == item.bits && before[at].tunable()
            &&& before[k].id == item.id && before[k].tunable() && before[k].kind == Kind::F32
                && item.kind == 0 && f32_in_range(item.bits, before[k].min, before[k].max) && (
            forall|j: int|
                0 <= j < t.len() && j != k ==> (#[trigger] before[j]).id != item.id)
                ==> after[k].requested == item.bits && m == n + 1
        }),
        restored(t, Seq::empty()) == (t, 0nat),
    decreases items.len(),
{
    lemma_restored_len(t, items);
    assert(items.push(item).drop_last() =~= items);
    let (before, n) = restored(t, items);
    let (after, m) = restored(t, items.push(item));
    lemma_tunable_found(before, item.id);
    if let Some(at) = tunable_position(before, item.id) {
        if m == n + 1 {
            assert(after[at].id == item.id);
        }
    }
}

proof fn lemma_restored_len(t: Seq<EntryView>, items: Seq<Item>)
    ensures
        restored(t, items).0.len() == t.len(),
    decreases items.len(),
{
    if items.len() > 0 {
        lemma_restored_len(t, items.drop_last());
        lemma_tunable_found(restored(t, items.drop_last()).0, items.last().id);
    }
}

/// Of two records the one with the later generation counts, and one alone counts.
pub proof fn lemma_the_newest_record_counts(a: Option<u32>, b: Option<u32>)
    ensures
        newest_slot(a, b) is None <==> a is None && b is None,
        newest_slot(a, b) == Some(Slot::A) ==> a is Some && (b matches Some(other) ==> other
            <= a->0),
        newest_slot(a, b) == Some(Slot::B) ==> b is Some && (a matches Some(other) ==> other
            < b->0),
{
}

/// A letter in lower case is the letter, and any other character is itself.
pub proof fn lemma_letters_are_lowered(c: char)
    ensures
        'A' <= c && c <= 'Z' ==> lower(c) as int - 'a' as int == c as int - 'A' as int,
        !('A' <= c && c <= 'Z') ==> lower(c) == c,
        lower(lower(c)) == lower(c),
{
}

/// A text is trimmed of a character at an end where it stands there, and of nothing
/// else.
pub proof fn lemma_texts_are_trimmed(s: Seq<char>, c: char)
    ensures
        trimmed_start(s, c).len() == 0 || trimmed_start(s, c)[0] != c,
        trimmed_start(s, c).len() <= s.len(),
        trimmed_start(s, c) == s.skip(s.len() - trimmed_start(s, c).len()),
        forall|i: int| 0 <= i < s.len() - trimmed_start(s, c).len() ==> #[trigger] s[i] == c,
        trimmed_end(s, c).len() == 0 || trimmed_end(s, c).last() != c,
        trimmed_end(s, c).len() <= s.len(),
        trimmed_end(s, c) == s.take(trimmed_end(s, c).len() as int),
        forall|i: int| trimmed_end(s, c).len() <= i < s.len() ==> #[trigger] s[i] == c,
    decreases s.len(),
{
    if s.len() > 0 {
        lemma_texts_are_trimmed(s.drop_first(), c);
        lemma_texts_are_trimmed(s.drop_last(), c);
        let a = trimmed_start(s, c);
        let b = trimmed_end(s, c);
        if s[0] == c {
            let n = s.len() - a.len();
            assert(a =~= s.skip(n)) by {
                assert(s.drop_first().skip(n - 1) =~= s.skip(n));
            }
            assert forall|i: int| 0 <= i < n implies #[trigger] s[i] == c by {
                if i > 0 {
                    assert(s.drop_first()[i - 1] == s[i]);
                }
            }
        } else {
            assert(a =~= s.skip(0));
        }
        if s.last() == c {
            assert(b =~= s.take(b.len() as int)) by {
                assert(s.drop_last().take(b.len() as int) =~= s.take(b.len() as int));
            }
            assert forall|i: int| b.len() <= i < s.len() implies #[trigger] s[i] == c by {
                if i < s.len() - 1 {
                    assert(s.drop_last()[i] == s[i]);
                }
            }
        } else {
            assert(b =~= s.take(s.len() as int));
        }
    } else {
        assert(s.skip(0) =~= s);
        assert(s.take(0) =~= s);
    }
}

/// What a text begins or ends with is what was put in front of it or behind it.
pub proof fn lemma_texts_begin_and_end_with_their_parts(a: Seq<char>, b: Seq<char>)
    ensures
        begins_with(a + b, a),
        ends_in(a + b, b),
        begins_with(a, b) ==> a == b + a.skip(b.len() as int),
        ends_in(a, b) ==> a == a.take(a.len() - b.len()) + b,
{
    assert((a + b).take(a.len() as int) =~= a);
    assert((a + b).skip((a + b).len() - b.len()) =~= b);
    if begins_with(a, b) {
        assert(a =~= a.take(b.len() as int) + a.skip(b.len() as int));
    }
    if ends_in(a, b) {
        assert(a =~= a.take(a.len() - b.len()) + a.skip(a.len() - b.len()));
    }
}

} // verus!
