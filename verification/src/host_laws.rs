//! What watching, connecting, streaming and the firmware's table promise as a whole.

use vstd::prelude::*;
use vstd::string::*;
use vstd::utf8::encode_utf8;
use crate::bytes::{group_le_len, le32};
use crate::catalog::{Catalog, CatalogEntry, ReadItem};
use crate::connect::{
    connect_planned, hex_of, named, settled_reply, Carrier, ConnectRequest, ConnectView, Reply,
};
use crate::elf::ElfInfo;
use crate::leaves::{item_for, plain_node};
use crate::server_laws::{lemma_numbers_are_little_endian, word32};
use crate::session::{
    chips_matching, meta_of, says_something, shortened, shortened_from, trimmed_text, watch_item,
    with_watch, PlanView, WatchRequest,
};
use crate::stream::{
    by_id, json_letter, json_letters, json_text, names_by_id, Losses, Sent, TuneValue,
};
use crate::table::{
    bool_bits, fnv_extended, fnv_of, i32_bits, watch_view, Access, EntryView, Kind,
};
use crate::text::{decimal, digit_value, hex_padded, lowered, occurs_in};
use crate::tree::SymbolNodeView;
use crate::wire::{crc_of, crc_shift, crc_shifts};

verus! {

broadcast use group_le_len;

/// Whether two colons stand next to each other.
pub open spec fn cut_at(s: Seq<char>, i: int) -> bool {
    0 <= i && i + 1 < s.len() && s[i] == ':' && s[i + 1] == ':'
}

proof fn lemma_shortened_to(path: Seq<char>, n: int, m: int)
    requires
        0 <= m <= n <= path.len(),
        m == 0 || cut_at(path, m - 2),
        forall|i: int| m - 2 < i && i + 2 <= n ==> !#[trigger] cut_at(path, i),
    ensures
        shortened_from(path, n) == path.skip(m),
    decreases n,
{
    if n > m {
        if n >= 2 {
            assert(!cut_at(path, n - 2));
        }
        if n - 1 < 2 {
            if m == 0 {
                assert(path.skip(0) =~= path);
                if n >= 2 {
                    assert(shortened_from(path, n - 1) == path);
                }
            }
        }
        if n >= 2 {
            lemma_shortened_to(path, n - 1, m);
        } else {
            assert(path.skip(0) =~= path);
        }
    } else if m == 0 {
        assert(path.skip(0) =~= path);
    } else {
        assert(cut_at(path, m - 2));
    }
}

/// The short name of a path is what is behind its last `::`, or the path itself
/// where it has none.
pub proof fn lemma_short_names_are_the_last_part(head: Seq<char>, tail: Seq<char>)
    requires
        tail.len() == 0 || tail[0] != ':',
        forall|i: int| !#[trigger] cut_at(tail, i),
    ensures
        shortened(head + seq![':', ':'] + tail) == tail,
        shortened(tail) == tail,
{
    let path = head + seq![':', ':'] + tail;
    let m = head.len() as int + 2;
    assert(cut_at(path, m - 2));
    assert forall|i: int| m - 2 < i && i + 2 <= path.len() implies !#[trigger] cut_at(path, i) by {
        if i >= m {
            assert(!cut_at(tail, i - m));
            assert(path[i] == tail[i - m] && path[i + 1] == tail[i + 1 - m]);
        } else {
            assert(path[m] == tail[0]);
        }
    }
    lemma_shortened_to(path, path.len() as int, m);
    assert(path.skip(m) =~= tail);
    lemma_shortened_to(tail, tail.len() as int, 0);
    assert(tail.skip(0) =~= tail);
}

/// The chips that are offered are chips whose names hold the query in whatever case,
/// as many as there is room for, and all of them where there is room.
pub proof fn lemma_chips_that_match_are_offered(all: Seq<Seq<char>>, query: Seq<char>, room: nat)
    ensures
        ({
            let found = chips_matching(all, query, room);
            &&& found.len() <= room
            &&& forall|i: int|
                0 <= i < found.len() ==> all.contains(#[trigger] found[i]) && occurs_in(
                    lowered(found[i]),
                    lowered(query),
                )
            &&& (found.len() < room ==> forall|k: int|
                0 <= k < all.len() && occurs_in(lowered(#[trigger] all[k]), lowered(query))
                    ==> found.contains(all[k]))
        }),
    decreases all.len(),
{
    if all.len() > 0 && room > 0 {
        let rest = all.skip(1);
        let found = chips_matching(all, query, room);
        if occurs_in(lowered(all[0]), lowered(query)) {
            let tail = chips_matching(rest, query, (room - 1) as nat);
            lemma_chips_that_match_are_offered(rest, query, (room - 1) as nat);
            assert(found == seq![all[0]] + tail);
            assert forall|i: int| 0 <= i < found.len() implies all.contains(#[trigger] found[i])
                && occurs_in(lowered(found[i]), lowered(query)) by {
                if i > 0 {
                    assert(found[i] == tail[i - 1]);
                    let k = choose|k: int| 0 <= k < rest.len() && rest[k] == tail[i - 1];
                    assert(all[k + 1] == found[i]);
                } else {
                    assert(all[0] == found[0]);
                }
            }
            assert forall|k: int|
                found.len() < room && 0 <= k < all.len() && occurs_in(
                    lowered(#[trigger] all[k]),
                    lowered(query),
                ) implies found.contains(all[k]) by {
                if k > 0 {
                    assert(rest[k - 1] == all[k]);
                    let i = choose|i: int| 0 <= i < tail.len() && tail[i] == rest[k - 1];
                    assert(found[i + 1] == all[k]);
                } else {
                    assert(found[0] == all[0]);
                }
            }
        } else {
            lemma_chips_that_match_are_offered(rest, query, room);
            assert forall|i: int| 0 <= i < found.len() implies all.contains(#[trigger] found[i]) by {
                let k = choose|k: int| 0 <= k < rest.len() && rest[k] == found[i];
                assert(all[k + 1] == found[i]);
            }
            assert forall|k: int|
                found.len() < room && 0 <= k < all.len() && occurs_in(
                    lowered(#[trigger] all[k]),
                    lowered(query),
                ) implies found.contains(all[k]) by {
                assert(rest[k - 1] == all[k]);
            }
        }
    }
}

/// A number in memory is read where it lies, as what it is, with its bits.
pub proof fn lemma_numbers_are_read_where_they_lie(n: SymbolNodeView)
    ensures
        item_for(n) matches Ok(item) ==> n.readable && item.address == n.address && n.scalar
            == Some(item.scalar) && item.bit_offset == n.bit_offset && item.bit_size
            == n.bit_size,
        item_for(n) is Ok ==> !(n.scalar matches Some(crate::variable_type::VariableType::Raw(_))),
        !n.readable && n.status is Some ==> (item_for(n) matches Err(e) && e == n.status->0),
        n.readable && n.scalar is None ==> (item_for(n) matches Err(e) && e == n.type_text
            + " is not a single number"@),
{
}

/// A watch on a node reads the node; one on a value of the table reads the value that
/// the firmware runs with; one on neither, or on a value that is not there, is refused.
pub proof fn lemma_watches_read_what_they_ask_for(
    elf: ElfInfo,
    catalog: Option<Catalog>,
    w: WatchRequest,
    i: int,
)
    ensures
        w.node matches Some(at) ==> (plain_node(elf, at@) matches Ok(n) ==> watch_item(
            elf,
            catalog,
            w,
        ) == item_for(n)) && (plain_node(elf, at@) matches Err(e) ==> watch_item(elf, catalog, w)
            == Err::<ReadItem, Seq<char>>(e.shown())),
        w.node is None && w.cell is None ==> watch_item(elf, catalog, w) == Err::<
            ReadItem,
            Seq<char>,
        >("nothing to watch"@),
        w.node is None && w.cell is Some && catalog is None ==> watch_item(elf, catalog, w)
            is Err,
        w.node is None && w.cell is Some && catalog is Some && 0 <= i
            < catalog->0.entries@.len() && catalog->0.entries@[i].id == w.cell->0 && (forall|k: int|
            0 <= k < i ==> (#[trigger] catalog->0.entries@[k]).id != w.cell->0) ==> (watch_item(
            elf,
            catalog,
            w,
        ) matches Ok(item) && item.address == catalog->0.entries@[i].applied_address && item.scalar
            == catalog->0.entries@[i].kind.spec_scalar() && item.bit_offset is None && item.bit_size
            is None),
{
    if w.node is None && w.cell is Some && catalog is Some {
        let entries = catalog->0.entries@;
        let p = crate::catalog::entry_with(w.cell->0);
        if 0 <= i < entries.len() && entries[i].id == w.cell->0 && (forall|k: int|
            0 <= k < i ==> (#[trigger] entries[k]).id != w.cell->0) {
            crate::search::lemma_first_is(entries, p, i);
        }
    }
}

/// Planning a watch answers it and keeps what was planned before: one that can be
/// read is read under its own id and described, one that cannot is told why, and a
/// value of the table is asked for in either case.
pub proof fn lemma_watches_are_planned_one_by_one(
    p: PlanView,
    elf: Option<ElfInfo>,
    catalog: Option<Catalog>,
    w: WatchRequest,
)
    ensures
        ({
            let r = with_watch(p, elf, catalog, w);
            &&& r.results.drop_last() == p.results
            &&& r.results.last().0 == w.id
            &&& w.cell matches Some(cell) ==> r.cells == p.cells.push((w.id, cell))
            &&& w.cell is None ==> r.cells == p.cells
            &&& elf is None && w.cell is None ==> r.results.last().1 == Some(
                "open the ELF to watch symbols"@,
            )
            &&& elf is None && w.cell is Some ==> r.results.last().1 is None && r.items == p.items
            &&& elf matches Some(e) ==> (watch_item(e, catalog, w) matches Ok(item) ==> {
                &&& r.results.last().1 is None
                &&& r.items.drop_last() == p.items
                &&& r.items.last().id == w.id
                &&& r.items.last().address == item.address
                &&& r.items.last().scalar == item.scalar
                &&& r.items.last().bit_offset == item.bit_offset
                &&& r.items.last().bit_size == item.bit_size
            })
            &&& elf matches Some(e) ==> (watch_item(e, catalog, w) matches Err(text)
                ==> r.results.last().1 == Some(text) && r.items == p.items)
            &&& r.results.last().1 is None ==> r.metas == p.metas.push(meta_of(elf, w))
            &&& r.results.last().1 is Some ==> r.metas == p.metas
        }),
{
    let r = with_watch(p, elf, catalog, w);
    assert(r.results.drop_last() =~= p.results);
    if let Some(e) = elf {
        if let Ok(item) = watch_item(e, catalog, w) {
            assert(r.items.drop_last() =~= p.items);
        }
    }
}

/// A watch is described by what it says of itself; where it does not, its path and
/// type are those of its node, its path that of its value, and its name its path's
/// last part.
pub proof fn lemma_watches_are_described(elf: Option<ElfInfo>, w: WatchRequest)
    ensures
        ({
            let m = meta_of(elf, w);
            &&& m.id == w.id
            &&& w.path matches Some(path) ==> m.path == path@
            &&& w.type_text matches Some(text) ==> m.type_text == text@
            &&& says_something(w.name) ==> m.name == w.name->0@
            &&& !says_something(w.name) ==> m.name == shortened(m.path)
            &&& says_something(w.unit) ==> m.unit == Some(w.unit->0@)
            &&& !says_something(w.unit) ==> m.unit is None
            &&& w.path is None && w.node is None && w.cell is Some ==> m.path == "cell "@ + decimal(
                w.cell->0 as nat,
            )
            &&& w.node is None && w.type_text is None ==> m.type_text.len() == 0
            &&& w.path is None && elf is Some && w.node is Some ==> (plain_node(
                elf->0,
                w.node->0@,
            ) matches Ok(n) ==> m.path == n.path)
            &&& w.type_text is None && elf is Some && w.node is Some ==> (plain_node(
                elf->0,
                w.node->0@,
            ) matches Ok(n) ==> m.type_text == n.type_text)
        }),
{
}

/// A serial link needs its port and nothing else; a probe needs the ELF and the chip,
/// takes what was asked for, and finds its channel where the ELF says.
pub proof fn lemma_carriers_are_opened_as_asked(
    request: ConnectRequest,
    elf: Result<ElfInfo, Seq<char>>,
    rtt: bool,
)
    ensures
        request.carrier == Carrier::Serial && request.port is Some && request.port->0@.len() > 0
            ==> connect_planned(request, elf, rtt) == Ok::<ConnectView, Seq<char>>(
            ConnectView::Serial { port: request.port->0@ },
        ),
        request.carrier == Carrier::Serial && (request.port is None || request.port->0@.len() == 0)
            ==> connect_planned(request, elf, rtt) is Err,
        request.carrier == Carrier::Probe && elf is Err ==> connect_planned(request, elf, rtt)
            == Err::<ConnectView, Seq<char>>(elf->Err_0),
        request.carrier == Carrier::Probe && elf is Ok ==> (connect_planned(request, elf, rtt) is Ok
            <==> trimmed_text(request.chip@).len() > 0),
        connect_planned(request, elf, rtt) matches Ok(ConnectView::Probe {
            selector,
            chip,
            speed_khz,
            rtt_address,
        }) ==> {
            &&& request.carrier == Carrier::Probe
            &&& chip == trimmed_text(request.chip@)
            &&& speed_khz == request.speed_khz
            &&& request.probe is Some && request.probe->0@.len() > 0 ==> selector == Some(
                request.probe->0@,
            )
            &&& request.probe is None || request.probe->0@.len() == 0 ==> selector is None
            &&& !rtt ==> rtt_address is None
            &&& rtt && rtt_address is Some ==> exists|i: int|
                0 <= i < elf->Ok_0.symbols@.len() && (
                #[trigger] elf->Ok_0.symbols@[i]).address == rtt_address->0
                    && crate::elf::symbol_named("_SEGGER_RTT"@)(elf->Ok_0.symbols@[i])
        },
{
    if let Ok(e) = elf {
        crate::search::lemma_first(e.symbols@, crate::elf::symbol_named("_SEGGER_RTT"@));
    }
}

/// A reply that came is handed on as it is; one that did not is told apart by whether
/// the request went out.
pub proof fn lemma_replies_are_handed_on<T>(
    value: T,
    error: String,
    not_sent: Seq<char>,
    late: Seq<char>,
)
    ensures
        settled_reply(Reply::Answered(Ok(value)), not_sent, late) == Ok::<T, Seq<char>>(value),
        settled_reply(Reply::Answered(Err::<T, String>(error)), not_sent, late) == Err::<
            T,
            Seq<char>,
        >(error@),
        settled_reply(Reply::<T>::NotSent, not_sent, late) == Err::<T, Seq<char>>(not_sent),
        settled_reply(Reply::<T>::Late, not_sent, late) == Err::<T, Seq<char>>(late),
{
}

/// A value of the table goes by its id and name, with its unit where it has one.
pub proof fn lemma_tunables_go_by_their_names(e: CatalogEntry)
    ensures
        named(e).0 == e.id,
        named(e).1 == e.name@,
        e.unit@.len() > 0 ==> named(e).2 == Some(e.unit@),
        e.unit@.len() == 0 ==> named(e).2 is None,
{
}

/// Bytes are written as two digits each, the higher one first.
pub proof fn lemma_bytes_are_two_digits_each(bytes: Seq<u8>, i: int)
    requires
        0 <= i < bytes.len(),
    ensures
        hex_of(bytes).len() == 2 * bytes.len(),
        16 * digit_value(hex_of(bytes)[2 * i]) + digit_value(hex_of(bytes)[2 * i + 1])
            == bytes[i],
        0 <= digit_value(hex_of(bytes)[2 * i]) < 16,
        0 <= digit_value(hex_of(bytes)[2 * i + 1]) < 16,
    decreases bytes.len(),
{
    reveal_with_fuel(hex_padded, 3);
    let before = bytes.drop_last();
    if i < before.len() {
        lemma_bytes_are_two_digits_each(before, i);
    } else if before.len() > 0 {
        lemma_bytes_are_two_digits_each(before, 0);
    } else {
        assert(hex_of(before).len() == 0);
    }
}

/// Whether some letters of a JSON text stand for a character.
pub open spec fn stands_for_letter(s: Seq<char>, c: char) -> bool {
    ||| s == seq![c] && c != '"' && c != '\\' && c as int >= 0x20
    ||| s.len() == 2 && s[0] == '\\' && (s[1] == c && (c == '"' || c == '\\') || s[1] == 'b'
        && c as int == 8 || s[1] == 't' && c as int == 9 || s[1] == 'n' && c as int == 10 || s[1]
        == 'f' && c as int == 12 || s[1] == 'r' && c as int == 13)
    ||| s.len() == 6 && s[0] == '\\' && s[1] == 'u' && s[2] == '0' && s[3] == '0' && 0
        <= digit_value(s[4]) && 0 <= digit_value(s[5]) && 16 * digit_value(s[4]) + digit_value(s[5])
        == c as int
}

/// A text in JSON stands between quotes, and in it every character is written so that
/// a reader finds the character again.
pub proof fn lemma_json_says_the_text(s: Seq<char>, c: char)
    ensures
        stands_for_letter(json_letter(c), c),
        json_letters(Seq::empty()).len() == 0,
        json_letters(s.push(c)) == json_letters(s) + json_letter(c),
        json_text(s).first() == '"',
        json_text(s).last() == '"',
        json_text(s).subrange(1, json_text(s).len() - 1) == json_letters(s),
{
    assert(s.push(c).drop_last() =~= s);
    assert(json_text(s).subrange(1, json_text(s).len() - 1) =~= json_letters(s));
}

/// Under an id stands the last name, and the last value, that was given for it.
pub proof fn lemma_the_last_one_stands(
    names: Seq<(u32, Seq<char>)>,
    name: (u32, Seq<char>),
    values: Seq<TuneValue>,
    value: TuneValue,
    id: u32,
)
    ensures
        !names_by_id(Seq::empty()).contains_key(id),
        names_by_id(names.push(name)).contains_key(name.0),
        names_by_id(names.push(name))[name.0] == name.1,
        id != name.0 ==> names_by_id(names.push(name)).contains_key(id) == names_by_id(
            names,
        ).contains_key(id),
        id != name.0 && names_by_id(names).contains_key(id) ==> names_by_id(names.push(name))[id]
            == names_by_id(names)[id],
        !by_id(Seq::empty()).contains_key(id),
        by_id(values.push(value)).contains_key(value.id),
        by_id(values.push(value))[value.id] == value,
        id != value.id ==> by_id(values.push(value)).contains_key(id) == by_id(
            values,
        ).contains_key(id),
        id != value.id && by_id(values).contains_key(id) ==> by_id(values.push(value))[id]
            == by_id(values)[id],
{
    assert(names.push(name).drop_last() =~= names);
    assert(values.push(value).drop_last() =~= values);
}

/// A batch that found no room is counted and owed a notice, another line is owed one;
/// a notice that is taken settles what is owed, and no more is ever forgotten.
pub proof fn lemma_losses_are_owed(l: Losses, sent: Sent, batch: bool)
    requires
        l.counts(),
    ensures
        sent != Sent::Full ==> l.offered(sent, batch) == l,
        ({
            let after = l.offered(Sent::Full, batch);
            &&& after.owes_notice()
            &&& after.dropped == l.dropped + (if batch {
                1int
            } else {
                0
            })
            &&& after.pending_batches == l.pending_batches + (if batch {
                1int
            } else {
                0
            })
            &&& after.pending_messages == l.pending_messages + (if batch {
                0int
            } else {
                1
            })
        }),
        !l.noticed(Sent::Taken).owes_notice(),
        l.noticed(sent).dropped == l.dropped,
        sent != Sent::Taken ==> l.noticed(sent) == l,
        l.owes_notice() <==> l.pending_batches > 0 || l.pending_messages > 0,
{
}

/// A description is a value's id, kind and access, its default, its bounds, its step
/// and its unit, one behind another.
pub proof fn lemma_descriptions_are_laid_out(e: EntryView)
    ensures
        ({
            let d = e.descriptor();
            &&& word32(d, 0) == e.id
            &&& d[4] == (match e.kind {
                Kind::F32 => 0u8,
                Kind::I32 => 1u8,
                Kind::U32 => 2u8,
                Kind::Bool => 3u8,
            })
            &&& d[5] == (match e.access {
                Access::ReadOnly => 0u8,
                Access::Live => 1u8,
                Access::SafeOnly => 2u8,
            })
            &&& word32(d, 6) == e.default
            &&& word32(d, 10) == e.min
            &&& word32(d, 14) == e.max
            &&& word32(d, 18) == e.max_step
            &&& d.skip(22) == encode_utf8(e.unit)
        }),
{
    let d = e.descriptor();
    reveal(le32);
    assert(d.subrange(0, 4) =~= le32(e.id));
    assert(d.subrange(6, 10) =~= le32(e.default));
    assert(d.subrange(10, 14) =~= le32(e.min));
    assert(d.subrange(14, 18) =~= le32(e.max));
    assert(d.subrange(18, 22) =~= le32(e.max_step));
    lemma_numbers_are_little_endian(d, 0, 0, e.id, 0);
    lemma_numbers_are_little_endian(d, 6, 0, e.default, 0);
    lemma_numbers_are_little_endian(d, 10, 0, e.min, 0);
    lemma_numbers_are_little_endian(d, 14, 0, e.max, 0);
    let padded = d + seq![0u8, 0u8, 0u8, 0u8];
    assert(padded.subrange(18, 22) =~= le32(e.max_step));
    lemma_numbers_are_little_endian(padded, 18, 0, e.max_step, 0);
    assert(d.skip(22) =~= encode_utf8(e.unit));
}

/// A request changes what is asked for and what runs changes what is applied; nothing
/// else of the value does.
pub proof fn lemma_requests_and_values_stay_apart(e: EntryView, bits: u32, current: u32)
    ensures
        e.requesting(bits).requested == bits,
        e.requesting(bits).applied == e.applied,
        e.running(bits).applied == bits,
        e.running(bits).requested == e.requested,
        e.requesting(bits).descriptor() == e.descriptor(),
        e.running(bits).descriptor() == e.descriptor(),
        e.requesting(bits).name == e.name,
        e.running(bits).name == e.name,
        e.settled(current).requested == e.target(current),
        e.settled(current).applied == e.next(current),
{
}

/// A value that is only watched has its name, unit and kind, takes no request, and is
/// found under the hash of its name.
pub proof fn lemma_watched_values_take_no_request(name: Seq<char>, unit: Seq<char>, kind: Kind)
    ensures
        ({
            let e = watch_view(name, unit, kind);
            &&& e.name == name
            &&& e.unit == unit
            &&& e.kind == kind
            &&& !e.tunable()
            &&& e.id == fnv_of(encode_utf8(name))
            &&& e.applied == 0 && e.requested == 0 && e.default == 0
        }),
{
}

/// A signed number is carried by the unsigned one that is equal to it modulo 2^32, and
/// a flag by 1 or 0.
pub proof fn lemma_values_are_carried_by_their_bits(v: i32, b: bool)
    ensures
        (i32_bits(v) - v) % 0x1_0000_0000 == 0,
        bool_bits(b) == 1 <==> b,
        bool_bits(b) <= 1,
{
}

/// A value's id is the 32-bit FNV-1a hash of its name: from its offset on, every byte
/// is mixed in and the whole multiplied by its prime, modulo 2^32.
pub proof fn lemma_ids_are_fnv_hashes(hash: u32, s: Seq<u8>, byte: u8)
    ensures
        fnv_of(Seq::empty()) == 2166136261,
        fnv_of(s) == fnv_extended(2166136261, s),
        fnv_extended(hash, Seq::empty()) == hash,
        fnv_extended(hash, s.push(byte)) == ((fnv_extended(hash, s) ^ byte as u32) * 16777619)
            % 0x1_0000_0000,
{
    assert(s.push(byte).drop_last() =~= s);
    let x = fnv_extended(hash, s) ^ byte as u32;
    let y = x.wrapping_mul(16777619u32);
    assert(y == (x * 16777619) % 0x1_0000_0000);
}

/// The check of a frame is the remainder by x^16 + x^12 + x^5 + 1, with the lowest bit
/// first: a step halves the register, and one that pushes out a 1 takes the polynomial
/// off.
pub proof fn lemma_checks_are_ccitt_remainders(s: Seq<u8>, byte: u8, a: u16, b: u16)
    ensures
        a < 0x8000 ==> crc_shift((2 * a) as u16) == a,
        crc_shift(1) == 0x8408,
        crc_shift(a ^ b) == crc_shift(a) ^ crc_shift(b),
        crc_of(s.push(byte)) == crc_shifts(crc_of(s) ^ byte as u16, 8),
        crc_shifts(a, 0) == a,
        crc_shifts(a, 1) == crc_shift(a),
        crc_shifts(a, 8) == crc_shift(crc_shifts(a, 7)),
{
    assert(s.push(byte).drop_last() =~= s);
    reveal_with_fuel(crc_shifts, 2);
    assert((a < 0x8000 ==> crc_shift((2 * a) as u16) == a) && crc_shift(1) == 0x8408 && crc_shift(
        a ^ b,
    ) == crc_shift(a) ^ crc_shift(b)) by (bit_vector);
}

} // verus!
