//! What locations, entries, inheritance and the result of parsing promise as a whole.

use vstd::prelude::*;
use vstd::string::*;
use crate::def_view::{
    followed, record_of, view_in, DefView, LocationView, MemberView, RecordView, TableModel,
};
use crate::die::{DieView, UnitView, ValueView};
use crate::dwarf_eval::{
    first_address, first_located, list_status, location_status, member_offset,
    offset_of_operations, placed_at, runtime_reason, status_of_pieces, Answer, Code, Op, Piece,
    Runtime,
};
use crate::dwarf_laws::{lemma_says, says, silent};
use crate::dwarf_load::{
    declared_at, depth_after, die_with, file_path, joined, path_at_index, zero_ended,
};
use crate::dwarf_parser::{
    bases_done, inherited, moved, names_for, prepended, records_upto, statistics_of,
    type_of_pending, DwarfParseResult,
};
use crate::dwarf_model::{
    settled, type_defined, type_entered, units_read, with_symbol, DeferredView, InfoView,
    ParserView, PendingView,
};
use crate::dwarf_source::{BytesView, Number, Place, SectionsView};
use crate::text::decimal;
use crate::type_def::{BaseClassDef, DwarfTypeKey, GlobalTypeKey, TypeId};
use crate::type_table::TableView;
use crate::variable_status::{no_diagnostics, StatusView};

verus! {

/// A variable in one piece is where its piece is: at an address, of which 0 is told
/// apart, in a register, or nowhere in memory. One in more pieces is only said to be
/// split, and one in none to be optimized out.
pub proof fn lemma_variables_are_where_their_pieces_are(
    addresses: Seq<Option<u64>>,
    registers: Seq<Option<u16>>,
    pieces: Seq<Piece>,
)
    requires
        registers.len() == addresses.len(),
        pieces.len() == addresses.len(),
    ensures
        ({
            let s = status_of_pieces(addresses, registers, pieces);
            &&& addresses.len() == 0 ==> s == StatusView::OptimizedOut
            &&& addresses.len() == 1 ==> (addresses[0] matches Some(a) ==> (a != 0 ==> s == (
            StatusView::Valid { address: a })) && (a == 0 ==> s == StatusView::AddressZero))
            &&& addresses.len() == 1 && addresses[0] is None ==> (registers[0] matches Some(r)
                ==> s == (StatusView::RegisterOnly { register: r }))
            &&& addresses.len() == 1 && addresses[0] is None && registers[0] is None ==> s == (
            match pieces[0] {
                Piece::Empty => StatusView::OptimizedOut,
                Piece::ImplicitPointer => StatusView::ImplicitPointer,
                _ => StatusView::ImplicitValue,
            })
            &&& addresses.len() > 1 ==> (s matches StatusView::MultiPiece { has_address }
                && has_address == exists|i: int|
                0 <= i < addresses.len() && (#[trigger] addresses[i]) is Some)
        }),
{
    lemma_first_address(addresses);
}

proof fn lemma_first_address(addresses: Seq<Option<u64>>)
    ensures
        first_address(addresses) is Some <==> exists|i: int|
            0 <= i < addresses.len() && (#[trigger] addresses[i]) is Some,
        first_address(addresses) matches Some(a) ==> exists|i: int|
            0 <= i < addresses.len() && #[trigger] addresses[i] == Some(a) && forall|k: int|
                0 <= k < i ==> (#[trigger] addresses[k]) is None,
    decreases addresses.len(),
{
    if addresses.len() > 0 {
        let rest = addresses.skip(1);
        lemma_first_address(rest);
        if addresses[0] is None {
            if exists|i: int| 0 <= i < addresses.len() && (#[trigger] addresses[i]) is Some {
                let i = choose|i: int| 0 <= i < addresses.len() && (#[trigger] addresses[i]) is Some;
                assert(rest[i - 1] == addresses[i]);
            }
            if let Some(a) = first_address(rest) {
                let j = choose|j: int|
                    0 <= j < rest.len() && #[trigger] rest[j] == Some(a) && forall|k: int|
                        0 <= k < j ==> (#[trigger] rest[k]) is None;
                assert(addresses[j + 1] == Some(a));
                assert forall|k: int| 0 <= k < j + 1 implies (#[trigger] addresses[k]) is None by {
                    if k > 0 {
                        assert(rest[k - 1] == addresses[k]);
                    }
                }
            }
        }
    }
}

/// An address that is given outright is where the variable is, and so is the one that
/// a list leads to; a list that leads to none is told.
pub proof fn lemma_given_addresses_are_taken(s: SectionsView, unit: usize, address: u64)
    ensures
        address != 0 ==> location_status(s, unit, ValueView::Address(address)) == (
        StatusView::Valid { address }),
        location_status(s, unit, ValueView::Address(0)) == StatusView::AddressZero,
        location_status(s, unit, ValueView::Unsigned(address)) == location_status(
            s,
            unit,
            ValueView::Address(address),
        ),
        list_status(Some(address)) == location_status(s, unit, ValueView::Address(address)),
        list_status(None) == (StatusView::LocalVariable {
            reason: "Location list with no static entry"@,
        }),
        location_status(s, unit, ValueView::Other) == StatusView::NoLocation,
        placed_at(address).address() == Some(address),
{
}

/// What a variable needs while the program runs is told by name.
pub proof fn lemma_runtime_needs_are_told(register: u16)
    ensures
        runtime_reason(Runtime::Register(register)) == "Requires register "@ + decimal(
            register as nat,
        ),
        runtime_reason(Runtime::FrameBase) == "Stack variable (requires frame base)"@,
        runtime_reason(Runtime::Memory) == "Requires memory read at runtime"@,
        runtime_reason(Runtime::Tls) == "Thread-local storage variable"@,
        runtime_reason(Runtime::CallFrameCfa) == "Requires call frame CFA"@,
        runtime_reason(Runtime::AtLocation) == "Requires DW_AT_location from another DIE"@,
        runtime_reason(Runtime::EntryValue) == "Requires entry value (function parameter)"@,
        runtime_reason(Runtime::ParameterRef) == "Requires parameter reference"@,
{
}

/// A member's distance is the number that is given, or the first number that its
/// expression holds, and nothing where it holds none.
pub proof fn lemma_member_offsets_are_their_numbers(
    s: SectionsView,
    unit: usize,
    value: u64,
    ops: Seq<Op>,
    op: Op,
)
    ensures
        member_offset(s, unit, ValueView::Unsigned(value)) == value,
        value <= i64::MAX ==> member_offset(s, unit, ValueView::Signed(value as i64)) == value,
        member_offset(s, unit, ValueView::Other) == 0,
        offset_of_operations(Seq::empty()) == 0,
        offset_of_operations(seq![Op::PlusConstant(value)] + ops) == value,
        offset_of_operations(seq![Op::UnsignedConstant(value)] + ops) == value,
        offset_of_operations(seq![Op::Address(value)] + ops) == value,
        op is Plain || op is Located || op is Jump || op is Choice ==> offset_of_operations(
            seq![op] + ops,
        ) == offset_of_operations(ops),
{
    assert((seq![op] + ops).skip(1) =~= ops);
}

/// An entry's names and numbers are those of its attributes: the linkage name under
/// either of its codes, a member's bit offset, a constant, a tag's value, a reference
/// to a type in its unit or in the whole of the file, and a bound one below a count.
pub proof fn lemma_entries_say_what_their_attributes_say(
    die: DieView,
    text: Seq<char>,
    number: u64,
    value: i64,
    offset: usize,
    unit_index: usize,
)
    ensures
        says(die, 0x03, ValueView::Text(text)) ==> die.name() == Some(text),
        silent(die, 0x03) ==> die.name() is None,
        says(die, 0x6e, ValueView::Text(text)) ==> die.linkage_name() == Some(text),
        silent(die, 0x6e) && says(die, 0x2007, ValueView::Text(text)) ==> die.linkage_name()
            == Some(text),
        silent(die, 0x6e) && silent(die, 0x2007) ==> die.linkage_name() is None,
        says(die, 0x6b, ValueView::Unsigned(number)) ==> die.bit_offset() == Some(number),
        silent(die, 0x6b) && says(die, 0x0c, ValueView::Unsigned(number)) ==> die.bit_offset()
            == Some(number),
        silent(die, 0x6b) && silent(die, 0x0c) ==> die.bit_offset() is None,
        says(die, 0x1c, ValueView::Signed(value)) ==> die.const_value() == Some(value),
        number <= i64::MAX && says(die, 0x1c, ValueView::Unsigned(number)) ==> die.const_value()
            == Some(number as i64),
        silent(die, 0x1c) ==> die.const_value() is None,
        says(die, 0x16, ValueView::Unsigned(number)) ==> die.discr_value() == Some(number),
        silent(die, 0x16) ==> die.discr_value() is None,
        says(die, 0x49, ValueView::UnitRef(offset)) ==> die.type_key(unit_index) == Some(
            GlobalTypeKey::UnitLocal(DwarfTypeKey { unit_index, offset }),
        ),
        says(die, 0x49, ValueView::InfoRef(offset)) ==> die.type_key(unit_index) == Some(
            GlobalTypeKey::Global(offset),
        ),
        silent(die, 0x49) ==> die.type_key(unit_index) is None,
        says(die, 0x37, ValueView::Unsigned(number)) ==> die.subrange_count() == Some(Some(number)),
        number < u64::MAX && silent(die, 0x37) && says(die, 0x2f, ValueView::Unsigned(number))
            ==> die.subrange_count() == Some(Some((number + 1) as u64)),
        silent(die, 0x37) && silent(die, 0x2f) ==> die.subrange_count() is None,
        says(die, 0x47, ValueView::InfoRef(offset)) ==> die.completes(unit_index) == Some(offset),
        silent(die, 0x47) && says(die, 0x31, ValueView::InfoRef(offset)) ==> die.completes(
            unit_index,
        ) == Some(offset),
        offset + unit_index <= usize::MAX && says(die, 0x47, ValueView::UnitRef(offset))
            ==> die.completes(unit_index) == Some((offset + unit_index) as usize),
        silent(die, 0x47) && silent(die, 0x31) ==> die.completes(unit_index) is None,
        says(die, 0x3e, ValueView::Encoding(number as u8)) ==> die.encoding() == Some(number as u8),
{
    lemma_says(die, 0x03, ValueView::Text(text));
    lemma_says(die, 0x6e, ValueView::Text(text));
    lemma_says(die, 0x2007, ValueView::Text(text));
    lemma_says(die, 0x6b, ValueView::Unsigned(number));
    lemma_says(die, 0x0c, ValueView::Unsigned(number));
    lemma_says(die, 0x1c, ValueView::Signed(value));
    lemma_says(die, 0x1c, ValueView::Unsigned(number));
    lemma_says(die, 0x16, ValueView::Unsigned(number));
    lemma_says(die, 0x49, ValueView::UnitRef(offset));
    lemma_says(die, 0x49, ValueView::InfoRef(offset));
    lemma_says(die, 0x37, ValueView::Unsigned(number));
    lemma_says(die, 0x2f, ValueView::Unsigned(number));
    lemma_says(die, 0x47, ValueView::InfoRef(offset));
    lemma_says(die, 0x31, ValueView::InfoRef(offset));
    lemma_says(die, 0x47, ValueView::UnitRef(offset));
    lemma_says(die, 0x3e, ValueView::Encoding(number as u8));
}

/// An entry that is loaded keeps its place, depth, kind and attributes; only a
/// variable is located, and only a member says where it is declared.
pub proof fn lemma_entries_are_loaded_as_they_are(
    s: SectionsView,
    unit: usize,
    offset: usize,
    depth: i64,
    tag: u16,
    attrs: Seq<(u16, ValueView)>,
    value: ValueView,
)
    ensures
        ({
            let d = die_with(s, unit, offset, depth, tag, attrs);
            &&& d.offset == offset
            &&& d.depth == depth
            &&& d.tag == tag
            &&& d.attrs == attrs
            &&& tag == 0x34 && says(d, 0x02, value) ==> d.located == location_status(s, unit, value)
            &&& tag != 0x34 ==> d.located == StatusView::NoLocation
            &&& silent(d, 0x02) ==> d.located == StatusView::NoLocation
            &&& says(d, 0x38, value) ==> d.member_offset == Some(member_offset(s, unit, value))
            &&& silent(d, 0x38) ==> d.member_offset is None
            &&& tag != 0x0d ==> d.declared is None
        }),
{
    let d = die_with(s, unit, offset, depth, tag, attrs);
    lemma_says(d, 0x02, value);
    lemma_says(d, 0x38, value);
}

/// A depth is the sum of the steps up to its entry.
pub proof fn lemma_depths_are_summed(entries: Seq<(usize, isize, u16)>, n: int)
    requires
        0 < n <= entries.len(),
        i64::MIN <= depth_after(entries, n - 1) + entries[n - 1].1 <= i64::MAX,
        i64::MIN <= entries[n - 1].1 <= i64::MAX,
    ensures
        depth_after(entries, 0) == 0,
        depth_after(entries, n) == depth_after(entries, n - 1) + entries[n - 1].1,
{
}

/// An attribute is a number, a place elsewhere or bytes, as whatever of these it was
/// read, under its own code.
pub proof fn lemma_attributes_are_what_was_read(
    s: SectionsView,
    unit: usize,
    numbers: Seq<(u16, Number)>,
    places: Seq<Place>,
    held: Seq<BytesView>,
    j: int,
)
    requires
        0 <= j < numbers.len(),
        places.len() == numbers.len(),
        held.len() == numbers.len(),
    ensures
        joined(s, unit, numbers, places, held).len() == numbers.len(),
        ({
            let (name, value) = joined(s, unit, numbers, places, held)[j];
            &&& name == numbers[j].0
            &&& numbers[j].1 matches Number::Unsigned(v) ==> value == ValueView::Unsigned(v)
            &&& numbers[j].1 matches Number::Signed(v) ==> value == ValueView::Signed(v)
            &&& numbers[j].1 matches Number::Switch(v) ==> value == ValueView::Flag(v)
            &&& numbers[j].1 matches Number::Encoded(v) ==> value == ValueView::Encoding(v)
            &&& numbers[j].1 matches Number::File(v) ==> value == ValueView::FileIndex(v)
            &&& numbers[j].1 matches Number::Address(v) ==> value == ValueView::Address(v)
            &&& numbers[j].1 is NoNumber ==> (places[j] matches Place::InUnit(v) ==> value
                == ValueView::UnitRef(v))
            &&& numbers[j].1 is NoNumber ==> (places[j] matches Place::InInfo(v) ==> value
                == ValueView::InfoRef(v))
            &&& numbers[j].1 is NoNumber ==> (places[j] matches Place::AddressIndex(v) ==> value
                == ValueView::AddressIndex(v))
            &&& numbers[j].1 is NoNumber ==> (places[j] matches Place::ListAt(v) ==> value
                == ValueView::LocationList(v))
            &&& numbers[j].1 is NoNumber ==> (places[j] matches Place::ListIndex(v) ==> value
                == ValueView::LocationListIndex(v))
            &&& numbers[j].1 is NoNumber && places[j] is NoPlace ==> (held[j] matches BytesView::Code(
                b,
            ) ==> value == ValueView::Expression(b))
            &&& numbers[j].1 is NoNumber && places[j] is NoPlace ==> (held[j] matches BytesView::Raw(
                b,
            ) ==> value == ValueView::Block(b))
        }),
{
}

/// A text in a section goes from its place up to the next zero byte.
pub proof fn lemma_texts_end_with_a_zero(section: Seq<u8>, at: int, n: int)
    requires
        0 <= at <= n < section.len(),
        section[n] == 0,
        forall|k: int| at <= k < n ==> #[trigger] section[k] != 0,
    ensures
        zero_ended(section, at) == Some(section.subrange(at, n)),
{
    let rest = section.skip(at);
    assert(rest[n - at] == 0);
    assert(rest.contains(0u8));
    assert(forall|k: int| 0 <= k < n - at ==> rest[k] != 0) by {
        assert forall|k: int| 0 <= k < n - at implies rest[k] != 0 by {
            assert(rest[k] == section[k + at]);
        }
    }
    rest.index_of_first_ensures(0u8);
    let i = rest.index_of_first(0u8)->0;
    assert(i == n - at);
    assert(rest.take(i) =~= section.subrange(at, n));
}

/// A file's path is its name below its directory, with one slash between, unless the
/// name is a path from the root or there is no directory.
pub proof fn lemma_paths_are_below_their_directory(name: Seq<char>, dir: Seq<char>)
    requires
        dir.len() > 0,
        dir.last() != '/',
    ensures
        file_path(name, None) == name,
        file_path(name, Some(Seq::empty())) == name,
        name.len() > 0 && name[0] == '/' ==> file_path(name, Some(dir)) == name,
        name.len() == 0 || name[0] != '/' ==> file_path(name, Some(dir)) == dir.push('/') + name,
        name.len() == 0 || name[0] != '/' ==> file_path(name, Some(dir.push('/'))) == dir.push('/')
            + name,
{
    reveal_strlit("/");
    assert("/"@ =~= seq!['/']);
    if name.len() > 0 && name[0] == '/' {
        assert(name.take(1) =~= "/"@);
    }
    if crate::text::begins_with(name, "/"@) {
        assert(name.take(1)[0] == "/"@[0]);
    }
    assert(crate::text::trimmed_end(dir, '/') == dir);
    assert(dir.push('/').drop_last() =~= dir);
    assert(crate::text::trimmed_end(dir.push('/'), '/') == dir);
    assert(dir + "/"@ + name =~= dir.push('/') + name);
}

/// A base's members keep their order and what they are, and lie as much further as
/// the base does.
pub proof fn lemma_inherited_members_move_with_their_base(
    members: Seq<MemberView>,
    offset: u64,
    i: int,
)
    requires
        0 <= i < members.len(),
        members[i].offset + offset <= u64::MAX,
    ensures
        moved(members, offset).len() == members.len(),
        moved(members, offset)[i].offset == members[i].offset + offset,
        moved(members, offset)[i] == (MemberView {
            offset: moved(members, offset)[i].offset,
            ..members[i]
        }),
{
}

/// Inherited members stand in front of a record's own; nothing else of it, and no
/// other type, changes.
pub proof fn lemma_inherited_members_come_first(
    types: Seq<DefView>,
    id: TypeId,
    members: Seq<MemberView>,
    k: int,
)
    requires
        0 <= k < types.len(),
        id.spec_is_valid(),
        id.0 < types.len(),
    ensures
        ({
            let after = prepended(types, id, members);
            &&& after.len() == types.len()
            &&& k != id.0 ==> after[k] == types[k]
            &&& types[id.0 as int].record() matches Some(rec) ==> (
            after[id.0 as int].record() matches Some(now) && now == RecordView {
                members: members + rec.members,
                ..rec
            })
            &&& types[id.0 as int].record() is None ==> after == types
        }),
{
}

/// Whether a base is a record that has no base of its own.
pub open spec fn plain_base(types: Seq<DefView>, base: BaseClassDef) -> bool {
    let id = followed(types, base.type_id, types.len());
    view_in(types, id) matches Some(def) && def.record() matches Some(rec)
        && rec.base_classes.len() == 0
}

/// What the first bases hand down, one behind another.
pub open spec fn handed_down(types: Seq<DefView>, bases: Seq<BaseClassDef>, k: nat) -> Seq<MemberView>
    decreases k,
{
    if k == 0 {
        Seq::empty()
    } else {
        let id = followed(types, bases[k - 1].type_id, types.len());
        handed_down(types, bases, (k - 1) as nat) + view_in(types, id)->0.record()->0.members
            .map_values(
            |m: MemberView|
                MemberView { offset: m.offset.wrapping_add(bases[k - 1].offset), ..m },
        )
    }
}

proof fn lemma_plain_bases(
    types: Seq<DefView>,
    bases: Seq<BaseClassDef>,
    seen: Set<u32>,
    k: nat,
    n: nat,
)
    requires
        k <= bases.len(),
        forall|j: int| 0 <= j < bases.len() ==> plain_base(types, #[trigger] bases[j]),
    ensures
        bases_done(types, bases, seen, k, n).0 == types,
        bases_done(types, bases, seen, k, n).2 == handed_down(types, bases, k),
    decreases k,
{
    if k > 0 {
        lemma_plain_bases(types, bases, seen, (k - 1) as nat, n);
        let before = bases_done(types, bases, seen, (k - 1) as nat, n);
        let base = bases[k - 1];
        let id = followed(types, base.type_id, types.len());
        assert(plain_base(types, base));
        lemma_follows_once(types, base.type_id, types.len());
        let rec = view_in(types, id)->0.record()->0;
        assert(followed(types, id, types.len()) == id);
        assert(record_of(types, id, 0) == Some(rec));
        if n > 0 {
            reveal_with_fuel(inherited, 2);
            reveal_with_fuel(bases_done, 2);
            let after = inherited(types, id, before.1, (n - 1) as nat);
            assert(bases_done(
                types,
                rec.base_classes,
                before.1.insert(id.0),
                0,
                (n - 1) as nat,
            ).2.len() == 0);
            assert(after.0 == types);
        }
    }
}

proof fn lemma_follows_once(types: Seq<DefView>, id: TypeId, n: nat)
    requires
        view_in(types, followed(types, id, n)) matches Some(def) && def.record() is Some,
    ensures
        followed(types, followed(types, id, n), types.len()) == followed(types, id, n),
{
}

/// A record of plain bases has their members in front of its own, base by base in
/// order, each moved by where its base lies; no other type changes.
pub proof fn lemma_records_inherit_from_their_bases(types: Seq<DefView>, id: TypeId, n: nat, k: int)
    requires
        0 <= k < types.len(),
        view_in(types, id) matches Some(def) && def.record() matches Some(rec) && (forall|j: int|
            0 <= j < rec.base_classes.len() ==> plain_base(types, #[trigger] rec.base_classes[j])),
    ensures
        ({
            let rec = view_in(types, id)->0.record()->0;
            let after = inherited(types, id, Set::empty(), n).0;
            &&& k != id.0 ==> after[k] == types[k]
            &&& after[id.0 as int].record() matches Some(now) && now.members == handed_down(
                types,
                rec.base_classes,
                rec.base_classes.len(),
            ) + rec.members && now.base_classes == rec.base_classes && now.size == rec.size
                && now.name == rec.name
        }),
{
    let rec = view_in(types, id)->0.record()->0;
    let seen = Set::<u32>::empty().insert(id.0);
    lemma_plain_bases(types, rec.base_classes, seen, rec.base_classes.len(), n);
    let members = handed_down(types, rec.base_classes, rec.base_classes.len());
    lemma_inherited_members_come_first(types, id, members, k);
    if members.len() == 0 {
        assert(members + rec.members =~= rec.members);
    }
}

/// Inheritance is settled for every record, in the order of the table.
pub proof fn lemma_every_record_is_settled(types: Seq<DefView>, n: nat, k: int)
    requires
        n <= types.len() <= u32::MAX,
        0 <= k < n,
    ensures
        types[k].record() is Some <==> records_upto(types, n).contains(TypeId(k as u32)),
    decreases n,
{
    let before = records_upto(types, (n - 1) as nat);
    let all = records_upto(types, n);
    let last = TypeId((n - 1) as u32);
    assert(last.0 == n - 1);
    lemma_records_below(types, (n - 1) as nat);
    if k < n - 1 {
        lemma_every_record_is_settled(types, (n - 1) as nat, k);
        if before.contains(TypeId(k as u32)) {
            let i = choose|i: int| 0 <= i < before.len() && before[i] == TypeId(k as u32);
            assert(all[i] == TypeId(k as u32));
        }
        if all.contains(TypeId(k as u32)) {
            let i = choose|i: int| 0 <= i < all.len() && all[i] == TypeId(k as u32);
            assert(TypeId(k as u32) != last);
            assert(before[i] == TypeId(k as u32));
        }
    } else if types[k].record() is Some {
        assert(all.last() == last);
    }
}

proof fn lemma_records_below(types: Seq<DefView>, n: nat)
    requires
        n <= types.len() <= u32::MAX,
    ensures
        forall|i: int| 0 <= i < records_upto(types, n).len() ==> (#[trigger] records_upto(
            types,
            n,
        )[i]).0 < n,
    decreases n,
{
    if n > 0 {
        lemma_records_below(types, (n - 1) as nat);
        let before = records_upto(types, (n - 1) as nat);
        let all = records_upto(types, n);
        assert forall|i: int| 0 <= i < all.len() implies (#[trigger] all[i]).0 < n by {
            if i < before.len() {
                assert(before[i].0 < n - 1);
                assert(all[i] == before[i]);
            }
        }
    }
}

/// A variable of a known type leads to the type by its name and by its linkage name;
/// it is counted by its status, and one of an unknown type as that.
pub proof fn lemma_variables_are_named_and_counted(
    t: TableView,
    pending: Seq<PendingView>,
    p: PendingView,
)
    ensures
        t.keys.contains_key(p.type_key) ==> type_of_pending(t, p) == t.keys[p.type_key],
        !t.keys.contains_key(p.type_key) ==> !type_of_pending(t, p).spec_is_valid(),
        ({
            let before = names_for(t, pending);
            let after = names_for(t, pending.push(p));
            let id = type_of_pending(t, p);
            &&& !id.spec_is_valid() ==> after == before
            &&& id.spec_is_valid() && p.mangled_name is None ==> after == before.push((p.name, id))
            &&& id.spec_is_valid() && p.mangled_name is Some ==> after == before.push(
                (p.name, id),
            ).push((p.mangled_name->0, id))
        }),
        statistics_of(t, Seq::empty()) == no_diagnostics(),
        type_of_pending(t, p).spec_is_valid() ==> statistics_of(t, pending.push(p))
            == statistics_of(t, pending).recording(p.status),
        !type_of_pending(t, p).spec_is_valid() ==> statistics_of(t, pending.push(p))
            == statistics_of(t, pending).recording(StatusView::UnresolvedType { name: None }),
{
    assert(pending.push(p).drop_last() =~= pending);
}

/// A name leads to the type that got it last.
pub proof fn lemma_the_last_type_of_a_name_counts(
    names: Seq<(String, TypeId)>,
    last: (String, TypeId),
    name: Seq<char>,
)
    ensures
        DwarfParseResult::spec_type_of(Seq::empty(), name) is None,
        DwarfParseResult::spec_type_of(names.push(last), name) == (if last.0@ == name {
            Some(last.1)
        } else {
            DwarfParseResult::spec_type_of(names, name)
        }),
{
    assert(names.push(last).drop_last() =~= names);
}

/// A variable is kept where it has a name and a type: under its own name, or under its
/// linkage name where it has no other.
pub proof fn lemma_named_variables_are_kept(
    pending: Seq<PendingView>,
    info: InfoView,
    status: StatusView,
)
    ensures
        ({
            let after = with_symbol(pending, info, status);
            &&& info.type_key is None ==> after == pending
            &&& info.name is None && info.linkage_name is None ==> after == pending
            &&& info.type_key is Some && info.linkage_name is None && info.name is Some
                && info.name->0.len() > 0 ==> after.drop_last() == pending && after.last()
                == PendingView {
                name: info.name->0,
                mangled_name: None,
                size: info.size,
                type_key: info.type_key->0,
                is_global: info.is_global,
                status,
            }
            &&& info.type_key is Some && info.linkage_name is Some && info.linkage_name->0.len() > 0
                ==> after.drop_last() == pending && after.last().name == (if info.name is Some {
                info.name->0
            } else {
                info.linkage_name->0
            }) && after.last().type_key == info.type_key->0 && after.last().size == info.size
                && after.last().is_global == info.is_global && after.last().status == status
        }),
{
    let after = with_symbol(pending, info, status);
    if after.len() > pending.len() {
        assert(after.drop_last() =~= pending);
    }
}

/// An entry that completes another has what it says itself, and the rest from the
/// other.
pub proof fn lemma_completing_entries_take_what_they_lack(own: InfoView, other: InfoView)
    ensures
        own.name is Some ==> own.inheriting(other).name == own.name,
        own.name is None ==> own.inheriting(other).name == other.name,
        own.linkage_name is Some ==> own.inheriting(other).linkage_name == own.linkage_name,
        own.linkage_name is None ==> own.inheriting(other).linkage_name == other.linkage_name,
        own.type_key is Some ==> own.inheriting(other).type_key == own.type_key,
        own.type_key is None ==> own.inheriting(other).type_key == other.type_key,
        own.size > 0 ==> own.inheriting(other).size == own.size,
        own.size == 0 ==> own.inheriting(other).size == other.size,
        own.inheriting(other).is_global <==> own.is_global || other.is_global,
{
}

/// A variable that completes an entry read before takes it up at once; one that
/// completes an entry read later takes it up when all is read.
pub proof fn lemma_completed_entries_are_found(
    p: ParserView,
    unit: UnitView,
    unit_index: usize,
    i: int,
    target: usize,
    later: Map<usize, InfoView>,
)
    requires
        0 <= i < unit.dies.len(),
        unit.dies[i].tag == 0x34,
        says(unit.dies[i], 0x47, ValueView::InfoRef(target)),
        silent(unit.dies[i], 0x3c),
        silent(unit.dies[i], 0x49),
    ensures
        ({
            let die = unit.dies[i];
            let own = crate::dwarf_model::info_of(die, unit_index);
            let after = p.entered(unit, unit_index, i);
            &&& after.cache == p.cache
            &&& after.table == p.table
            &&& p.cache.contains_key(target) ==> after.deferred == p.deferred && after.pending
                == with_symbol(p.pending, own.inheriting(p.cache[target]), die.status())
            &&& !p.cache.contains_key(target) ==> after.pending == p.pending && after.deferred
                == p.deferred.push(
                DeferredView { info: own, status: die.status(), target_offset: target },
            )
            &&& !p.cache.contains_key(target) && later.contains_key(target) ==> settled(
                after.pending,
                later,
                after.deferred,
            ) == with_symbol(
                settled(p.pending, later, p.deferred),
                own.inheriting(later[target]),
                die.status(),
            )
        }),
{
    let die = unit.dies[i];
    lemma_says(die, 0x47, ValueView::InfoRef(target));
    lemma_says(die, 0x3c, ValueView::Flag(true));
    lemma_says(die, 0x49, ValueView::Other);
    let own = crate::dwarf_model::info_of(die, unit_index);
    let last = DeferredView { info: own, status: die.status(), target_offset: target };
    assert(p.deferred.push(last).drop_last() =~= p.deferred);
}

/// Units are read one behind another, and each entry by entry from its first on.
pub proof fn lemma_units_are_read_in_order(
    units: Seq<UnitView>,
    unit: UnitView,
    p: ParserView,
    unit_index: usize,
    n: int,
)
    requires
        0 <= n < unit.dies.len(),
    ensures
        units_read(Seq::empty()).pending.len() == 0,
        units_read(Seq::empty()).deferred.len() == 0,
        units_read(units.push(unit)) == units_read(units).unit_entered(
            unit,
            units.len() as usize,
            unit.dies.len() as int,
        ),
        p.unit_entered(unit, unit_index, 0) == p,
        p.unit_entered(unit, unit_index, n + 1) == p.unit_entered(unit, unit_index, n).entered(
            unit,
            unit_index,
            n,
        ),
{
    assert(units.push(unit).drop_last() =~= units);
}

/// An expression that needs the running program makes a local variable and says what
/// it needs; one that runs to its end is where its pieces are; any other is nowhere.
pub proof fn lemma_expressions_say_where_a_variable_is(c: Code, answers: Seq<Answer>)
    requires
        c.answers() == Some(answers),
    ensures
        c.runtime(answers) matches Some(need) ==> c.status() == (StatusView::LocalVariable {
            reason: runtime_reason(need),
        }),
        c.runtime(answers) is None && c.addresses(answers) is Some && c.registers(answers) is Some
            && c.pieces(answers) is Some ==> c.status() == status_of_pieces(
            c.addresses(answers)->0,
            c.registers(answers)->0,
            c.pieces(answers)->0,
        ),
        c.runtime(answers) is None && c.addresses(answers) is None ==> c.status()
            == StatusView::NoLocation,
        c.addresses(answers) matches Some(all) ==> c.address() == first_address(all),
        location_status(c.sections, c.unit, ValueView::Expression(c.code)) == c.status(),
        location_status(c.sections, c.unit, ValueView::Block(c.code)) == c.status(),
{
}

/// An expression that could not be run to an answer leads nowhere.
pub proof fn lemma_unanswered_expressions_lead_nowhere(c: Code)
    requires
        c.answers() is None,
    ensures
        c.status() == StatusView::NoLocation,
        c.address() is None,
{
}

/// Of a list of expressions the first that leads to an address counts.
pub proof fn lemma_the_first_location_counts(
    s: SectionsView,
    unit: usize,
    codes: Seq<Seq<u8>>,
    code: Seq<u8>,
)
    ensures
        first_located(s, unit, Seq::empty()) is None,
        ({
            let own = (Code { sections: s, unit, code }).address();
            &&& own is Some ==> first_located(s, unit, seq![code] + codes) == own
            &&& own is None ==> first_located(s, unit, seq![code] + codes) == first_located(
                s,
                unit,
                codes,
            )
        }),
{
    assert((seq![code] + codes).skip(1) =~= codes);
}

/// A type keeps being known by its entry, in its unit and in the whole of the file;
/// one of a Rust unit is marked, and keeps the name that its compiler gave a number
/// or a pointer.
pub proof fn lemma_types_are_known_by_their_entries(
    t: TableModel,
    unit: UnitView,
    unit_index: usize,
    i: int,
    name: Seq<char>,
)
    requires
        0 <= i < unit.dies.len(),
        unit.offset + unit.dies[i].offset <= usize::MAX,
    ensures
        ({
            let die = unit.dies[i];
            let key = DwarfTypeKey { unit_index, offset: die.offset };
            let whole = DwarfTypeKey {
                unit_index: usize::MAX,
                offset: (unit.offset + die.offset) as usize,
            };
            let defined = type_defined(t, unit.dies, unit_index, i);
            let after = type_entered(t, unit, unit_index, i);
            &&& after.types == defined.types
            &&& defined.keys.contains_key(key) && !defined.keys.contains_key(whole)
                ==> after.keys.contains_key(whole) && after.keys[whole] == defined.keys[key]
            &&& !unit.is_rust ==> after.rust == defined.rust && after.source_names
                == defined.source_names
            &&& unit.is_rust && defined.keys.contains_key(key) && key != whole
                ==> after.rust.contains(defined.keys[key].0)
            &&& unit.is_rust && defined.keys.contains_key(key) && key != whole && (die.tag == 0x24
                || die.tag == 0x0f) && says(die, 0x03, ValueView::Text(name))
                ==> after.source_names.contains_key(defined.keys[key].0)
                && after.source_names[defined.keys[key].0] == name
            &&& unit.is_rust && die.tag != 0x24 && die.tag != 0x0f ==> after.source_names
                == defined.source_names
        }),
{
    lemma_says(unit.dies[i], 0x03, ValueView::Text(name));
}

/// A member is declared in the file and the line that its entry gives.
pub proof fn lemma_declarations_are_where_their_entries_say(
    s: SectionsView,
    unit: usize,
    attrs: Seq<(u16, ValueView)>,
    line: u64,
    file: u64,
    die: DieView,
)
    requires
        die.attrs == attrs,
        says(die, 0x3b, ValueView::Unsigned(line)),
        says(die, 0x3a, ValueView::FileIndex(file)),
    ensures
        path_at_index(s, unit, file) matches Some(path) ==> declared_at(s, unit, attrs) == Some(
            LocationView { file: path, line },
        ),
        path_at_index(s, unit, file) is None ==> declared_at(s, unit, attrs) is None,
{
    lemma_says(die, 0x3b, ValueView::Unsigned(line));
    lemma_says(die, 0x3a, ValueView::FileIndex(file));
}

} // verus!
