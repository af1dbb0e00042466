//! What the types and variables that are read from debug information keep of the
//! entries that describe them.

use vstd::prelude::*;
use vstd::string::*;
use crate::def_view::{DefView, MemberView, PartView, RecordView, TableModel, VariantView};
use crate::die::{attr_named, DieView, UnitView, ValueView};
use crate::dwarf_model::{
    array_count, count_upto, end_from, end_of, enumerators_upto, first_member, is_child, member_at,
    named_primitive, part_in, part_upto, primitive, record_upto, type_defined, ParserView,
    PendingView,
};
use crate::dwarf_parser::symbols_for;
use crate::search::{lemma_first, lemma_first_is, lemma_first_none};
use crate::type_def::{BaseClassDef, DwarfTypeKey, PrimitiveDef};
use crate::type_table::TableView;
use crate::variable_status::StatusView;
use crate::variable_type::VariableType;

verus! {

/// Whether an entry says something under an attribute: the first attribute with
/// this number has this value.
pub open spec fn says(die: DieView, at: u16, value: ValueView) -> bool {
    exists|i: int|
        0 <= i < die.attrs.len() && #[trigger] die.attrs[i] == (at, value) && forall|j: int|
            0 <= j < i ==> (#[trigger] die.attrs[j]).0 != at
}

/// Whether an entry says nothing under an attribute.
pub open spec fn silent(die: DieView, at: u16) -> bool {
    forall|i: int| 0 <= i < die.attrs.len() ==> (#[trigger] die.attrs[i]).0 != at
}

/// What an entry says under an attribute is what is found there.
pub proof fn lemma_says(die: DieView, at: u16, value: ValueView)
    ensures
        says(die, at, value) <==> die.attr(at) == Some(value),
        silent(die, at) <==> die.attr(at) is None,
{
    lemma_first(die.attrs, attr_named(at));
    if says(die, at, value) {
        let i = choose|i: int|
            0 <= i < die.attrs.len() && #[trigger] die.attrs[i] == (at, value) && forall|j: int|
                0 <= j < i ==> (#[trigger] die.attrs[j]).0 != at;
        lemma_first_is(die.attrs, attr_named(at), i);
    }
    if silent(die, at) {
        lemma_first_none(die.attrs, attr_named(at));
    }
    if let Some(i) = crate::search::first(die.attrs, attr_named(at)) {
        assert(attr_named(at)(die.attrs[i]));
        assert(die.attrs[i].0 == at);
        assert(die.attrs[i] == (at, die.attrs[i].1));
        assert forall|j: int| 0 <= j < i implies (#[trigger] die.attrs[j]).0 != at by {
            assert(!attr_named(at)(die.attrs[j]));
        }
        assert(!silent(die, at));
    } else {
        assert forall|i: int| 0 <= i < die.attrs.len() implies (#[trigger] die.attrs[i]).0 != at by {
            assert(!attr_named(at)(die.attrs[i]));
        }
    }
}

/// The definition that a table has under a key.
pub open spec fn defined(t: TableModel, key: DwarfTypeKey) -> Option<DefView> {
    if t.keys.contains_key(key) && t.keys[key].0 < t.types.len() {
        Some(t.types[t.keys[key].0 as int])
    } else {
        None
    }
}

/// Whether a value is read as a signed number.
pub open spec fn reads_signed(v: VariableType) -> bool {
    v == VariableType::I8 || v == VariableType::I16 || v == VariableType::I32 || v
        == VariableType::I64
}

/// Whether a value is read as an unsigned number.
pub open spec fn reads_unsigned(v: VariableType) -> bool {
    v == VariableType::U8 || v == VariableType::U16 || v == VariableType::U32 || v
        == VariableType::U64
}

/// Bytes that a value is read from.
pub open spec fn reads_bytes(v: VariableType) -> int {
    match v {
        VariableType::Bool | VariableType::U8 | VariableType::I8 => 1,
        VariableType::U16 | VariableType::I16 => 2,
        VariableType::U32 | VariableType::I32 | VariableType::F32 => 4,
        VariableType::U64 | VariableType::I64 | VariableType::F64 => 8,
        VariableType::Raw(size) => size as int,
    }
}

/// A base type keeps what its entry says of it: unsigned numbers are unsigned and
/// signed ones signed, floating-point numbers are that, and each has the size that
/// the entry gives. A value of it is read from that many bytes, in that way. A
/// boolean takes one byte. For characters the size is the one byte that they take.
pub proof fn lemma_base_types_keep_size_and_sign(
    t: TableModel,
    dies: Seq<DieView>,
    unit_index: usize,
    i: int,
    encoding: u8,
    size: u64,
)
    requires
        t.closed_keys(),
        t.types.len() < u32::MAX,
        0 <= i < dies.len(),
        dies[i].tag == 0x24,
        says(dies[i], 0x3e, ValueView::Encoding(encoding)),
        says(dies[i], 0x0b, ValueView::Unsigned(size)),
        size <= 0xffff,
        encoding == 0x06 || encoding == 0x08 ==> size == 1,
    ensures
        ({
            let key = DwarfTypeKey { unit_index, offset: dies[i].offset };
            let got = defined(type_defined(t, dies, unit_index, i), key);
            encoding == 0x02 || encoding == 0x04 || encoding == 0x05 || encoding == 0x06 || encoding
                == 0x07 || encoding == 0x08 || encoding == 0x10 ==> (got matches Some(
                DefView::Primitive(p),
            ) && {
                let v = p.spec_variable_type();
                let plain = size == 1 || size == 2 || size == 4 || size == 8;
                &&& encoding != 0x02 ==> p.spec_size() == size
                &&& encoding == 0x02 ==> p == PrimitiveDef::Bool && v == VariableType::Bool
                    && p.spec_size() == 1
                &&& encoding == 0x07 || encoding == 0x08 ==> !p.spec_is_signed()
                    && !p.spec_is_float() && (plain ==> reads_unsigned(v)) && reads_bytes(v) == size
                &&& encoding == 0x05 || encoding == 0x06 ==> p.spec_is_signed()
                    && !p.spec_is_float() && (plain ==> reads_signed(v)) && reads_bytes(v) == size
                &&& encoding == 0x04 ==> p.spec_is_float() && (size == 4 ==> v == VariableType::F32)
                    && (size == 8 ==> v == VariableType::F64)
                &&& encoding == 0x10 ==> p == (PrimitiveDef::UnicodeChar { size })
                    && !p.spec_is_float() && (size == 1 || size == 2 || size == 4
                    ==> reads_unsigned(v)) && reads_bytes(v) == size
            })
        }),
{
    lemma_says(dies[i], 0x3e, ValueView::Encoding(encoding));
    lemma_says(dies[i], 0x0b, ValueView::Unsigned(size));
}

/// A primitive type is read with its own size: whatever is no number of a plain
/// size is read as so many bytes.
pub proof fn lemma_primitives_are_read_with_their_size(p: PrimitiveDef)
    requires
        p.spec_size() <= 0xffff,
        p !is LongDouble,
    ensures
        reads_bytes(p.spec_variable_type()) == p.spec_size(),
        reads_signed(p.spec_variable_type()) ==> p.spec_is_signed() || p is Char,
        reads_unsigned(p.spec_variable_type()) ==> !p.spec_is_signed(),
        p.spec_variable_type() == VariableType::F32 || p.spec_variable_type() == VariableType::F64
            ==> p.spec_is_float(),
        p.spec_variable_type() == VariableType::Bool <==> p is Bool,
{
}

/// Without an encoding a base type goes by its name, and the name that a type has
/// leads back to that type, as C also writes it. A name that C does not have makes
/// a signed number of the size that is given.
pub proof fn lemma_names_lead_to_their_types(p: PrimitiveDef, size: u64, name: Seq<char>)
    ensures
        !(p is SizedInt) && !(p is SizedFloat) && !(p is UnicodeChar) ==> named_primitive(
            p.spec_name(),
            size,
        ) == p,
        named_primitive("_Bool"@, size) == PrimitiveDef::Bool,
        named_primitive("short int"@, size) == PrimitiveDef::Short,
        named_primitive("short unsigned int"@, size) == PrimitiveDef::UnsignedShort,
        named_primitive("unsigned"@, size) == PrimitiveDef::UnsignedInt,
        named_primitive("long int"@, size) == PrimitiveDef::Long,
        named_primitive("long unsigned int"@, size) == PrimitiveDef::UnsignedLong,
        named_primitive("long long int"@, size) == PrimitiveDef::LongLong,
        named_primitive("long long unsigned int"@, size) == PrimitiveDef::UnsignedLongLong,
        named_primitive(name, size) is SizedInt ==> named_primitive(name, size)
            == (PrimitiveDef::SizedInt { size, signed: true }),
        primitive(None, size, name) == named_primitive(name, size),
{
    reveal_strlit("bool");
    reveal_strlit("_Bool");
    reveal_strlit("char");
    reveal_strlit("signed char");
    reveal_strlit("unsigned char");
    reveal_strlit("short");
    reveal_strlit("short int");
    reveal_strlit("unsigned short");
    reveal_strlit("short unsigned int");
    reveal_strlit("int");
    reveal_strlit("unsigned int");
    reveal_strlit("unsigned");
    reveal_strlit("long");
    reveal_strlit("long int");
    reveal_strlit("unsigned long");
    reveal_strlit("long unsigned int");
    reveal_strlit("long long");
    reveal_strlit("long long int");
    reveal_strlit("unsigned long long");
    reveal_strlit("long long unsigned int");
    reveal_strlit("float");
    reveal_strlit("double");
    reveal_strlit("long double");
    assert("bool"@.len() == 4);
    assert("_Bool"@.len() == 5);
    assert("char"@.len() == 4);
    assert("signed char"@.len() == 11);
    assert("unsigned char"@.len() == 13);
    assert("short"@.len() == 5);
    assert("short int"@.len() == 9);
    assert("unsigned short"@.len() == 14);
    assert("short unsigned int"@.len() == 18);
    assert("int"@.len() == 3);
    assert("unsigned int"@.len() == 12);
    assert("unsigned"@.len() == 8);
    assert("long"@.len() == 4);
    assert("long int"@.len() == 8);
    assert("unsigned long"@.len() == 13);
    assert("long unsigned int"@.len() == 17);
    assert("long long"@.len() == 9);
    assert("long long int"@.len() == 13);
    assert("unsigned long long"@.len() == 18);
    assert("long long unsigned int"@.len() == 22);
    assert("float"@.len() == 5);
    assert("double"@.len() == 6);
    assert("long double"@.len() == 11);
    assert("bool"@[0] == 'b' && "char"@[0] == 'c' && "long"@[0] == 'l');
    assert("_Bool"@[0] == '_' && "short"@[0] == 's' && "float"@[0] == 'f');
    assert("unsigned"@[0] == 'u' && "long int"@[0] == 'l');
    assert("short int"@[0] == 's' && "long long"@[0] == 'l');
    assert("signed char"@[0] == 's' && "long double"@[0] == 'l');
    assert("short unsigned int"@[0] == 's' && "unsigned long long"@[0] == 'u');
    assert("unsigned char"@[9] == 'c' && "unsigned long"@[9] == 'l' && "long long int"@[9] == ' ');
    assert(named_primitive(PrimitiveDef::Bool.spec_name(), size) == PrimitiveDef::Bool);
    assert(named_primitive(PrimitiveDef::Char.spec_name(), size) == PrimitiveDef::Char);
    assert(named_primitive(PrimitiveDef::SignedChar.spec_name(), size) == PrimitiveDef::SignedChar);
    assert(named_primitive(PrimitiveDef::UnsignedChar.spec_name(), size) == PrimitiveDef::UnsignedChar);
    assert(named_primitive(PrimitiveDef::Short.spec_name(), size) == PrimitiveDef::Short);
    assert(named_primitive(PrimitiveDef::UnsignedShort.spec_name(), size) == PrimitiveDef::UnsignedShort);
    assert(named_primitive(PrimitiveDef::Int.spec_name(), size) == PrimitiveDef::Int);
    assert(named_primitive(PrimitiveDef::UnsignedInt.spec_name(), size) == PrimitiveDef::UnsignedInt);
    assert(named_primitive(PrimitiveDef::Long.spec_name(), size) == PrimitiveDef::Long);
    assert(named_primitive(PrimitiveDef::UnsignedLong.spec_name(), size) == PrimitiveDef::UnsignedLong);
    assert(named_primitive(PrimitiveDef::LongLong.spec_name(), size) == PrimitiveDef::LongLong);
    assert(named_primitive(PrimitiveDef::UnsignedLongLong.spec_name(), size) == PrimitiveDef::UnsignedLongLong);
    assert(named_primitive(PrimitiveDef::Float.spec_name(), size) == PrimitiveDef::Float);
    assert(named_primitive(PrimitiveDef::Double.spec_name(), size) == PrimitiveDef::Double);
    assert(named_primitive(PrimitiveDef::LongDouble.spec_name(), size) == PrimitiveDef::LongDouble);
}

/// The key of the type that an entry refers to.
pub open spec fn refers_to(die: DieView, unit_index: usize, key: DwarfTypeKey) -> bool {
    ||| says(die, 0x49, ValueView::UnitRef(key.offset)) && key.unit_index == unit_index
    ||| says(die, 0x49, ValueView::InfoRef(key.offset)) && key.unit_index == usize::MAX
}

/// A type made of another one is of its own kind and leads to that other one: the
/// one that the entry refers to, or void where it refers to none. The kinds go by
/// the entry's tag.
pub proof fn lemma_derived_types_lead_to_what_they_refer_to(
    t: TableModel,
    dies: Seq<DieView>,
    unit_index: usize,
    i: int,
    to: DwarfTypeKey,
)
    requires
        t.closed_keys(),
        t.types.len() < u32::MAX - 2,
        0 <= i < dies.len(),
        refers_to(dies[i], unit_index, to),
        to != (DwarfTypeKey { unit_index, offset: dies[i].offset }),
    ensures
        ({
            let key = DwarfTypeKey { unit_index, offset: dies[i].offset };
            let after = type_defined(t, dies, unit_index, i);
            let got = defined(after, key);
            let id = after.keys[to];
            let tag = dies[i].tag;
            &&& tag == 0x0f ==> got == Some(DefView::Pointer(id))
            &&& tag == 0x10 || tag == 0x42 ==> got == Some(DefView::Reference(id))
            &&& tag == 0x26 ==> got == Some(DefView::Const(id))
            &&& tag == 0x35 ==> got == Some(DefView::Volatile(id))
            &&& tag == 0x37 ==> got == Some(DefView::Restrict(id))
            &&& tag == 0x01 ==> (got matches Some(DefView::Array { element, .. }) && element == id)
            &&& tag == 0x15 ==> (got matches Some(DefView::Subroutine { return_type, .. })
                && return_type == Some(id))
            &&& tag == 0x16 ==> (got matches Some(DefView::Typedef { underlying, name })
                && underlying == id && forall|own: Seq<char>| #[trigger]
                says(dies[i], 0x03, ValueView::Text(own)) ==> name == own)
            &&& tag == 0x0f || tag == 0x10 || tag == 0x42 || tag == 0x26 || tag == 0x35 || tag == 0x37
                || tag == 0x01 || tag == 0x15 || tag == 0x16 ==> after.keys.contains_key(to) && (
            t.keys.contains_key(to) ==> id == t.keys[to])
        }),
{
    lemma_says(dies[i], 0x49, ValueView::UnitRef(to.offset));
    lemma_says(dies[i], 0x49, ValueView::InfoRef(to.offset));
    assert forall|own: Seq<char>| #[trigger]
        says(dies[i], 0x03, ValueView::Text(own)) implies dies[i].name() == Some(own) by {
        lemma_says(dies[i], 0x03, ValueView::Text(own));
    }
}

/// A type made of another one that its entry does not name is made of void.
pub proof fn lemma_derived_types_without_one_are_of_void(
    t: TableModel,
    dies: Seq<DieView>,
    unit_index: usize,
    i: int,
)
    requires
        t.closed_keys(),
        t.types.len() < u32::MAX - 2,
        0 <= i < dies.len(),
        silent(dies[i], 0x49),
        dies[i].tag == 0x0f || dies[i].tag == 0x26 || dies[i].tag == 0x35,
        !t.keys.contains_key(DwarfTypeKey { unit_index, offset: dies[i].offset }),
    ensures
        ({
            let key = DwarfTypeKey { unit_index, offset: dies[i].offset };
            let after = type_defined(t, dies, unit_index, i);
            &&& dies[i].tag == 0x0f ==> (defined(after, key) matches Some(DefView::Pointer(id))
                && after.types[id.0 as int] is Void)
            &&& dies[i].tag == 0x26 ==> (defined(after, key) matches Some(DefView::Const(id))
                && after.types[id.0 as int] is Void)
            &&& dies[i].tag == 0x35 ==> (defined(after, key) matches Some(DefView::Volatile(id))
                && after.types[id.0 as int] is Void)
        }),
{
    lemma_says(dies[i], 0x49, ValueView::Other);
    lemma_first(t.types, |d: DefView| d is Void);
}

/// Where the entries below one end: all of those are deeper, and the one behind
/// them, if there is one, is not.
pub proof fn lemma_entries_below(dies: Seq<DieView>, i: int)
    requires
        0 <= i < dies.len(),
    ensures
        i < end_of(dies, i) <= dies.len(),
        forall|j: int| i < j < end_of(dies, i) ==> (#[trigger] dies[j]).depth > dies[i].depth,
        end_of(dies, i) < dies.len() ==> dies[end_of(dies, i)].depth <= dies[i].depth,
{
    lemma_end_from(dies, dies[i].depth, i + 1);
}

proof fn lemma_end_from(dies: Seq<DieView>, depth: i64, j: int)
    requires
        0 <= j <= dies.len(),
    ensures
        j <= end_from(dies, depth, j) <= dies.len(),
        forall|k: int| j <= k < end_from(dies, depth, j) ==> (#[trigger] dies[k]).depth > depth,
        end_from(dies, depth, j) < dies.len() ==> dies[end_from(dies, depth, j)].depth <= depth,
    decreases dies.len() - j,
{
    if j < dies.len() && dies[j].depth > depth {
        lemma_end_from(dies, depth, j + 1);
    }
}

/// The children of an entry with a tag that stand before `j`, in order.
pub open spec fn children_before(dies: Seq<DieView>, i: int, tag: u16, j: int) -> Seq<int>
    decreases j - i,
{
    if j <= i + 1 {
        Seq::empty()
    } else {
        let before = children_before(dies, i, tag, j - 1);
        if dies[j - 1].depth == dies[i].depth + 1 && dies[j - 1].tag == tag {
            before.push(j - 1)
        } else {
            before
        }
    }
}

/// The children of an entry with a tag, in order.
pub open spec fn children(dies: Seq<DieView>, i: int, tag: u16) -> Seq<int> {
    children_before(dies, i, tag, end_of(dies, i))
}

/// Whether a table still has all that another has.
pub open spec fn keeps(t: TableModel, after: TableModel) -> bool {
    &&& t.types.len() <= after.types.len()
    &&& forall|k: DwarfTypeKey| #[trigger]
        t.keys.contains_key(k) ==> after.keys.contains_key(k) && after.keys[k] == t.keys[k]
}

proof fn lemma_part_keeps(t: TableModel, dies: Seq<DieView>, unit_index: usize, c: int, k: int)
    ensures
        keeps(t, part_upto(t, dies, unit_index, c, k).table),
    decreases k - c,
{
    if k > c + 1 {
        lemma_part_keeps(t, dies, unit_index, c, k - 1);
    }
}

/// Whether a member is what an entry says: its name, its offset and its bits, with
/// the type that the entry refers to.
pub open spec fn is_member(die: DieView, unit_index: usize, t: TableModel, m: MemberView) -> bool {
    &&& forall|name: Seq<char>| #[trigger] says(die, 0x03, ValueView::Text(name)) ==> m.name == name
    &&& die.member_offset matches Some(offset) ==> m.offset == offset
    &&& forall|key: DwarfTypeKey| #[trigger]
        refers_to(die, unit_index, key) ==> t.keys.contains_key(key) && m.type_id == t.keys[key]
    &&& forall|bits: u64| #[trigger]
        says(die, 0x0d, ValueView::Unsigned(bits)) ==> m.bit_size == Some(bits)
    &&& forall|at: u64| #[trigger]
        says(die, 0x6b, ValueView::Unsigned(at)) ==> m.bit_offset == Some(at)
    &&& silent(die, 0x0d) ==> m.bit_size is None
    &&& silent(die, 0x6b) && silent(die, 0x0c) ==> m.bit_offset is None
}

proof fn lemma_member(t: TableModel, die: DieView, unit_index: usize)
    ensures
        is_member(
            die,
            unit_index,
            crate::dwarf_model::member_in(t, die, unit_index).0,
            crate::dwarf_model::member_in(t, die, unit_index).1,
        ),
        keeps(t, crate::dwarf_model::member_in(t, die, unit_index).0),
{
    assert forall|name: Seq<char>| #[trigger]
        says(die, 0x03, ValueView::Text(name)) implies die.name() == Some(name) by {
        lemma_says(die, 0x03, ValueView::Text(name));
    }
    assert forall|bits: u64| #[trigger]
        says(die, 0x0d, ValueView::Unsigned(bits)) implies die.number(0x0d) == Some(bits) by {
        lemma_says(die, 0x0d, ValueView::Unsigned(bits));
    }
    assert forall|at: u64| #[trigger]
        says(die, 0x6b, ValueView::Unsigned(at)) implies die.bit_offset() == Some(at) by {
        lemma_says(die, 0x6b, ValueView::Unsigned(at));
    }
    assert forall|key: DwarfTypeKey| #[trigger]
        refers_to(die, unit_index, key) implies (die.type_key(unit_index) matches Some(k)
        && k.dwarf_key() == key) by {
        lemma_says(die, 0x49, ValueView::UnitRef(key.offset));
        lemma_says(die, 0x49, ValueView::InfoRef(key.offset));
    }
    lemma_says(die, 0x0d, ValueView::Other);
    lemma_says(die, 0x6b, ValueView::Other);
    lemma_says(die, 0x0c, ValueView::Other);
}

proof fn lemma_member_stays(
    die: DieView,
    unit_index: usize,
    t: TableModel,
    after: TableModel,
    m: MemberView,
)
    requires
        is_member(die, unit_index, t, m),
        keeps(t, after),
    ensures
        is_member(die, unit_index, after, m),
{
}

proof fn lemma_members_upto(
    t: TableModel,
    rec: RecordView,
    dies: Seq<DieView>,
    unit_index: usize,
    i: int,
    j: int,
)
    requires
        rec.members.len() == 0,
    ensures
        ({
            let (after, got) = record_upto(t, rec, dies, unit_index, i, j);
            let kids = children_before(dies, i, 0x0d, j);
            &&& keeps(t, after)
            &&& got.name == rec.name && got.size == rec.size && got.is_class == rec.is_class
            &&& got.members.len() == kids.len()
            &&& forall|k: int|
                0 <= k < kids.len() ==> i < #[trigger] kids[k] < j && is_member(
                    dies[kids[k]],
                    unit_index,
                    after,
                    got.members[k],
                )
        }),
    decreases j - i,
{
    if j > i + 1 {
        lemma_members_upto(t, rec, dies, unit_index, i, j - 1);
        let (mid, before) = record_upto(t, rec, dies, unit_index, i, j - 1);
        let (after, got) = record_upto(t, rec, dies, unit_index, i, j);
        let kids = children_before(dies, i, 0x0d, j);
        let seen = children_before(dies, i, 0x0d, j - 1);
        lemma_member(mid, dies[j - 1], unit_index);
        lemma_part_keeps(mid, dies, unit_index, j - 1, end_of(dies, j - 1));
        assert(keeps(mid, after));
        assert forall|k: int| 0 <= k < kids.len() implies i < #[trigger] kids[k] < j && is_member(
            dies[kids[k]],
            unit_index,
            after,
            got.members[k],
        ) by {
            if k < seen.len() {
                assert(kids[k] == seen[k]);
                lemma_member_stays(dies[kids[k]], unit_index, mid, after, before.members[k]);
                assert(got.members[k] == before.members[k]);
            }
        }
    }
}

/// A struct, class or union is what its entry describes: it has the entry's name and
/// size, and one member for every member entry directly below it, in their order,
/// each with the name, place, bits and type of its own entry. Unions are told from
/// structs by the entry's tag.
pub proof fn lemma_records_have_the_members_of_their_entries(
    t: TableModel,
    dies: Seq<DieView>,
    unit_index: usize,
    i: int,
)
    requires
        t.closed_keys(),
        0 <= i < dies.len(),
        dies[i].tag == 0x13 || dies[i].tag == 0x02 || dies[i].tag == 0x17,
        !says(dies[i], 0x3c, ValueView::Flag(true)),
        t.types.len() < u32::MAX,
    ensures
        ({
            let key = DwarfTypeKey { unit_index, offset: dies[i].offset };
            let after = type_defined(t, dies, unit_index, i);
            let kids = children(dies, i, 0x0d);
            let rec = if dies[i].tag == 0x17 {
                match defined(after, key) {
                    Some(DefView::Union(rec)) => Some(rec),
                    _ => None,
                }
            } else {
                match defined(after, key) {
                    Some(DefView::Struct(rec)) => Some(rec),
                    _ => None,
                }
            };
            rec matches Some(rec) && {
                &&& rec.is_class == (dies[i].tag == 0x02)
                &&& forall|name: Seq<char>| #[trigger]
                    says(dies[i], 0x03, ValueView::Text(name)) ==> rec.name == Some(name)
                &&& forall|size: u64| #[trigger]
                    says(dies[i], 0x0b, ValueView::Unsigned(size)) ==> rec.size == size
                &&& rec.members.len() == kids.len()
                &&& forall|k: int|
                    0 <= k < kids.len() ==> is_member(
                        dies[#[trigger] kids[k]],
                        unit_index,
                        after,
                        rec.members[k],
                    )
            }
        }),
{
    let die = dies[i];
    let key = DwarfTypeKey { unit_index, offset: die.offset };
    lemma_says(die, 0x3c, ValueView::Flag(true));
    assert forall|name: Seq<char>| #[trigger]
        says(die, 0x03, ValueView::Text(name)) implies die.name() == Some(name) by {
        lemma_says(die, 0x03, ValueView::Text(name));
    }
    assert forall|size: u64| #[trigger]
        says(die, 0x0b, ValueView::Unsigned(size)) implies die.number(0x0b) == Some(size) by {
        lemma_says(die, 0x0b, ValueView::Unsigned(size));
    }
    let (mid, id) = t.keyed(key);
    let rec = RecordView {
        name: die.name(),
        size: crate::dwarf_model::number_or(die.number(0x0b), 0),
        members: Seq::empty(),
        is_class: die.tag == 0x02,
        template_params: Seq::empty(),
        base_classes: Seq::empty(),
        variant_part: None,
    };
    lemma_members_upto(mid, rec, dies, unit_index, i, end_of(dies, i));
    let (last, got) = record_upto(mid, rec, dies, unit_index, i, end_of(dies, i));
    let after = type_defined(t, dies, unit_index, i);
    assert(mid.keys.contains_key(key));
    assert(last.keys.contains_key(key) && last.keys[key] == id);
    assert(after.keys == last.keys);
    let kids = children(dies, i, 0x0d);
    assert forall|k: int| 0 <= k < kids.len() implies is_member(
        dies[#[trigger] kids[k]],
        unit_index,
        after,
        got.members[k],
    ) by {
        assert(is_member(dies[kids[k]], unit_index, last, got.members[k]));
    }
}

proof fn lemma_enumerators(dies: Seq<DieView>, i: int, j: int)
    requires
        forall|k: int|
            i < k < j && #[trigger] is_child(dies, i, k) && dies[k].tag == 0x28
                ==> dies[k].name() is Some,
    ensures
        ({
            let kids = children_before(dies, i, 0x28, j);
            let got = enumerators_upto(dies, i, j);
            &&& got.len() == kids.len()
            &&& forall|k: int|
                0 <= k < kids.len() ==> i < #[trigger] kids[k] < j && got[k].0
                    == dies[kids[k]].name()->0 && got[k].1 == (match dies[kids[k]].const_value() {
                    Some(v) => v,
                    None => 0,
                })
        }),
    decreases j - i,
{
    if j > i + 1 {
        lemma_enumerators(dies, i, j - 1);
        assert(is_child(dies, i, j - 1) == (dies[j - 1].depth == dies[i].depth + 1));
        let kids = children_before(dies, i, 0x28, j);
        let seen = children_before(dies, i, 0x28, j - 1);
        assert forall|k: int| 0 <= k < seen.len() implies kids[k] == #[trigger] seen[k] by {}
    }
}

/// An enumeration has one enumerator for every enumerator entry directly below it,
/// in their order, each with its own name and its own number, and the size that its
/// entry gives.
pub proof fn lemma_enums_have_the_enumerators_of_their_entries(
    t: TableModel,
    dies: Seq<DieView>,
    unit_index: usize,
    i: int,
)
    requires
        t.closed_keys(),
        t.types.len() < u32::MAX - 1,
        0 <= i < dies.len(),
        dies[i].tag == 0x04,
        !says(dies[i], 0x3c, ValueView::Flag(true)),
        forall|k: int|
            0 <= k < dies.len() && (#[trigger] dies[k]).tag == 0x28 ==> exists|name: Seq<char>| #[trigger]
                says(dies[k], 0x03, ValueView::Text(name)),
    ensures
        ({
            let key = DwarfTypeKey { unit_index, offset: dies[i].offset };
            let kids = children(dies, i, 0x28);
            defined(type_defined(t, dies, unit_index, i), key) matches Some(DefView::Enum(e)) && {
                &&& forall|name: Seq<char>| #[trigger]
                    says(dies[i], 0x03, ValueView::Text(name)) ==> e.name == Some(name)
                &&& forall|size: u64| #[trigger]
                    says(dies[i], 0x0b, ValueView::Unsigned(size)) ==> e.size == size
                &&& silent(dies[i], 0x0b) ==> e.size == 4
                &&& e.variants.len() == kids.len()
                &&& forall|k: int, name: Seq<char>|
                    0 <= k < kids.len() && #[trigger] says(
                        dies[kids[k]],
                        0x03,
                        ValueView::Text(name),
                    ) ==> e.variants[k].0 == name
                &&& forall|k: int, v: i64|
                    0 <= k < kids.len() && #[trigger] says(
                        dies[kids[k]],
                        0x1c,
                        ValueView::Signed(v),
                    ) ==> e.variants[k].1 == v
                &&& forall|k: int, v: u64|
                    0 <= k < kids.len() && v <= i64::MAX && #[trigger] says(
                        dies[kids[k]],
                        0x1c,
                        ValueView::Unsigned(v),
                    ) ==> e.variants[k].1 == v
            }
        }),
{
    let die = dies[i];
    lemma_says(die, 0x3c, ValueView::Flag(true));
    lemma_says(die, 0x0b, ValueView::Other);
    lemma_entries_below(dies, i);
    assert forall|name: Seq<char>| #[trigger]
        says(die, 0x03, ValueView::Text(name)) implies die.name() == Some(name) by {
        lemma_says(die, 0x03, ValueView::Text(name));
    }
    assert forall|size: u64| #[trigger]
        says(die, 0x0b, ValueView::Unsigned(size)) implies die.number(0x0b) == Some(size) by {
        lemma_says(die, 0x0b, ValueView::Unsigned(size));
    }
    let end = end_of(dies, i);
    assert forall|k: int|
        i < k < end && #[trigger] is_child(dies, i, k) && dies[k].tag == 0x28 implies dies[k].name() is Some by {
        let name = choose|name: Seq<char>| #[trigger]
            says(dies[k], 0x03, ValueView::Text(name));
        lemma_says(dies[k], 0x03, ValueView::Text(name));
    }
    lemma_enumerators(dies, i, end);
    let kids = children(dies, i, 0x28);
    let got = enumerators_upto(dies, i, end);
    assert forall|k: int, name: Seq<char>|
        0 <= k < kids.len() && #[trigger] says(dies[kids[k]], 0x03, ValueView::Text(name)) implies got[k].0
        == name by {
        lemma_says(dies[kids[k]], 0x03, ValueView::Text(name));
    }
    assert forall|k: int, v: i64|
        0 <= k < kids.len() && #[trigger] says(dies[kids[k]], 0x1c, ValueView::Signed(v)) implies got[k].1
        == v by {
        lemma_says(dies[kids[k]], 0x1c, ValueView::Signed(v));
    }
    assert forall|k: int, v: u64|
        0 <= k < kids.len() && v <= i64::MAX && #[trigger] says(
            dies[kids[k]],
            0x1c,
            ValueView::Unsigned(v),
        ) implies got[k].1 == v by {
        lemma_says(dies[kids[k]], 0x1c, ValueView::Unsigned(v));
        assert(v <= 0x7fff_ffff_ffff_ffff ==> (v as i64) as int == v as int) by (bit_vector);
    }
}

proof fn lemma_count_is_the_first(dies: Seq<DieView>, i: int, j: int, k: int)
    requires
        i < k < j,
        is_child(dies, i, k),
        dies[k].tag == 0x21,
        dies[k].subrange_count() is Some,
        forall|m: int|
            i < m < k && #[trigger] is_child(dies, i, m) && dies[m].tag == 0x21
                ==> dies[m].subrange_count() is None,
    ensures
        count_upto(dies, i, j) == dies[k].subrange_count(),
    decreases j - i,
{
    if k < j - 1 {
        lemma_count_is_the_first(dies, i, j - 1, k);
    } else {
        lemma_no_count(dies, i, k);
    }
}

proof fn lemma_no_count(dies: Seq<DieView>, i: int, j: int)
    requires
        forall|m: int|
            i < m < j && #[trigger] is_child(dies, i, m) && dies[m].tag == 0x21
                ==> dies[m].subrange_count() is None,
    ensures
        count_upto(dies, i, j) is None,
    decreases j - i,
{
    if j > i + 1 {
        lemma_no_count(dies, i, j - 1);
        assert(is_child(dies, i, j - 1) == is_child(dies, i, j - 1));
    }
}

/// An array has as many elements as its subrange counts: the count where it gives
/// one, else one more than its upper bound. The first subrange decides.
pub proof fn lemma_arrays_have_their_count(dies: Seq<DieView>, i: int, n: u64)
    requires
        0 <= i < dies.len(),
        children(dies, i, 0x21).len() > 0,
    ensures
        ({
            let sub = dies[children(dies, i, 0x21)[0]];
            &&& says(sub, 0x37, ValueView::Unsigned(n)) ==> array_count(dies, i) == Some(n)
            &&& silent(sub, 0x37) && n < u64::MAX && says(sub, 0x2f, ValueView::Unsigned(n))
                ==> array_count(dies, i) == Some((n + 1) as u64)
        }),
{
    lemma_entries_below(dies, i);
    let end = end_of(dies, i);
    let k = children(dies, i, 0x21)[0];
    lemma_first_child(dies, i, 0x21, end);
    lemma_says(dies[k], 0x37, ValueView::Unsigned(n));
    lemma_says(dies[k], 0x2f, ValueView::Unsigned(n));
    if dies[k].subrange_count() is Some {
        lemma_count_is_the_first(dies, i, end, k);
    }
}

proof fn lemma_first_child(dies: Seq<DieView>, i: int, tag: u16, j: int)
    requires
        children_before(dies, i, tag, j).len() > 0,
    ensures
        ({
            let k = children_before(dies, i, tag, j)[0];
            &&& i < k < j
            &&& is_child(dies, i, k)
            &&& dies[k].tag == tag
            &&& forall|m: int| i < m < k && #[trigger] is_child(dies, i, m) ==> dies[m].tag != tag
        }),
    decreases j - i,
{
    if j > i + 1 {
        let before = children_before(dies, i, tag, j - 1);
        if before.len() > 0 {
            lemma_first_child(dies, i, tag, j - 1);
        } else {
            lemma_no_child(dies, i, tag, j - 1);
        }
    }
}

proof fn lemma_no_child(dies: Seq<DieView>, i: int, tag: u16, j: int)
    requires
        children_before(dies, i, tag, j).len() == 0,
    ensures
        forall|m: int| i < m < j && #[trigger] is_child(dies, i, m) ==> dies[m].tag != tag,
    decreases j - i,
{
    if j > i + 1 {
        lemma_no_child(dies, i, tag, j - 1);
    }
}

/// Why a variable can or cannot be read goes by its entry: what the compiler made
/// for itself is not shown; a location decides where there is one; without one, a
/// constant has its value, a declaration is for another unit's variable, and
/// anything else was optimized out.
pub proof fn lemma_status_goes_by_the_entry(die: DieView, location: ValueView, value: i64)
    ensures
        says(die, 0x34, ValueView::Flag(true)) ==> die.status() == StatusView::Artificial,
        !says(die, 0x34, ValueView::Flag(true)) && says(die, 0x02, location) ==> die.status()
            == die.located,
        !says(die, 0x34, ValueView::Flag(true)) && silent(die, 0x02) ==> {
            &&& says(die, 0x1c, ValueView::Signed(value)) ==> die.status()
                == (StatusView::CompileTimeConstant { value: Some(value) })
            &&& silent(die, 0x1c) && says(die, 0x3f, ValueView::Flag(true)) ==> die.status()
                == StatusView::ExternDeclaration
            &&& silent(die, 0x1c) && !says(die, 0x3f, ValueView::Flag(true)) ==> die.status()
                == StatusView::OptimizedOut
        },
{
    lemma_says(die, 0x34, ValueView::Flag(true));
    lemma_says(die, 0x02, location);
    lemma_says(die, 0x1c, ValueView::Signed(value));
    lemma_says(die, 0x3f, ValueView::Flag(true));
}

/// Whether a variant is what its entry and the member entry below it say: its
/// number, and its payload.
pub open spec fn is_variant(
    die: DieView,
    member: DieView,
    unit_index: usize,
    t: TableModel,
    v: VariantView,
) -> bool {
    &&& is_member(member, unit_index, t, v.member)
    &&& v.location == member.declared
    &&& forall|n: u64| #[trigger] says(die, 0x16, ValueView::Unsigned(n)) ==> v.discr_value == Some(n)
    &&& silent(die, 0x16) ==> v.discr_value is None
}

/// Whether a variant part is what the entries below `c` say: a variant for every
/// variant entry, in their order, and the discriminant that the part refers to.
pub open spec fn is_part(
    dies: Seq<DieView>,
    c: int,
    unit_index: usize,
    t: TableModel,
    part: PartView,
) -> bool {
    let kids = children(dies, c, 0x19);
    let members = children(dies, c, 0x0d);
    &&& part.variants.len() == kids.len()
    &&& forall|k: int|
        0 <= k < kids.len() ==> is_variant(
            dies[#[trigger] kids[k]],
            dies[children(dies, kids[k], 0x0d)[0]],
            unit_index,
            t,
            part.variants[k],
        )
    &&& forall|k: int|
        0 <= k < members.len() && says(
            dies[c],
            0x15,
            ValueView::UnitRef(dies[#[trigger] members[k]].offset),
        ) && (forall|j: int|
            0 <= j < k ==> dies[#[trigger] members[j]].offset != dies[members[k]].offset) ==> (
        part.discriminant matches Some(d) && is_member(dies[members[k]], unit_index, t, d))
    &&& silent(dies[c], 0x15) && members.len() > 0 ==> (part.discriminant matches Some(d)
        && is_member(dies[members[0]], unit_index, t, d))
}

proof fn lemma_first_member(dies: Seq<DieView>, i: int, j: int)
    ensures
        ({
            let kids = children_before(dies, i, 0x0d, j);
            &&& kids.len() > 0 ==> first_member(dies, i, j) == Some(kids[0])
            &&& kids.len() == 0 ==> first_member(dies, i, j) is None
        }),
    decreases j - i,
{
    if j > i + 1 {
        lemma_first_member(dies, i, j - 1);
    }
}

proof fn lemma_part_upto(t: TableModel, dies: Seq<DieView>, unit_index: usize, c: int, j: int)
    requires
        forall|k: int|
            c < k < j && (#[trigger] dies[k]).tag == 0x19 ==> children(dies, k, 0x0d).len() > 0,
    ensures
        ({
            let p = part_upto(t, dies, unit_index, c, j);
            let kids = children_before(dies, c, 0x19, j);
            let members = children_before(dies, c, 0x0d, j);
            &&& keeps(t, p.table)
            &&& p.variants.len() == kids.len()
            &&& p.members.len() == members.len()
            &&& forall|k: int|
                0 <= k < kids.len() ==> c < #[trigger] kids[k] < j && is_variant(
                    dies[kids[k]],
                    dies[children(dies, kids[k], 0x0d)[0]],
                    unit_index,
                    p.table,
                    p.variants[k],
                )
            &&& forall|k: int|
                0 <= k < members.len() ==> c < #[trigger] members[k] < j && p.members[k].0
                    == dies[members[k]].offset && is_member(
                    dies[members[k]],
                    unit_index,
                    p.table,
                    p.members[k].1,
                )
        }),
    decreases j - c,
{
    if j > c + 1 {
        lemma_part_upto(t, dies, unit_index, c, j - 1);
        let before = part_upto(t, dies, unit_index, c, j - 1);
        let p = part_upto(t, dies, unit_index, c, j);
        let d = dies[j - 1];
        let kids = children_before(dies, c, 0x19, j);
        let members = children_before(dies, c, 0x0d, j);
        let kids0 = children_before(dies, c, 0x19, j - 1);
        let members0 = children_before(dies, c, 0x0d, j - 1);
        lemma_member(before.table, d, unit_index);
        if d.tag == 0x19 {
            lemma_first_member(dies, j - 1, end_of(dies, j - 1));
            let m = children(dies, j - 1, 0x0d)[0];
            lemma_member(before.table, dies[m], unit_index);
            assert forall|n: u64| #[trigger]
                says(d, 0x16, ValueView::Unsigned(n)) implies d.discr_value() == Some(n) by {
                lemma_says(d, 0x16, ValueView::Unsigned(n));
            }
            lemma_says(d, 0x16, ValueView::Other);
        }
        assert(keeps(before.table, p.table));
        assert forall|k: int| 0 <= k < kids.len() implies c < #[trigger] kids[k] < j && is_variant(
            dies[kids[k]],
            dies[children(dies, kids[k], 0x0d)[0]],
            unit_index,
            p.table,
            p.variants[k],
        ) by {
            if k < kids0.len() {
                assert(kids[k] == kids0[k]);
                assert(p.variants[k] == before.variants[k]);
                lemma_member_stays(
                    dies[children(dies, kids[k], 0x0d)[0]],
                    unit_index,
                    before.table,
                    p.table,
                    before.variants[k].member,
                );
            }
        }
        assert forall|k: int| 0 <= k < members.len() implies c < #[trigger] members[k] < j
            && p.members[k].0 == dies[members[k]].offset && is_member(
            dies[members[k]],
            unit_index,
            p.table,
            p.members[k].1,
        ) by {
            if k < members0.len() {
                assert(members[k] == members0[k]);
                assert(p.members[k] == before.members[k]);
                lemma_member_stays(
                    dies[members[k]],
                    unit_index,
                    before.table,
                    p.table,
                    before.members[k].1,
                );
            }
        }
    }
}

/// An enum with data has the variants of its entries: one for every variant entry,
/// in their order, each with its own number and its own payload, and the
/// discriminant is the member that the part refers to, or the first one where it
/// refers to none. Every variant entry has a payload.
pub proof fn lemma_variant_parts_have_the_variants_of_their_entries(
    t: TableModel,
    dies: Seq<DieView>,
    unit_index: usize,
    c: int,
)
    requires
        0 <= c < dies.len(),
        forall|k: int|
            0 <= k < dies.len() && (#[trigger] dies[k]).tag == 0x19 ==> children(
                dies,
                k,
                0x0d,
            ).len() > 0,
    ensures
        is_part(
            dies,
            c,
            unit_index,
            part_in(t, dies, unit_index, c).0,
            part_in(t, dies, unit_index, c).1,
        ),
        keeps(t, part_in(t, dies, unit_index, c).0),
{
    lemma_entries_below(dies, c);
    let end = end_of(dies, c);
    lemma_part_upto(t, dies, unit_index, c, end);
    let p = part_upto(t, dies, unit_index, c, end);
    let members = children(dies, c, 0x0d);
    let part = part_in(t, dies, unit_index, c).1;
    lemma_says(dies[c], 0x15, ValueView::Other);
    assert forall|k: int|
        0 <= k < members.len() && says(
            dies[c],
            0x15,
            ValueView::UnitRef(dies[#[trigger] members[k]].offset),
        ) && (forall|j: int|
            0 <= j < k ==> dies[#[trigger] members[j]].offset != dies[members[k]].offset) implies (
    part.discriminant matches Some(d) && is_member(dies[members[k]], unit_index, p.table, d)) by {
        let at = dies[members[k]].offset;
        lemma_says(dies[c], 0x15, ValueView::UnitRef(at));
        assert forall|j: int| 0 <= j < k implies !member_at(at)(#[trigger] p.members[j]) by {
            assert(p.members[j].0 == dies[members[j]].offset);
        }
        lemma_first_is(p.members, member_at(at), k);
    }
}

proof fn lemma_part_stays(
    dies: Seq<DieView>,
    c: int,
    unit_index: usize,
    t: TableModel,
    after: TableModel,
    part: PartView,
)
    requires
        is_part(dies, c, unit_index, t, part),
        keeps(t, after),
    ensures
        is_part(dies, c, unit_index, after, part),
{
}

/// Whether a base class is what its entry says.
pub open spec fn is_base(die: DieView, unit_index: usize, t: TableModel, b: BaseClassDef) -> bool {
    &&& forall|key: DwarfTypeKey| #[trigger]
        refers_to(die, unit_index, key) ==> t.keys.contains_key(key) && b.type_id == t.keys[key]
    &&& die.member_offset matches Some(offset) ==> b.offset == offset
    &&& b.is_virtual == says(die, 0x4c, ValueView::Virtuality)
}

/// What a struct has beside its members while it is read: its enum's variants and
/// its bases.
proof fn lemma_record_rest(
    t: TableModel,
    rec: RecordView,
    dies: Seq<DieView>,
    unit_index: usize,
    i: int,
    j: int,
)
    requires
        0 <= i < dies.len(),
        j <= dies.len(),
        rec.variant_part is None,
        rec.base_classes.len() == 0,
        forall|k: int|
            0 <= k < dies.len() && (#[trigger] dies[k]).tag == 0x19 ==> children(
                dies,
                k,
                0x0d,
            ).len() > 0,
        forall|k: int|
            0 <= k < dies.len() && (#[trigger] dies[k]).tag == 0x1c ==> exists|key: DwarfTypeKey| #[trigger]
                refers_to(dies[k], unit_index, key),
    ensures
        ({
            let (after, got) = record_upto(t, rec, dies, unit_index, i, j);
            let parts = children_before(dies, i, 0x33, j);
            let bases = children_before(dies, i, 0x1c, j);
            &&& keeps(t, after)
            &&& parts.len() == 0 ==> got.variant_part is None
            &&& parts.len() > 0 ==> (got.variant_part matches Some(part) && is_part(
                dies,
                parts.last(),
                unit_index,
                after,
                part,
            ))
            &&& got.base_classes.len() == bases.len()
            &&& forall|k: int|
                0 <= k < bases.len() ==> is_base(
                    dies[#[trigger] bases[k]],
                    unit_index,
                    after,
                    got.base_classes[k],
                )
        }),
    decreases j - i,
{
    if j > i + 1 {
        lemma_record_rest(t, rec, dies, unit_index, i, j - 1);
        let (mid, before) = record_upto(t, rec, dies, unit_index, i, j - 1);
        let (after, got) = record_upto(t, rec, dies, unit_index, i, j);
        let d = dies[j - 1];
        let parts = children_before(dies, i, 0x33, j);
        let parts0 = children_before(dies, i, 0x33, j - 1);
        let bases = children_before(dies, i, 0x1c, j);
        let bases0 = children_before(dies, i, 0x1c, j - 1);
        lemma_member(mid, d, unit_index);
        if d.tag == 0x33 {
            lemma_variant_parts_have_the_variants_of_their_entries(mid, dies, unit_index, j - 1);
        }
        if d.tag == 0x1c {
            let key = choose|key: DwarfTypeKey| #[trigger] refers_to(d, unit_index, key);
            lemma_says(d, 0x49, ValueView::UnitRef(key.offset));
            lemma_says(d, 0x49, ValueView::InfoRef(key.offset));
            lemma_says(d, 0x4c, ValueView::Virtuality);
            assert forall|key: DwarfTypeKey| #[trigger] refers_to(d, unit_index, key) implies (
            d.type_key(unit_index) matches Some(k) && k.dwarf_key() == key) by {
                lemma_says(d, 0x49, ValueView::UnitRef(key.offset));
                lemma_says(d, 0x49, ValueView::InfoRef(key.offset));
            }
        }
        assert(keeps(mid, after));
        if parts0.len() > 0 {
            lemma_part_stays(
                dies,
                parts0.last(),
                unit_index,
                mid,
                after,
                before.variant_part->0,
            );
        }
        assert forall|k: int| 0 <= k < bases.len() implies is_base(
            dies[#[trigger] bases[k]],
            unit_index,
            after,
            got.base_classes[k],
        ) by {
            if k < bases0.len() {
                assert(bases[k] == bases0[k]);
                assert(is_base(dies[bases0[k]], unit_index, mid, before.base_classes[k]));
                assert(got.base_classes[k] == before.base_classes[k]);
            }
        }
    }
}

/// A struct that is an enum with data has the variants of the part below it, and a
/// class has its bases, in their order, each with its own type and place.
pub proof fn lemma_records_have_the_variants_and_bases_of_their_entries(
    t: TableModel,
    dies: Seq<DieView>,
    unit_index: usize,
    i: int,
)
    requires
        t.closed_keys(),
        t.types.len() < u32::MAX,
        0 <= i < dies.len(),
        dies[i].tag == 0x13 || dies[i].tag == 0x02,
        !says(dies[i], 0x3c, ValueView::Flag(true)),
        children(dies, i, 0x33).len() <= 1,
        forall|k: int|
            0 <= k < dies.len() && (#[trigger] dies[k]).tag == 0x19 ==> children(
                dies,
                k,
                0x0d,
            ).len() > 0,
        forall|k: int|
            0 <= k < dies.len() && (#[trigger] dies[k]).tag == 0x1c ==> exists|key: DwarfTypeKey| #[trigger]
                refers_to(dies[k], unit_index, key),
    ensures
        ({
            let key = DwarfTypeKey { unit_index, offset: dies[i].offset };
            let after = type_defined(t, dies, unit_index, i);
            let parts = children(dies, i, 0x33);
            let bases = children(dies, i, 0x1c);
            defined(after, key) matches Some(DefView::Struct(rec)) && {
                &&& rec.variant_part is Some <==> parts.len() == 1
                &&& rec.variant_part matches Some(part) ==> is_part(
                    dies,
                    parts[0],
                    unit_index,
                    after,
                    part,
                )
                &&& rec.base_classes.len() == bases.len()
                &&& forall|k: int|
                    0 <= k < bases.len() ==> is_base(
                        dies[#[trigger] bases[k]],
                        unit_index,
                        after,
                        rec.base_classes[k],
                    )
            }
        }),
{
    let die = dies[i];
    let key = DwarfTypeKey { unit_index, offset: die.offset };
    lemma_says(die, 0x3c, ValueView::Flag(true));
    lemma_entries_below(dies, i);
    let (mid, id) = t.keyed(key);
    let rec = RecordView {
        name: die.name(),
        size: crate::dwarf_model::number_or(die.number(0x0b), 0),
        members: Seq::empty(),
        is_class: die.tag == 0x02,
        template_params: Seq::empty(),
        base_classes: Seq::empty(),
        variant_part: None,
    };
    lemma_record_rest(mid, rec, dies, unit_index, i, end_of(dies, i));
    let (last, got) = record_upto(mid, rec, dies, unit_index, i, end_of(dies, i));
    let after = type_defined(t, dies, unit_index, i);
    assert(mid.keys.contains_key(key));
    assert(last.keys.contains_key(key) && last.keys[key] == id);
    assert(keeps(last, after));
    if let Some(part) = got.variant_part {
        lemma_part_stays(dies, children(dies, i, 0x33)[0], unit_index, last, after, part);
    }
    let bases = children(dies, i, 0x1c);
    assert forall|k: int| 0 <= k < bases.len() implies is_base(
        dies[#[trigger] bases[k]],
        unit_index,
        after,
        got.base_classes[k],
    ) by {
        assert(is_base(dies[bases[k]], unit_index, last, got.base_classes[k]));
    }
}

/// A variable that its entry describes by itself is kept under its name, with the
/// type that the entry refers to, its size, whether other units see it, and why it
/// can or cannot be read. A declaration is no variable.
pub proof fn lemma_variables_are_what_their_entries_say(
    p: ParserView,
    unit: UnitView,
    unit_index: usize,
    i: int,
    name: Seq<char>,
    key: DwarfTypeKey,
)
    requires
        0 <= i < unit.dies.len(),
        unit.dies[i].tag == 0x34,
        says(unit.dies[i], 0x03, ValueView::Text(name)),
        name.len() > 0,
        refers_to(unit.dies[i], unit_index, key),
        silent(unit.dies[i], 0x47),
        silent(unit.dies[i], 0x31),
    ensures
        ({
            let die = unit.dies[i];
            let after = p.entered(unit, unit_index, i);
            &&& after.table == p.table
            &&& after.deferred == p.deferred
            &&& says(die, 0x3c, ValueView::Flag(true)) ==> after.pending == p.pending
            &&& !says(die, 0x3c, ValueView::Flag(true)) && silent(die, 0x6e) && silent(die, 0x2007)
                ==> {
                &&& after.pending.len() == p.pending.len() + 1
                &&& after.pending.drop_last() == p.pending
                &&& ({
                    let v = after.pending.last();
                    &&& v.name == name
                    &&& v.mangled_name is None
                    &&& v.type_key == key
                    &&& v.is_global == says(die, 0x3f, ValueView::Flag(true))
                    &&& v.status == die.status()
                    &&& forall|size: u64| #[trigger]
                        says(die, 0x0b, ValueView::Unsigned(size)) ==> v.size == size
                    &&& silent(die, 0x0b) ==> v.size == 0
                })
            }
        }),
{
    let die = unit.dies[i];
    lemma_says(die, 0x03, ValueView::Text(name));
    lemma_says(die, 0x49, ValueView::UnitRef(key.offset));
    lemma_says(die, 0x49, ValueView::InfoRef(key.offset));
    lemma_says(die, 0x47, ValueView::Other);
    lemma_says(die, 0x31, ValueView::Other);
    lemma_says(die, 0x3c, ValueView::Flag(true));
    lemma_says(die, 0x3f, ValueView::Flag(true));
    lemma_says(die, 0x6e, ValueView::Other);
    lemma_says(die, 0x2007, ValueView::Other);
    lemma_says(die, 0x0b, ValueView::Other);
    assert forall|size: u64| #[trigger]
        says(die, 0x0b, ValueView::Unsigned(size)) implies die.number(0x0b) == Some(size) by {
        lemma_says(die, 0x0b, ValueView::Unsigned(size));
    }
    let after = p.entered(unit, unit_index, i);
    if !die.flag(0x3c) && die.linkage_name() is None {
        assert(after.pending.drop_last() =~= p.pending);
    }
}

/// The variables whose types a table has.
pub open spec fn with_types(t: TableView, pending: Seq<PendingView>) -> Seq<PendingView> {
    pending.filter(|p: PendingView| t.keys.contains_key(p.type_key) && t.keys[p.type_key].0 != u32::MAX)
}

/// A parse has one symbol for every variable whose type is there, in their order:
/// under the variable's name, at the address where it lies, with its own size or
/// else its type's, and with that type.
pub proof fn lemma_symbols_are_the_variables(t: TableView, pending: Seq<PendingView>)
    ensures
        ({
            let shown = symbols_for(t, pending);
            let kept = with_types(t, pending);
            &&& shown.len() == kept.len()
            &&& forall|k: int|
                0 <= k < kept.len() ==> {
                    let s = #[trigger] shown[k];
                    let p = kept[k];
                    &&& s.name == p.name
                    &&& s.type_id == t.keys[p.type_key]
                    &&& s.is_global == p.is_global
                    &&& s.status == p.status
                    &&& s.mangled_name == p.mangled_name
                    &&& p.status matches StatusView::Valid { address } ==> s.address == address
                    &&& p.size > 0 ==> s.size == p.size
                    &&& p.size == 0 ==> (crate::type_table::size_of_type(t.types, s.type_id) matches Some(
                        size,
                    ) ==> s.size == size)
                }
        }),
    decreases pending.len(),
{
    reveal(Seq::filter);
    if pending.len() > 0 {
        lemma_symbols_are_the_variables(t, pending.drop_last());
        let shown = symbols_for(t, pending);
        let kept = with_types(t, pending);
        let kept0 = with_types(t, pending.drop_last());
        let shown0 = symbols_for(t, pending.drop_last());
        assert forall|k: int| 0 <= k < kept0.len() implies shown[k] == shown0[k] && #[trigger] kept[k]
            == kept0[k] by {}
    }
}

} // verus!
