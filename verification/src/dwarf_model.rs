//! What the entries of a DWARF unit define, as a function of what they say.

use vstd::prelude::*;
use vstd::string::*;
use crate::def_view::{
    DefView, EnumView, MemberView, ParamView, PartView, RecordView, TableModel, VariantView,
};
use crate::die::{
    TAG_ARRAY_TYPE, TAG_CLASS_TYPE, TAG_ENUMERATION_TYPE, TAG_MEMBER, TAG_POINTER_TYPE,
    TAG_REFERENCE_TYPE, TAG_STRUCTURE_TYPE, TAG_SUBROUTINE_TYPE, TAG_TYPEDEF, TAG_UNION_TYPE,
    TAG_VARIANT, TAG_INHERITANCE, TAG_SUBRANGE_TYPE, TAG_BASE_TYPE, TAG_CONST_TYPE,
    TAG_ENUMERATOR, TAG_TEMPLATE_TYPE_PARAMETER, TAG_TEMPLATE_VALUE_PARAMETER, TAG_VARIANT_PART,
    TAG_VARIABLE, TAG_VOLATILE_TYPE, TAG_RESTRICT_TYPE, TAG_UNSPECIFIED_TYPE,
    TAG_RVALUE_REFERENCE_TYPE, AT_BYTE_SIZE, AT_BIT_SIZE, AT_DISCR, AT_DECLARATION, AT_EXTERNAL,
    AT_TYPE, AT_VIRTUALITY, AT_ENUM_CLASS, ENCODING_BOOLEAN, ENCODING_FLOAT, ENCODING_SIGNED,
    ENCODING_SIGNED_CHAR, ENCODING_UNSIGNED, ENCODING_UNSIGNED_CHAR, ENCODING_UTF, DieView, UnitView, ValueView,
};
use crate::search::first;
use crate::variable_status::StatusView;
use crate::type_def::{
    BaseClassDef, DwarfTypeKey, ForwardDeclKind, GlobalTypeKey, PrimitiveDef, TypeId,
};

verus! {

/// A text, empty where there is none.
pub open spec fn text_or_empty(s: Option<Seq<char>>) -> Seq<char> {
    match s {
        Some(s) => s,
        None => Seq::empty(),
    }
}

/// A number, or another where there is none.
pub open spec fn number_or(n: Option<u64>, other: u64) -> u64 {
    match n {
        Some(n) => n,
        None => other,
    }
}

/// Where the entries below the one at `depth` end, from `j` on.
pub open spec fn end_from(dies: Seq<DieView>, depth: i64, j: int) -> int
    decreases dies.len() - j,
{
    if j >= dies.len() {
        dies.len() as int
    } else if dies[j].depth <= depth {
        j
    } else {
        end_from(dies, depth, j + 1)
    }
}

/// Where the entries below entry `i` end.
pub open spec fn end_of(dies: Seq<DieView>, i: int) -> int {
    end_from(dies, dies[i].depth, i + 1)
}

/// Whether entry `j`, one of those below entry `i`, is its child.
pub open spec fn is_child(dies: Seq<DieView>, i: int, j: int) -> bool {
    dies[j].depth == dies[i].depth + 1
}

/// The void type, made where the table has none yet.
pub open spec fn void_in(t: TableModel) -> (TableModel, TypeId) {
    match first(t.types, |d: DefView| d is Void) {
        Some(i) => (t, TypeId(i as u32)),
        None => (
            TableModel { types: t.types.push(DefView::Placeholder), ..t }.defining(
                t.next_id(),
                DefView::Void,
            ),
            t.next_id(),
        ),
    }
}

/// The type behind a reference; nothing is void.
pub open spec fn referred(t: TableModel, key: Option<GlobalTypeKey>) -> (TableModel, TypeId) {
    match key {
        Some(key) => t.keyed(key.dwarf_key()),
        None => void_in(t),
    }
}

/// What a base type's encoding and size make it, or its name where the
/// encoding does not tell.
pub open spec fn primitive(encoding: Option<u8>, size: u64, name: Seq<char>) -> PrimitiveDef {
    if encoding == Some(ENCODING_BOOLEAN) {
        PrimitiveDef::Bool
    } else if encoding == Some(ENCODING_SIGNED_CHAR) {
        PrimitiveDef::SignedChar
    } else if encoding == Some(ENCODING_UNSIGNED_CHAR) {
        PrimitiveDef::UnsignedChar
    } else if encoding == Some(ENCODING_SIGNED) {
        if size == 1 {
            PrimitiveDef::SignedChar
        } else if size == 2 {
            PrimitiveDef::Short
        } else if size == 4 {
            PrimitiveDef::Int
        } else if size == 8 {
            PrimitiveDef::LongLong
        } else {
            PrimitiveDef::SizedInt { size, signed: true }
        }
    } else if encoding == Some(ENCODING_UNSIGNED) {
        if size == 1 {
            PrimitiveDef::UnsignedChar
        } else if size == 2 {
            PrimitiveDef::UnsignedShort
        } else if size == 4 {
            PrimitiveDef::UnsignedInt
        } else if size == 8 {
            PrimitiveDef::UnsignedLongLong
        } else {
            PrimitiveDef::SizedInt { size, signed: false }
        }
    } else if encoding == Some(ENCODING_FLOAT) {
        if size == 4 {
            PrimitiveDef::Float
        } else if size == 8 {
            PrimitiveDef::Double
        } else if size == 16 {
            PrimitiveDef::LongDouble
        } else {
            PrimitiveDef::SizedFloat { size }
        }
    } else if encoding == Some(ENCODING_UTF) {
        PrimitiveDef::UnicodeChar { size }
    } else {
        named_primitive(name, size)
    }
}

/// The base type that C gives this name, else a signed integer.
pub open spec fn named_primitive(name: Seq<char>, size: u64) -> PrimitiveDef {
    if name == "bool"@ || name == "_Bool"@ {
        PrimitiveDef::Bool
    } else if name == "char"@ {
        PrimitiveDef::Char
    } else if name == "signed char"@ {
        PrimitiveDef::SignedChar
    } else if name == "unsigned char"@ {
        PrimitiveDef::UnsignedChar
    } else if name == "short"@ || name == "short int"@ {
        PrimitiveDef::Short
    } else if name == "unsigned short"@ || name == "short unsigned int"@ {
        PrimitiveDef::UnsignedShort
    } else if name == "int"@ {
        PrimitiveDef::Int
    } else if name == "unsigned int"@ || name == "unsigned"@ {
        PrimitiveDef::UnsignedInt
    } else if name == "long"@ || name == "long int"@ {
        PrimitiveDef::Long
    } else if name == "unsigned long"@ || name == "long unsigned int"@ {
        PrimitiveDef::UnsignedLong
    } else if name == "long long"@ || name == "long long int"@ {
        PrimitiveDef::LongLong
    } else if name == "unsigned long long"@ || name == "long long unsigned int"@ {
        PrimitiveDef::UnsignedLongLong
    } else if name == "float"@ {
        PrimitiveDef::Float
    } else if name == "double"@ {
        PrimitiveDef::Double
    } else if name == "long double"@ {
        PrimitiveDef::LongDouble
    } else {
        PrimitiveDef::SizedInt { size, signed: true }
    }
}

/// A member, and the table that holds its type. One without a type is invalid.
pub open spec fn member_in(t: TableModel, die: DieView, unit_index: usize) -> (
    TableModel,
    MemberView,
) {
    let (t, type_id) = match die.type_key(unit_index) {
        Some(key) => t.keyed(key.dwarf_key()),
        None => (t, TypeId(u32::MAX)),
    };
    (
        t,
        MemberView {
            name: text_or_empty(die.name()),
            offset: number_or(die.member_offset, 0),
            type_id,
            bit_offset: die.bit_offset(),
            bit_size: die.number(AT_BIT_SIZE),
        },
    )
}

/// The type in the same unit that an entry names, or void.
pub open spec fn unit_type(t: TableModel, die: DieView, unit_index: usize) -> (
    TableModel,
    TypeId,
) {
    match die.unit_ref(AT_TYPE) {
        Some(offset) => t.keyed(DwarfTypeKey { unit_index, offset }),
        None => void_in(t),
    }
}

/// A variant part while it is read: the members that may be its discriminant,
/// and its variants.
#[verifier::ext_equal]
pub struct PartialPart {
    pub table: TableModel,
    pub members: Seq<(usize, MemberView)>,
    pub variants: Seq<VariantView>,
}

/// The first child of entry `i` before `j` that is a member.
pub open spec fn first_member(dies: Seq<DieView>, i: int, j: int) -> Option<int>
    decreases j - i,
{
    if j <= i + 1 {
        None
    } else if first_member(dies, i, j - 1) is Some {
        first_member(dies, i, j - 1)
    } else if is_child(dies, i, j - 1) && dies[j - 1].tag == TAG_MEMBER {
        Some(j - 1)
    } else {
        None
    }
}

/// One more child of a variant part: a member, or a variant that holds one
/// member for its payload.
pub open spec fn part_child(p: PartialPart, dies: Seq<DieView>, unit_index: usize, k: int) -> PartialPart {
    if dies[k].tag == TAG_MEMBER {
        let (table, member) = member_in(p.table, dies[k], unit_index);
        PartialPart { table, members: p.members.push((dies[k].offset, member)), ..p }
    } else if dies[k].tag == TAG_VARIANT {
        match first_member(dies, k, end_of(dies, k)) {
            Some(m) => {
                let (table, member) = member_in(p.table, dies[m], unit_index);
                let variant = VariantView {
                    discr_value: dies[k].discr_value(),
                    member,
                    location: dies[m].declared,
                };
                PartialPart { table, variants: p.variants.push(variant), ..p }
            },
            None => p,
        }
    } else {
        p
    }
}

/// A variant part after its children before `k`.
pub open spec fn part_upto(
    t: TableModel,
    dies: Seq<DieView>,
    unit_index: usize,
    c: int,
    k: int,
) -> PartialPart
    decreases k - c,
{
    if k <= c + 1 {
        PartialPart { table: t, members: Seq::empty(), variants: Seq::empty() }
    } else {
        let before = part_upto(t, dies, unit_index, c, k - 1);
        if is_child(dies, c, k - 1) {
            part_child(before, dies, unit_index, k - 1)
        } else {
            before
        }
    }
}

/// Picks the member at this offset.
pub open spec fn member_at(offset: usize) -> spec_fn((usize, MemberView)) -> bool {
    |m: (usize, MemberView)| m.0 == offset
}

/// The discriminant: the member that `DW_AT_discr` refers to, or the first
/// where it refers to none.
pub open spec fn discriminant_of(members: Seq<(usize, MemberView)>, target: Option<usize>) -> Option<
    MemberView,
> {
    match target {
        Some(offset) => match first(members, member_at(offset)) {
            Some(i) => Some(members[i].1),
            None => None,
        },
        None => if members.len() > 0 {
            Some(members[0].1)
        } else {
            None
        },
    }
}

/// The variant part that entry `c` describes.
pub open spec fn part_in(t: TableModel, dies: Seq<DieView>, unit_index: usize, c: int) -> (
    TableModel,
    PartView,
) {
    let p = part_upto(t, dies, unit_index, c, end_of(dies, c));
    (
        p.table,
        PartView {
            discriminant: discriminant_of(p.members, dies[c].unit_ref(AT_DISCR)),
            variants: p.variants,
        },
    )
}

/// A struct with one more child.
pub open spec fn record_child(
    t: TableModel,
    rec: RecordView,
    dies: Seq<DieView>,
    unit_index: usize,
    j: int,
) -> (TableModel, RecordView) {
    let die = dies[j];
    if die.tag == TAG_MEMBER {
        let (t, member) = member_in(t, die, unit_index);
        (t, RecordView { members: rec.members.push(member), ..rec })
    } else if die.tag == TAG_INHERITANCE {
        match die.type_key(unit_index) {
            Some(key) => {
                let (t, type_id) = t.keyed(key.dwarf_key());
                let base = BaseClassDef {
                    type_id,
                    offset: number_or(die.member_offset, 0),
                    is_virtual: die.attr(AT_VIRTUALITY) == Some(ValueView::Virtuality),
                };
                (t, RecordView { base_classes: rec.base_classes.push(base), ..rec })
            },
            None => (t, rec),
        }
    } else if die.tag == TAG_TEMPLATE_TYPE_PARAMETER {
        let (t, type_id) = unit_type(t, die, unit_index);
        let name = match die.name() {
            Some(name) => name,
            None => "T"@,
        };
        let param = ParamView::Type { name, type_id };
        (t, RecordView { template_params: rec.template_params.push(param), ..rec })
    } else if die.tag == TAG_TEMPLATE_VALUE_PARAMETER {
        let name = match die.name() {
            Some(name) => name,
            None => "N"@,
        };
        let value = match die.const_value() {
            Some(value) => value,
            None => 0,
        };
        let param = ParamView::Value { name, value };
        (t, RecordView { template_params: rec.template_params.push(param), ..rec })
    } else if die.tag == TAG_VARIANT_PART {
        let (t, part) = part_in(t, dies, unit_index, j);
        (t, RecordView { variant_part: Some(part), ..rec })
    } else {
        (t, rec)
    }
}

/// A struct after its children before `j`.
pub open spec fn record_upto(
    t: TableModel,
    rec: RecordView,
    dies: Seq<DieView>,
    unit_index: usize,
    i: int,
    j: int,
) -> (TableModel, RecordView)
    decreases j - i,
{
    if j <= i + 1 {
        (t, rec)
    } else {
        let (t, rec) = record_upto(t, rec, dies, unit_index, i, j - 1);
        if is_child(dies, i, j - 1) {
            record_child(t, rec, dies, unit_index, j - 1)
        } else {
            (t, rec)
        }
    }
}

/// A struct, class or union entry: a forward declaration, or a definition with
/// its members. Its id comes first, so that its members can refer to it.
pub open spec fn record_defined(
    t: TableModel,
    dies: Seq<DieView>,
    unit_index: usize,
    i: int,
) -> TableModel {
    let die = dies[i];
    let key = DwarfTypeKey { unit_index, offset: die.offset };
    let is_union = die.tag == TAG_UNION_TYPE;
    let is_class = die.tag == TAG_CLASS_TYPE;
    if die.flag(AT_DECLARATION) {
        let kind = if is_union {
            ForwardDeclKind::Union
        } else if is_class {
            ForwardDeclKind::Class
        } else {
            ForwardDeclKind::Struct
        };
        t.inserting(
            key,
            DefView::ForwardDecl { name: text_or_empty(die.name()), kind, target: None },
        )
    } else {
        let (t, id) = t.keyed(key);
        let rec = RecordView {
            name: die.name(),
            size: number_or(die.number(AT_BYTE_SIZE), 0),
            members: Seq::empty(),
            is_class,
            template_params: Seq::empty(),
            base_classes: Seq::empty(),
            variant_part: None,
        };
        let (t, rec) = record_upto(t, rec, dies, unit_index, i, end_of(dies, i));
        t.defining(
            id,
            if is_union {
                DefView::Union(rec)
            } else {
                DefView::Struct(rec)
            },
        )
    }
}

/// The enumerators among the children of entry `i` before `j`.
pub open spec fn enumerators_upto(dies: Seq<DieView>, i: int, j: int) -> Seq<(Seq<char>, i64)>
    decreases j - i,
{
    if j <= i + 1 {
        Seq::empty()
    } else {
        let before = enumerators_upto(dies, i, j - 1);
        let die = dies[j - 1];
        if is_child(dies, i, j - 1) && die.tag == TAG_ENUMERATOR && die.name() is Some {
            before.push(
                (
                    die.name()->0,
                    match die.const_value() {
                        Some(value) => value,
                        None => 0,
                    },
                ),
            )
        } else {
            before
        }
    }
}

/// An enumeration entry: a forward declaration, or a definition.
pub open spec fn enum_defined(
    t: TableModel,
    dies: Seq<DieView>,
    unit_index: usize,
    i: int,
) -> TableModel {
    let die = dies[i];
    let key = DwarfTypeKey { unit_index, offset: die.offset };
    if die.flag(AT_DECLARATION) {
        t.inserting(
            key,
            DefView::ForwardDecl {
                name: text_or_empty(die.name()),
                kind: ForwardDeclKind::Enum,
                target: None,
            },
        )
    } else {
        let (t, underlying_type) = match die.unit_ref(AT_TYPE) {
            Some(offset) => {
                let (t, id) = t.keyed(DwarfTypeKey { unit_index, offset });
                (t, Some(id))
            },
            None => (t, None),
        };
        t.inserting(
            key,
            DefView::Enum(
                EnumView {
                    name: die.name(),
                    size: number_or(die.number(AT_BYTE_SIZE), 4),
                    variants: enumerators_upto(dies, i, end_of(dies, i)),
                    is_scoped: die.flag(AT_ENUM_CLASS),
                    underlying_type,
                },
            ),
        )
    }
}

/// How many elements an array has: what the first of its subranges before `j`
/// that says so at all says.
pub open spec fn count_upto(dies: Seq<DieView>, i: int, j: int) -> Option<Option<u64>>
    decreases j - i,
{
    if j <= i + 1 {
        None
    } else if count_upto(dies, i, j - 1) is Some {
        count_upto(dies, i, j - 1)
    } else if is_child(dies, i, j - 1) && dies[j - 1].tag == TAG_SUBRANGE_TYPE {
        dies[j - 1].subrange_count()
    } else {
        None
    }
}

/// How many elements the array at entry `i` has.
pub open spec fn array_count(dies: Seq<DieView>, i: int) -> Option<u64> {
    match count_upto(dies, i, end_of(dies, i)) {
        Some(count) => count,
        None => None,
    }
}

/// Whether entries with this tag define types.
pub open spec fn defines_type(tag: u16) -> bool {
    ||| tag == TAG_BASE_TYPE
    ||| tag == TAG_POINTER_TYPE
    ||| tag == TAG_REFERENCE_TYPE
    ||| tag == TAG_RVALUE_REFERENCE_TYPE
    ||| tag == TAG_CONST_TYPE
    ||| tag == TAG_VOLATILE_TYPE
    ||| tag == TAG_RESTRICT_TYPE
    ||| tag == TAG_TYPEDEF
    ||| tag == TAG_ARRAY_TYPE
    ||| tag == TAG_STRUCTURE_TYPE
    ||| tag == TAG_CLASS_TYPE
    ||| tag == TAG_UNION_TYPE
    ||| tag == TAG_ENUMERATION_TYPE
    ||| tag == TAG_SUBROUTINE_TYPE
    ||| tag == TAG_UNSPECIFIED_TYPE
}

/// The table with the type that entry `i` defines.
pub open spec fn type_defined(
    t: TableModel,
    dies: Seq<DieView>,
    unit_index: usize,
    i: int,
) -> TableModel {
    let die = dies[i];
    let key = DwarfTypeKey { unit_index, offset: die.offset };
    let to = referred(t, die.type_key(unit_index));
    if die.tag == TAG_BASE_TYPE {
        t.inserting(
            key,
            DefView::Primitive(
                primitive(
                    die.encoding(),
                    number_or(die.number(AT_BYTE_SIZE), 0),
                    text_or_empty(die.name()),
                ),
            ),
        )
    } else if die.tag == TAG_POINTER_TYPE {
        to.0.inserting(key, DefView::Pointer(to.1))
    } else if die.tag == TAG_REFERENCE_TYPE || die.tag == TAG_RVALUE_REFERENCE_TYPE {
        to.0.inserting(key, DefView::Reference(to.1))
    } else if die.tag == TAG_CONST_TYPE {
        to.0.inserting(key, DefView::Const(to.1))
    } else if die.tag == TAG_VOLATILE_TYPE {
        to.0.inserting(key, DefView::Volatile(to.1))
    } else if die.tag == TAG_RESTRICT_TYPE {
        to.0.inserting(key, DefView::Restrict(to.1))
    } else if die.tag == TAG_TYPEDEF {
        to.0.inserting(
            key,
            DefView::Typedef { name: text_or_empty(die.name()), underlying: to.1 },
        )
    } else if die.tag == TAG_ARRAY_TYPE {
        to.0.inserting(key, DefView::Array { element: to.1, count: array_count(dies, i) })
    } else if die.tag == TAG_STRUCTURE_TYPE || die.tag == TAG_CLASS_TYPE || die.tag
        == TAG_UNION_TYPE {
        record_defined(t, dies, unit_index, i)
    } else if die.tag == TAG_ENUMERATION_TYPE {
        enum_defined(t, dies, unit_index, i)
    } else if die.tag == TAG_SUBROUTINE_TYPE {
        match die.type_key(unit_index) {
            Some(key2) => to.0.inserting(
                key,
                DefView::Subroutine { return_type: Some(to.1), params: Seq::empty() },
            ),
            None => t.inserting(
                key,
                DefView::Subroutine { return_type: None, params: Seq::empty() },
            ),
        }
    } else if die.tag == TAG_UNSPECIFIED_TYPE {
        t.inserting(key, DefView::Void)
    } else {
        t
    }
}

/// The key of an entry by its place in `.debug_info`.
pub open spec fn global_key(unit: UnitView, die: DieView) -> DwarfTypeKey {
    GlobalTypeKey::Global(unit.offset.wrapping_add(die.offset)).dwarf_key()
}

/// The table with the type that entry `i` defines, known by the entry's place
/// in `.debug_info` too. In Rust units the type is marked as Rust's, and base
/// and pointer types keep the compiler's own name.
pub open spec fn type_entered(t: TableModel, unit: UnitView, unit_index: usize, i: int) -> TableModel {
    let die = unit.dies[i];
    let key = DwarfTypeKey { unit_index, offset: die.offset };
    let t = type_defined(t, unit.dies, unit_index, i).aliasing(global_key(unit, die), key);
    if unit.is_rust && t.keys.contains_key(key) {
        let id = t.keys[key].0;
        let t = TableModel { rust: t.rust.insert(id), ..t };
        if (die.tag == TAG_BASE_TYPE || die.tag == TAG_POINTER_TYPE) && die.name() is Some {
            TableModel { source_names: t.source_names.insert(id, die.name()->0), ..t }
        } else {
            t
        }
    } else {
        t
    }
}

/// What an entry says of a variable.
#[verifier::ext_equal]
pub struct InfoView {
    pub name: Option<Seq<char>>,
    pub linkage_name: Option<Seq<char>>,
    pub type_key: Option<DwarfTypeKey>,
    pub size: u64,
    pub is_global: bool,
}

impl InfoView {
    /// What is missing here, taken from another entry.
    pub open spec fn inheriting(self, other: InfoView) -> InfoView {
        InfoView {
            name: if self.name is None {
                other.name
            } else {
                self.name
            },
            linkage_name: if self.linkage_name is None {
                other.linkage_name
            } else {
                self.linkage_name
            },
            type_key: if self.type_key is None {
                other.type_key
            } else {
                self.type_key
            },
            size: if self.size == 0 {
                other.size
            } else {
                self.size
            },
            is_global: self.is_global || other.is_global,
        }
    }
}

/// A variable that waits for its type.
#[verifier::ext_equal]
pub struct PendingView {
    pub name: Seq<char>,
    pub mangled_name: Option<Seq<char>>,
    pub size: u64,
    pub type_key: DwarfTypeKey,
    pub is_global: bool,
    pub status: StatusView,
}

/// A variable that waits for the entry it completes.
#[verifier::ext_equal]
pub struct DeferredView {
    pub info: InfoView,
    pub status: StatusView,
    pub target_offset: usize,
}

/// What has been read of the units so far.
#[verifier::ext_equal]
pub struct ParserView {
    pub table: TableModel,
    pub pending: Seq<PendingView>,
    /// Variables with a type, by their place in `.debug_info`
    pub cache: Map<usize, InfoView>,
    pub deferred: Seq<DeferredView>,
}

/// The variables with one more, unless it has no name or no type.
pub open spec fn with_symbol(pending: Seq<PendingView>, info: InfoView, status: StatusView) -> Seq<
    PendingView,
> {
    let name = if info.linkage_name is Some {
        info.linkage_name
    } else {
        info.name
    };
    match (name, info.type_key) {
        (Some(name), Some(type_key)) => if name.len() > 0 {
            pending.push(
                PendingView {
                    name: match info.name {
                        Some(own) => own,
                        None => name,
                    },
                    mangled_name: if info.linkage_name == Some(name) {
                        None
                    } else {
                        info.linkage_name
                    },
                    size: info.size,
                    type_key,
                    is_global: info.is_global,
                    status,
                },
            )
        } else {
            pending
        },
        _ => pending,
    }
}

/// What a variable's entry says by itself.
pub open spec fn info_of(die: DieView, unit_index: usize) -> InfoView {
    InfoView {
        name: die.name(),
        linkage_name: die.linkage_name(),
        type_key: match die.type_key(unit_index) {
            Some(key) => Some(key.dwarf_key()),
            None => None,
        },
        size: number_or(die.number(AT_BYTE_SIZE), 0),
        is_global: die.flag(AT_EXTERNAL),
    }
}

impl ParserView {
    /// The variables read so far with the one at entry `i`. One with a type is
    /// kept for the entries that complete it, a declaration only for that; one
    /// that completes an entry not read yet is deferred.
    pub open spec fn variable_entered(self, unit: UnitView, unit_index: usize, i: int) -> ParserView {
        let die = unit.dies[i];
        let info = info_of(die, unit_index);
        let at = unit.offset.wrapping_add(die.offset);
        let cache = if info.type_key is Some {
            self.cache.insert(at, info)
        } else {
            self.cache
        };
        if die.flag(AT_DECLARATION) {
            ParserView { cache, ..self }
        } else {
            match die.completes(unit.offset) {
                Some(target) => if cache.contains_key(target) {
                    ParserView {
                        cache,
                        pending: with_symbol(
                            self.pending,
                            info.inheriting(cache[target]),
                            die.status(),
                        ),
                        ..self
                    }
                } else {
                    ParserView {
                        cache,
                        deferred: self.deferred.push(
                            DeferredView { info, status: die.status(), target_offset: target },
                        ),
                        ..self
                    }
                },
                None => ParserView {
                    cache,
                    pending: with_symbol(self.pending, info, die.status()),
                    ..self
                },
            }
        }
    }

    /// What has been read with entry `i`.
    pub open spec fn entered(self, unit: UnitView, unit_index: usize, i: int) -> ParserView {
        if unit.dies[i].tag == TAG_VARIABLE {
            self.variable_entered(unit, unit_index, i)
        } else if defines_type(unit.dies[i].tag) {
            ParserView { table: type_entered(self.table, unit, unit_index, i), ..self }
        } else {
            self
        }
    }

    /// What has been read with the unit's first `n` entries.
    pub open spec fn unit_entered(self, unit: UnitView, unit_index: usize, n: int) -> ParserView
        decreases n,
    {
        if n <= 0 {
            self
        } else {
            self.unit_entered(unit, unit_index, n - 1).entered(unit, unit_index, n - 1)
        }
    }
}

/// What has been read before the first unit.
pub open spec fn nothing_read() -> ParserView {
    ParserView {
        table: crate::def_view::empty_model(),
        pending: Seq::empty(),
        cache: Map::empty(),
        deferred: Seq::empty(),
    }
}

/// What has been read of these units.
pub open spec fn units_read(units: Seq<UnitView>) -> ParserView
    decreases units.len(),
{
    if units.len() == 0 {
        nothing_read()
    } else {
        let n = units.len() - 1;
        units_read(units.drop_last()).unit_entered(
            units.last(),
            n as usize,
            units.last().dies.len() as int,
        )
    }
}

/// The variables once the deferred ones took what they complete, where it was
/// read.
pub open spec fn settled(
    pending: Seq<PendingView>,
    cache: Map<usize, InfoView>,
    deferred: Seq<DeferredView>,
) -> Seq<PendingView>
    decreases deferred.len(),
{
    if deferred.len() == 0 {
        pending
    } else {
        let before = settled(pending, cache, deferred.drop_last());
        let last = deferred.last();
        with_symbol(
            before,
            if cache.contains_key(last.target_offset) {
                last.info.inheriting(cache[last.target_offset])
            } else {
                last.info
            },
            last.status,
        )
    }
}

} // verus!
