//! Reads the types that a unit's entries define into a type table.

use vstd::prelude::*;
use vstd::string::*;
#[allow(unused_imports)]
use crate::def_view::{
    lemma_defining, lemma_keyed, model_of, DefView, MemberView, RecordView, TableModel, VariantView,
};
use crate::die::Die;
#[allow(unused_imports)]
use crate::die::{
    TAG_ARRAY_TYPE, TAG_CLASS_TYPE, TAG_ENUMERATION_TYPE, TAG_MEMBER, TAG_POINTER_TYPE,
    TAG_REFERENCE_TYPE, TAG_STRUCTURE_TYPE, TAG_SUBROUTINE_TYPE, TAG_TYPEDEF, TAG_UNION_TYPE,
    TAG_VARIANT, TAG_INHERITANCE, TAG_SUBRANGE_TYPE, TAG_BASE_TYPE, TAG_CONST_TYPE,
    TAG_ENUMERATOR, TAG_TEMPLATE_TYPE_PARAMETER, TAG_TEMPLATE_VALUE_PARAMETER, TAG_VARIANT_PART,
    TAG_VOLATILE_TYPE, TAG_RESTRICT_TYPE, TAG_UNSPECIFIED_TYPE, TAG_RVALUE_REFERENCE_TYPE,
    AT_BYTE_SIZE, AT_BIT_SIZE, AT_DISCR, AT_DECLARATION, AT_TYPE, AT_VIRTUALITY, AT_ENUM_CLASS,
    ENCODING_BOOLEAN, ENCODING_FLOAT, ENCODING_SIGNED, ENCODING_SIGNED_CHAR, ENCODING_UNSIGNED,
    ENCODING_UNSIGNED_CHAR, ENCODING_UTF, Value, ValueView, DieView, dies_of,
};
#[allow(unused_imports)]
use crate::dwarf_model::{
    text_or_empty, number_or, end_from, end_of, is_child, void_in, referred, primitive,
    named_primitive, member_in, unit_type, PartialPart, first_member, part_upto, member_at,
    discriminant_of, part_in, record_child, record_upto, record_defined, enumerators_upto,
    enum_defined, count_upto, array_count, defines_type, type_defined,
};
use crate::search::{lemma_first_is, lemma_first_none};
use crate::text::same_text;
use crate::type_def::{
    BaseClassDef, DwarfTypeKey, EnumDef, EnumVariant, ForwardDeclKind, GlobalTypeKey, MemberDef,
    PrimitiveDef, SourceLocation, StructDef, TemplateParam, TypeDef, TypeId, VariantDef,
    VariantPart,
};
use crate::type_table::{TableView, TypeTable};

verus! {

/// Whether a table grew: every key's type is in it, and no type left it.
pub open spec fn grown(before: TableView, after: TableView) -> bool {
    &&& model_of(after).closed_keys()
    &&& before.types.len() <= after.types.len()
}

/// The type for a key, allocated where it has none.
fn type_for(t: &mut TypeTable, key: DwarfTypeKey) -> (r: TypeId)
    requires
        model_of(old(t)@).closed_keys(),
    ensures
        (model_of(final(t)@), r) == model_of(old(t)@).keyed(key),
        grown(old(t)@, final(t)@),
        r.0 < final(t)@.types.len(),
{
    proof {
        lemma_keyed(t@, key);
        assert(model_of(t@).keys == t@.keys);
    }
    let ghost before = t@;
    let r = t.get_or_allocate(key);
    proof {
        assert(model_of(t@).types.len() == t@.types.len());
        assert forall|k: DwarfTypeKey| #[trigger] model_of(t@).keys.contains_key(k) implies model_of(
            t@,
        ).keys[k].0 < model_of(t@).types.len() by {
            if before.keys.contains_key(k) {
                assert(model_of(before).keys.contains_key(k));
            }
        }
        if before.keys.contains_key(key) {
            assert(model_of(before).keys.contains_key(key));
        }
    }
    r
}

/// Defines a type that is in the table.
fn define_type(t: &mut TypeTable, id: TypeId, def: TypeDef)
    requires
        model_of(old(t)@).closed_keys(),
        id.0 < old(t)@.types.len(),
    ensures
        model_of(final(t)@) == model_of(old(t)@).defining(id, def@),
        grown(old(t)@, final(t)@),
{
    proof {
        lemma_defining(t@, id, def);
    }
    t.define(id, def);
    assert(model_of(t@).closed_keys()) by {
        assert(model_of(t@).keys == model_of(old(t)@).keys);
        assert(model_of(t@).types.len() == model_of(old(t)@).types.len());
    }
}

/// Defines the type for a key.
fn insert_type(t: &mut TypeTable, key: DwarfTypeKey, def: TypeDef)
    requires
        model_of(old(t)@).closed_keys(),
    ensures
        model_of(final(t)@) == model_of(old(t)@).inserting(key, def@),
        grown(old(t)@, final(t)@),
{
    let id = type_for(t, key);
    define_type(t, id, def);
}

/// The void type, made where the table has none yet.
fn ensure_void_type(t: &mut TypeTable) -> (r: TypeId)
    requires
        model_of(old(t)@).closed_keys(),
    ensures
        (model_of(final(t)@), r) == void_in(model_of(old(t)@)),
        grown(old(t)@, final(t)@),
{
    let ghost types = model_of(t@).types;
    let ghost f = |d: DefView| d is Void;
    let all: Vec<(TypeId, &TypeDef)> = t.iter();
    let mut i: usize = 0;
    while i < all.len()
        invariant
            i <= all@.len(),
            t@ == old(t)@,
            types == model_of(t@).types,
            all@.len() == t@.types.len(),
            f == (|d: DefView| d is Void),
            model_of(t@).closed_keys(),
            forall|k: int|
                0 <= k < all@.len() ==> (#[trigger] all@[k]).0 == TypeId(k as u32) && *all@[k].1
                    == t@.types[k],
            forall|k: int| 0 <= k < i ==> !f(#[trigger] types[k]),
        decreases all@.len() - i,
    {
        assert(types[i as int] == t@.types[i as int]@);
        if let TypeDef::Void = all[i].1 {
            proof {
                lemma_first_is(types, f, i as int);
            }
            return all[i].0;
        }
        i = i + 1;
    }
    proof {
        lemma_first_none(types, f);
        let next = t@.next_id();
        assert(t@.types.len() as u32 <= t@.types.len());
        lemma_defining(t@.allocating(), next, TypeDef::Void);
        assert(model_of(t@.allocating()) =~= TableModel {
            types: types.push(DefView::Placeholder),
            ..model_of(t@)
        });
    }
    let ghost before = t@;
    let r = t.insert(TypeDef::Void);
    assert(model_of(t@).closed_keys()) by {
        assert(model_of(t@).keys == model_of(before).keys);
        assert(model_of(t@).types.len() == model_of(before).types.len() + 1);
    }
    r
}

/// The type behind a reference; nothing is void.
fn referred_type(t: &mut TypeTable, key: Option<GlobalTypeKey>) -> (r: TypeId)
    requires
        model_of(old(t)@).closed_keys(),
    ensures
        (model_of(final(t)@), r) == referred(model_of(old(t)@), key),
        grown(old(t)@, final(t)@),
{
    match key {
        Some(key) => type_for(t, key.to_dwarf_key()),
        None => ensure_void_type(t),
    }
}

/// Where the entries below entry `i` end.
fn end_of_children(dies: &Vec<Die>, i: usize) -> (r: usize)
    requires
        i < dies@.len(),
    ensures
        r == end_of(dies_of(dies@), i as int),
        i < r <= dies@.len(),
        forall|k: int| i < k < r ==> (#[trigger] dies@[k]).depth > dies@[i as int].depth,
{
    let ghost views = dies_of(dies@);
    let count: usize = dies.len();
    let depth: i64 = dies[i].depth;
    let mut j: usize = i + 1;
    while j < dies.len() && dies[j].depth > depth
        invariant
            i < j <= dies@.len(),
            i < dies@.len(),
            views == dies_of(dies@),
            depth == views[i as int].depth,
            depth == dies@[i as int].depth,
            forall|k: int| i < k < j ==> (#[trigger] dies@[k]).depth > depth,
            end_from(views, depth, j as int) == end_of(views, i as int),
        decreases dies@.len() - j,
    {
        assert(views[j as int].depth == dies@[j as int].depth);
        j = j + 1;
    }
    assert(j < dies@.len() ==> views[j as int].depth == dies@[j as int].depth);
    j
}

/// Whether entry `j`, one of those below entry `i`, is its child.
fn child_of(dies: &Vec<Die>, i: usize, j: usize) -> (r: bool)
    requires
        i < dies@.len(),
        j < dies@.len(),
        dies@[i as int].depth < dies@[j as int].depth,
    ensures
        r == is_child(dies_of(dies@), i as int, j as int),
{
    let ghost views = dies_of(dies@);
    assert(views[i as int] == dies@[i as int]@ && views[j as int] == dies@[j as int]@);
    dies[j].depth == dies[i].depth + 1
}

/// Parse DW_TAG_member
fn parse_member(t: &mut TypeTable, die: &Die, unit_index: usize) -> (r: MemberDef)
    requires
        model_of(old(t)@).closed_keys(),
    ensures
        (model_of(final(t)@), r@) == member_in(model_of(old(t)@), die@, unit_index),
        grown(old(t)@, final(t)@),
{
    let name: String = name_or_empty(die);
    let offset: u64 = match die.member_offset {
        Some(offset) => offset,
        None => 0,
    };
    let type_id = match die.get_type_ref_key(unit_index) {
        Some(key) => type_for(t, key.to_dwarf_key()),
        None => TypeId::invalid(),
    };
    let mut member = MemberDef::new(name, offset, type_id);
    member.bit_offset = die.get_bit_offset();
    member.bit_size = die.number(AT_BIT_SIZE);
    member
}

/// The entry's name, empty where it has none.
fn name_or_empty(die: &Die) -> (r: String)
    ensures
        r@ == text_or_empty(die@.name()),
{
    match die.get_name() {
        Some(name) => name,
        None => String::new(),
    }
}

/// The first child of entry `i` that is a member.
fn find_member(dies: &Vec<Die>, i: usize) -> (r: Option<usize>)
    requires
        i < dies@.len(),
    ensures
        first_member(dies_of(dies@), i as int, end_of(dies_of(dies@), i as int)) == (match r {
            Some(m) => Some(m as int),
            None => None,
        }),
        r matches Some(m) ==> i < m < dies@.len(),
{
    let ghost views = dies_of(dies@);
    let end: usize = end_of_children(dies, i);
    let mut j: usize = i + 1;
    while j < end
        invariant
            i < j <= end <= dies@.len(),
            views == dies_of(dies@),
            end == end_of(views, i as int),
            first_member(views, i as int, j as int) is None,
            forall|k: int| i < k < end ==> (#[trigger] dies@[k]).depth > dies@[i as int].depth,
        decreases end - j,
    {
        assert(views[j as int] == dies@[j as int]@);
        assert(first_member(views, i as int, j + 1) == (if is_child(views, i as int, j as int)
            && views[j as int].tag == TAG_MEMBER {
            Some(j as int)
        } else {
            None
        }));
        if child_of(dies, i, j) && dies[j].tag == TAG_MEMBER {
            proof {
                lemma_first_member_stays(views, i as int, j + 1, end as int);
            }
            return Some(j);
        }
        j = j + 1;
    }
    None
}

/// Once found, the first member stays the first.
proof fn lemma_first_member_stays(dies: Seq<DieView>, i: int, j: int, end: int)
    requires
        i < j <= end,
        first_member(dies, i, j) is Some,
    ensures
        first_member(dies, i, end) == first_member(dies, i, j),
    decreases end - j,
{
    if j < end {
        lemma_first_member_stays(dies, i, j, end - 1);
    }
}

fn same_location(l: &Option<SourceLocation>) -> (r: Option<SourceLocation>)
    ensures
        r == *l,
{
    match l {
        Some(l) => Some(l.clone()),
        None => None,
    }
}

/// What the members of a variant part say.
pub open spec fn placed(members: Seq<(usize, MemberDef)>) -> Seq<(usize, MemberView)> {
    members.map_values(|m: (usize, MemberDef)| (m.0, m.1@))
}

/// The discriminant among the members of a variant part.
fn pick_discriminant(members: &Vec<(usize, MemberDef)>, target: Option<usize>) -> (r: Option<
    MemberDef,
>)
    ensures
        discriminant_of(placed(members@), target) == (match r {
            Some(m) => Some(m@),
            None => None,
        }),
{
    let ghost views = placed(members@);
    match target {
        Some(offset) => {
            let mut i: usize = 0;
            while i < members.len()
                invariant
                    i <= members@.len(),
                    views == placed(members@),
                    target == Some(offset),
                    forall|k: int| 0 <= k < i ==> !member_at(offset)(#[trigger] views[k]),
                decreases members@.len() - i,
            {
                assert(views[i as int] == (members@[i as int].0, members@[i as int].1@));
                if members[i].0 == offset {
                    proof {
                        lemma_first_is(views, member_at(offset), i as int);
                    }
                    return Some(members[i].1.clone());
                }
                i = i + 1;
            }
            proof {
                lemma_first_none(views, member_at(offset));
            }
            None
        },
        None => if members.len() > 0 {
            assert(views[0] == (members@[0].0, members@[0].1@));
            Some(members[0].1.clone())
        } else {
            None
        },
    }
}

/// Parse one DW_TAG_variant: its payload is its first member.
fn parse_variant(t: &mut TypeTable, dies: &Vec<Die>, unit_index: usize, k: usize, m: usize) -> (r:
    VariantDef)
    requires
        model_of(old(t)@).closed_keys(),
        k < dies@.len(),
        m < dies@.len(),
    ensures
        model_of(final(t)@) == member_in(model_of(old(t)@), dies@[m as int]@, unit_index).0,
        r@ == (VariantView {
            discr_value: dies@[k as int]@.discr_value(),
            member: member_in(model_of(old(t)@), dies@[m as int]@, unit_index).1,
            location: dies@[m as int]@.declared,
        }),
        grown(old(t)@, final(t)@),
{
    let discr_value = dies[k].get_discr_value();
    let member = parse_member(t, &dies[m], unit_index);
    VariantDef { discr_value, member, location: same_location(&dies[m].declared) }
}

/// Parse a Rust enum's DW_TAG_variant_part: one discriminant member plus
/// DW_TAG_variant children, each holding a single member for its payload.
fn parse_variant_part(t: &mut TypeTable, dies: &Vec<Die>, unit_index: usize, c: usize) -> (r:
    VariantPart)
    requires
        model_of(old(t)@).closed_keys(),
        c < dies@.len(),
    ensures
        (model_of(final(t)@), r@) == part_in(
            model_of(old(t)@),
            dies_of(dies@),
            unit_index,
            c as int,
        ),
        grown(old(t)@, final(t)@),
{
    let ghost views = dies_of(dies@);
    let ghost start = model_of(t@);
    let end: usize = end_of_children(dies, c);
    let mut members: Vec<(usize, MemberDef)> = Vec::new();
    let mut variants: Vec<VariantDef> = Vec::new();
    let mut k: usize = c + 1;
    assert(placed(members@) =~= Seq::<(usize, MemberView)>::empty());
    assert(variants@.map_values(|v: VariantDef| v@) =~= Seq::<VariantView>::empty());
    while k < end
        invariant
            c < k <= end <= dies@.len(),
            views == dies_of(dies@),
            end == end_of(views, c as int),
            forall|j: int| c < j < end ==> (#[trigger] dies@[j]).depth > dies@[c as int].depth,
            grown(old(t)@, t@),
            part_upto(start, views, unit_index, c as int, k as int) == (PartialPart {
                table: model_of(t@),
                members: placed(members@),
                variants: variants@.map_values(|v: VariantDef| v@),
            }),
        decreases end - k,
    {
        assert(views[k as int] == dies@[k as int]@);
        let ghost before = part_upto(start, views, unit_index, c as int, k as int);
        let ghost vs = variants@;
        if child_of(dies, c, k) {
            if dies[k].tag == TAG_MEMBER {
                let member = parse_member(t, &dies[k], unit_index);
                let ghost ms = members@;
                members.push((dies[k].offset, member));
                assert(placed(members@) =~= placed(ms).push((dies@[k as int].offset, member@)));
            } else if dies[k].tag == TAG_VARIANT {
                if let Some(m) = find_member(dies, k) {
                    assert(views[m as int] == dies@[m as int]@);
                    let variant = parse_variant(t, dies, unit_index, k, m);
                    variants.push(variant);
                    assert(variants@.map_values(|v: VariantDef| v@) =~= vs.map_values(
                        |v: VariantDef| v@,
                    ).push(variant@));
                }
            }
        }
        k = k + 1;
    }
    assert(views[c as int] == dies@[c as int]@);
    let discriminant = pick_discriminant(&members, dies[c].get_unit_ref(AT_DISCR));
    VariantPart { discriminant, variants }
}

/// Parse DW_TAG_template_type_parameter
fn parse_template_type_param(t: &mut TypeTable, die: &Die, unit_index: usize) -> (r: TemplateParam)
    requires
        model_of(old(t)@).closed_keys(),
    ensures
        ({
            let (after, type_id) = unit_type(model_of(old(t)@), die@, unit_index);
            &&& model_of(final(t)@) == after
            &&& r matches TemplateParam::Type { name, type_id: id } && id == type_id && name@
                == (match die@.name() {
                Some(name) => name,
                None => "T"@,
            })
        }),
        grown(old(t)@, final(t)@),
{
    let name: String = match die.get_name() {
        Some(name) => name,
        None => "T".to_owned(),
    };
    let type_id = match die.get_unit_ref(AT_TYPE) {
        Some(offset) => type_for(t, DwarfTypeKey::new(unit_index, offset)),
        None => ensure_void_type(t),
    };
    TemplateParam::Type { name, type_id }
}

/// Parse DW_TAG_template_value_parameter
fn parse_template_value_param(die: &Die) -> (r: TemplateParam)
    ensures
        r matches TemplateParam::Value { name, value } && name@ == (match die@.name() {
            Some(name) => name,
            None => "N"@,
        }) && value == (match die@.const_value() {
            Some(value) => value,
            None => 0,
        }),
{
    let name: String = match die.get_name() {
        Some(name) => name,
        None => "N".to_owned(),
    };
    let value: i64 = match die.get_const_value() {
        Some(value) => value,
        None => 0,
    };
    TemplateParam::Value { name, value }
}

/// Parse DW_TAG_inheritance
fn parse_inheritance(t: &mut TypeTable, die: &Die, unit_index: usize) -> (r: Option<BaseClassDef>)
    requires
        model_of(old(t)@).closed_keys(),
    ensures
        match die@.type_key(unit_index) {
            Some(key) => {
                let (after, type_id) = model_of(old(t)@).keyed(key.dwarf_key());
                &&& model_of(final(t)@) == after
                &&& r == Some(
                    BaseClassDef {
                        type_id,
                        offset: number_or(die@.member_offset, 0),
                        is_virtual: die@.attr(AT_VIRTUALITY) == Some(ValueView::Virtuality),
                    },
                )
            },
            None => r is None && final(t)@ == old(t)@,
        },
        grown(old(t)@, final(t)@),
{
    let key = match die.get_type_ref_key(unit_index) {
        Some(key) => key,
        None => {
            return None;
        },
    };
    let type_id = type_for(t, key.to_dwarf_key());
    let offset: u64 = match die.member_offset {
        Some(offset) => offset,
        None => 0,
    };
    let is_virtual = match die.attr(AT_VIRTUALITY) {
        Some(Value::Virtuality) => true,
        _ => false,
    };
    Some(BaseClassDef { type_id, offset, is_virtual })
}

/// Adds what one child of a struct says.
fn parse_record_child(
    t: &mut TypeTable,
    rec: &mut StructDef,
    dies: &Vec<Die>,
    unit_index: usize,
    j: usize,
)
    requires
        model_of(old(t)@).closed_keys(),
        j < dies@.len(),
    ensures
        (model_of(final(t)@), final(rec)@) == record_child(
            model_of(old(t)@),
            old(rec)@,
            dies_of(dies@),
            unit_index,
            j as int,
        ),
        grown(old(t)@, final(t)@),
{
    let ghost views = dies_of(dies@);
    assert(views[j as int] == dies@[j as int]@);
    let die = &dies[j];
    if die.tag == TAG_MEMBER {
        let member = parse_member(t, die, unit_index);
        rec.members.push(member);
        assert(rec@.members =~= old(rec)@.members.push(member@));
    } else if die.tag == TAG_INHERITANCE {
        if let Some(base) = parse_inheritance(t, die, unit_index) {
            rec.base_classes.push(base);
        }
    } else if die.tag == TAG_TEMPLATE_TYPE_PARAMETER {
        let param = parse_template_type_param(t, die, unit_index);
        rec.template_params.push(param);
        assert(rec@.template_params =~= old(rec)@.template_params.push(param@));
    } else if die.tag == TAG_TEMPLATE_VALUE_PARAMETER {
        let param = parse_template_value_param(die);
        rec.template_params.push(param);
        assert(rec@.template_params =~= old(rec)@.template_params.push(param@));
    } else if die.tag == TAG_VARIANT_PART {
        let part = parse_variant_part(t, dies, unit_index, j);
        rec.variant_part = Some(part);
    }
}

/// Parse DW_TAG_structure_type, DW_TAG_class_type, or DW_TAG_union_type
fn parse_struct_type(t: &mut TypeTable, dies: &Vec<Die>, unit_index: usize, i: usize)
    requires
        model_of(old(t)@).closed_keys(),
        i < dies@.len(),
    ensures
        model_of(final(t)@) == record_defined(
            model_of(old(t)@),
            dies_of(dies@),
            unit_index,
            i as int,
        ),
        grown(old(t)@, final(t)@),
{
    let ghost views = dies_of(dies@);
    assert(views[i as int] == dies@[i as int]@);
    let die = &dies[i];
    let key = DwarfTypeKey::new(unit_index, die.offset);
    let is_union: bool = die.tag == TAG_UNION_TYPE;
    let is_class: bool = die.tag == TAG_CLASS_TYPE;
    if die.flag(AT_DECLARATION) {
        let kind = if is_union {
            ForwardDeclKind::Union
        } else if is_class {
            ForwardDeclKind::Class
        } else {
            ForwardDeclKind::Struct
        };
        insert_type(t, key, TypeDef::ForwardDecl { name: name_or_empty(die), kind, target: None });
        return;
    }
    let size: u64 = match die.get_byte_size() {
        Some(size) => size,
        None => 0,
    };
    // Members may refer to the struct that holds them
    let id = type_for(t, key);
    let mut rec = StructDef::new(die.get_name(), size, is_class);
    let ghost start = model_of(t@);
    let ghost empty = rec@;
    assert(rec@ =~= RecordView {
        name: die@.name(),
        size: number_or(die@.number(AT_BYTE_SIZE), 0),
        members: Seq::empty(),
        is_class,
        template_params: Seq::empty(),
        base_classes: Seq::empty(),
        variant_part: None,
    });
    let end: usize = end_of_children(dies, i);
    let mut j: usize = i + 1;
    while j < end
        invariant
            i < j <= end <= dies@.len(),
            views == dies_of(dies@),
            end == end_of(views, i as int),
            forall|k: int| i < k < end ==> (#[trigger] dies@[k]).depth > dies@[i as int].depth,
            grown(old(t)@, t@),
            id.0 < t@.types.len(),
            (model_of(t@), rec@) == record_upto(
                start,
                empty,
                views,
                unit_index,
                i as int,
                j as int,
            ),
        decreases end - j,
    {
        if child_of(dies, i, j) {
            parse_record_child(t, &mut rec, dies, unit_index, j);
        }
        j = j + 1;
    }
    if is_union {
        define_type(t, id, TypeDef::Union(rec));
    } else {
        define_type(t, id, TypeDef::Struct(rec));
    }
}

/// The enumerators of an enumeration.
fn parse_enumerators(dies: &Vec<Die>, i: usize) -> (r: Vec<EnumVariant>)
    requires
        i < dies@.len(),
    ensures
        r@.map_values(|v: EnumVariant| (v.name@, v.value)) == enumerators_upto(
            dies_of(dies@),
            i as int,
            end_of(dies_of(dies@), i as int),
        ),
{
    let ghost views = dies_of(dies@);
    let ghost shown = |v: EnumVariant| (v.name@, v.value);
    let mut out: Vec<EnumVariant> = Vec::new();
    let end: usize = end_of_children(dies, i);
    let mut j: usize = i + 1;
    assert(out@.map_values(shown) =~= Seq::<(Seq<char>, i64)>::empty());
    while j < end
        invariant
            i < j <= end <= dies@.len(),
            views == dies_of(dies@),
            shown == (|v: EnumVariant| (v.name@, v.value)),
            end == end_of(views, i as int),
            forall|k: int| i < k < end ==> (#[trigger] dies@[k]).depth > dies@[i as int].depth,
            out@.map_values(shown) == enumerators_upto(views, i as int, j as int),
        decreases end - j,
    {
        assert(views[j as int] == dies@[j as int]@);
        if child_of(dies, i, j) && dies[j].tag == TAG_ENUMERATOR {
            if let Some(name) = dies[j].get_name() {
                let value: i64 = match dies[j].get_const_value() {
                    Some(value) => value,
                    None => 0,
                };
                let ghost before = out@;
                out.push(EnumVariant { name, value });
                assert(out@.map_values(shown) =~= before.map_values(shown).push((name@, value)));
            }
        }
        j = j + 1;
    }
    out
}

/// Parse DW_TAG_enumeration_type
fn parse_enum_type(t: &mut TypeTable, dies: &Vec<Die>, unit_index: usize, i: usize)
    requires
        model_of(old(t)@).closed_keys(),
        i < dies@.len(),
    ensures
        model_of(final(t)@) == enum_defined(
            model_of(old(t)@),
            dies_of(dies@),
            unit_index,
            i as int,
        ),
        grown(old(t)@, final(t)@),
{
    let ghost views = dies_of(dies@);
    assert(views[i as int] == dies@[i as int]@);
    let die = &dies[i];
    let key = DwarfTypeKey::new(unit_index, die.offset);
    if die.flag(AT_DECLARATION) {
        insert_type(
            t,
            key,
            TypeDef::ForwardDecl {
                name: name_or_empty(die),
                kind: ForwardDeclKind::Enum,
                target: None,
            },
        );
        return;
    }
    let size: u64 = match die.get_byte_size() {
        Some(size) => size,
        None => 4,
    };
    let underlying_type = match die.get_unit_ref(AT_TYPE) {
        Some(offset) => Some(type_for(t, DwarfTypeKey::new(unit_index, offset))),
        None => None,
    };
    let mut def = EnumDef::new(die.get_name(), size, die.flag(AT_ENUM_CLASS));
    def.underlying_type = underlying_type;
    def.variants = parse_enumerators(dies, i);
    insert_type(t, key, TypeDef::Enum(def));
}

/// How many elements an array has, from the subranges among its children.
fn get_array_count(dies: &Vec<Die>, i: usize) -> (r: Option<u64>)
    requires
        i < dies@.len(),
    ensures
        r == array_count(dies_of(dies@), i as int),
{
    let ghost views = dies_of(dies@);
    let end: usize = end_of_children(dies, i);
    let mut j: usize = i + 1;
    while j < end
        invariant
            i < j <= end <= dies@.len(),
            views == dies_of(dies@),
            end == end_of(views, i as int),
            count_upto(views, i as int, j as int) is None,
            forall|k: int| i < k < end ==> (#[trigger] dies@[k]).depth > dies@[i as int].depth,
        decreases end - j,
    {
        assert(views[j as int] == dies@[j as int]@);
        if child_of(dies, i, j) && dies[j].tag == TAG_SUBRANGE_TYPE {
            if let Some(count) = dies[j].get_subrange_count() {
                proof {
                    assert(count_upto(views, i as int, j + 1) == Some(count));
                    lemma_count_stays(views, i as int, j + 1, end as int);
                }
                return count;
            }
        }
        assert(count_upto(views, i as int, j + 1) is None);
        j = j + 1;
    }
    None
}

/// Once a subrange gave the count, later ones do not change it.
proof fn lemma_count_stays(dies: Seq<DieView>, i: int, j: int, end: int)
    requires
        i < j <= end,
        count_upto(dies, i, j) is Some,
    ensures
        count_upto(dies, i, end) == count_upto(dies, i, j),
    decreases end - j,
{
    if j < end {
        lemma_count_stays(dies, i, j, end - 1);
    }
}

/// The base type that C gives this name, else a signed integer.
fn infer_primitive(name: &str, size: u64) -> (r: PrimitiveDef)
    ensures
        r == named_primitive(name@, size),
{
    if same_text(name, "bool") || same_text(name, "_Bool") {
        PrimitiveDef::Bool
    } else if same_text(name, "char") {
        PrimitiveDef::Char
    } else if same_text(name, "signed char") {
        PrimitiveDef::SignedChar
    } else if same_text(name, "unsigned char") {
        PrimitiveDef::UnsignedChar
    } else if same_text(name, "short") || same_text(name, "short int") {
        PrimitiveDef::Short
    } else if same_text(name, "unsigned short") || same_text(name, "short unsigned int") {
        PrimitiveDef::UnsignedShort
    } else if same_text(name, "int") {
        PrimitiveDef::Int
    } else if same_text(name, "unsigned int") || same_text(name, "unsigned") {
        PrimitiveDef::UnsignedInt
    } else if same_text(name, "long") || same_text(name, "long int") {
        PrimitiveDef::Long
    } else if same_text(name, "unsigned long") || same_text(name, "long unsigned int") {
        PrimitiveDef::UnsignedLong
    } else if same_text(name, "long long") || same_text(name, "long long int") {
        PrimitiveDef::LongLong
    } else if same_text(name, "unsigned long long") || same_text(name, "long long unsigned int") {
        PrimitiveDef::UnsignedLongLong
    } else if same_text(name, "float") {
        PrimitiveDef::Float
    } else if same_text(name, "double") {
        PrimitiveDef::Double
    } else if same_text(name, "long double") {
        PrimitiveDef::LongDouble
    } else {
        PrimitiveDef::SizedInt { size, signed: true }
    }
}

/// Parse DW_TAG_base_type
fn parse_base_type(die: &Die) -> (r: PrimitiveDef)
    ensures
        r == primitive(
            die@.encoding(),
            number_or(die@.number(AT_BYTE_SIZE), 0),
            text_or_empty(die@.name()),
        ),
{
    let name: String = name_or_empty(die);
    let size: u64 = match die.get_byte_size() {
        Some(size) => size,
        None => 0,
    };
    let encoding: u8 = match die.get_encoding() {
        Some(encoding) => encoding,
        None => {
            return infer_primitive(name.as_str(), size);
        },
    };
    if encoding == ENCODING_BOOLEAN {
        PrimitiveDef::Bool
    } else if encoding == ENCODING_SIGNED_CHAR {
        PrimitiveDef::SignedChar
    } else if encoding == ENCODING_UNSIGNED_CHAR {
        PrimitiveDef::UnsignedChar
    } else if encoding == ENCODING_SIGNED {
        match size {
            1 => PrimitiveDef::SignedChar,
            2 => PrimitiveDef::Short,
            4 => PrimitiveDef::Int,
            8 => PrimitiveDef::LongLong,
            _ => PrimitiveDef::SizedInt { size, signed: true },
        }
    } else if encoding == ENCODING_UNSIGNED {
        match size {
            1 => PrimitiveDef::UnsignedChar,
            2 => PrimitiveDef::UnsignedShort,
            4 => PrimitiveDef::UnsignedInt,
            8 => PrimitiveDef::UnsignedLongLong,
            _ => PrimitiveDef::SizedInt { size, signed: false },
        }
    } else if encoding == ENCODING_FLOAT {
        match size {
            4 => PrimitiveDef::Float,
            8 => PrimitiveDef::Double,
            16 => PrimitiveDef::LongDouble,
            _ => PrimitiveDef::SizedFloat { size },
        }
    } else if encoding == ENCODING_UTF {
        PrimitiveDef::UnicodeChar { size }
    } else {
        infer_primitive(name.as_str(), size)
    }
}

/// Parse DW_TAG_subroutine_type; parameters are left out.
fn parse_subroutine_type(t: &mut TypeTable, die: &Die, unit_index: usize, key: DwarfTypeKey)
    requires
        model_of(old(t)@).closed_keys(),
    ensures
        model_of(final(t)@) == (match die@.type_key(unit_index) {
            Some(to) => {
                let (after, id) = model_of(old(t)@).keyed(to.dwarf_key());
                after.inserting(
                    key,
                    DefView::Subroutine { return_type: Some(id), params: Seq::empty() },
                )
            },
            None => model_of(old(t)@).inserting(
                key,
                DefView::Subroutine { return_type: None, params: Seq::empty() },
            ),
        }),
        grown(old(t)@, final(t)@),
{
    let return_type = match die.get_type_ref_key(unit_index) {
        Some(to) => Some(type_for(t, to.to_dwarf_key())),
        None => None,
    };
    let params: Vec<TypeId> = Vec::new();
    assert(params@ =~= Seq::<TypeId>::empty());
    insert_type(t, key, TypeDef::Subroutine { return_type, params });
}

/// Whether entries with this tag define types.
pub fn tag_defines_type(tag: u16) -> (r: bool)
    ensures
        r == defines_type(tag),
{
    tag == TAG_BASE_TYPE || tag == TAG_POINTER_TYPE || tag == TAG_REFERENCE_TYPE || tag
        == TAG_RVALUE_REFERENCE_TYPE || tag == TAG_CONST_TYPE || tag == TAG_VOLATILE_TYPE || tag
        == TAG_RESTRICT_TYPE || tag == TAG_TYPEDEF || tag == TAG_ARRAY_TYPE || tag
        == TAG_STRUCTURE_TYPE || tag == TAG_CLASS_TYPE || tag == TAG_UNION_TYPE || tag
        == TAG_ENUMERATION_TYPE || tag == TAG_SUBROUTINE_TYPE || tag == TAG_UNSPECIFIED_TYPE
}

/// Reads the type that entry `i` defines.
pub(crate) fn parse_type(t: &mut TypeTable, dies: &Vec<Die>, unit_index: usize, i: usize)
    requires
        model_of(old(t)@).closed_keys(),
        i < dies@.len(),
    ensures
        model_of(final(t)@) == type_defined(
            model_of(old(t)@),
            dies_of(dies@),
            unit_index,
            i as int,
        ),
        grown(old(t)@, final(t)@),
{
    let ghost views = dies_of(dies@);
    assert(views[i as int] == dies@[i as int]@);
    let die = &dies[i];
    let key = DwarfTypeKey::new(unit_index, die.offset);
    let tag: u16 = die.tag;
    if tag == TAG_BASE_TYPE {
        insert_type(t, key, TypeDef::Primitive(parse_base_type(die)));
    } else if tag == TAG_STRUCTURE_TYPE || tag == TAG_CLASS_TYPE || tag == TAG_UNION_TYPE {
        parse_struct_type(t, dies, unit_index, i);
    } else if tag == TAG_ENUMERATION_TYPE {
        parse_enum_type(t, dies, unit_index, i);
    } else if tag == TAG_SUBROUTINE_TYPE {
        parse_subroutine_type(t, die, unit_index, key);
    } else if tag == TAG_UNSPECIFIED_TYPE {
        // Usually represents void
        insert_type(t, key, TypeDef::Void);
    } else if tag_defines_type(tag) {
        let to = referred_type(t, die.get_type_ref_key(unit_index));
        if tag == TAG_POINTER_TYPE {
            insert_type(t, key, TypeDef::Pointer(to));
        } else if tag == TAG_CONST_TYPE {
            insert_type(t, key, TypeDef::Const(to));
        } else if tag == TAG_VOLATILE_TYPE {
            insert_type(t, key, TypeDef::Volatile(to));
        } else if tag == TAG_RESTRICT_TYPE {
            insert_type(t, key, TypeDef::Restrict(to));
        } else if tag == TAG_TYPEDEF {
            insert_type(t, key, TypeDef::Typedef { name: name_or_empty(die), underlying: to });
        } else if tag == TAG_ARRAY_TYPE {
            insert_type(t, key, TypeDef::Array { element: to, count: get_array_count(dies, i) });
        } else {
            insert_type(t, key, TypeDef::Reference(to));
        }
    }
}

} // verus!
