//! What the names, the counts and the statuses of types and variables promise as a
//! whole.

use vstd::prelude::*;
use vstd::string::*;
use crate::search::{count, lemma_first};
use crate::text::{decimal, signed_decimal};
use crate::type_def::{
    discr_is, no_discr, shown_params, value_is, EnumDef, PrimitiveDef, StructDef, TemplateParam,
    TypeDef, TypeId, VariantPart,
};
use crate::type_table::{
    addable_in, def_in, expandable_at, ids_named, in_category, next_in, record_at, resolved,
    underlying_at, unresolved, Category, TableView, TypeTableStats,
};
use crate::variable_status::{DwarfDiagnostics, StatusView, VariableStatus};

verus! {

/// A number's name says its width as C does, and "unsigned" in front where it has no
/// sign.
pub proof fn lemma_numbers_are_named_as_in_c(size: u64)
    ensures
        PrimitiveDef::Bool.spec_name() == "bool"@,
        PrimitiveDef::Char.spec_name() == "char"@,
        (PrimitiveDef::UnicodeChar { size }).spec_name() == "char"@,
        PrimitiveDef::SignedChar.spec_name() == "signed char"@,
        PrimitiveDef::UnsignedChar.spec_name() == "unsigned "@ + PrimitiveDef::Char.spec_name(),
        PrimitiveDef::Short.spec_name() == "short"@,
        PrimitiveDef::UnsignedShort.spec_name() == "unsigned "@ + PrimitiveDef::Short.spec_name(),
        PrimitiveDef::Int.spec_name() == "int"@,
        PrimitiveDef::UnsignedInt.spec_name() == "unsigned "@ + PrimitiveDef::Int.spec_name(),
        PrimitiveDef::Long.spec_name() == "long"@,
        PrimitiveDef::UnsignedLong.spec_name() == "unsigned "@ + PrimitiveDef::Long.spec_name(),
        PrimitiveDef::LongLong.spec_name() == "long "@ + PrimitiveDef::Long.spec_name(),
        PrimitiveDef::UnsignedLongLong.spec_name() == "unsigned "@
            + PrimitiveDef::LongLong.spec_name(),
        PrimitiveDef::Float.spec_name() == "float"@,
        PrimitiveDef::Double.spec_name() == "double"@,
        PrimitiveDef::LongDouble.spec_name() == "long "@ + PrimitiveDef::Double.spec_name(),
        (PrimitiveDef::SizedInt { size, signed: true }).spec_name()
            == PrimitiveDef::Int.spec_name(),
        (PrimitiveDef::SizedInt { size, signed: false }).spec_name()
            == PrimitiveDef::UnsignedInt.spec_name(),
        (PrimitiveDef::SizedFloat { size }).spec_name() == PrimitiveDef::Float.spec_name(),
{
    reveal_strlit("unsigned ");
    reveal_strlit("char");
    reveal_strlit("unsigned char");
    reveal_strlit("short");
    reveal_strlit("unsigned short");
    reveal_strlit("int");
    reveal_strlit("unsigned int");
    reveal_strlit("long");
    reveal_strlit("long ");
    reveal_strlit("unsigned long");
    reveal_strlit("long long");
    reveal_strlit("unsigned long long");
    reveal_strlit("double");
    reveal_strlit("long double");
    assert("unsigned char"@ =~= "unsigned "@ + "char"@);
    assert("unsigned short"@ =~= "unsigned "@ + "short"@);
    assert("unsigned int"@ =~= "unsigned "@ + "int"@);
    assert("unsigned long"@ =~= "unsigned "@ + "long"@);
    assert("long long"@ =~= "long "@ + "long"@);
    assert("unsigned long long"@ =~= "unsigned "@ + "long long"@);
    assert("long double"@ =~= "long "@ + "double"@);
}

/// A type that stands for itself and has no name from its source is named after what
/// it is made of: a pointer, an array or a qualified type by the type inside, a record
/// or an enum by its own name.
pub proof fn lemma_types_are_named_after_their_parts(t: TableView, id: TypeId, depth: nat)
    requires
        depth < 20,
        next_in(t.types, id) is None,
        !t.source_names.contains_key(id.0),
        !t.rust.contains(id.0),
    ensures
        ({
            let name = t.name_at(id, depth);
            match def_in(t.types, id) {
                Some(TypeDef::Primitive(p)) => name == p.spec_name(),
                Some(TypeDef::Pointer(inner)) => name == t.name_at(inner, depth + 1).push('*'),
                Some(TypeDef::Reference(inner)) => name == t.name_at(inner, depth + 1).push('&'),
                Some(TypeDef::Array { element, count: Some(n) }) => name == t.name_at(
                    element,
                    depth + 1,
                ).push('[') + decimal(n as nat).push(']'),
                Some(TypeDef::Array { element, count: None }) => name == t.name_at(
                    element,
                    depth + 1,
                ).push('[').push(']'),
                Some(TypeDef::Struct(s)) => name == s.spec_display_name(),
                Some(TypeDef::Union(s)) => name == "union "@ + s.spec_display_name(),
                Some(TypeDef::Enum(e)) => (e.name matches Some(own) ==> name == own@) && (
                e.name is None ==> name == "<anonymous enum>"@),
                Some(TypeDef::Typedef { name: own, .. }) => name == own@,
                Some(TypeDef::Const(inner)) => name == "const "@ + t.name_at(inner, depth + 1),
                Some(TypeDef::Volatile(inner)) => name == "volatile "@ + t.name_at(
                    inner,
                    depth + 1,
                ),
                Some(TypeDef::Restrict(inner)) => name == "restrict "@ + t.name_at(
                    inner,
                    depth + 1,
                ),
                Some(TypeDef::Subroutine { return_type: Some(r), .. }) => name == t.name_at(
                    r,
                    depth + 1,
                ).push('(').push(')'),
                Some(TypeDef::Subroutine { return_type: None, .. }) => name == "void()"@,
                Some(TypeDef::Void) => name == "void"@,
                Some(TypeDef::Unknown { size }) => name == "unknown["@ + decimal(
                    size as nat,
                ).push(']'),
                Some(TypeDef::Placeholder) => name == "<placeholder>"@,
                _ => true,
            }
        }),
{
    reveal_strlit("*");
    reveal_strlit("&");
    reveal_strlit("[");
    reveal_strlit("]");
    reveal_strlit("[]");
    reveal_strlit("()");
    reveal_strlit("void");
    reveal_strlit("void()");
    lemma_stands_for_itself(t.types, id);
    let name = t.name_at(id, depth);
    match def_in(t.types, id) {
        Some(TypeDef::Pointer(inner)) => {
            assert(name =~= t.name_at(inner, depth + 1).push('*'));
        },
        Some(TypeDef::Reference(inner)) => {
            assert(name =~= t.name_at(inner, depth + 1).push('&'));
        },
        Some(TypeDef::Array { element, count: Some(n) }) => {
            assert(name =~= t.name_at(element, depth + 1).push('[') + decimal(n as nat).push(
                ']',
            ));
        },
        Some(TypeDef::Array { element, count: None }) => {
            assert(name =~= t.name_at(element, depth + 1).push('[').push(']'));
        },
        Some(TypeDef::Subroutine { return_type: Some(r), .. }) => {
            assert(name =~= t.name_at(r, depth + 1).push('(').push(')'));
        },
        Some(TypeDef::Subroutine { return_type: None, .. }) => {
            assert(name =~= "void()"@);
        },
        Some(TypeDef::Unknown { size }) => {
            assert(name =~= "unknown["@ + decimal(size as nat).push(']'));
        },
        _ => {},
    }
}

proof fn lemma_stands_for_itself(types: Seq<TypeDef>, id: TypeId)
    requires
        next_in(types, id) is None,
    ensures
        resolved(types, id) == id,
{
    reveal_with_fuel(crate::type_table::resolved_in, 2);
}

/// A type of a Rust unit is named as Rust writes it, and a name from the source comes
/// before any other.
pub proof fn lemma_rust_types_are_named_as_in_rust(t: TableView, id: TypeId, depth: nat)
    requires
        depth < 20,
        next_in(t.types, id) is None,
    ensures
        t.source_names.contains_key(id.0) ==> t.name_at(id, depth) == t.source_names[id.0],
        !t.source_names.contains_key(id.0) && t.rust.contains(id.0) ==> ({
            let name = t.name_at(id, depth);
            match def_in(t.types, id) {
                Some(TypeDef::Array { element, count: Some(n) }) => name == seq!['[']
                    + t.name_at(element, depth + 1) + "; "@ + decimal(n as nat) + seq![']'],
                Some(TypeDef::Array { element, count: None }) => name == seq!['['] + t.name_at(
                    element,
                    depth + 1,
                ) + seq![']'],
                Some(TypeDef::Pointer(inner)) => name == "*const "@ + t.name_at(inner, depth + 1),
                Some(TypeDef::Struct(s)) => s.name matches Some(own) ==> name == own@,
                Some(TypeDef::Union(s)) => s.name matches Some(own) ==> name == own@,
                Some(TypeDef::Void) => name == "()"@,
                _ => true,
            }
        }),
{
    reveal_strlit("[");
    reveal_strlit("]");
    assert("["@ =~= seq!['[']);
    assert("]"@ =~= seq![']']);
    lemma_stands_for_itself(t.types, id);
    reveal_with_fuel(TableView::rust_name_at, 2);
    reveal_with_fuel(TableView::name_at, 2);
}

/// A record's name carries its template's arguments in their order, unless the name
/// says them already.
pub proof fn lemma_records_are_named_with_their_arguments(s: StructDef)
    ensures
        s.template_params@.len() == 0 && s.name is Some ==> s.spec_display_name() == s.name->0@,
        s.template_params@.len() == 0 && s.name is None ==> s.spec_display_name()
            == "<anonymous>"@,
        s.template_params@.len() > 0 && s.name is Some && !s.name->0@.contains('<')
            ==> s.spec_display_name() == s.name->0@.push('<') + shown_params(
            s.template_params@,
        ).push('>'),
        s.name is Some && s.name->0@.contains('<') ==> s.spec_display_name() == s.name->0@,
{
    reveal_strlit("<");
    reveal_strlit(">");
    if s.template_params@.len() > 0 && s.name is Some && !s.name->0@.contains('<') {
        assert(s.spec_display_name() =~= s.name->0@.push('<') + shown_params(
            s.template_params@,
        ).push('>'));
    }
}

/// A template's arguments stand one behind another: a type by its name, a value by
/// its number.
pub proof fn lemma_arguments_stand_in_order(params: Seq<TemplateParam>, more: TemplateParam)
    ensures
        shown_params(seq![more]) == more.shown(),
        params.len() > 0 ==> shown_params(params.push(more)) == shown_params(params) + ", "@
            + more.shown(),
        more matches TemplateParam::Type { name, .. } ==> more.shown() == name@,
        more matches TemplateParam::Value { value, .. } ==> more.shown() == signed_decimal(
            value as int,
        ),
{
    assert(params.push(more).drop_last() =~= params);
}

/// A value of an enum is shown by the name of the enumerator that has it, behind the
/// enum's own name where it is scoped, and by its number where none has it.
pub proof fn lemma_enumerators_are_shown_by_name(e: EnumDef, value: i64, i: int)
    requires
        0 <= i < e.variants@.len(),
        forall|j: int, k: int|
            0 <= j < k < e.variants@.len() ==> (#[trigger] e.variants@[j]).value != (
            #[trigger] e.variants@[k]).value,
    ensures
        !e.is_scoped ==> e.shown_value(e.variants@[i].value) == e.variants@[i].name@,
        e.is_scoped && e.name is Some ==> e.shown_value(e.variants@[i].value) == e.name->0@
            + "::"@ + e.variants@[i].name@,
        (forall|k: int| 0 <= k < e.variants@.len() ==> (#[trigger] e.variants@[k]).value != value)
            ==> e.shown_value(value) == signed_decimal(value as int),
{
    crate::search::lemma_first_is(e.variants@, value_is(e.variants@[i].value), i);
    if forall|k: int| 0 <= k < e.variants@.len() ==> (#[trigger] e.variants@[k]).value != value {
        crate::search::lemma_first_none(e.variants@, value_is(value));
    }
}

/// A discriminant selects a variant that has it; where none has, one that has none.
pub proof fn lemma_discriminants_select(part: VariantPart, discr: u64, i: int)
    requires
        0 <= i < part.variants@.len(),
    ensures
        part.spec_select(discr) matches Some(k) ==> 0 <= k < part.variants@.len() && (
        part.variants@[k].discr_value == Some(discr) || part.variants@[k].discr_value is None),
        part.variants@[i].discr_value == Some(discr) ==> (part.spec_select(discr) matches Some(k)
            && k <= i && part.variants@[k].discr_value == Some(discr)),
        part.variants@[i].discr_value is None ==> part.spec_select(discr) is Some,
{
    lemma_first(part.variants@, discr_is(discr));
    lemma_first(part.variants@, no_discr());
    assert(discr_is(discr)(part.variants@[i]) == (part.variants@[i].discr_value == Some(discr)));
    assert(no_discr()(part.variants@[i]) == (part.variants@[i].discr_value is None));
}

/// One more definition is counted once in the total and once under what it is.
pub proof fn lemma_definitions_are_counted_by_what_they_are(
    types: Seq<TypeDef>,
    def: TypeDef,
    before: TypeTableStats,
    after: TypeTableStats,
)
    requires
        before.counts(types),
        after.counts(types.push(def)),
    ensures
        after.total_types == before.total_types + 1,
        after.primitives - before.primitives == (if def is Primitive { 1int } else { 0 }),
        after.pointers - before.pointers == (if def is Pointer { 1int } else { 0 }),
        after.references - before.references == (if def is Reference { 1int } else { 0 }),
        after.arrays - before.arrays == (if def is Array { 1int } else { 0 }),
        after.structs - before.structs == (if def is Struct { 1int } else { 0 }),
        after.unions - before.unions == (if def is Union { 1int } else { 0 }),
        after.enums - before.enums == (if def is Enum { 1int } else { 0 }),
        after.typedefs - before.typedefs == (if def is Typedef { 1int } else { 0 }),
        after.qualifiers - before.qualifiers == (if def is Const || def is Volatile
            || def is Restrict { 1int } else { 0 }),
        after.subroutines - before.subroutines == (if def is Subroutine { 1int } else { 0 }),
        after.voids - before.voids == (if def is Void { 1int } else { 0 }),
        after.unknowns - before.unknowns == (if def is Unknown { 1int } else { 0 }),
        after.forward_decls - before.forward_decls == (if def is ForwardDecl { 1int } else { 0 }),
        after.unresolved_forward_decls - before.unresolved_forward_decls == (
        if def matches TypeDef::ForwardDecl { target: None, .. } { 1int } else { 0 }),
        after.placeholders - before.placeholders == (if def is Placeholder { 1int } else { 0 }),
{
    let all = types.push(def);
    assert(all.drop_last() =~= types);
    assert(all.last() == def);
    assert forall|p: spec_fn(TypeDef) -> bool| #[trigger] count(all, p) == count(types, p) + (
    if p(def) { 1nat } else { 0nat }) by {}
    assert(in_category(Category::Primitive)(def) == (def is Primitive));
    assert(in_category(Category::Pointer)(def) == (def is Pointer));
    assert(in_category(Category::Reference)(def) == (def is Reference));
    assert(in_category(Category::Array)(def) == (def is Array));
    assert(in_category(Category::Struct)(def) == (def is Struct));
    assert(in_category(Category::Union)(def) == (def is Union));
    assert(in_category(Category::Enum)(def) == (def is Enum));
    assert(in_category(Category::Typedef)(def) == (def is Typedef));
    assert(unresolved()(def) == (def matches TypeDef::ForwardDecl { target: None, .. }));
}

/// A table of no definitions counts none.
pub proof fn lemma_nothing_is_counted_as_nothing(s: TypeTableStats)
    requires
        s.counts(Seq::empty()),
    ensures
        s.total_types == 0,
        s.primitives + s.pointers + s.references + s.arrays + s.structs + s.unions + s.enums
            + s.typedefs + s.qualifiers + s.subroutines + s.voids + s.unknowns + s.forward_decls
            + s.unresolved_forward_decls + s.placeholders == 0,
{
}

/// A name leads to every type that was given it, in the order in which they got it.
pub proof fn lemma_names_are_listed_in_order(
    names: Seq<(Seq<char>, TypeId)>,
    own: Seq<char>,
    id: TypeId,
    name: Seq<char>,
)
    ensures
        ids_named(Seq::empty(), name).len() == 0,
        ids_named(names.push((own, id)), name) == (if own == name {
            ids_named(names, name).push(id)
        } else {
            ids_named(names, name)
        }),
{
    assert(names.push((own, id)).drop_last() =~= names);
}

/// A type that is defined is found under its id, keeps every other, and is listed
/// under its name, but for a declaration, which waits to be resolved.
pub proof fn lemma_definitions_take_their_place(t: TableView, id: TypeId, def: TypeDef, k: int)
    requires
        id.0 < t.types.len(),
        id.0 != u32::MAX,
        0 <= k < t.types.len(),
    ensures
        ({
            let after = t.defining(id, def);
            &&& def_in(after.types, id) == Some(def)
            &&& k != id.0 ==> after.types[k] == t.types[k]
            &&& after.types.len() == t.types.len()
            &&& after.keys == t.keys
            &&& after.rust == t.rust
            &&& after.source_names == t.source_names
            &&& def is ForwardDecl ==> after.pending == t.pending.push(id) && after.names
                == t.names
            &&& def !is ForwardDecl ==> after.pending == t.pending
            &&& def matches TypeDef::Struct(s) ==> (s.name matches Some(name) ==> after.names
                == t.names.push((name@, id))) && (s.name is None ==> after.names == t.names)
            &&& def matches TypeDef::Union(s) ==> (s.name matches Some(name) ==> after.names
                == t.names.push((name@, id))) && (s.name is None ==> after.names == t.names)
            &&& def matches TypeDef::Enum(e) ==> (e.name matches Some(name) ==> after.names
                == t.names.push((name@, id))) && (e.name is None ==> after.names == t.names)
            &&& def matches TypeDef::Typedef { name, .. } ==> after.names == t.names.push(
                (name@, id),
            )
            &&& def matches TypeDef::Primitive(p) ==> after.names == t.names.push(
                (p.spec_name(), id),
            )
            &&& def is Pointer || def is Array || def is Const || def is Void ==> after.names
                == t.names
        }),
{
}

/// A variable is counted under its own status and no other.
pub proof fn lemma_statuses_are_counted_apart(d: DwarfDiagnostics, s: StatusView)
    requires
        d.at_most(usize::MAX - 1),
    ensures
        ({
            let r = d.recording(s);
            &&& r.total_variables == d.total_variables + 1
            &&& r.with_valid_address - d.with_valid_address == (if s is Valid { 1int } else { 0 })
            &&& r.optimized_out - d.optimized_out == (if s is OptimizedOut { 1int } else { 0 })
            &&& r.local_variables - d.local_variables == (if s is LocalVariable { 1int } else { 0 })
            &&& r.extern_declarations - d.extern_declarations == (
            if s is ExternDeclaration { 1int } else { 0 })
            &&& r.compile_time_constants - d.compile_time_constants == (
            if s is CompileTimeConstant { 1int } else { 0 })
            &&& r.no_location - d.no_location == (if s is NoLocation { 1int } else { 0 })
            &&& r.unresolved_types - d.unresolved_types == (
            if s is UnresolvedType { 1int } else { 0 })
            &&& r.address_zero - d.address_zero == (if s is AddressZero { 1int } else { 0 })
            &&& r.register_only - d.register_only == (if s is RegisterOnly { 1int } else { 0 })
            &&& r.implicit_value - d.implicit_value == (if s is ImplicitValue { 1int } else { 0 })
            &&& r.implicit_pointer - d.implicit_pointer == (
            if s is ImplicitPointer { 1int } else { 0 })
            &&& r.multi_piece - d.multi_piece == (if s is MultiPiece { 1int } else { 0 })
            &&& r.artificial - d.artificial == (if s is Artificial { 1int } else { 0 })
        }),
{
}

/// What is counted is told in the summary under the same heading.
pub proof fn lemma_summaries_keep_their_headings(d: DwarfDiagnostics)
    ensures
        ({
            let s = crate::browse::summarized(d);
            &&& s.total_variables == d.total_variables
            &&& s.with_valid_address == d.with_valid_address
            &&& s.optimized_out == d.optimized_out
            &&& s.local_variables == d.local_variables
            &&& s.extern_declarations == d.extern_declarations
            &&& s.compile_time_constants == d.compile_time_constants
            &&& s.register_only == d.register_only
        }),
{
}

/// A variable can be read where it has an address: the one it was found at, or 0
/// where only that much is known.
pub proof fn lemma_readable_variables_have_an_address(s: VariableStatus)
    ensures
        s.spec_is_readable() <==> s.spec_address() is Some,
        s.spec_address() == s@.address(),
        s matches VariableStatus::Valid { address } ==> s.spec_address() == Some(address),
        s is AddressZero ==> s.spec_address() == Some(0u64),
        s matches VariableStatus::MultiPiece { has_address } ==> s.spec_is_readable()
            == has_address,
        s is OptimizedOut || s is LocalVariable || s is ExternDeclaration
            || s is CompileTimeConstant || s is UnresolvedType || s is NoLocation
            || s is RegisterOnly || s is ImplicitValue || s is ImplicitPointer || s is Artificial
            ==> !s.spec_is_readable(),
{
}

/// Why a variable cannot be read is told by its status, with what is known of it.
pub proof fn lemma_statuses_are_told(s: VariableStatus)
    ensures
        s is OptimizedOut ==> s.spec_reason() == "Optimized out by compiler"@,
        s is LocalVariable ==> s.spec_reason() == "Local variable (requires runtime context)"@,
        s is ExternDeclaration ==> s.spec_reason()
            == "External declaration (defined in another unit)"@,
        s is CompileTimeConstant ==> s.spec_reason()
            == "Compile-time constant (no runtime storage)"@,
        s is UnresolvedType ==> s.spec_reason() == "Type information unavailable"@,
        s is NoLocation ==> s.spec_reason() == "No location information in debug info"@,
        s is RegisterOnly ==> s.spec_reason() == "Value in register only (no memory address)"@,
        s is ImplicitValue ==> s.spec_reason() == "Implicit value (computed, no storage)"@,
        s is ImplicitPointer ==> s.spec_reason()
            == "Implicit pointer (points to optimized-out data)"@,
        s is Artificial ==> s.spec_reason() == "Compiler-generated variable"@,
        s is AddressZero ==> s.spec_reason()
            == "Address is 0 (may be valid on embedded targets)"@,
        s is Valid ==> s.spec_reason() == "Valid address"@,
        s matches VariableStatus::MultiPiece { has_address } ==> s.spec_reason() == (
        if has_address {
            "Split across locations (partial address)"@
        } else {
            "Split across registers/implicit values"@
        }),
        s matches VariableStatus::LocalVariable { reason } ==> s.spec_detailed_reason()
            == "Local variable: "@ + reason@,
        s matches VariableStatus::CompileTimeConstant { value: Some(v) }
            ==> s.spec_detailed_reason() == "Compile-time constant: value = "@ + signed_decimal(
            v as int,
        ),
        s matches VariableStatus::UnresolvedType { name: Some(name) }
            ==> s.spec_detailed_reason() == "Unresolved type: "@ + name@,
        s is OptimizedOut || s is ExternDeclaration || s is NoLocation || s is RegisterOnly
            || s is ImplicitValue || s is ImplicitPointer || s is MultiPiece || s is Artificial
            ==> s.spec_detailed_reason() == s.spec_reason(),
{
}

/// A value can be added to a view where it has a size of its own: a number, an enum, a
/// pointer, a record or an array; a name or a qualifier goes by the type behind it.
pub proof fn lemma_sized_values_can_be_added(types: Seq<TypeDef>, id: TypeId, n: nat)
    requires
        next_in(types, id) is None,
    ensures
        match def_in(types, id) {
            Some(TypeDef::Primitive(_)) => addable_in(types, id, n),
            Some(TypeDef::Enum(_)) => addable_in(types, id, n),
            Some(TypeDef::Pointer(_)) => addable_in(types, id, n),
            Some(TypeDef::Reference(_)) => addable_in(types, id, n),
            Some(TypeDef::Struct(_)) => addable_in(types, id, n),
            Some(TypeDef::Union(_)) => addable_in(types, id, n),
            Some(TypeDef::Array { .. }) => addable_in(types, id, n),
            Some(TypeDef::Unknown { size }) => addable_in(types, id, n) == (size > 0),
            Some(TypeDef::Typedef { underlying, .. }) => addable_in(types, id, n + 1)
                == addable_in(types, underlying, n),
            Some(TypeDef::Const(inner)) => addable_in(types, id, n + 1) == addable_in(
                types,
                inner,
                n,
            ),
            Some(TypeDef::Volatile(inner)) => addable_in(types, id, n + 1) == addable_in(
                types,
                inner,
                n,
            ),
            Some(TypeDef::Restrict(inner)) => addable_in(types, id, n + 1) == addable_in(
                types,
                inner,
                n,
            ),
            _ => !addable_in(types, id, n),
        },
{
    lemma_stands_for_itself(types, id);
}

/// A type opens where it has members, variants or elements; a pointer, a name or a
/// qualifier where the type behind it does.
pub proof fn lemma_types_with_parts_open(types: Seq<TypeDef>, id: TypeId, depth: nat)
    requires
        next_in(types, id) is None,
        depth < 20,
    ensures
        match def_in(types, id) {
            Some(TypeDef::Struct(s)) => expandable_at(types, id, depth) == (s.members@.len() > 0 || (
            s.variant_part is Some && s.variant_part->0.variants@.len() > 0)),
            Some(TypeDef::Union(s)) => expandable_at(types, id, depth) == (s.members@.len() > 0 || (
            s.variant_part is Some && s.variant_part->0.variants@.len() > 0)),
            Some(TypeDef::Array { count, .. }) => expandable_at(types, id, depth) == (count is Some
                && count->0 > 0),
            Some(TypeDef::Pointer(inner)) => expandable_at(types, id, depth) == expandable_at(
                types,
                inner,
                depth + 1,
            ),
            Some(TypeDef::Reference(inner)) => expandable_at(types, id, depth) == expandable_at(
                types,
                inner,
                depth + 1,
            ),
            Some(TypeDef::Typedef { underlying, .. }) => expandable_at(types, id, depth)
                == expandable_at(types, underlying, depth + 1),
            Some(TypeDef::Const(inner)) => expandable_at(types, id, depth) == expandable_at(
                types,
                inner,
                depth + 1,
            ),
            Some(TypeDef::Volatile(inner)) => expandable_at(types, id, depth) == expandable_at(
                types,
                inner,
                depth + 1,
            ),
            Some(TypeDef::Restrict(inner)) => expandable_at(types, id, depth) == expandable_at(
                types,
                inner,
                depth + 1,
            ),
            _ => !expandable_at(types, id, depth),
        },
{
    lemma_stands_for_itself(types, id);
}

/// Members are those of the record behind a type's names and qualifiers, and a type
/// behind them is not itself a name or a qualifier.
pub proof fn lemma_members_are_those_of_the_record(types: Seq<TypeDef>, id: TypeId, depth: nat)
    requires
        next_in(types, id) is None,
        depth < 20,
    ensures
        match def_in(types, id) {
            Some(TypeDef::Struct(s)) => record_at(types, id, depth) == Some(s),
            Some(TypeDef::Union(s)) => record_at(types, id, depth) == Some(s),
            Some(TypeDef::Typedef { underlying, .. }) => record_at(types, id, depth) == record_at(
                types,
                underlying,
                depth + 1,
            ) && underlying_at(types, id, depth) == underlying_at(types, underlying, depth + 1),
            Some(TypeDef::Const(inner)) => record_at(types, id, depth) == record_at(
                types,
                inner,
                depth + 1,
            ) && underlying_at(types, id, depth) == underlying_at(types, inner, depth + 1),
            Some(TypeDef::Volatile(inner)) => record_at(types, id, depth) == record_at(
                types,
                inner,
                depth + 1,
            ) && underlying_at(types, id, depth) == underlying_at(types, inner, depth + 1),
            Some(TypeDef::Restrict(inner)) => record_at(types, id, depth) == record_at(
                types,
                inner,
                depth + 1,
            ) && underlying_at(types, id, depth) == underlying_at(types, inner, depth + 1),
            _ => record_at(types, id, depth) is None && underlying_at(types, id, depth) == id,
        },
        def_in(types, id) is Some && (def_in(types, id)->0 is Struct || def_in(types, id)->0
            is Union) ==> underlying_at(types, id, depth) == id,
{
    lemma_stands_for_itself(types, id);
}

} // verus!
