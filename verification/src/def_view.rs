//! What type definitions say, apart from how they are stored, and a type table
//! seen that way.

use vstd::prelude::*;
use vstd::string::*;
use crate::type_def::{
    BaseClassDef, DwarfTypeKey, EnumDef, EnumVariant, ForwardDeclKind, MemberDef, PrimitiveDef,
    SourceLocation, StructDef, TemplateParam, TypeDef, TypeId, VariantDef, VariantPart,
};
#[allow(unused_imports)]
use crate::type_table::{
    def_in, layer, next_in, record_at, resolved, resolved_in, TableView, MAX_DEPTH,
};

verus! {

/// The text of an optional string.
pub open spec fn text_of(s: Option<String>) -> Option<Seq<char>> {
    match s {
        Some(s) => Some(s@),
        None => None,
    }
}

/// A member of a struct or union.
#[verifier::ext_equal]
pub struct MemberView {
    pub name: Seq<char>,
    pub offset: u64,
    pub type_id: TypeId,
    pub bit_offset: Option<u64>,
    pub bit_size: Option<u64>,
}

impl View for MemberDef {
    type V = MemberView;

    open spec fn view(&self) -> MemberView {
        MemberView {
            name: self.name@,
            offset: self.offset,
            type_id: self.type_id,
            bit_offset: self.bit_offset,
            bit_size: self.bit_size,
        }
    }
}

/// A place in a source file.
#[verifier::ext_equal]
pub struct LocationView {
    pub file: Seq<char>,
    pub line: u64,
}

impl View for SourceLocation {
    type V = LocationView;

    open spec fn view(&self) -> LocationView {
        LocationView { file: self.file@, line: self.line }
    }
}

/// A variant of an enum with data.
#[verifier::ext_equal]
pub struct VariantView {
    pub discr_value: Option<u64>,
    pub member: MemberView,
    pub location: Option<LocationView>,
}

/// An optional place in a source file.
pub open spec fn location_of(l: Option<SourceLocation>) -> Option<LocationView> {
    match l {
        Some(l) => Some(l@),
        None => None,
    }
}

impl View for VariantDef {
    type V = VariantView;

    open spec fn view(&self) -> VariantView {
        VariantView {
            discr_value: self.discr_value,
            member: self.member@,
            location: location_of(self.location),
        }
    }
}

/// The variants of an enum with data, and what tells them apart.
#[verifier::ext_equal]
pub struct PartView {
    pub discriminant: Option<MemberView>,
    pub variants: Seq<VariantView>,
}

impl View for VariantPart {
    type V = PartView;

    open spec fn view(&self) -> PartView {
        PartView {
            discriminant: match self.discriminant {
                Some(m) => Some(m@),
                None => None,
            },
            variants: self.variants@.map_values(|v: VariantDef| v@),
        }
    }
}

/// A template parameter.
#[verifier::ext_equal]
pub enum ParamView {
    Type { name: Seq<char>, type_id: TypeId },
    Value { name: Seq<char>, value: i64 },
}

impl View for TemplateParam {
    type V = ParamView;

    open spec fn view(&self) -> ParamView {
        match self {
            TemplateParam::Type { name, type_id } => ParamView::Type {
                name: name@,
                type_id: *type_id,
            },
            TemplateParam::Value { name, value } => ParamView::Value { name: name@, value: *value },
        }
    }
}

/// A struct, class or union.
#[verifier::ext_equal]
pub struct RecordView {
    pub name: Option<Seq<char>>,
    pub size: u64,
    pub members: Seq<MemberView>,
    pub is_class: bool,
    pub template_params: Seq<ParamView>,
    pub base_classes: Seq<BaseClassDef>,
    pub variant_part: Option<PartView>,
}

impl View for StructDef {
    type V = RecordView;

    open spec fn view(&self) -> RecordView {
        RecordView {
            name: text_of(self.name),
            size: self.size,
            members: self.members@.map_values(|m: MemberDef| m@),
            is_class: self.is_class,
            template_params: self.template_params@.map_values(|p: TemplateParam| p@),
            base_classes: self.base_classes@,
            variant_part: match self.variant_part {
                Some(part) => Some(part@),
                None => None,
            },
        }
    }
}

/// An enumeration.
#[verifier::ext_equal]
pub struct EnumView {
    pub name: Option<Seq<char>>,
    pub size: u64,
    pub variants: Seq<(Seq<char>, i64)>,
    pub is_scoped: bool,
    pub underlying_type: Option<TypeId>,
}

impl View for EnumDef {
    type V = EnumView;

    open spec fn view(&self) -> EnumView {
        EnumView {
            name: text_of(self.name),
            size: self.size,
            variants: self.variants@.map_values(|v: EnumVariant| (v.name@, v.value)),
            is_scoped: self.is_scoped,
            underlying_type: self.underlying_type,
        }
    }
}

/// A type definition.
#[verifier::ext_equal]
pub enum DefView {
    Primitive(PrimitiveDef),
    Pointer(TypeId),
    Reference(TypeId),
    Array { element: TypeId, count: Option<u64> },
    Struct(RecordView),
    Union(RecordView),
    Enum(EnumView),
    Typedef { name: Seq<char>, underlying: TypeId },
    Const(TypeId),
    Volatile(TypeId),
    Restrict(TypeId),
    Subroutine { return_type: Option<TypeId>, params: Seq<TypeId> },
    Void,
    Unknown { size: u64 },
    ForwardDecl { name: Seq<char>, kind: ForwardDeclKind, target: Option<TypeId> },
    Placeholder,
}

impl View for TypeDef {
    type V = DefView;

    open spec fn view(&self) -> DefView {
        match self {
            TypeDef::Primitive(p) => DefView::Primitive(*p),
            TypeDef::Pointer(id) => DefView::Pointer(*id),
            TypeDef::Reference(id) => DefView::Reference(*id),
            TypeDef::Array { element, count } => DefView::Array {
                element: *element,
                count: *count,
            },
            TypeDef::Struct(s) => DefView::Struct(s@),
            TypeDef::Union(s) => DefView::Union(s@),
            TypeDef::Enum(e) => DefView::Enum(e@),
            TypeDef::Typedef { name, underlying } => DefView::Typedef {
                name: name@,
                underlying: *underlying,
            },
            TypeDef::Const(id) => DefView::Const(*id),
            TypeDef::Volatile(id) => DefView::Volatile(*id),
            TypeDef::Restrict(id) => DefView::Restrict(*id),
            TypeDef::Subroutine { return_type, params } => DefView::Subroutine {
                return_type: *return_type,
                params: params@,
            },
            TypeDef::Void => DefView::Void,
            TypeDef::Unknown { size } => DefView::Unknown { size: *size },
            TypeDef::ForwardDecl { name, kind, target } => DefView::ForwardDecl {
                name: name@,
                kind: *kind,
                target: *target,
            },
            TypeDef::Placeholder => DefView::Placeholder,
        }
    }
}

impl DefView {
    /// The name of this type if it has one.
    pub open spec fn name(self) -> Option<Seq<char>> {
        match self {
            DefView::Struct(s) => s.name,
            DefView::Union(s) => s.name,
            DefView::Enum(e) => e.name,
            DefView::Typedef { name, .. } => Some(name),
            DefView::ForwardDecl { name, .. } => Some(name),
            DefView::Primitive(p) => Some(p.spec_name()),
            _ => None,
        }
    }

    /// What a typedef, a qualifier or a resolved forward declaration stands for.
    pub open spec fn layer(self) -> Option<TypeId> {
        match self {
            DefView::Typedef { underlying, .. } => Some(underlying),
            DefView::Const(inner) => Some(inner),
            DefView::Volatile(inner) => Some(inner),
            DefView::Restrict(inner) => Some(inner),
            DefView::ForwardDecl { target, .. } => target,
            _ => None,
        }
    }

    /// The struct or union that this definition is.
    pub open spec fn record(self) -> Option<RecordView> {
        match self {
            DefView::Struct(s) => Some(s),
            DefView::Union(s) => Some(s),
            _ => None,
        }
    }

    /// This struct or union with other members.
    pub open spec fn with_members(self, members: Seq<MemberView>) -> DefView {
        match self {
            DefView::Struct(s) => DefView::Struct(RecordView { members, ..s }),
            DefView::Union(s) => DefView::Union(RecordView { members, ..s }),
            _ => self,
        }
    }
}

/// What a sequence of definitions says.
pub open spec fn defs_of(types: Seq<TypeDef>) -> Seq<DefView> {
    types.map_values(|d: TypeDef| d@)
}

/// What a type table says.
#[verifier::ext_equal]
pub struct TableModel {
    /// All type definitions, indexed by TypeId
    pub types: Seq<DefView>,
    /// The types of DWARF entries
    pub keys: Map<DwarfTypeKey, TypeId>,
    /// Every named definition, in the order they were made
    pub names: Seq<(Seq<char>, TypeId)>,
    /// Forward declarations that need resolution
    pub pending: Seq<TypeId>,
    /// Types declared in Rust compile units
    pub rust: Set<u32>,
    /// Compiler-provided names
    pub source_names: Map<u32, Seq<char>>,
}

/// What this table says.
pub open spec fn model_of(t: TableView) -> TableModel {
    TableModel {
        types: defs_of(t.types),
        keys: t.keys,
        names: t.names,
        pending: t.pending,
        rust: t.rust,
        source_names: t.source_names,
    }
}

/// A table without types.
pub open spec fn empty_model() -> TableModel {
    TableModel {
        types: Seq::empty(),
        keys: Map::empty(),
        names: Seq::empty(),
        pending: Seq::empty(),
        rust: Set::empty(),
        source_names: Map::empty(),
    }
}

impl TableModel {
    /// Whether every key's type is in the table.
    pub open spec fn closed_keys(self) -> bool {
        forall|k: DwarfTypeKey| #[trigger]
            self.keys.contains_key(k) ==> self.keys[k].0 < self.types.len()
    }

    /// The id the next type gets.
    pub open spec fn next_id(self) -> TypeId {
        TypeId(self.types.len() as u32)
    }

    /// The table in which `key` has a type, and that type.
    pub open spec fn keyed(self, key: DwarfTypeKey) -> (TableModel, TypeId) {
        if self.keys.contains_key(key) {
            (self, self.keys[key])
        } else {
            (
                TableModel {
                    keys: self.keys.insert(key, self.next_id()),
                    types: self.types.push(DefView::Placeholder),
                    ..self
                },
                self.next_id(),
            )
        }
    }

    /// The table with one more definition at `id`.
    pub open spec fn defining(self, id: TypeId, def: DefView) -> TableModel {
        TableModel {
            types: self.types.update(id.0 as int, def),
            pending: if def is ForwardDecl {
                self.pending.push(id)
            } else {
                self.pending
            },
            names: if def !is ForwardDecl && def.name() is Some {
                self.names.push((def.name()->0, id))
            } else {
                self.names
            },
            ..self
        }
    }

    /// The table in which `key` stands for this definition.
    pub open spec fn inserting(self, key: DwarfTypeKey, def: DefView) -> TableModel {
        let (t, id) = self.keyed(key);
        t.defining(id, def)
    }

    /// The table in which `key` stands for the type of `from`, where that has
    /// one and `key` has none.
    pub open spec fn aliasing(self, key: DwarfTypeKey, from: DwarfTypeKey) -> TableModel {
        if self.keys.contains_key(from) && !self.keys.contains_key(key) {
            TableModel { keys: self.keys.insert(key, self.keys[from]), ..self }
        } else {
            self
        }
    }
}

/// Defining a type says the same of a table and of what it says.
pub proof fn lemma_defining(t: TableView, id: TypeId, def: TypeDef)
    requires
        id.0 < t.types.len(),
    ensures
        model_of(t.defining(id, def)) == model_of(t).defining(id, def@),
{
    assert(def.spec_name() == def@.name());
    assert(model_of(t.defining(id, def)) =~= model_of(t).defining(id, def@));
}

/// Giving a key a type says the same of a table and of what it says.
pub proof fn lemma_keyed(t: TableView, key: DwarfTypeKey)
    ensures
        model_of(t.keyed(key).0) == model_of(t).keyed(key).0,
        t.keyed(key).1 == model_of(t).keyed(key).1,
{
    assert(model_of(t.keyed(key).0) =~= model_of(t).keyed(key).0);
}

/// The definition with this id.
pub open spec fn view_in(types: Seq<DefView>, id: TypeId) -> Option<DefView> {
    if id.spec_is_valid() && id.0 < types.len() {
        Some(types[id.0 as int])
    } else {
        None
    }
}

/// The id after following at most `n` resolved forward declarations.
pub open spec fn followed(types: Seq<DefView>, id: TypeId, n: nat) -> TypeId
    decreases n,
{
    match view_in(types, id) {
        Some(DefView::ForwardDecl { target: Some(target), .. }) => if n == 0 {
            id
        } else {
            followed(types, target, (n - 1) as nat)
        },
        _ => id,
    }
}

/// The struct or union whose members a type has, from this depth on.
pub open spec fn record_of(types: Seq<DefView>, id: TypeId, depth: nat) -> Option<RecordView>
    decreases MAX_DEPTH + 1 - depth,
{
    if depth > MAX_DEPTH {
        None
    } else {
        match view_in(types, followed(types, id, types.len())) {
            None => None,
            Some(def) => if def.record() is Some {
                def.record()
            } else {
                match def.layer() {
                    Some(inner) => record_of(types, inner, depth + 1),
                    None => None,
                }
            },
        }
    }
}

/// Following forward declarations leads to the same type.
pub proof fn lemma_followed(types: Seq<TypeDef>, id: TypeId, n: nat)
    ensures
        resolved_in(types, id, n) == followed(defs_of(types), id, n),
    decreases n,
{
    if n > 0 {
        if let Some(target) = next_in(types, id) {
            lemma_followed(types, target, (n - 1) as nat);
        }
    }
}

/// A type has the same members.
pub proof fn lemma_record_of(types: Seq<TypeDef>, id: TypeId, depth: nat)
    ensures
        record_of(defs_of(types), id, depth) == (match record_at(types, id, depth) {
            Some(s) => Some(s@),
            None => None,
        }),
    decreases MAX_DEPTH + 1 - depth,
{
    if depth <= MAX_DEPTH {
        lemma_followed(types, id, types.len());
        if let Some(def) = def_in(types, resolved(types, id)) {
            if let Some(inner) = layer(def) {
                lemma_record_of(types, inner, depth + 1);
            }
        }
    }
}

} // verus!
