//! Type definitions as debug info describes them. A definition refers to
//! others by [`TypeId`], their place in a [`crate::type_table::TypeTable`].

use vstd::prelude::*;
use vstd::string::*;
use crate::search::{first, lemma_first_is, lemma_first_none};
use crate::text::{has_char, push_decimal, push_signed};
#[allow(unused_imports)]
use crate::text::{decimal, signed_decimal};
use crate::variable_type::VariableType;

verus! {

/// A unique identifier for a type in the global type table: an index into it.
#[derive(Debug, Clone, Copy, PartialEq, Eq, Hash, Structural)]
pub struct TypeId(pub u32);

impl TypeId {
    /// The invalid/unresolved type ID
    pub fn invalid() -> (r: TypeId)
        ensures
            r == TypeId(u32::MAX),
            !r.spec_is_valid(),
    {
        TypeId(u32::MAX)
    }

    pub open spec fn spec_is_valid(self) -> bool {
        self.0 != u32::MAX
    }

    /// Check if this is a valid type ID
    pub fn is_valid(self) -> (r: bool)
        ensures
            r == self.spec_is_valid(),
    {
        self.0 != u32::MAX
    }

    /// How the id is shown.
    pub open spec fn shown(self) -> Seq<char> {
        if self.spec_is_valid() {
            "TypeId("@ + decimal(self.0 as nat) + ")"@
        } else {
            "TypeId(INVALID)"@
        }
    }

    /// The id for a message.
    pub fn to_text(self) -> (r: String)
        ensures
            r@ == self.shown(),
    {
        if self.0 == u32::MAX {
            return "TypeId(INVALID)".to_owned();
        }
        let mut out: String = "TypeId(".to_owned();
        push_decimal(&mut out, self.0 as u64);
        out.append(")");
        out
    }
}

impl Default for TypeId {
    fn default() -> (r: Self)
        ensures
            r == TypeId(0),
    {
        TypeId(0)
    }
}

/// Key for mapping DWARF DIE locations to TypeIds
#[derive(Debug, Clone, Copy, PartialEq, Eq, Hash, Structural)]
pub struct DwarfTypeKey {
    pub unit_index: usize,
    pub offset: usize,
}

impl DwarfTypeKey {
    pub fn new(unit_index: usize, offset: usize) -> (r: Self)
        ensures
            r == (DwarfTypeKey { unit_index, offset }),
    {
        DwarfTypeKey { unit_index, offset }
    }
}

/// A unified key that can represent either a unit-local or global DWARF type
/// reference. ARM compilers often use DW_FORM_ref_addr (global offsets) instead
/// of DW_FORM_ref* (unit-local).
#[derive(Debug, Clone, Copy, PartialEq, Eq, Hash, Structural)]
pub enum GlobalTypeKey {
    /// Unit-local reference (unit_index + local offset within the unit)
    UnitLocal(DwarfTypeKey),
    /// Global reference (absolute offset in .debug_info section)
    Global(usize),
}

impl GlobalTypeKey {
    /// Create a unit-local key
    pub fn unit_local(unit_index: usize, offset: usize) -> (r: Self)
        ensures
            r == GlobalTypeKey::UnitLocal(DwarfTypeKey { unit_index, offset }),
    {
        GlobalTypeKey::UnitLocal(DwarfTypeKey::new(unit_index, offset))
    }

    /// Create a global key from an absolute .debug_info offset
    pub fn global(offset: usize) -> (r: Self)
        ensures
            r == GlobalTypeKey::Global(offset),
    {
        GlobalTypeKey::Global(offset)
    }

    pub open spec fn dwarf_key(self) -> DwarfTypeKey {
        match self {
            GlobalTypeKey::UnitLocal(key) => key,
            GlobalTypeKey::Global(offset) => DwarfTypeKey { unit_index: usize::MAX, offset },
        }
    }

    /// The key in the one key space both kinds share: global keys use a
    /// sentinel unit_index of usize::MAX.
    pub fn to_dwarf_key(&self) -> (r: DwarfTypeKey)
        ensures
            r == self.dwarf_key(),
    {
        match self {
            GlobalTypeKey::UnitLocal(key) => *key,
            GlobalTypeKey::Global(offset) => DwarfTypeKey::new(usize::MAX, *offset),
        }
    }
}

impl From<DwarfTypeKey> for GlobalTypeKey {
    fn from(key: DwarfTypeKey) -> (r: Self) {
        GlobalTypeKey::UnitLocal(key)
    }
}

impl vstd::std_specs::convert::FromSpecImpl<DwarfTypeKey> for GlobalTypeKey {
    open spec fn obeys_from_spec() -> bool {
        true
    }

    open spec fn from_spec(key: DwarfTypeKey) -> Self {
        GlobalTypeKey::UnitLocal(key)
    }
}

/// Keys of different references never meet, as long as no unit takes the
/// sentinel's index.
pub proof fn lemma_keys_stay_apart(a: GlobalTypeKey, b: GlobalTypeKey)
    requires
        a matches GlobalTypeKey::UnitLocal(k) ==> k.unit_index != usize::MAX,
        b matches GlobalTypeKey::UnitLocal(k) ==> k.unit_index != usize::MAX,
    ensures
        a.dwarf_key() == b.dwarf_key() <==> a == b,
{
}

/// The kind of forward declaration
#[derive(Debug, Clone, Copy, PartialEq, Eq, Structural)]
pub enum ForwardDeclKind {
    Struct,
    Class,
    Union,
    Enum,
}

/// Primitive type definition
#[derive(Debug, Clone, Copy, PartialEq, Eq, Structural)]
pub enum PrimitiveDef {
    Bool,
    Char,
    /// Unicode code unit; unlike C char, its DWARF byte size is significant.
    UnicodeChar { size: u64 },
    SignedChar,
    UnsignedChar,
    Short,
    UnsignedShort,
    Int,
    UnsignedInt,
    Long,
    UnsignedLong,
    LongLong,
    UnsignedLongLong,
    Float,
    Double,
    LongDouble,
    /// Sized integer (for unusual sizes)
    SizedInt { size: u64, signed: bool },
    /// Sized float (for unusual sizes)
    SizedFloat { size: u64 },
}

impl PrimitiveDef {
    pub open spec fn spec_size(self) -> u64 {
        match self {
            PrimitiveDef::Bool
            | PrimitiveDef::Char
            | PrimitiveDef::SignedChar
            | PrimitiveDef::UnsignedChar => 1,
            PrimitiveDef::Short | PrimitiveDef::UnsignedShort => 2,
            PrimitiveDef::Int
            | PrimitiveDef::UnsignedInt
            | PrimitiveDef::Float
            | PrimitiveDef::Long
            | PrimitiveDef::UnsignedLong => 4,
            PrimitiveDef::LongLong | PrimitiveDef::UnsignedLongLong | PrimitiveDef::Double => 8,
            PrimitiveDef::LongDouble => 16,
            PrimitiveDef::SizedInt { size, .. } => size,
            PrimitiveDef::SizedFloat { size } => size,
            PrimitiveDef::UnicodeChar { size } => size,
        }
    }

    /// Get the size in bytes
    pub fn size(&self) -> (r: u64)
        ensures
            r == self.spec_size(),
    {
        match self {
            PrimitiveDef::Bool
            | PrimitiveDef::Char
            | PrimitiveDef::SignedChar
            | PrimitiveDef::UnsignedChar => 1,
            PrimitiveDef::Short | PrimitiveDef::UnsignedShort => 2,
            PrimitiveDef::Int | PrimitiveDef::UnsignedInt | PrimitiveDef::Float => 4,
            PrimitiveDef::Long | PrimitiveDef::UnsignedLong => 4,
            PrimitiveDef::LongLong | PrimitiveDef::UnsignedLongLong | PrimitiveDef::Double => 8,
            PrimitiveDef::LongDouble => 16,
            PrimitiveDef::SizedInt { size, .. } => *size,
            PrimitiveDef::SizedFloat { size } => *size,
            PrimitiveDef::UnicodeChar { size } => *size,
        }
    }

    pub open spec fn spec_name(self) -> Seq<char> {
        match self {
            PrimitiveDef::Bool => "bool"@,
            PrimitiveDef::Char => "char"@,
            PrimitiveDef::UnicodeChar { .. } => "char"@,
            PrimitiveDef::SignedChar => "signed char"@,
            PrimitiveDef::UnsignedChar => "unsigned char"@,
            PrimitiveDef::Short => "short"@,
            PrimitiveDef::UnsignedShort => "unsigned short"@,
            PrimitiveDef::Int => "int"@,
            PrimitiveDef::UnsignedInt => "unsigned int"@,
            PrimitiveDef::Long => "long"@,
            PrimitiveDef::UnsignedLong => "unsigned long"@,
            PrimitiveDef::LongLong => "long long"@,
            PrimitiveDef::UnsignedLongLong => "unsigned long long"@,
            PrimitiveDef::Float => "float"@,
            PrimitiveDef::Double => "double"@,
            PrimitiveDef::LongDouble => "long double"@,
            PrimitiveDef::SizedInt { signed, .. } => if signed {
                "int"@
            } else {
                "unsigned int"@
            },
            PrimitiveDef::SizedFloat { .. } => "float"@,
        }
    }

    /// Get the name of this primitive type
    pub fn name(&self) -> (r: &'static str)
        ensures
            r@ == self.spec_name(),
    {
        match self {
            PrimitiveDef::Bool => "bool",
            PrimitiveDef::Char => "char",
            PrimitiveDef::UnicodeChar { .. } => "char",
            PrimitiveDef::SignedChar => "signed char",
            PrimitiveDef::UnsignedChar => "unsigned char",
            PrimitiveDef::Short => "short",
            PrimitiveDef::UnsignedShort => "unsigned short",
            PrimitiveDef::Int => "int",
            PrimitiveDef::UnsignedInt => "unsigned int",
            PrimitiveDef::Long => "long",
            PrimitiveDef::UnsignedLong => "unsigned long",
            PrimitiveDef::LongLong => "long long",
            PrimitiveDef::UnsignedLongLong => "unsigned long long",
            PrimitiveDef::Float => "float",
            PrimitiveDef::Double => "double",
            PrimitiveDef::LongDouble => "long double",
            PrimitiveDef::SizedInt { signed, .. } => if *signed {
                "int"
            } else {
                "unsigned int"
            },
            PrimitiveDef::SizedFloat { .. } => "float",
        }
    }

    pub open spec fn spec_is_signed(self) -> bool {
        match self {
            PrimitiveDef::SignedChar
            | PrimitiveDef::Short
            | PrimitiveDef::Int
            | PrimitiveDef::Long
            | PrimitiveDef::LongLong => true,
            PrimitiveDef::SizedInt { signed, .. } => signed,
            _ => self.spec_is_float(),
        }
    }

    /// Check if this is a signed type
    pub fn is_signed(&self) -> (r: bool)
        ensures
            r == self.spec_is_signed(),
    {
        match self {
            PrimitiveDef::SignedChar
            | PrimitiveDef::Short
            | PrimitiveDef::Int
            | PrimitiveDef::Long
            | PrimitiveDef::LongLong => true,
            PrimitiveDef::SizedInt { signed, .. } => *signed,
            PrimitiveDef::Float
            | PrimitiveDef::Double
            | PrimitiveDef::LongDouble
            | PrimitiveDef::SizedFloat { .. } => true,
            _ => false,
        }
    }

    pub open spec fn spec_is_float(self) -> bool {
        self is Float || self is Double || self is LongDouble || self is SizedFloat
    }

    /// Check if this is a floating point type
    pub fn is_float(&self) -> (r: bool)
        ensures
            r == self.spec_is_float(),
    {
        match self {
            PrimitiveDef::Float
            | PrimitiveDef::Double
            | PrimitiveDef::LongDouble
            | PrimitiveDef::SizedFloat { .. } => true,
            _ => false,
        }
    }

    pub open spec fn spec_variable_type(self) -> VariableType {
        match self {
            PrimitiveDef::UnicodeChar { size } => if size == 1 {
                VariableType::U8
            } else if size == 2 {
                VariableType::U16
            } else if size == 4 {
                VariableType::U32
            } else {
                VariableType::Raw(size as usize)
            },
            PrimitiveDef::Bool => VariableType::Bool,
            PrimitiveDef::Char | PrimitiveDef::SignedChar => VariableType::I8,
            PrimitiveDef::UnsignedChar => VariableType::U8,
            PrimitiveDef::Short => VariableType::I16,
            PrimitiveDef::UnsignedShort => VariableType::U16,
            PrimitiveDef::Int | PrimitiveDef::Long => VariableType::I32,
            PrimitiveDef::UnsignedInt | PrimitiveDef::UnsignedLong => VariableType::U32,
            PrimitiveDef::LongLong => VariableType::I64,
            PrimitiveDef::UnsignedLongLong => VariableType::U64,
            PrimitiveDef::Float => VariableType::F32,
            PrimitiveDef::Double | PrimitiveDef::LongDouble => VariableType::F64,
            PrimitiveDef::SizedInt { size, signed } => if size == 1 {
                if signed {
                    VariableType::I8
                } else {
                    VariableType::U8
                }
            } else if size == 2 {
                if signed {
                    VariableType::I16
                } else {
                    VariableType::U16
                }
            } else if size == 4 {
                if signed {
                    VariableType::I32
                } else {
                    VariableType::U32
                }
            } else if size == 8 {
                if signed {
                    VariableType::I64
                } else {
                    VariableType::U64
                }
            } else {
                VariableType::Raw(size as usize)
            },
            PrimitiveDef::SizedFloat { size } => if size == 4 {
                VariableType::F32
            } else if size == 8 {
                VariableType::F64
            } else {
                VariableType::Raw(size as usize)
            },
        }
    }

    /// Convert to VariableType
    pub fn to_variable_type(&self) -> (r: VariableType)
        ensures
            r == self.spec_variable_type(),
    {
        match self {
            PrimitiveDef::UnicodeChar { size } => match *size {
                1 => VariableType::U8,
                2 => VariableType::U16,
                4 => VariableType::U32,
                _ => VariableType::Raw(*size as usize),
            },
            PrimitiveDef::Bool => VariableType::Bool,
            PrimitiveDef::Char | PrimitiveDef::SignedChar => VariableType::I8,
            PrimitiveDef::UnsignedChar => VariableType::U8,
            PrimitiveDef::Short => VariableType::I16,
            PrimitiveDef::UnsignedShort => VariableType::U16,
            PrimitiveDef::Int | PrimitiveDef::Long => VariableType::I32,
            PrimitiveDef::UnsignedInt | PrimitiveDef::UnsignedLong => VariableType::U32,
            PrimitiveDef::LongLong => VariableType::I64,
            PrimitiveDef::UnsignedLongLong => VariableType::U64,
            PrimitiveDef::Float => VariableType::F32,
            PrimitiveDef::Double | PrimitiveDef::LongDouble => VariableType::F64,
            PrimitiveDef::SizedInt { size, signed } => match (*size, *signed) {
                (1, true) => VariableType::I8,
                (1, false) => VariableType::U8,
                (2, true) => VariableType::I16,
                (2, false) => VariableType::U16,
                (4, true) => VariableType::I32,
                (4, false) => VariableType::U32,
                (8, true) => VariableType::I64,
                (8, false) => VariableType::U64,
                _ => VariableType::Raw(*size as usize),
            },
            PrimitiveDef::SizedFloat { size } => match *size {
                4 => VariableType::F32,
                8 => VariableType::F64,
                _ => VariableType::Raw(*size as usize),
            },
        }
    }
}

/// A member of a struct/union
#[derive(Debug)]
pub struct MemberDef {
    pub name: String,
    pub offset: u64,
    pub type_id: TypeId,
    pub bit_offset: Option<u64>,
    pub bit_size: Option<u64>,
}

impl Clone for MemberDef {
    fn clone(&self) -> (r: Self)
        ensures
            r == *self,
    {
        MemberDef {
            name: self.name.clone(),
            offset: self.offset,
            type_id: self.type_id,
            bit_offset: self.bit_offset,
            bit_size: self.bit_size,
        }
    }
}

impl MemberDef {
    pub fn new(name: String, offset: u64, type_id: TypeId) -> (r: Self)
        ensures
            r == (MemberDef { name, offset, type_id, bit_offset: None, bit_size: None }),
    {
        MemberDef { name, offset, type_id, bit_offset: None, bit_size: None }
    }

    /// Check if this is a bit field
    pub fn is_bitfield(&self) -> (r: bool)
        ensures
            r == (self.bit_size is Some),
    {
        self.bit_size.is_some()
    }
}

/// A file and line from `DW_AT_decl_file` / `DW_AT_decl_line`.
#[derive(Debug)]
pub struct SourceLocation {
    /// As the compiler recorded it; absolute for Rust builds
    pub file: String,
    pub line: u64,
}

impl Clone for SourceLocation {
    fn clone(&self) -> (r: Self)
        ensures
            r == *self,
    {
        SourceLocation { file: self.file.clone(), line: self.line }
    }
}

/// One enum variant; `member` is named after the variant and typed as its payload struct.
#[derive(Debug)]
pub struct VariantDef {
    pub discr_value: Option<u64>,
    pub member: MemberDef,
    /// Where the variant is declared. For an `async fn`'s state, a suspend
    /// variant points at its `.await`.
    pub location: Option<SourceLocation>,
}

/// Layout of a Rust enum with data, from `DW_TAG_variant_part`.
///
/// Read the `discriminant` member's raw bits and pass them to [`VariantPart::select`]
/// to find the active variant. For niche-encoded enums the discriminant lives inside
/// another variant's payload and the untagged (dataful) variant has no `discr_value`.
#[derive(Debug)]
pub struct VariantPart {
    /// The tag member (offset/type within the enum). `None` for single-variant enums.
    pub discriminant: Option<MemberDef>,
    pub variants: Vec<VariantDef>,
}

impl Default for VariantPart {
    fn default() -> (r: Self)
        ensures
            r.discriminant is None,
            r.variants@.len() == 0,
    {
        VariantPart { discriminant: None, variants: Vec::new() }
    }
}

/// Picks the variant with this discriminant.
pub open spec fn discr_is(discr: u64) -> spec_fn(VariantDef) -> bool {
    |v: VariantDef| v.discr_value == Some(discr)
}

/// Picks the variant without a discriminant.
pub open spec fn no_discr() -> spec_fn(VariantDef) -> bool {
    |v: VariantDef| v.discr_value is None
}

impl VariantPart {
    /// Which variant a raw discriminant selects.
    pub open spec fn spec_select(self, discr: u64) -> Option<int> {
        if first(self.variants@, discr_is(discr)) is Some {
            first(self.variants@, discr_is(discr))
        } else {
            first(self.variants@, no_discr())
        }
    }

    /// The place of the active variant for a raw discriminant value.
    pub fn select_index(&self, discr: u64) -> (r: Option<usize>)
        ensures
            self.spec_select(discr) == (match r {
                Some(i) => Some(i as int),
                None => None,
            }),
            r matches Some(i) ==> i < self.variants@.len(),
    {
        let mut i: usize = 0;
        while i < self.variants.len()
            invariant
                i <= self.variants@.len(),
                forall|k: int|
                    0 <= k < i ==> !discr_is(discr)(#[trigger] self.variants@[k]),
            decreases self.variants@.len() - i,
        {
            if let Some(value) = self.variants[i].discr_value {
                if value == discr {
                    proof {
                        lemma_first_is(self.variants@, discr_is(discr), i as int);
                    }
                    return Some(i);
                }
            }
            i = i + 1;
        }
        proof {
            lemma_first_none(self.variants@, discr_is(discr));
        }
        let mut i: usize = 0;
        while i < self.variants.len()
            invariant
                i <= self.variants@.len(),
                first(self.variants@, discr_is(discr)) is None,
                forall|k: int| 0 <= k < i ==> !no_discr()(#[trigger] self.variants@[k]),
            decreases self.variants@.len() - i,
        {
            if self.variants[i].discr_value.is_none() {
                proof {
                    lemma_first_is(self.variants@, no_discr(), i as int);
                }
                return Some(i);
            }
            i = i + 1;
        }
        proof {
            lemma_first_none(self.variants@, no_discr());
        }
        None
    }

    /// Active variant for a raw discriminant value: exact match, else the default variant.
    pub fn select(&self, discr: u64) -> (r: Option<&VariantDef>)
        ensures
            match self.spec_select(discr) {
                Some(i) => r == Some(&self.variants@[i]),
                None => r is None,
            },
    {
        match self.select_index(discr) {
            Some(i) => Some(&self.variants[i]),
            None => None,
        }
    }
}

/// Base class for C++ inheritance
#[derive(Debug, Clone, Copy)]
pub struct BaseClassDef {
    pub type_id: TypeId,
    pub offset: u64,
    pub is_virtual: bool,
}

/// Template parameter
#[derive(Debug)]
pub enum TemplateParam {
    /// Type parameter (e.g., T in `vector<T>`)
    Type { name: String, type_id: TypeId },
    /// Value parameter (e.g., N in `array<T, N>`)
    Value { name: String, value: i64 },
}

impl TemplateParam {
    pub open spec fn shown(self) -> Seq<char> {
        match self {
            TemplateParam::Type { name, .. } => name@,
            TemplateParam::Value { value, .. } => signed_decimal(value as int),
        }
    }

    pub fn display(&self) -> (r: String)
        ensures
            r@ == self.shown(),
    {
        match self {
            TemplateParam::Type { name, .. } => name.clone(),
            TemplateParam::Value { value, .. } => {
                let mut out: String = String::new();
                push_signed(&mut out, *value);
                assert(out@ =~= signed_decimal(*value as int));
                out
            },
        }
    }
}

/// Parameters as a list, separated by a comma and a space.
pub open spec fn shown_params(params: Seq<TemplateParam>) -> Seq<char>
    decreases params.len(),
{
    if params.len() == 0 {
        Seq::empty()
    } else if params.len() == 1 {
        params[0].shown()
    } else {
        shown_params(params.drop_last()) + ", "@ + params.last().shown()
    }
}

/// A name, or `<anonymous>` where there is none.
pub open spec fn name_or_anonymous(name: Option<String>) -> Seq<char> {
    match name {
        Some(name) => name@,
        None => "<anonymous>"@,
    }
}

/// Struct/class/union definition
#[derive(Debug)]
pub struct StructDef {
    pub name: Option<String>,
    pub size: u64,
    pub members: Vec<MemberDef>,
    pub is_class: bool,
    /// Template parameters (empty for non-template types)
    pub template_params: Vec<TemplateParam>,
    /// Base classes for C++ inheritance
    pub base_classes: Vec<BaseClassDef>,
    /// Rust enum layout (`DW_TAG_variant_part`); `members` is empty when set
    pub variant_part: Option<VariantPart>,
}

impl StructDef {
    pub fn new(name: Option<String>, size: u64, is_class: bool) -> (r: Self)
        ensures
            r.name == name,
            r.size == size,
            r.is_class == is_class,
            r.members@.len() == 0,
            r.template_params@.len() == 0,
            r.base_classes@.len() == 0,
            r.variant_part is None,
    {
        StructDef {
            name,
            size,
            members: Vec::new(),
            is_class,
            template_params: Vec::new(),
            base_classes: Vec::new(),
            variant_part: None,
        }
    }

    /// Get the name as the compiler wrote it
    pub fn display_name_without_params(&self) -> (r: String)
        ensures
            r@ == name_or_anonymous(self.name),
    {
        match &self.name {
            Some(name) => name.clone(),
            None => "<anonymous>".to_owned(),
        }
    }

    /// The name with its template parameters, unless the name spells them
    /// already, as rustc and GCC do (`Atomic<u32>`).
    pub open spec fn spec_display_name(self) -> Seq<char> {
        let base = name_or_anonymous(self.name);
        if self.template_params@.len() == 0 || base.contains('<') {
            base
        } else {
            base + "<"@ + shown_params(self.template_params@) + ">"@
        }
    }

    /// Get the display name including template parameters
    pub fn display_name(&self) -> (r: String)
        ensures
            r@ == self.spec_display_name(),
    {
        let base: String = self.display_name_without_params();
        if self.template_params.len() == 0 || has_char(base.as_str(), '<') {
            return base;
        }
        let mut out: String = base;
        let ghost start = out@;
        out.append("<");
        let ghost open = out@;
        let mut i: usize = 0;
        let ghost params = self.template_params@;
        assert(open =~= open + shown_params(params.take(0)));
        while i < self.template_params.len()
            invariant
                i <= params.len(),
                params == self.template_params@,
                out@ == open + shown_params(params.take(i as int)),
            decreases params.len() - i,
        {
            if i > 0 {
                out.append(", ");
            }
            let text: String = self.template_params[i].display();
            out.append(text.as_str());
            i = i + 1;
            proof {
                let seen = params.take(i as int);
                assert(seen.drop_last() =~= params.take(i - 1));
                assert(seen.last() == params[i - 1]);
                assert(out@ =~= open + shown_params(seen));
            }
        }
        out.append(">");
        proof {
            assert(params.take(params.len() as int) =~= params);
            assert(out@ =~= start + "<"@ + shown_params(params) + ">"@);
        }
        out
    }
}

/// An enum variant/enumerator
#[derive(Debug)]
pub struct EnumVariant {
    pub name: String,
    pub value: i64,
}

/// Picks the enumerator with this value.
pub open spec fn value_is(value: i64) -> spec_fn(EnumVariant) -> bool {
    |v: EnumVariant| v.value == value
}

/// Enumeration definition
#[derive(Debug)]
pub struct EnumDef {
    pub name: Option<String>,
    pub size: u64,
    pub variants: Vec<EnumVariant>,
    pub is_scoped: bool,
    pub underlying_type: Option<TypeId>,
}

impl EnumDef {
    pub fn new(name: Option<String>, size: u64, is_scoped: bool) -> (r: Self)
        ensures
            r.name == name,
            r.size == size,
            r.is_scoped == is_scoped,
            r.variants@.len() == 0,
            r.underlying_type is None,
    {
        EnumDef { name, size, variants: Vec::new(), is_scoped, underlying_type: None }
    }

    /// Find a variant by value
    pub fn find_variant(&self, value: i64) -> (r: Option<&EnumVariant>)
        ensures
            match first(self.variants@, value_is(value)) {
                Some(i) => r == Some(&self.variants@[i]),
                None => r is None,
            },
    {
        let mut i: usize = 0;
        while i < self.variants.len()
            invariant
                i <= self.variants@.len(),
                forall|k: int| 0 <= k < i ==> !value_is(value)(#[trigger] self.variants@[k]),
            decreases self.variants@.len() - i,
        {
            if self.variants[i].value == value {
                proof {
                    lemma_first_is(self.variants@, value_is(value), i as int);
                }
                return Some(&self.variants[i]);
            }
            i = i + 1;
        }
        proof {
            lemma_first_none(self.variants@, value_is(value));
        }
        None
    }

    /// A value's enumerator, scoped where the enumeration is, or the number.
    pub open spec fn shown_value(self, value: i64) -> Seq<char> {
        match first(self.variants@, value_is(value)) {
            Some(i) => if self.is_scoped && self.name is Some {
                self.name->0@ + "::"@ + self.variants@[i].name@
            } else {
                self.variants@[i].name@
            },
            None => signed_decimal(value as int),
        }
    }

    /// Convert a value to its variant name
    pub fn value_to_string(&self, value: i64) -> (r: String)
        ensures
            r@ == self.shown_value(value),
    {
        match self.find_variant(value) {
            Some(variant) => {
                if self.is_scoped {
                    if let Some(name) = &self.name {
                        let mut out: String = name.clone();
                        out.append("::");
                        out.append(variant.name.as_str());
                        return out;
                    }
                }
                variant.name.clone()
            },
            None => {
                let mut out: String = String::new();
                push_signed(&mut out, value);
                assert(out@ =~= signed_decimal(value as int));
                out
            },
        }
    }
}

/// A type definition in the type table
#[derive(Debug)]
pub enum TypeDef {
    /// Primitive/base types (int, float, bool, etc.)
    Primitive(PrimitiveDef),
    /// Pointer to another type
    Pointer(TypeId),
    /// Reference to another type (C++)
    Reference(TypeId),
    /// Array of elements
    Array { element: TypeId, count: Option<u64> },
    /// Struct or class
    Struct(StructDef),
    /// Union type
    Union(StructDef),
    /// Enumeration
    Enum(EnumDef),
    /// Typedef/alias
    Typedef { name: String, underlying: TypeId },
    /// Const qualifier
    Const(TypeId),
    /// Volatile qualifier
    Volatile(TypeId),
    /// Restrict qualifier
    Restrict(TypeId),
    /// Subroutine/function type
    Subroutine { return_type: Option<TypeId>, params: Vec<TypeId> },
    /// Void type
    Void,
    /// Unknown type with size
    Unknown { size: u64 },
    /// Forward declaration - will be resolved to point to actual definition
    ForwardDecl {
        name: String,
        kind: ForwardDeclKind,
        /// Once resolved, this points to the actual type
        target: Option<TypeId>,
    },
    /// Placeholder for types being parsed (used during construction)
    Placeholder,
}

impl TypeDef {
    /// Check if this is a forward declaration that hasn't been resolved
    pub fn is_unresolved_forward_decl(&self) -> (r: bool)
        ensures
            r == (self matches TypeDef::ForwardDecl { target, .. } && target is None),
    {
        match self {
            TypeDef::ForwardDecl { target, .. } => target.is_none(),
            _ => false,
        }
    }

    /// Check if this is a forward declaration (resolved or not)
    pub fn is_forward_decl(&self) -> (r: bool)
        ensures
            r == (self is ForwardDecl),
    {
        match self {
            TypeDef::ForwardDecl { .. } => true,
            _ => false,
        }
    }

    pub open spec fn spec_name(self) -> Option<Seq<char>> {
        match self {
            TypeDef::Struct(s) => match s.name {
                Some(name) => Some(name@),
                None => None,
            },
            TypeDef::Union(s) => match s.name {
                Some(name) => Some(name@),
                None => None,
            },
            TypeDef::Enum(e) => match e.name {
                Some(name) => Some(name@),
                None => None,
            },
            TypeDef::Typedef { name, .. } => Some(name@),
            TypeDef::ForwardDecl { name, .. } => Some(name@),
            TypeDef::Primitive(p) => Some(p.spec_name()),
            _ => None,
        }
    }

    /// Get the name of this type if it has one
    pub fn name(&self) -> (r: Option<&str>)
        ensures
            self.spec_name() == (match r {
                Some(name) => Some(name@),
                None => None,
            }),
    {
        match self {
            TypeDef::Struct(s) => match &s.name {
                Some(name) => Some(name.as_str()),
                None => None,
            },
            TypeDef::Union(s) => match &s.name {
                Some(name) => Some(name.as_str()),
                None => None,
            },
            TypeDef::Enum(e) => match &e.name {
                Some(name) => Some(name.as_str()),
                None => None,
            },
            TypeDef::Typedef { name, .. } => Some(name.as_str()),
            TypeDef::ForwardDecl { name, .. } => Some(name.as_str()),
            TypeDef::Primitive(p) => Some(p.name()),
            _ => None,
        }
    }

    pub open spec fn spec_is_expandable(self) -> bool {
        match self {
            TypeDef::Struct(s) => s.members@.len() > 0,
            TypeDef::Union(s) => s.members@.len() > 0,
            TypeDef::ForwardDecl { target, .. } => target is Some,
            _ => false,
        }
    }

    /// Check if this type can be expanded (has members). A resolved forward
    /// declaration is, as far as it can tell.
    pub fn is_expandable(&self) -> (r: bool)
        ensures
            r == self.spec_is_expandable(),
    {
        match self {
            TypeDef::Struct(s) => s.members.len() > 0,
            TypeDef::Union(s) => s.members.len() > 0,
            TypeDef::ForwardDecl { target, .. } => target.is_some(),
            _ => false,
        }
    }
}

} // verus!
