//! Debug information entries as plain values, and what their attributes say.

use vstd::prelude::*;
use vstd::string::*;
use crate::def_view::{location_of, LocationView};
use crate::search::{first, lemma_first_is, lemma_first_none};
use crate::type_def::{GlobalTypeKey, SourceLocation};
use crate::variable_status::{StatusView, VariableStatus};

verus! {

pub const TAG_ARRAY_TYPE: u16 = 0x01;

pub const TAG_CLASS_TYPE: u16 = 0x02;

pub const TAG_ENUMERATION_TYPE: u16 = 0x04;

pub const TAG_MEMBER: u16 = 0x0d;

pub const TAG_POINTER_TYPE: u16 = 0x0f;

pub const TAG_REFERENCE_TYPE: u16 = 0x10;

pub const TAG_STRUCTURE_TYPE: u16 = 0x13;

pub const TAG_SUBROUTINE_TYPE: u16 = 0x15;

pub const TAG_TYPEDEF: u16 = 0x16;

pub const TAG_UNION_TYPE: u16 = 0x17;

pub const TAG_VARIANT: u16 = 0x19;

pub const TAG_INHERITANCE: u16 = 0x1c;

pub const TAG_SUBRANGE_TYPE: u16 = 0x21;

pub const TAG_BASE_TYPE: u16 = 0x24;

pub const TAG_CONST_TYPE: u16 = 0x26;

pub const TAG_ENUMERATOR: u16 = 0x28;

pub const TAG_TEMPLATE_TYPE_PARAMETER: u16 = 0x2f;

pub const TAG_TEMPLATE_VALUE_PARAMETER: u16 = 0x30;

pub const TAG_VARIANT_PART: u16 = 0x33;

pub const TAG_VARIABLE: u16 = 0x34;

pub const TAG_VOLATILE_TYPE: u16 = 0x35;

pub const TAG_RESTRICT_TYPE: u16 = 0x37;

pub const TAG_UNSPECIFIED_TYPE: u16 = 0x3b;

pub const TAG_RVALUE_REFERENCE_TYPE: u16 = 0x42;

pub const AT_LOCATION: u16 = 0x02;

pub const AT_NAME: u16 = 0x03;

pub const AT_BYTE_SIZE: u16 = 0x0b;

pub const AT_BIT_OFFSET: u16 = 0x0c;

pub const AT_BIT_SIZE: u16 = 0x0d;

pub const AT_LOW_PC: u16 = 0x11;

pub const AT_DISCR: u16 = 0x15;

pub const AT_DISCR_VALUE: u16 = 0x16;

pub const AT_COMP_DIR: u16 = 0x1b;

pub const AT_CONST_VALUE: u16 = 0x1c;

pub const AT_UPPER_BOUND: u16 = 0x2f;

pub const AT_ABSTRACT_ORIGIN: u16 = 0x31;

pub const AT_ARTIFICIAL: u16 = 0x34;

pub const AT_COUNT: u16 = 0x37;

pub const AT_DATA_MEMBER_LOCATION: u16 = 0x38;

pub const AT_DECL_FILE: u16 = 0x3a;

pub const AT_DECL_LINE: u16 = 0x3b;

pub const AT_DECLARATION: u16 = 0x3c;

pub const AT_ENCODING: u16 = 0x3e;

pub const AT_EXTERNAL: u16 = 0x3f;

pub const AT_SPECIFICATION: u16 = 0x47;

pub const AT_TYPE: u16 = 0x49;

pub const AT_VIRTUALITY: u16 = 0x4c;

pub const AT_DATA_BIT_OFFSET: u16 = 0x6b;

pub const AT_ENUM_CLASS: u16 = 0x6d;

pub const AT_LINKAGE_NAME: u16 = 0x6e;

pub const AT_MIPS_LINKAGE_NAME: u16 = 0x2007;

pub const ENCODING_BOOLEAN: u8 = 0x02;

pub const ENCODING_FLOAT: u8 = 0x04;

pub const ENCODING_SIGNED: u8 = 0x05;

pub const ENCODING_SIGNED_CHAR: u8 = 0x06;

pub const ENCODING_UNSIGNED: u8 = 0x07;

pub const ENCODING_UNSIGNED_CHAR: u8 = 0x08;

pub const ENCODING_UTF: u8 = 0x10;

pub const LANGUAGE_RUST: u16 = 0x1c;

/// The value of an attribute.
#[derive(Debug)]
pub enum Value {
    /// A constant of unsigned or unknown sign
    Unsigned(u64),
    Signed(i64),
    Flag(bool),
    Encoding(u8),
    Virtuality,
    FileIndex(u64),
    Address(u64),
    /// Offset of an entry in the same unit
    UnitRef(usize),
    /// Offset of an entry in `.debug_info`
    InfoRef(usize),
    Text(String),
    /// A location expression
    Expression(Vec<u8>),
    Block(Vec<u8>),
    /// Index into `.debug_addr`
    AddressIndex(usize),
    /// Offset of a location list
    LocationList(usize),
    /// Index of a location list
    LocationListIndex(usize),
    /// Anything else
    Other,
}

/// What an attribute's value says.
#[verifier::ext_equal]
pub enum ValueView {
    Unsigned(u64),
    Signed(i64),
    Flag(bool),
    Encoding(u8),
    Virtuality,
    FileIndex(u64),
    Address(u64),
    UnitRef(usize),
    InfoRef(usize),
    Text(Seq<char>),
    Expression(Seq<u8>),
    Block(Seq<u8>),
    AddressIndex(usize),
    LocationList(usize),
    LocationListIndex(usize),
    Other,
}

impl View for Value {
    type V = ValueView;

    open spec fn view(&self) -> ValueView {
        match self {
            Value::Unsigned(v) => ValueView::Unsigned(*v),
            Value::Signed(v) => ValueView::Signed(*v),
            Value::Flag(v) => ValueView::Flag(*v),
            Value::Encoding(v) => ValueView::Encoding(*v),
            Value::Virtuality => ValueView::Virtuality,
            Value::FileIndex(v) => ValueView::FileIndex(*v),
            Value::Address(v) => ValueView::Address(*v),
            Value::UnitRef(v) => ValueView::UnitRef(*v),
            Value::InfoRef(v) => ValueView::InfoRef(*v),
            Value::Text(v) => ValueView::Text(v@),
            Value::Expression(v) => ValueView::Expression(v@),
            Value::Block(v) => ValueView::Block(v@),
            Value::AddressIndex(v) => ValueView::AddressIndex(*v),
            Value::LocationList(v) => ValueView::LocationList(*v),
            Value::LocationListIndex(v) => ValueView::LocationListIndex(*v),
            Value::Other => ValueView::Other,
        }
    }
}

/// An attribute of an entry.
#[derive(Debug)]
pub struct Attr {
    /// `DW_AT_*`
    pub name: u16,
    pub value: Value,
}

impl View for Attr {
    type V = (u16, ValueView);

    open spec fn view(&self) -> (u16, ValueView) {
        (self.name, self.value@)
    }
}

/// A debug information entry.
#[derive(Debug)]
pub struct Die {
    /// Offset from the start of its unit
    pub offset: usize,
    /// How far below the unit's root it stands
    pub depth: i64,
    /// `DW_TAG_*`
    pub tag: u16,
    pub attrs: Vec<Attr>,
    /// What its location says of a variable
    pub located: VariableStatus,
    /// Where `DW_AT_data_member_location` puts it in its parent
    pub member_offset: Option<u64>,
    /// Where `DW_AT_decl_file` and `DW_AT_decl_line` say it is declared
    pub declared: Option<SourceLocation>,
}

/// What a debug information entry says.
#[verifier::ext_equal]
pub struct DieView {
    pub offset: usize,
    pub depth: i64,
    pub tag: u16,
    pub attrs: Seq<(u16, ValueView)>,
    pub located: StatusView,
    pub member_offset: Option<u64>,
    pub declared: Option<LocationView>,
}

/// What a list of attributes says.
pub open spec fn attrs_of(attrs: Seq<Attr>) -> Seq<(u16, ValueView)> {
    attrs.map_values(|a: Attr| a@)
}

impl View for Die {
    type V = DieView;

    open spec fn view(&self) -> DieView {
        DieView {
            offset: self.offset,
            depth: self.depth,
            tag: self.tag,
            attrs: attrs_of(self.attrs@),
            located: self.located@,
            member_offset: self.member_offset,
            declared: location_of(self.declared),
        }
    }
}

/// A unit's entries, parents before their children.
#[derive(Debug)]
pub struct UnitInfo {
    /// Offset of the unit in `.debug_info`
    pub offset: usize,
    /// Whether its language is Rust
    pub is_rust: bool,
    pub dies: Vec<Die>,
}

/// What a unit's entries say.
#[verifier::ext_equal]
pub struct UnitView {
    pub offset: usize,
    pub is_rust: bool,
    pub dies: Seq<DieView>,
}

/// What a list of entries says.
pub open spec fn dies_of(dies: Seq<Die>) -> Seq<DieView> {
    dies.map_values(|d: Die| d@)
}

impl View for UnitInfo {
    type V = UnitView;

    open spec fn view(&self) -> UnitView {
        UnitView { offset: self.offset, is_rust: self.is_rust, dies: dies_of(self.dies@) }
    }
}

/// Picks the attribute with this name.
pub open spec fn attr_named(name: u16) -> spec_fn((u16, ValueView)) -> bool {
    |a: (u16, ValueView)| a.0 == name
}

/// The value of the first attribute with this name.
pub open spec fn attr_in(attrs: Seq<(u16, ValueView)>, name: u16) -> Option<ValueView> {
    match first(attrs, attr_named(name)) {
        Some(i) => Some(attrs[i].1),
        None => None,
    }
}

/// The value of the first attribute with this name.
pub fn find_attr(attrs: &Vec<Attr>, name: u16) -> (r: Option<&Value>)
    ensures
        attr_in(attrs_of(attrs@), name) == (match r {
            Some(v) => Some(v@),
            None => None,
        }),
{
    let ghost views = attrs_of(attrs@);
    let mut i: usize = 0;
    while i < attrs.len()
        invariant
            i <= attrs@.len(),
            views == attrs_of(attrs@),
            forall|k: int| 0 <= k < i ==> !attr_named(name)(#[trigger] views[k]),
        decreases attrs@.len() - i,
    {
        assert(views[i as int] == attrs@[i as int]@);
        if attrs[i].name == name {
            proof {
                lemma_first_is(views, attr_named(name), i as int);
            }
            return Some(&attrs[i].value);
        }
        i = i + 1;
    }
    proof {
        lemma_first_none(views, attr_named(name));
    }
    None
}

impl ValueView {
    pub open spec fn unsigned(self) -> Option<u64> {
        match self {
            ValueView::Unsigned(v) => Some(v),
            _ => None,
        }
    }

    pub open spec fn text(self) -> Option<Seq<char>> {
        match self {
            ValueView::Text(v) => Some(v),
            _ => None,
        }
    }

    /// A constant, its bits read as signed.
    pub open spec fn constant(self) -> Option<i64> {
        match self {
            ValueView::Signed(v) => Some(v),
            ValueView::Unsigned(v) => Some(v as i64),
            _ => None,
        }
    }

    /// A discriminant, its bits read as unsigned.
    pub open spec fn discriminant(self) -> Option<u64> {
        match self {
            ValueView::Unsigned(v) => Some(v),
            ValueView::Signed(v) => Some(v as u64),
            _ => None,
        }
    }

    /// One more than an upper bound, the largest wrapping to 0.
    pub open spec fn past_bound(self) -> Option<u64> {
        match self {
            ValueView::Unsigned(v) => Some(v.wrapping_add(1)),
            ValueView::Signed(v) => Some(v.wrapping_add(1) as u64),
            _ => None,
        }
    }

    /// The entry that a reference is to, in a unit at `unit` of `.debug_info`.
    pub open spec fn target(self, unit: usize) -> Option<usize> {
        match self {
            ValueView::UnitRef(v) => Some(unit.wrapping_add(v)),
            ValueView::InfoRef(v) => Some(v),
            _ => None,
        }
    }
}

impl Value {
    fn unsigned(&self) -> (r: Option<u64>)
        ensures
            r == self@.unsigned(),
    {
        match self {
            Value::Unsigned(v) => Some(*v),
            _ => None,
        }
    }

    fn text(&self) -> (r: Option<String>)
        ensures
            self@.text() == crate::def_view::text_of(r),
    {
        match self {
            Value::Text(v) => Some(v.clone()),
            _ => None,
        }
    }

    fn constant(&self) -> (r: Option<i64>)
        ensures
            r == self@.constant(),
    {
        match self {
            Value::Signed(v) => Some(*v),
            Value::Unsigned(v) => Some(#[verifier::truncate] (*v as i64)),
            _ => None,
        }
    }

    fn past_bound(&self) -> (r: Option<u64>)
        ensures
            r == self@.past_bound(),
    {
        match self {
            Value::Unsigned(v) => Some(v.wrapping_add(1)),
            Value::Signed(v) => Some(#[verifier::truncate] (v.wrapping_add(1) as u64)),
            _ => None,
        }
    }
}

impl DieView {
    pub open spec fn attr(self, name: u16) -> Option<ValueView> {
        attr_in(self.attrs, name)
    }

    /// The constant that an attribute holds.
    pub open spec fn number(self, name: u16) -> Option<u64> {
        match self.attr(name) {
            Some(v) => v.unsigned(),
            None => None,
        }
    }

    /// Whether an attribute is a set flag.
    pub open spec fn flag(self, name: u16) -> bool {
        self.attr(name) == Some(ValueView::Flag(true))
    }

    pub open spec fn name(self) -> Option<Seq<char>> {
        match self.attr(AT_NAME) {
            Some(v) => v.text(),
            None => None,
        }
    }

    /// The linkage name, under its standard attribute or the older one.
    pub open spec fn linkage_name(self) -> Option<Seq<char>> {
        match self.attr(AT_LINKAGE_NAME) {
            Some(v) => v.text(),
            None => match self.attr(AT_MIPS_LINKAGE_NAME) {
                Some(v) => v.text(),
                None => None,
            },
        }
    }

    pub open spec fn encoding(self) -> Option<u8> {
        match self.attr(AT_ENCODING) {
            Some(ValueView::Encoding(v)) => Some(v),
            _ => None,
        }
    }

    /// The key of the type that `DW_AT_type` refers to.
    pub open spec fn type_key(self, unit_index: usize) -> Option<GlobalTypeKey> {
        match self.attr(AT_TYPE) {
            Some(ValueView::UnitRef(offset)) => Some(
                GlobalTypeKey::UnitLocal(
                    crate::type_def::DwarfTypeKey { unit_index, offset },
                ),
            ),
            Some(ValueView::InfoRef(offset)) => Some(GlobalTypeKey::Global(offset)),
            _ => None,
        }
    }

    /// The entry in the same unit that an attribute refers to.
    pub open spec fn unit_ref(self, name: u16) -> Option<usize> {
        match self.attr(name) {
            Some(ValueView::UnitRef(offset)) => Some(offset),
            _ => None,
        }
    }

    /// Where a bit field starts: `DW_AT_data_bit_offset` where it is given,
    /// else `DW_AT_bit_offset`.
    pub open spec fn bit_offset(self) -> Option<u64> {
        match self.attr(AT_DATA_BIT_OFFSET) {
            Some(v) => v.unsigned(),
            None => self.number(AT_BIT_OFFSET),
        }
    }

    pub open spec fn const_value(self) -> Option<i64> {
        match self.attr(AT_CONST_VALUE) {
            Some(v) => v.constant(),
            None => None,
        }
    }

    pub open spec fn discr_value(self) -> Option<u64> {
        match self.attr(AT_DISCR_VALUE) {
            Some(v) => v.discriminant(),
            None => None,
        }
    }

    /// How many elements a subrange has, where it says so at all.
    pub open spec fn subrange_count(self) -> Option<Option<u64>> {
        match self.attr(AT_COUNT) {
            Some(v) => Some(v.unsigned()),
            None => match self.attr(AT_UPPER_BOUND) {
                Some(v) => Some(v.past_bound()),
                None => None,
            },
        }
    }

    /// The entry in `.debug_info` that this one completes.
    pub open spec fn completes(self, unit: usize) -> Option<usize> {
        let declared = match self.attr(AT_SPECIFICATION) {
            Some(v) => v.target(unit),
            None => None,
        };
        if declared is Some {
            declared
        } else {
            match self.attr(AT_ABSTRACT_ORIGIN) {
                Some(v) => v.target(unit),
                None => None,
            }
        }
    }

    /// Why a variable can or cannot be read. What the compiler made comes
    /// first, then constants without storage, then declarations of what is
    /// defined elsewhere; without a location the rest is optimized out.
    pub open spec fn status(self) -> StatusView {
        if self.flag(AT_ARTIFICIAL) {
            StatusView::Artificial
        } else if self.attr(AT_LOCATION) is Some {
            self.located
        } else if self.attr(AT_CONST_VALUE) is Some {
            StatusView::CompileTimeConstant { value: self.const_value() }
        } else if self.flag(AT_EXTERNAL) {
            StatusView::ExternDeclaration
        } else {
            StatusView::OptimizedOut
        }
    }
}

impl Die {
    pub(crate) fn attr(&self, name: u16) -> (r: Option<&Value>)
        ensures
            self@.attr(name) == (match r {
                Some(v) => Some(v@),
                None => None,
            }),
    {
        find_attr(&self.attrs, name)
    }

    pub(crate) fn number(&self, name: u16) -> (r: Option<u64>)
        ensures
            r == self@.number(name),
    {
        match self.attr(name) {
            Some(v) => v.unsigned(),
            None => None,
        }
    }

    pub(crate) fn flag(&self, name: u16) -> (r: bool)
        ensures
            r == self@.flag(name),
    {
        match self.attr(name) {
            Some(Value::Flag(set)) => *set,
            _ => false,
        }
    }

    /// The name, read from `DW_AT_name`.
    pub(crate) fn get_name(&self) -> (r: Option<String>)
        ensures
            self@.name() == crate::def_view::text_of(r),
    {
        match self.attr(AT_NAME) {
            Some(v) => v.text(),
            None => None,
        }
    }

    /// The linkage name, under its standard attribute or the older one.
    pub(crate) fn get_linkage_name(&self) -> (r: Option<String>)
        ensures
            self@.linkage_name() == crate::def_view::text_of(r),
    {
        match self.attr(AT_LINKAGE_NAME) {
            Some(v) => v.text(),
            None => match self.attr(AT_MIPS_LINKAGE_NAME) {
                Some(v) => v.text(),
                None => None,
            },
        }
    }

    pub(crate) fn get_byte_size(&self) -> (r: Option<u64>)
        ensures
            r == self@.number(AT_BYTE_SIZE),
    {
        self.number(AT_BYTE_SIZE)
    }

    pub(crate) fn get_encoding(&self) -> (r: Option<u8>)
        ensures
            r == self@.encoding(),
    {
        match self.attr(AT_ENCODING) {
            Some(Value::Encoding(v)) => Some(*v),
            _ => None,
        }
    }

    /// A type reference from `DW_AT_type`: unit-local as GCC writes it, or
    /// into `.debug_info` as ARM compilers do.
    pub(crate) fn get_type_ref_key(&self, unit_index: usize) -> (r: Option<GlobalTypeKey>)
        ensures
            r == self@.type_key(unit_index),
    {
        match self.attr(AT_TYPE) {
            Some(Value::UnitRef(offset)) => Some(GlobalTypeKey::unit_local(unit_index, *offset)),
            Some(Value::InfoRef(offset)) => Some(GlobalTypeKey::global(*offset)),
            _ => None,
        }
    }

    /// The entry in the same unit that an attribute refers to.
    pub(crate) fn get_unit_ref(&self, name: u16) -> (r: Option<usize>)
        ensures
            r == self@.unit_ref(name),
    {
        match self.attr(name) {
            Some(Value::UnitRef(offset)) => Some(*offset),
            _ => None,
        }
    }

    pub(crate) fn get_bit_offset(&self) -> (r: Option<u64>)
        ensures
            r == self@.bit_offset(),
    {
        match self.attr(AT_DATA_BIT_OFFSET) {
            Some(v) => v.unsigned(),
            None => self.number(AT_BIT_OFFSET),
        }
    }

    pub(crate) fn get_const_value(&self) -> (r: Option<i64>)
        ensures
            r == self@.const_value(),
    {
        match self.attr(AT_CONST_VALUE) {
            Some(v) => v.constant(),
            None => None,
        }
    }

    pub(crate) fn get_discr_value(&self) -> (r: Option<u64>)
        ensures
            r == self@.discr_value(),
    {
        match self.attr(AT_DISCR_VALUE) {
            Some(Value::Unsigned(v)) => Some(*v),
            Some(Value::Signed(v)) => Some(#[verifier::truncate] (*v as u64)),
            _ => None,
        }
    }

    pub(crate) fn get_subrange_count(&self) -> (r: Option<Option<u64>>)
        ensures
            r == self@.subrange_count(),
    {
        match self.attr(AT_COUNT) {
            Some(v) => Some(v.unsigned()),
            None => match self.attr(AT_UPPER_BOUND) {
                Some(v) => Some(v.past_bound()),
                None => None,
            },
        }
    }

    fn target_of(&self, name: u16, unit: usize) -> (r: Option<usize>)
        ensures
            r == (match self@.attr(name) {
                Some(v) => v.target(unit),
                None => None,
            }),
    {
        match self.attr(name) {
            Some(Value::UnitRef(offset)) => Some(unit.wrapping_add(*offset)),
            Some(Value::InfoRef(offset)) => Some(*offset),
            _ => None,
        }
    }

    /// The target of `DW_AT_specification`, else of `DW_AT_abstract_origin`.
    pub(crate) fn get_reference_offset(&self, unit: usize) -> (r: Option<usize>)
        ensures
            r == self@.completes(unit),
    {
        let declared = self.target_of(AT_SPECIFICATION, unit);
        if declared.is_some() {
            declared
        } else {
            self.target_of(AT_ABSTRACT_ORIGIN, unit)
        }
    }

    /// Why a variable can or cannot be read.
    pub fn get_variable_status(&self) -> (r: VariableStatus)
        ensures
            r@ == self@.status(),
    {
        if self.flag(AT_ARTIFICIAL) {
            return VariableStatus::Artificial;
        }
        let has_location: bool = self.attr(AT_LOCATION).is_some();
        if self.attr(AT_CONST_VALUE).is_some() && !has_location {
            return VariableStatus::CompileTimeConstant { value: self.get_const_value() };
        }
        if self.flag(AT_EXTERNAL) && !has_location {
            return VariableStatus::ExternDeclaration;
        }
        if !has_location {
            return VariableStatus::OptimizedOut;
        }
        self.located.clone()
    }
}

} // verus!
