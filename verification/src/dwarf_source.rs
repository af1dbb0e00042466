//! Debug information as gimli reads it from an object file's sections, in plain
//! values.

use vstd::prelude::*;
use vstd::string::*;
use gimli::{
    Abbreviations, AttributeValue, DebugAbbrev, DebugAddrIndex, DebugInfo, DebugInfoOffset,
    DebugLoc, DebugLocLists, DebugLocListsIndex, DebugStrOffsetsIndex, Dwarf, EndianSlice,
    LocationLists, LocationListsOffset, SectionId, UnitOffset,
};
use gimli::AttributeValue::{
    Addr, Block, DebugInfoRef, DebugLineStrRef, DebugStrRef, Encoding, Exprloc, FileIndex, Flag,
    LocationListsRef, Sdata, UnitRef, Virtuality, DebugAddrIndex as AddrIndexRef,
    DebugLocListsIndex as ListIndexRef, DebugStrOffsetsIndex as StrIndexRef, String as InlineRef,
};
use gimli::RawLocListEntry::{BaseAddressx, StartxEndx, StartxLength};
use gimli::RunTimeEndian::{Big, Little};
use object::{Object, ObjectSection};
#[allow(unused_imports)]
use crate::die::{AT_COMP_DIR, AT_LOW_PC, AT_NAME};
use crate::text::same_text;
use self::Number::{Address, Encoded, File, NoNumber, Signed, Switch, Unsigned, Virtual};
use self::FileText::{AtLineText, AtText, Indexed, Inline, Unknown};
use self::Place::{AddressIndex, InInfo, InText, InUnit, ListAt, ListIndex, NoPlace, TextIndex};

verus! {

/// The DWARF sections of an object file.
#[derive(Debug)]
pub struct Sections {
    pub little_endian: bool,
    /// Names and contents; a section that is not there has none
    pub contents: Vec<(String, Vec<u8>)>,
}

/// What the DWARF sections of an object file hold.
#[verifier::ext_equal]
pub struct SectionsView {
    pub little_endian: bool,
    pub contents: Seq<(Seq<char>, Seq<u8>)>,
}

impl View for Sections {
    type V = SectionsView;

    open spec fn view(&self) -> SectionsView {
        SectionsView {
            little_endian: self.little_endian,
            contents: self.contents@.map_values(|s: (String, Vec<u8>)| (s.0@, s.1@)),
        }
    }
}

/// The contents of the first section with this name, or nothing.
pub open spec fn contents_of(contents: Seq<(Seq<char>, Seq<u8>)>, name: Seq<char>) -> Seq<u8>
    decreases contents.len(),
{
    if contents.len() == 0 {
        Seq::empty()
    } else if contents[0].0 == name {
        contents[0].1
    } else {
        contents_of(contents.skip(1), name)
    }
}

impl SectionsView {
    pub open spec fn section(self, name: Seq<char>) -> Seq<u8> {
        contents_of(self.contents, name)
    }
}

impl Sections {
    /// The contents of a section, empty where there is none.
    pub fn section(&self, name: &str) -> (r: &[u8])
        ensures
            r@ == self@.section(name@),
    {
        let ghost all = self@.contents;
        let mut i: usize = 0;
        assert(all.skip(0) =~= all);
        while i < self.contents.len()
            invariant
                i <= self.contents@.len(),
                all == self@.contents,
                contents_of(all, name@) == contents_of(all.skip(i as int), name@),
            decreases self.contents@.len() - i,
        {
            assert(all[i as int] == (self.contents@[i as int].0@, self.contents@[i as int].1@));
            assert(all.skip(i as int)[0] == all[i as int]);
            assert(all.skip(i as int).skip(1) =~= all.skip(i + 1));
            if same_text(self.contents[i].0.as_str(), name) {
                return self.contents[i].1.as_slice();
            }
            i = i + 1;
        }
        let none: &[u8] = &[];
        assert(none@ =~= Seq::<u8>::empty());
        assert(all.skip(i as int).len() == 0);
        none
    }
}

/// Whether [`object::File::parse`] takes a file, and for little endian, or what
/// it says against it.
pub uninterp spec fn object_parsed(data: Seq<u8>) -> Result<bool, Seq<char>>;

/// [`object::File::parse`] and the file's `is_little_endian`; the error is the
/// text it shows. The crate is built to read ELF files alone.
#[verifier::external_body]
pub(crate) fn parse_object(data: &[u8]) -> (r: Result<bool, String>)
    ensures
        object_parsed(data@) == (match r {
            Ok(little) => Ok(little),
            Err(text) => Err(text@),
        }),
{
    match object::File::parse(data) {
        Ok(file) => Ok(file.is_little_endian()),
        Err(error) => Err(error.to_string()),
    }
}

/// The contents that the section with this name has in an object file.
pub uninterp spec fn object_section(data: Seq<u8>, name: Seq<char>) -> Option<Seq<u8>>;

/// `section_by_name` of an [`object::File`], and the section's `data`: nothing
/// where the file cannot be parsed, has no such section or the section cannot be
/// read. The crate is built to read ELF files alone.
#[verifier::external_body]
pub(crate) fn read_section(data: &[u8], name: &str) -> (r: Option<Vec<u8>>)
    ensures
        object_section(data@, name@) == (match r {
            Some(bytes) => Some(bytes@),
            None => None,
        }),
{
    Some(object::File::parse(data).ok()?.section_by_name(name)?.data().ok()?.to_vec())
}

/// Where the units of a `.debug_info` section start, as far as their headers
/// can be read, and what is wrong with the one after them.
pub uninterp spec fn unit_offsets_in(info: Seq<u8>, little: bool) -> (
    Seq<usize>,
    Option<Seq<char>>,
);

/// Every `next` of [`gimli::DebugInfo::units`]: the offsets of the units it
/// gives, and the text of the error that ends it, if one does.
#[verifier::external_body]
pub(crate) fn unit_offsets(info: &[u8], little: bool) -> (r: (Vec<usize>, Option<String>))
    ensures
        unit_offsets_in(info@, little) == (
            r.0@,
            match r.1 {
                Some(text) => Some(text@),
                None => None,
            },
        ),
{
    let endian = if little { Little } else { Big };
    let mut units = DebugInfo::new(info, endian).units();
    let mut offsets = Vec::new();
    loop {
        match units.next() {
            Ok(Some(unit)) => offsets.extend(unit.offset().as_debug_info_offset().map(|at| at.0)),
            Ok(None) => return (offsets, None),
            Err(error) => return (offsets, Some(error.to_string())),
        }
    }
}

/// What is wrong with the unit at this offset, if something is.
pub uninterp spec fn unit_fault(s: SectionsView, unit: usize) -> Option<Seq<char>>;

/// [`gimli::Dwarf::unit`] on the header at this offset; the text of its error. It
/// looks up what the root names by an index, so those indices have to fit.
#[verifier::external_body]
pub(crate) fn unit_error(s: &Sections, unit: usize) -> (r: Option<String>)
    requires
        root_fits(s@, unit),
    ensures
        unit_fault(s@, unit) == (match r {
            Some(text) => Some(text@),
            None => None,
        }),
{
    let e = if s.little_endian { Little } else { Big };
    let read = |id: SectionId| Ok(EndianSlice::new(s.section(id.name()), e));
    Dwarf::load(read)
        .and_then(|d| d.unit(d.debug_info.header_from_offset(DebugInfoOffset(unit))?).map(|_| ()))
        .err()
        .map(|error: gimli::Error| error.to_string())
}

/// What a table of abbreviations holds: for each code its tag, whether entries
/// have children, and its attributes with their forms and implicit constants.
pub type AbbrevMap = Map<u64, (u16, bool, Seq<(u16, u16, i64)>)>;

/// A table of abbreviations, as gimli keeps it.
#[verifier::external_type_specification]
#[verifier::external_body]
pub struct ExAbbreviations(gimli::Abbreviations);

/// What this table of abbreviations holds.
pub uninterp spec fn abbreviations_of(a: gimli::Abbreviations) -> AbbrevMap;

/// The abbreviations that the unit at this offset uses.
pub uninterp spec fn abbreviations_at(
    info: Seq<u8>,
    abbrev: Seq<u8>,
    little: bool,
    unit: usize,
) -> Option<AbbrevMap>;

/// [`gimli::UnitHeader::abbreviations`] of the header at this offset.
#[verifier::external_body]
pub(crate) fn abbreviations(info: &[u8], abbrev: &[u8], little: bool, unit: usize) -> (r: Option<
    Abbreviations,
>)
    ensures
        abbreviations_at(info@, abbrev@, little, unit) == (match r {
            Some(a) => Some(abbreviations_of(a)),
            None => None,
        }),
{
    let e = if little { Little } else { Big };
    let header = DebugInfo::new(info, e).header_from_offset(DebugInfoOffset(unit)).ok()?;
    header.abbreviations(&DebugAbbrev::new(abbrev, e)).ok()
}

/// What the header of a unit says: how long it is, and the sizes of offsets and
/// of addresses.
#[derive(Copy, Clone, Debug)]
pub struct UnitHeader {
    pub size: usize,
    pub word_size: u8,
    pub address_size: u8,
}

/// The header of the unit at this offset.
pub uninterp spec fn unit_header_at(info: Seq<u8>, little: bool, unit: usize) -> Option<UnitHeader>;

/// `header_size`, the `word_size` of the `format` and the `address_size` of the
/// [`gimli::UnitHeader`] at this offset.
#[verifier::external_body]
pub(crate) fn unit_header(info: &[u8], little: bool, unit: usize) -> (r: Option<UnitHeader>)
    ensures
        r == unit_header_at(info@, little, unit),
{
    let info = DebugInfo::new(info, if little { Little } else { Big });
    let header = info.header_from_offset(DebugInfoOffset(unit)).ok()?;
    Some(UnitHeader {
        size: header.header_size(),
        word_size: header.format().word_size(),
        address_size: header.address_size(),
    })
}

/// Where the attributes of the entry at this offset of a unit end, or what is
/// wrong with them; nothing where there is no entry.
pub uninterp spec fn entry_end_at(
    info: Seq<u8>,
    a: AbbrevMap,
    little: bool,
    unit: usize,
    at: usize,
) -> Option<Result<usize, Seq<char>>>;

/// `read_abbreviation` of [`gimli::UnitHeader::entries_raw`] at this offset, then
/// `skip_attributes` for each of its attributes alone: the `next_offset` after
/// them, or the text of the first error. An entry takes at least a byte and ends
/// within the section.
#[verifier::external_body]
pub(crate) fn entry_end(info: &[u8], a: &Abbreviations, little: bool, unit: usize, at: usize) -> (r:
    Option<Result<usize, String>>)
    ensures
        entry_end_at(info@, abbreviations_of(*a), little, unit, at) == (match r {
            Some(Ok(end)) => Some(Ok(end)),
            Some(Err(text)) => Some(Err(text@)),
            None => None,
        }),
        r matches Some(Ok(end)) ==> at < end <= info@.len(),
{
    let info = DebugInfo::new(info, if little { Little } else { Big });
    let header = info.header_from_offset(DebugInfoOffset(unit)).ok()?;
    let mut raw = header.entries_raw(a, Some(UnitOffset(at))).ok()?;
    if let Some(abbreviation) = raw.read_abbreviation().ok()? {
        for spec in abbreviation.attributes() {
            if let Err(error) = raw.skip_attributes(&[*spec]) {
                return Some(Err(error.to_string()));
            }
        }
    }
    Some(Ok(raw.next_offset().0))
}

/// What is wrong with the attributes of the first entry, from this offset of a
/// unit on, whose end cannot be found.
pub open spec fn skip_fault(info: Seq<u8>, a: AbbrevMap, little: bool, unit: usize, at: usize) -> Option<
    Seq<char>,
>
    decreases info.len() - at,
{
    match entry_end_at(info, a, little, unit, at) {
        Some(Ok(end)) => if at < end <= info.len() {
            skip_fault(info, a, little, unit, end)
        } else {
            None
        },
        Some(Err(text)) => Some(text),
        None => None,
    }
}

/// What is wrong with the attributes of the first entry of a unit whose end
/// cannot be found.
pub open spec fn unit_skip_fault(info: Seq<u8>, a: AbbrevMap, little: bool, unit: usize) -> Option<
    Seq<char>,
> {
    match unit_header_at(info, little, unit) {
        Some(header) => skip_fault(info, a, little, unit, header.size),
        None => None,
    }
}

/// The entries of a unit, parents before children: each with its offset, how
/// much deeper it stands than the one before, and its tag; and what is wrong
/// with the one after them.
pub uninterp spec fn entries_at(
    info: Seq<u8>,
    a: AbbrevMap,
    little: bool,
    unit: usize,
) -> (Seq<(usize, isize, u16)>, Option<Seq<char>>);

/// Every `next_dfs` of [`gimli::UnitHeader::entries`]: what it gives, and the
/// text of the error that ends it, if one does. Without a header there is
/// nothing. Left out are units in which an attribute ends past the unit: gimli
/// adds up lengths before it looks where they end.
#[verifier::external_body]
pub(crate) fn entries(info: &[u8], a: &Abbreviations, little: bool, unit: usize) -> (r: (
    Vec<(usize, isize, u16)>,
    Option<String>,
))
    requires
        unit_skip_fault(info@, abbreviations_of(*a), little, unit) is None,
    ensures
        entries_at(info@, abbreviations_of(*a), little, unit) == (
            r.0@,
            match r.1 {
                Some(text) => Some(text@),
                None => None,
            },
        ),
{
    let e = if little { Little } else { Big };
    let info = DebugInfo::new(info, e);
    let mut out = Vec::new();
    if let Ok(header) = info.header_from_offset(DebugInfoOffset(unit)) {
        let mut cursor = header.entries(a);
        loop {
            match cursor.next_dfs() {
                Ok(Some((delta, die))) => out.push((die.offset().0, delta, die.tag().0)),
                Ok(None) => return (out, None),
                Err(error) => return (out, Some(error.to_string())),
            }
        }
    }
    (out, None)
}

/// Where the first entry of a unit stands that is not null.
pub uninterp spec fn root_at(info: Seq<u8>, a: AbbrevMap, little: bool, unit: usize) -> Option<usize>;

/// The first `next_dfs` of [`gimli::UnitHeader::entries`], which goes past null
/// entries and reads no attribute: the offset of the entry it gives.
#[verifier::external_body]
pub(crate) fn root(info: &[u8], a: &Abbreviations, little: bool, unit: usize) -> (r: Option<usize>)
    ensures
        r == root_at(info@, abbreviations_of(*a), little, unit),
{
    let info = DebugInfo::new(info, if little { Little } else { Big });
    let header = info.header_from_offset(DebugInfoOffset(unit)).ok()?;
    let mut cursor = header.entries(a);
    let (_, die) = cursor.next_dfs().ok()??;
    Some(die.offset().0)
}

/// An attribute by the number it holds.
#[derive(Copy, Clone, Debug)]
pub enum Number {
    Signed(i64),
    Switch(bool),
    Encoded(u8),
    Virtual,
    File(u64),
    Address(u64),
    Unsigned(u64),
    NoNumber,
}

/// The attributes of the entry at this offset of a unit, as far as they can be
/// read: each with its name and the number it holds.
pub uninterp spec fn numbers_at(
    info: Seq<u8>,
    a: AbbrevMap,
    little: bool,
    unit: usize,
    at: usize,
) -> Option<Seq<(u16, Number)>>;

/// The `value` of every attribute in [`gimli::DebuggingInformationEntry::attrs`],
/// up to the first that cannot be read, by the number it holds: what
/// [`gimli::AttributeValue::udata_value`] gives is unsigned, but for signed
/// constants. There is nothing where no entry can be read.
#[verifier::external_body]
pub(crate) fn numbers(info: &[u8], a: &Abbreviations, little: bool, unit: usize, at: usize) -> (r:
    Option<Vec<(u16, Number)>>)
    ensures
        numbers_at(info@, abbreviations_of(*a), little, unit, at) == (match r {
            Some(all) => Some(all@),
            None => None,
        }),
{
    let info = DebugInfo::new(info, if little { Little } else { Big });
    let header = info.header_from_offset(DebugInfoOffset(unit)).ok()?;
    let die = header.entry(a, UnitOffset(at)).ok()?;
    let mut attrs = die.attrs();
    let mut out = vec![];
    while let Ok(Some(attr)) = attrs.next() { out.push((attr.name().0, match attr.value() {
            Sdata(v) => Signed(v),
            Flag(v) => Switch(v),
            Encoding(v) => Encoded(v.0),
            Virtuality(_) => Virtual,
            FileIndex(v) => File(v),
            Addr(v) => Address(v),
            other => other.udata_value().map_or(NoNumber, Unsigned) })); }
    Some(out)
}

/// An attribute by the place in a section that it holds.
#[derive(Copy, Clone, Debug)]
pub enum Place {
    InUnit(usize),
    InInfo(usize),
    InText(usize),
    TextIndex(usize),
    AddressIndex(usize),
    ListAt(usize),
    ListIndex(usize),
    NoPlace,
}

/// The places that the attributes of the entry at this offset of a unit hold,
/// as far as they can be read.
pub uninterp spec fn places_at(
    info: Seq<u8>,
    a: AbbrevMap,
    little: bool,
    unit: usize,
    at: usize,
) -> Option<Seq<Place>>;

/// The `value` of every attribute in [`gimli::DebuggingInformationEntry::attrs`],
/// up to the first that cannot be read, by the place it holds. There is nothing
/// where no entry can be read.
#[verifier::external_body]
pub(crate) fn places(info: &[u8], a: &Abbreviations, little: bool, unit: usize, at: usize) -> (r:
    Option<Vec<Place>>)
    ensures
        places_at(info@, abbreviations_of(*a), little, unit, at) == (match r {
            Some(all) => Some(all@),
            None => None,
        }),
{
    let info = DebugInfo::new(info, if little { Little } else { Big });
    let header = info.header_from_offset(DebugInfoOffset(unit)).ok()?;
    let die = header.entry(a, UnitOffset(at)).ok()?;
    let mut attrs = die.attrs();
    let mut out = vec![];
    while let Ok(Some(attr)) = attrs.next() { out.push(match attr.value() {
            UnitRef(v) => InUnit(v.0),
            DebugInfoRef(v) => InInfo(v.0),
            DebugStrRef(v) => InText(v.0),
            StrIndexRef(v) => TextIndex(v.0),
            AddrIndexRef(v) => AddressIndex(v.0),
            LocationListsRef(v) => ListAt(v.0),
            ListIndexRef(v) => ListIndex(v.0),
            _ => NoPlace }) }
    Some(out)
}

/// Whether an index into a table of entries of this size stands for a place that
/// 64 bits can hold.
pub open spec fn index_fits(index: usize, size: u8) -> bool {
    index * size <= u64::MAX
}

/// Whether an index of a text, in the unit at this offset, stands for a place
/// that 64 bits can hold.
pub open spec fn text_index_fits(info: Seq<u8>, little: bool, unit: usize, index: usize) -> bool {
    match unit_header_at(info, little, unit) {
        Some(header) => index_fits(index, header.word_size),
        None => true,
    }
}

/// Whether an index of an address, in the unit at this offset, stands for a place
/// that 64 bits can hold.
pub open spec fn address_index_fits(info: Seq<u8>, little: bool, unit: usize, index: usize) -> bool {
    match unit_header_at(info, little, unit) {
        Some(header) => index_fits(index, header.address_size),
        None => true,
    }
}

/// Whether an attribute of a unit's root is no index, or one that fits. Its name,
/// its directory and its lowest address are looked up with the unit.
pub open spec fn root_place_fits(header: UnitHeader, name: u16, place: Place) -> bool {
    match place {
        TextIndex(index) => (name == AT_NAME || name == AT_COMP_DIR) ==> index_fits(
            index,
            header.word_size,
        ),
        AddressIndex(index) => name == AT_LOW_PC ==> index_fits(index, header.address_size),
        _ => true,
    }
}

/// Whether the attributes of a unit's root, with these names and places, fit.
pub open spec fn root_places_fit(
    header: UnitHeader,
    numbers: Seq<(u16, Number)>,
    places: Seq<Place>,
) -> bool {
    forall|j: int|
        0 <= j < numbers.len() && j < places.len() ==> root_place_fits(
            header,
            (#[trigger] numbers[j]).0,
            places[j],
        )
}

/// Whether the indices that the root of the unit at this offset holds fit. The
/// root is the first entry that is not null; a unit without one holds none.
pub open spec fn root_fits(s: SectionsView, unit: usize) -> bool {
    let info = s.section(".debug_info"@);
    let little = s.little_endian;
    match (
        unit_header_at(info, little, unit),
        abbreviations_at(info, s.section(".debug_abbrev"@), little, unit),
    ) {
        (Some(header), Some(a)) => match root_at(info, a, little, unit) {
            Some(at) => match (
                numbers_at(info, a, little, unit, at),
                places_at(info, a, little, unit, at),
            ) {
                (Some(numbers), Some(places)) => root_places_fit(header, numbers, places),
                _ => false,
            },
            None => true,
        },
        _ => true,
    }
}

/// An attribute by the bytes it holds.
#[derive(Debug)]
pub enum Bytes {
    Code(Vec<u8>),
    Raw(Vec<u8>),
    Text(Vec<u8>),
    NoBytes,
}

/// What bytes an attribute holds.
#[verifier::ext_equal]
pub enum BytesView {
    Code(Seq<u8>),
    Raw(Seq<u8>),
    Text(Seq<u8>),
    NoBytes,
}

impl View for Bytes {
    type V = BytesView;

    open spec fn view(&self) -> BytesView {
        match self {
            Bytes::Code(b) => BytesView::Code(b@),
            Bytes::Raw(b) => BytesView::Raw(b@),
            Bytes::Text(b) => BytesView::Text(b@),
            Bytes::NoBytes => BytesView::NoBytes,
        }
    }
}

/// The bytes that the attributes of the entry at this offset of a unit hold, as
/// far as they can be read.
pub uninterp spec fn bytes_at(
    info: Seq<u8>,
    a: AbbrevMap,
    little: bool,
    unit: usize,
    at: usize,
) -> Option<Seq<BytesView>>;

/// The `value` of every attribute in [`gimli::DebuggingInformationEntry::attrs`],
/// up to the first that cannot be read, by the bytes it holds. There is nothing
/// where no entry can be read.
#[verifier::external_body]
pub(crate) fn bytes(info: &[u8], a: &Abbreviations, little: bool, unit: usize, at: usize) -> (r:
    Option<Vec<Bytes>>)
    ensures
        bytes_at(info@, abbreviations_of(*a), little, unit, at) == (match r {
            Some(all) => Some(all@.map_values(|b: Bytes| b@)),
            None => None,
        }),
{
    let info = DebugInfo::new(info, if little { Little } else { Big });
    let header = info.header_from_offset(DebugInfoOffset(unit)).ok()?;
    let die = header.entry(a, UnitOffset(at)).ok()?;
    let mut attrs = die.attrs();
    let mut out = vec![];
    while let Ok(Some(attr)) = attrs.next() {
        out.push(match attr.value() {
            Exprloc(v) => Bytes::Code(v.0.to_vec()),
            Block(v) => Bytes::Raw(v.to_vec()),
            AttributeValue::String(v) => Bytes::Text(v.to_vec()),
            _ => Bytes::NoBytes,
        });
    }
    Some(out)
}

/// The language that a unit's root entry names.
pub uninterp spec fn language_at(
    info: Seq<u8>,
    a: AbbrevMap,
    little: bool,
    unit: usize,
) -> Option<u16>;

/// `DW_AT_language` of the root of [`gimli::UnitHeader::entries_tree`], where it
/// is a language.
#[verifier::external_body]
pub(crate) fn language(info: &[u8], a: &Abbreviations, little: bool, unit: usize) -> (r: Option<u16>)
    ensures
        r == language_at(info@, abbreviations_of(*a), little, unit),
{
    let info = DebugInfo::new(info, if little { Little } else { Big });
    let header = info.header_from_offset(DebugInfoOffset(unit)).ok()?;
    let mut tree = header.entries_tree(a, None).ok()?;
    match tree.root().ok()?.entry().attr_value(gimli::DW_AT_language).ok()?? {
        AttributeValue::Language(language) => Some(language.0),
        _ => None,
    }
}

/// Where the location lists of a unit start, as the entry at this offset of it
/// says.
pub uninterp spec fn lists_base_at(
    info: Seq<u8>,
    a: AbbrevMap,
    little: bool,
    unit: usize,
    at: usize,
) -> Option<usize>;

/// `DW_AT_loclists_base` of [`gimli::UnitHeader::entry`], where it is a base.
#[verifier::external_body]
pub(crate) fn lists_base(info: &[u8], a: &Abbreviations, little: bool, unit: usize, at: usize) -> (r:
    Option<usize>)
    ensures
        r == lists_base_at(info@, abbreviations_of(*a), little, unit, at),
{
    let info = DebugInfo::new(info, if little { Little } else { Big });
    let header = info.header_from_offset(DebugInfoOffset(unit)).ok()?;
    let die = header.entry(a, UnitOffset(at)).ok()?;
    match die.attr_value(gimli::DW_AT_loclists_base).ok()?? {
        AttributeValue::DebugLocListsBase(base) => Some(base.0),
        _ => None,
    }
}

/// The text with this index, of a unit.
pub uninterp spec fn text_at_index(s: SectionsView, unit: usize, index: usize) -> Option<Seq<u8>>;

/// [`gimli::Dwarf::attr_string`] of an index into `.debug_str_offsets`, which
/// gimli multiplies by the size of an offset.
#[verifier::external_body]
pub(crate) fn indexed_text(s: &Sections, unit: usize, index: usize) -> (r: Option<Vec<u8>>)
    requires
        root_fits(s@, unit),
        text_index_fits(s@.section(".debug_info"@), s@.little_endian, unit, index),
    ensures
        text_at_index(s@, unit, index) == (match r {
            Some(bytes) => Some(bytes@),
            None => None,
        }),
{
    let e = if s.little_endian { Little } else { Big };
    let read = |id: SectionId| Ok(EndianSlice::new(s.section(id.name()), e));
    let d = Dwarf::load::<_, gimli::Error>(read).ok()?;
    let u = d.unit(d.debug_info.header_from_offset(DebugInfoOffset(unit)).ok()?).ok()?;
    let attr = AttributeValue::DebugStrOffsetsIndex(DebugStrOffsetsIndex(index));
    Some(d.attr_string(&u, attr).ok()?.to_vec())
}

/// The address with this index, of a unit.
pub uninterp spec fn address_at_index(s: SectionsView, unit: usize, index: usize) -> Option<u64>;

/// [`gimli::Dwarf::address`] of an index into `.debug_addr`, which gimli multiplies
/// by the size of an address.
#[verifier::external_body]
pub(crate) fn indexed_address(s: &Sections, unit: usize, index: usize) -> (r: Option<u64>)
    requires
        root_fits(s@, unit),
        address_index_fits(s@.section(".debug_info"@), s@.little_endian, unit, index),
    ensures
        r == address_at_index(s@, unit, index),
{
    let e = if s.little_endian { Little } else { Big };
    let read = |id: SectionId| Ok(EndianSlice::new(s.section(id.name()), e));
    let d = Dwarf::load::<_, gimli::Error>(read).ok()?;
    let u = d.unit(d.debug_info.header_from_offset(DebugInfoOffset(unit)).ok()?).ok()?;
    d.address(&u, DebugAddrIndex(index)).ok()
}

/// How far behind the start of a unit's location lists the one with this index
/// starts.
pub uninterp spec fn list_at_index(
    info: Seq<u8>,
    lists: Seq<u8>,
    little: bool,
    unit: usize,
    index: usize,
) -> Option<usize>;

/// [`gimli::LocationLists::get_offset`] with the encoding of the unit at this
/// offset, on a `.debug_loclists` section from where the unit's lists start, so
/// with a base of zero.
#[verifier::external_body]
pub(crate) fn indexed_list(
    info: &[u8],
    lists: &[u8],
    little: bool,
    unit: usize,
    index: usize,
) -> (r: Option<usize>)
    requires
        text_index_fits(info@, little, unit, index),
    ensures
        r == list_at_index(info@, lists@, little, unit, index),
{
    let e = if little { Little } else { Big };
    let header = DebugInfo::new(info, e).header_from_offset(DebugInfoOffset(unit)).ok()?;
    let lists = LocationLists::new(DebugLoc::new(&[], e), DebugLocLists::new(lists, e));
    let (base, index) = (gimli::DebugLocListsBase(0), DebugLocListsIndex(index));
    Some(lists.get_offset(header.encoding(), base, index).ok()?.0)
}

/// The contents of several byte strings.
pub open spec fn contents_views(all: Seq<Vec<u8>>) -> Seq<Seq<u8>> {
    all.map_values(|b: Vec<u8>| b@)
}

/// The indices of addresses in each entry of the location list at this offset, as
/// far as it can be read.
pub uninterp spec fn list_indices_at(
    info: Seq<u8>,
    loc: Seq<u8>,
    lists: Seq<u8>,
    little: bool,
    unit: usize,
    offset: usize,
) -> Option<Seq<(usize, usize)>>;

/// Every `next` of [`gimli::LocationLists::raw_locations`] with the encoding of
/// the unit at this offset, up to the first error: the indices of addresses that
/// the entry holds, with zero where it has none. There is nothing where the list
/// cannot be opened.
#[verifier::external_body]
pub(crate) fn list_indices(
    info: &[u8],
    loc: &[u8],
    lists: &[u8],
    little: bool,
    unit: usize,
    offset: usize,
) -> (r: Option<Vec<(usize, usize)>>)
    ensures
        list_indices_at(info@, loc@, lists@, little, unit, offset) == (match r {
            Some(all) => Some(all@),
            None => None,
        }),
{
    let e = if little { Little } else { Big };
    let header = DebugInfo::new(info, e).header_from_offset(DebugInfoOffset(unit)).ok()?;
    let all = LocationLists::new(DebugLoc::new(loc, e), DebugLocLists::new(lists, e));
    let mut list = all.raw_locations(LocationListsOffset(offset), header.encoding()).ok()?;
    let mut out = vec![];
    while let Ok(Some(entry)) = list.next() {
        out.push(match entry {
            BaseAddressx { addr } => (addr.0, 0),
            StartxEndx { begin, end, .. } => (begin.0, end.0),
            StartxLength { begin, .. } => (begin.0, 0),
            _ => (0, 0),
        });
    }
    Some(out)
}

/// The indices of addresses in each entry of the location list at this offset of
/// a unit, as far as it can be read.
pub open spec fn indices_in_list(s: SectionsView, unit: usize, offset: usize) -> Option<
    Seq<(usize, usize)>,
> {
    list_indices_at(
        s.section(".debug_info"@),
        s.section(".debug_loc"@),
        s.section(".debug_loclists"@),
        s.little_endian,
        unit,
        offset,
    )
}

/// The expressions of the first entries of the location list at this offset, as
/// far as they can be read.
pub uninterp spec fn list_expressions_at(
    s: SectionsView,
    unit: usize,
    offset: usize,
    count: usize,
) -> Option<Seq<Seq<u8>>>;

/// `next_raw` and `convert_raw` of [`gimli::Dwarf::locations`], which make up its
/// `next`, so many times and up to the first error: the expressions. There is
/// nothing where the list cannot be opened.
#[verifier::external_body]
pub(crate) fn list_expressions(s: &Sections, unit: usize, offset: usize, count: usize) -> (r: Option<
    Vec<Vec<u8>>,
>)
    requires
        root_fits(s@, unit),
        entries_fit(s@, unit, indices_in_list(s@, unit, offset), count),
    ensures
        list_expressions_at(s@, unit, offset, count) == (match r {
            Some(all) => Some(contents_views(all@)),
            None => None,
        }),
{
    let e = if s.little_endian { Little } else { Big };
    let read = |id: SectionId| Ok(EndianSlice::new(s.section(id.name()), e));
    let d = Dwarf::load::<_, gimli::Error>(read).ok()?;
    let u = d.unit(d.debug_info.header_from_offset(DebugInfoOffset(unit)).ok()?).ok()?;
    let mut list = d.locations(&u, LocationListsOffset(offset)).ok()?;
    let mut out = vec![];
    for _ in 0..count {
        let Ok(Some(raw)) = list.next_raw() else { break };
        let Ok(entry) = list.convert_raw(raw) else { break };
        out.extend(entry.map(|x| x.data.0.to_vec()));
    }
    Some(out)
}

/// Whether the indices of addresses in the first entries of a location list fit.
pub open spec fn entries_fit(
    s: SectionsView,
    unit: usize,
    indices: Option<Seq<(usize, usize)>>,
    count: usize,
) -> bool {
    match indices {
        Some(indices) => forall|k: int|
            0 <= k < count && k < indices.len() ==> list_entry_fits(s, unit, #[trigger] indices[k]),
        None => true,
    }
}

/// Whether the indices of addresses in an entry of a location list fit.
pub open spec fn list_entry_fits(s: SectionsView, unit: usize, indices: (usize, usize)) -> bool {
    let info = s.section(".debug_info"@);
    &&& address_index_fits(info, s.little_endian, unit, indices.0)
    &&& address_index_fits(info, s.little_endian, unit, indices.1)
}

/// Where a line program keeps a text.
#[derive(Debug)]
pub enum FileText {
    Inline(Vec<u8>),
    AtText(usize),
    AtLineText(usize),
    Indexed(usize),
    Unknown,
}

/// Where a line program keeps a text, and what it holds there.
#[verifier::ext_equal]
pub enum FileTextView {
    Inline(Seq<u8>),
    AtText(usize),
    AtLineText(usize),
    Indexed(usize),
    Unknown,
}

impl View for FileText {
    type V = FileTextView;

    open spec fn view(&self) -> FileTextView {
        match self {
            FileText::Inline(b) => FileTextView::Inline(b@),
            FileText::AtText(at) => FileTextView::AtText(*at),
            FileText::AtLineText(at) => FileTextView::AtLineText(*at),
            FileText::Indexed(index) => FileTextView::Indexed(*index),
            FileText::Unknown => FileTextView::Unknown,
        }
    }
}

/// Where the name of the file with this index in a unit's line program is.
pub uninterp spec fn file_name_at(s: SectionsView, unit: usize, index: u64) -> Option<FileTextView>;

/// [`gimli::LineProgramHeader::file`] of a unit's line program, and its
/// `path_name`.
#[verifier::external_body]
pub(crate) fn line_file_name(s: &Sections, unit: usize, index: u64) -> (r: Option<FileText>)
    requires
        root_fits(s@, unit),
    ensures
        file_name_at(s@, unit, index) == (match r {
            Some(text) => Some(text@),
            None => None,
        }),
{
    let e = if s.little_endian { Little } else { Big };
    let read = |id: SectionId| Ok(EndianSlice::new(s.section(id.name()), e));
    let d = Dwarf::load::<_, gimli::Error>(read).ok()?;
    let u = d.unit(d.debug_info.header_from_offset(DebugInfoOffset(unit)).ok()?).ok()?;
    let header = u.line_program.as_ref()?.header();
    Some(match header.file(index)?.path_name() {
        InlineRef(v) => Inline(v.to_vec()),
        DebugStrRef(v) => AtText(v.0),
        DebugLineStrRef(v) => AtLineText(v.0),
        StrIndexRef(v) => Indexed(v.0),
        _ => Unknown,
    })
}

/// Where the directory of the file with this index in a unit's line program is.
pub uninterp spec fn file_directory_at(s: SectionsView, unit: usize, index: u64) -> Option<FileTextView>;

/// [`gimli::LineProgramHeader::file`] of a unit's line program, and its
/// `directory`.
#[verifier::external_body]
pub(crate) fn line_file_directory(s: &Sections, unit: usize, index: u64) -> (r: Option<FileText>)
    requires
        root_fits(s@, unit),
    ensures
        file_directory_at(s@, unit, index) == (match r {
            Some(text) => Some(text@),
            None => None,
        }),
{
    let e = if s.little_endian { Little } else { Big };
    let read = |id: SectionId| Ok(EndianSlice::new(s.section(id.name()), e));
    let d = Dwarf::load::<_, gimli::Error>(read).ok()?;
    let u = d.unit(d.debug_info.header_from_offset(DebugInfoOffset(unit)).ok()?).ok()?;
    let header = u.line_program.as_ref()?.header();
    Some(match header.file(index)?.directory(header)? {
        InlineRef(v) => Inline(v.to_vec()),
        DebugStrRef(v) => AtText(v.0),
        DebugLineStrRef(v) => AtLineText(v.0),
        StrIndexRef(v) => Indexed(v.0),
        _ => Unknown,
    })
}

} // verus!
