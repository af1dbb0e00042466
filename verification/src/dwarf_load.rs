//! Loads the entries of an object file's DWARF units as plain values.

use vstd::prelude::*;
use vstd::string::*;
use crate::bytes::copy_range;
use crate::def_view::LocationView;
use crate::die::{
    find_attr, Attr, Die, UnitInfo, Value, AT_DATA_MEMBER_LOCATION, AT_DECL_FILE, AT_DECL_LINE,
    AT_LOCATION, LANGUAGE_RUST, TAG_MEMBER, TAG_VARIABLE,
};
#[allow(unused_imports)]
use crate::die::{attr_in, attrs_of, dies_of, DieView, UnitView, ValueView};
#[allow(unused_imports)]
use crate::dwarf_eval::{location_status, member_offset};
use crate::dwarf_eval::{evaluate_location_to_status, get_member_offset};
use crate::dwarf_index::{find_file, find_indexed_text, root_is_readable};
#[allow(unused_imports)]
use crate::dwarf_index::{file_of, indexed_text_of};
use crate::dwarf_parser::{DwarfParseResult, DwarfParser};
#[allow(unused_imports)]
use crate::dwarf_parser::parsed;
use crate::dwarf_source::{
    abbreviations, bytes, entries, entry_end, language, numbers, parse_object, places, read_section,
    unit_error, unit_header, unit_offsets, Bytes, FileText, Number, Place, Sections,
};
#[allow(unused_imports)]
use crate::dwarf_source::{
    abbreviations_at, abbreviations_of, bytes_at, entries_at, language_at, numbers_at,
    object_parsed, object_section, places_at, root_fits, skip_fault, unit_fault,
    unit_offsets_in, unit_skip_fault, AbbrevMap, BytesView, FileTextView, SectionsView,
};
use crate::host_wire::text_lossy;
#[allow(unused_imports)]
use crate::host_wire::lossy_text;
use crate::text::{starts_with, trim_end};
#[allow(unused_imports)]
use crate::text::{begins_with, trimmed_end};
use crate::type_def::SourceLocation;
use crate::variable_status::VariableStatus;
#[allow(unused_imports)]
use crate::variable_status::StatusView;

verus! {

/// The bytes at `at` before the next zero byte, where there is one.
pub open spec fn zero_ended(section: Seq<u8>, at: int) -> Option<Seq<u8>> {
    if 0 <= at <= section.len() && section.skip(at).contains(0u8) {
        Some(section.skip(at).take(section.skip(at).index_of_first(0u8)->0))
    } else {
        None
    }
}

/// The text at an offset of a string section, as far as the next zero byte.
pub fn text_at(section: &[u8], at: usize) -> (r: Option<String>)
    ensures
        match zero_ended(section@, at as int) {
            Some(found) => r is Some && r->0@ == lossy_text(found),
            None => r is None,
        },
{
    let len: usize = section.len();
    if at > len {
        return None;
    }
    let ghost rest = section@.skip(at as int);
    let mut end: usize = at;
    while end < len && section[end] != 0
        invariant
            at <= end <= len,
            len == section@.len(),
            rest == section@.skip(at as int),
            forall|k: int| 0 <= k < end - at ==> #[trigger] rest[k] != 0,
        decreases len - end,
    {
        end = end + 1;
    }
    if end == len {
        assert(!rest.contains(0u8));
        return None;
    }
    proof {
        rest.index_of_first_ensures(0u8);
        let k = rest.index_of_first(0u8)->0;
        assert(rest[end - at] == 0);
        assert(rest.contains(0u8));
        assert(k == end - at);
    }
    let found: &[u8] = vstd::slice::slice_subrange(section, at, end);
    assert(found@ =~= rest.take(end - at));
    Some(text_lossy(found))
}

/// An optional text as a value.
pub open spec fn text_value(bytes: Option<Seq<u8>>) -> ValueView {
    match bytes {
        Some(bytes) => ValueView::Text(lossy_text(bytes)),
        None => ValueView::Other,
    }
}

/// The value of an attribute that holds this number, place or these bytes.
pub open spec fn value_of(
    s: SectionsView,
    unit: usize,
    number: Number,
    place: Place,
    held: BytesView,
) -> ValueView {
    match number {
        Number::Signed(v) => ValueView::Signed(v),
        Number::Switch(v) => ValueView::Flag(v),
        Number::Encoded(v) => ValueView::Encoding(v),
        Number::Virtual => ValueView::Virtuality,
        Number::File(v) => ValueView::FileIndex(v),
        Number::Address(v) => ValueView::Address(v),
        Number::Unsigned(v) => ValueView::Unsigned(v),
        Number::NoNumber => match place {
            Place::InUnit(v) => ValueView::UnitRef(v),
            Place::InInfo(v) => ValueView::InfoRef(v),
            Place::InText(v) => text_value(zero_ended(s.section(".debug_str"@), v as int)),
            Place::TextIndex(v) => text_value(indexed_text_of(s, unit, v)),
            Place::AddressIndex(v) => ValueView::AddressIndex(v),
            Place::ListAt(v) => ValueView::LocationList(v),
            Place::ListIndex(v) => ValueView::LocationListIndex(v),
            Place::NoPlace => match held {
                BytesView::Code(b) => ValueView::Expression(b),
                BytesView::Raw(b) => ValueView::Block(b),
                BytesView::Text(b) => ValueView::Text(lossy_text(b)),
                BytesView::NoBytes => ValueView::Other,
            },
        },
    }
}

fn copied(bytes: &Vec<u8>) -> (r: Vec<u8>)
    ensures
        r@ == bytes@,
{
    let r = copy_range(bytes.as_slice(), 0, bytes.len());
    assert(r@ =~= bytes@);
    r
}

fn load_value(s: &Sections, unit: usize, number: Number, place: Place, held: &Bytes) -> (r: Value)
    ensures
        r@ == value_of(s@, unit, number, place, held@),
{
    match number {
        Number::Signed(v) => Value::Signed(v),
        Number::Switch(v) => Value::Flag(v),
        Number::Encoded(v) => Value::Encoding(v),
        Number::Virtual => Value::Virtuality,
        Number::File(v) => Value::FileIndex(v),
        Number::Address(v) => Value::Address(v),
        Number::Unsigned(v) => Value::Unsigned(v),
        Number::NoNumber => match place {
            Place::InUnit(v) => Value::UnitRef(v),
            Place::InInfo(v) => Value::InfoRef(v),
            Place::InText(v) => match text_at(s.section(".debug_str"), v) {
                Some(text) => Value::Text(text),
                None => Value::Other,
            },
            Place::TextIndex(v) => match find_indexed_text(s, unit, v) {
                Some(found) => Value::Text(text_lossy(found.as_slice())),
                None => Value::Other,
            },
            Place::AddressIndex(v) => Value::AddressIndex(v),
            Place::ListAt(v) => Value::LocationList(v),
            Place::ListIndex(v) => Value::LocationListIndex(v),
            Place::NoPlace => match held {
                Bytes::Code(b) => Value::Expression(copied(b)),
                Bytes::Raw(b) => Value::Block(copied(b)),
                Bytes::Text(b) => Value::Text(text_lossy(b.as_slice())),
                Bytes::NoBytes => Value::Other,
            },
        },
    }
}

/// What the attributes of an entry say, from the numbers, places and bytes they
/// hold.
pub open spec fn joined(
    s: SectionsView,
    unit: usize,
    numbers: Seq<(u16, Number)>,
    places: Seq<Place>,
    held: Seq<BytesView>,
) -> Seq<(u16, ValueView)> {
    Seq::new(
        numbers.len(),
        |j: int|
            (
                numbers[j].0,
                value_of(
                    s,
                    unit,
                    numbers[j].1,
                    if j < places.len() {
                        places[j]
                    } else {
                        Place::NoPlace
                    },
                    if j < held.len() {
                        held[j]
                    } else {
                        BytesView::NoBytes
                    },
                ),
            ),
    )
}

/// The contents, or nothing.
pub open spec fn seq_or_empty<T>(s: Option<Seq<T>>) -> Seq<T> {
    match s {
        Some(s) => s,
        None => Seq::empty(),
    }
}

/// The attributes of the entry at this offset of a unit.
pub open spec fn attrs_at(s: SectionsView, a: AbbrevMap, unit: usize, at: usize) -> Seq<
    (u16, ValueView),
> {
    let info = s.section(".debug_info"@);
    joined(
        s,
        unit,
        seq_or_empty(numbers_at(info, a, s.little_endian, unit, at)),
        seq_or_empty(places_at(info, a, s.little_endian, unit, at)),
        seq_or_empty(bytes_at(info, a, s.little_endian, unit, at)),
    )
}

/// The attributes that hold these numbers, places and bytes.
pub fn join_attrs(
    s: &Sections,
    unit: usize,
    numbers: &[(u16, Number)],
    places: &[Place],
    held: &[Bytes],
) -> (r: Vec<Attr>)
    ensures
        attrs_of(r@) == joined(
            s@,
            unit,
            numbers@,
            places@,
            held@.map_values(|b: Bytes| b@),
        ),
{
    let ghost all = joined(s@, unit, numbers@, places@, held@.map_values(|b: Bytes| b@));
    let mut out: Vec<Attr> = Vec::new();
    let mut j: usize = 0;
    assert(attrs_of(out@) =~= all.take(0));
    while j < numbers.len()
        invariant
            j <= numbers@.len(),
            all == joined(s@, unit, numbers@, places@, held@.map_values(|b: Bytes| b@)),
            attrs_of(out@) == all.take(j as int),
        decreases numbers@.len() - j,
    {
        let place = if j < places.len() {
            places[j]
        } else {
            Place::NoPlace
        };
        let value = if j < held.len() {
            load_value(s, unit, numbers[j].1, place, &held[j])
        } else {
            load_value(s, unit, numbers[j].1, place, &Bytes::NoBytes)
        };
        let attr = Attr { name: numbers[j].0, value };
        let ghost before = out@;
        out.push(attr);
        j = j + 1;
        assert(attrs_of(out@) =~= attrs_of(before).push(attr@));
        assert(attrs_of(out@) =~= all.take(j as int));
    }
    assert(all.take(all.len() as int) =~= all);
    out
}

/// The attributes of the entry at this offset of a unit.
fn load_attrs(s: &Sections, a: &gimli::Abbreviations, unit: usize, at: usize) -> (r: Vec<Attr>)
    ensures
        attrs_of(r@) == attrs_at(s@, abbreviations_of(*a), unit, at),
{
    let info: &[u8] = s.section(".debug_info");
    let little: bool = s.little_endian;
    let numbers_held: Vec<(u16, Number)> = match numbers(info, a, little, unit, at) {
        Some(all) => all,
        None => Vec::new(),
    };
    let places_held: Vec<Place> = match places(info, a, little, unit, at) {
        Some(all) => all,
        None => Vec::new(),
    };
    let bytes_held: Vec<Bytes> = match bytes(info, a, little, unit, at) {
        Some(all) => all,
        None => Vec::new(),
    };
    proof {
        let an = abbreviations_of(*a);
        assert(numbers_held@ =~= seq_or_empty(numbers_at(info@, an, little, unit, at)));
        assert(places_held@ =~= seq_or_empty(places_at(info@, an, little, unit, at)));
        assert(bytes_held@.map_values(|b: Bytes| b@) =~= seq_or_empty(
            bytes_at(info@, an, little, unit, at),
        ));
    }
    join_attrs(
        s,
        unit,
        numbers_held.as_slice(),
        places_held.as_slice(),
        bytes_held.as_slice(),
    )
}

impl ValueView {
    /// A constant that is not negative.
    pub open spec fn natural(self) -> Option<u64> {
        match self {
            ValueView::Unsigned(v) => Some(v),
            ValueView::Signed(v) => if v >= 0 {
                Some(v as u64)
            } else {
                None
            },
            _ => None,
        }
    }

    /// The file that an attribute names.
    pub open spec fn file_index(self) -> Option<u64> {
        match self {
            ValueView::FileIndex(v) => Some(v),
            _ => self.natural(),
        }
    }
}

impl Value {
    fn natural(&self) -> (r: Option<u64>)
        ensures
            r == self@.natural(),
    {
        match self {
            Value::Unsigned(v) => Some(*v),
            Value::Signed(v) => if *v >= 0 {
                Some(*v as u64)
            } else {
                None
            },
            _ => None,
        }
    }

    fn file_index(&self) -> (r: Option<u64>)
        ensures
            r == self@.file_index(),
    {
        match self {
            Value::FileIndex(v) => Some(*v),
            _ => self.natural(),
        }
    }
}

/// The path of a file in a directory; an absolute one stands by itself.
pub open spec fn file_path(name: Seq<char>, dir: Option<Seq<char>>) -> Seq<char> {
    match dir {
        Some(dir) => if dir.len() > 0 && !begins_with(name, "/"@) {
            trimmed_end(dir, '/') + "/"@ + name
        } else {
            name
        },
        None => name,
    }
}

/// The path of a file in a directory; an absolute one stands by itself.
pub fn join_path(name: &str, dir: Option<&str>) -> (r: String)
    ensures
        r@ == file_path(
            name@,
            match dir {
                Some(dir) => Some(dir@),
                None => None,
            },
        ),
{
    if let Some(dir) = dir {
        if dir.unicode_len() > 0 && !starts_with(name, "/") {
            let mut out: String = trim_end(dir, '/').to_owned();
            out.append("/");
            out.append(name);
            return out;
        }
    }
    name.to_owned()
}

/// A text of a unit's line program.
pub open spec fn file_text(s: SectionsView, unit: usize, text: FileTextView) -> Option<Seq<char>> {
    let bytes = match text {
        FileTextView::Inline(bytes) => Some(bytes),
        FileTextView::AtText(at) => zero_ended(s.section(".debug_str"@), at as int),
        FileTextView::AtLineText(at) => zero_ended(s.section(".debug_line_str"@), at as int),
        FileTextView::Indexed(index) => indexed_text_of(s, unit, index),
        FileTextView::Unknown => None,
    };
    match bytes {
        Some(bytes) => Some(lossy_text(bytes)),
        None => None,
    }
}

fn load_file_text(s: &Sections, unit: usize, text: &FileText) -> (r: Option<String>)
    ensures
        file_text(s@, unit, text@) == crate::def_view::text_of(r),
{
    match text {
        FileText::Inline(bytes) => Some(text_lossy(bytes.as_slice())),
        FileText::AtText(at) => text_at(s.section(".debug_str"), *at),
        FileText::AtLineText(at) => text_at(s.section(".debug_line_str"), *at),
        FileText::Indexed(index) => match find_indexed_text(s, unit, *index) {
            Some(bytes) => Some(text_lossy(bytes.as_slice())),
            None => None,
        },
        FileText::Unknown => None,
    }
}

/// Where a file of a line program stands, by its name and its directory.
pub open spec fn path_at_index(s: SectionsView, unit: usize, index: u64) -> Option<Seq<char>> {
    match file_of(s, unit, index) {
        (Some(name), dir) => match file_text(s, unit, name) {
            Some(name) => Some(
                file_path(
                    name,
                    match dir {
                        Some(dir) => file_text(s, unit, dir),
                        None => None,
                    },
                ),
            ),
            None => None,
        },
        (None, _) => None,
    }
}

fn load_path(s: &Sections, unit: usize, index: u64) -> (r: Option<String>)
    ensures
        path_at_index(s@, unit, index) == crate::def_view::text_of(r),
{
    let (name, dir): (FileText, Option<FileText>) = match find_file(s, unit, index) {
        (Some(name), dir) => (name, dir),
        (None, _) => {
            return None;
        },
    };
    let name: String = match load_file_text(s, unit, &name) {
        Some(name) => name,
        None => {
            return None;
        },
    };
    if let Some(dir) = dir {
        if let Some(dir) = load_file_text(s, unit, &dir) {
            return Some(join_path(name.as_str(), Some(dir.as_str())));
        }
    }
    Some(join_path(name.as_str(), None))
}

/// Where `DW_AT_decl_file` and `DW_AT_decl_line` say that an entry is declared.
pub open spec fn declared_at(s: SectionsView, unit: usize, attrs: Seq<(u16, ValueView)>) -> Option<
    LocationView,
> {
    match (attr_in(attrs, AT_DECL_LINE), attr_in(attrs, AT_DECL_FILE)) {
        (Some(line), Some(file)) => match (line.natural(), file.file_index()) {
            (Some(line), Some(index)) => match path_at_index(s, unit, index) {
                Some(file) => Some(LocationView { file, line }),
                None => None,
            },
            _ => None,
        },
        _ => None,
    }
}

/// `DW_AT_decl_file` and `DW_AT_decl_line`, the file named through the unit's
/// line program.
fn decl_location(s: &Sections, unit: usize, attrs: &Vec<Attr>) -> (r: Option<SourceLocation>)
    ensures
        declared_at(s@, unit, attrs_of(attrs@)) == crate::def_view::location_of(r),
{
    match (find_attr(attrs, AT_DECL_LINE), find_attr(attrs, AT_DECL_FILE)) {
        (Some(line), Some(file)) => match (line.natural(), file.file_index()) {
            (Some(line), Some(index)) => match load_path(s, unit, index) {
                Some(file) => Some(SourceLocation { file, line }),
                None => None,
            },
            _ => None,
        },
        _ => None,
    }
}

/// An entry with this tag and these attributes, at this place.
pub open spec fn die_with(
    s: SectionsView,
    unit: usize,
    offset: usize,
    depth: i64,
    tag: u16,
    attrs: Seq<(u16, ValueView)>,
) -> DieView {
    DieView {
        offset,
        depth,
        tag,
        attrs,
        located: match attr_in(attrs, AT_LOCATION) {
            Some(value) => if tag == TAG_VARIABLE {
                location_status(s, unit, value)
            } else {
                StatusView::NoLocation
            },
            None => StatusView::NoLocation,
        },
        member_offset: match attr_in(attrs, AT_DATA_MEMBER_LOCATION) {
            Some(value) => Some(member_offset(s, unit, value)),
            None => None,
        },
        declared: if tag == TAG_MEMBER {
            declared_at(s, unit, attrs)
        } else {
            None
        },
    }
}

fn load_die(
    s: &Sections,
    unit: usize,
    offset: usize,
    depth: i64,
    tag: u16,
    attrs: Vec<Attr>,
) -> (r: Die)
    ensures
        r@ == die_with(s@, unit, offset, depth, tag, attrs_of(attrs@)),
{
    let located = match find_attr(&attrs, AT_LOCATION) {
        Some(value) => if tag == TAG_VARIABLE {
            evaluate_location_to_status(s, unit, value)
        } else {
            VariableStatus::NoLocation
        },
        None => VariableStatus::NoLocation,
    };
    let member_offset = match find_attr(&attrs, AT_DATA_MEMBER_LOCATION) {
        Some(value) => Some(get_member_offset(s, unit, value)),
        None => None,
    };
    let declared = if tag == TAG_MEMBER {
        decl_location(s, unit, &attrs)
    } else {
        None
    };
    Die { offset, depth, tag, attrs, located, member_offset, declared }
}

/// How deep the entry after the first `n` stands.
pub open spec fn depth_after(entries: Seq<(usize, isize, u16)>, n: int) -> i64
    decreases n,
{
    if n <= 0 {
        0
    } else {
        depth_after(entries, n - 1).wrapping_add(entries[n - 1].1 as i64)
    }
}

/// The entries of a unit.
pub open spec fn dies_at(
    s: SectionsView,
    a: AbbrevMap,
    unit: usize,
    entries: Seq<(usize, isize, u16)>,
) -> Seq<DieView> {
    Seq::new(
        entries.len(),
        |i: int|
            die_with(
                s,
                unit,
                entries[i].0,
                depth_after(entries, i + 1),
                entries[i].2,
                attrs_at(s, a, unit, entries[i].0),
            ),
    )
}

fn load_dies(
    s: &Sections,
    a: &gimli::Abbreviations,
    unit: usize,
    found: &Vec<(usize, isize, u16)>,
) -> (r: Vec<Die>)
    ensures
        dies_of(r@) == dies_at(s@, abbreviations_of(*a), unit, found@),
{
    let ghost all = dies_at(s@, abbreviations_of(*a), unit, found@);
    let mut out: Vec<Die> = Vec::new();
    let mut depth: i64 = 0;
    let mut i: usize = 0;
    assert(dies_of(out@) =~= all.take(0));
    while i < found.len()
        invariant
            i <= found@.len(),
            depth == depth_after(found@, i as int),
            all == dies_at(s@, abbreviations_of(*a), unit, found@),
            dies_of(out@) == all.take(i as int),
        decreases found@.len() - i,
    {
        let (offset, delta, tag): (usize, isize, u16) = found[i];
        depth = depth.wrapping_add(delta as i64);
        let die = load_die(s, unit, offset, depth, tag, load_attrs(s, a, unit, offset));
        let ghost before = out@;
        out.push(die);
        i = i + 1;
        assert(dies_of(out@) =~= dies_of(before).push(die@));
        assert(dies_of(out@) =~= all.take(i as int));
    }
    assert(all.take(all.len() as int) =~= all);
    out
}

/// The unit at this offset, or what is wrong with it.
pub open spec fn unit_at(s: SectionsView, unit: usize) -> Result<UnitView, Seq<char>> {
    let info = s.section(".debug_info"@);
    if !root_fits(s, unit) {
        Err("Failed to parse DWARF unit: Hit the end of input before it was expected"@)
    } else {
        match unit_fault(s, unit) {
            Some(text) => Err("Failed to parse DWARF unit: "@ + text),
            None => match abbreviations_at(
                info,
                s.section(".debug_abbrev"@),
                s.little_endian,
                unit,
            ) {
                None => Ok(UnitView { offset: unit, is_rust: false, dies: Seq::empty() }),
                Some(a) => match unit_entries(info, a, s.little_endian, unit) {
                    Err(text) => Err("Failed to read DWARF entry: "@ + text),
                    Ok(entries) => Ok(
                        UnitView {
                            offset: unit,
                            is_rust: language_at(info, a, s.little_endian, unit) == Some(
                                LANGUAGE_RUST,
                            ),
                            dies: dies_at(s, a, unit, entries),
                        },
                    ),
                },
            },
        }
    }
}

/// The entries of a unit, or what is wrong with the first that cannot be read.
pub open spec fn unit_entries(info: Seq<u8>, a: AbbrevMap, little: bool, unit: usize) -> Result<
    Seq<(usize, isize, u16)>,
    Seq<char>,
> {
    match unit_skip_fault(info, a, little, unit) {
        Some(text) => Err(text),
        None => match entries_at(info, a, little, unit) {
            (_, Some(text)) => Err(text),
            (entries, None) => Ok(entries),
        },
    }
}

/// The entries of a unit, or what is wrong with the first that cannot be read.
fn load_entries(info: &[u8], a: &gimli::Abbreviations, little: bool, unit: usize) -> (r: Result<
    Vec<(usize, isize, u16)>,
    String,
>)
    ensures
        unit_entries(info@, abbreviations_of(*a), little, unit) == (match r {
            Ok(entries) => Ok(entries@),
            Err(text) => Err(text@),
        }),
{
    let ghost an = abbreviations_of(*a);
    if let Some(header) = unit_header(info, little, unit) {
        let mut at: usize = header.size;
        loop
            invariant
                an == abbreviations_of(*a),
                unit_skip_fault(info@, an, little, unit) == skip_fault(info@, an, little, unit, at),
            ensures
                unit_skip_fault(info@, an, little, unit) is None,
            decreases info@.len() - at,
        {
            match entry_end(info, a, little, unit, at) {
                Some(Ok(end)) => {
                    at = end;
                },
                Some(Err(text)) => {
                    return Err(text);
                },
                None => {
                    break;
                },
            }
        }
    }
    match entries(info, a, little, unit) {
        (_, Some(text)) => Err(text),
        (entries, None) => Ok(entries),
    }
}

/// A message that ends in another.
fn with_cause(message: &str, cause: &str) -> (r: String)
    ensures
        r@ == message@ + cause@,
{
    let mut out: String = message.to_owned();
    out.append(cause);
    out
}

fn load_unit(s: &Sections, unit: usize) -> (r: Result<UnitInfo, String>)
    ensures
        unit_at(s@, unit) == (match r {
            Ok(u) => Ok(u@),
            Err(text) => Err(text@),
        }),
{
    if !root_is_readable(s, unit) {
        return Err(
            "Failed to parse DWARF unit: Hit the end of input before it was expected".to_owned(),
        );
    }
    if let Some(text) = unit_error(s, unit) {
        return Err(with_cause("Failed to parse DWARF unit: ", text.as_str()));
    }
    let info: &[u8] = s.section(".debug_info");
    let little: bool = s.little_endian;
    let a: gimli::Abbreviations = match abbreviations(
        info,
        s.section(".debug_abbrev"),
        little,
        unit,
    ) {
        Some(a) => a,
        None => {
            let dies: Vec<Die> = Vec::new();
            assert(dies_of(dies@) =~= Seq::<DieView>::empty());
            return Ok(UnitInfo { offset: unit, is_rust: false, dies });
        },
    };
    let found: Vec<(usize, isize, u16)> = match load_entries(info, &a, little, unit) {
        Ok(found) => found,
        Err(text) => {
            return Err(with_cause("Failed to read DWARF entry: ", text.as_str()));
        },
    };
    let is_rust: bool = match language(info, &a, little, unit) {
        Some(code) => code == LANGUAGE_RUST,
        None => false,
    };
    Ok(UnitInfo { offset: unit, is_rust, dies: load_dies(s, &a, unit, &found) })
}

/// The units at these offsets, or what is wrong with the first that cannot be
/// read.
pub open spec fn units_at(s: SectionsView, offsets: Seq<usize>) -> Result<Seq<UnitView>, Seq<char>>
    decreases offsets.len(),
{
    if offsets.len() == 0 {
        Ok(Seq::empty())
    } else {
        match units_at(s, offsets.drop_last()) {
            Err(text) => Err(text),
            Ok(before) => match unit_at(s, offsets.last()) {
                Err(text) => Err(text),
                Ok(unit) => Ok(before.push(unit)),
            },
        }
    }
}

/// A unit that cannot be read stops what follows it.
proof fn lemma_units_fail(s: SectionsView, offsets: Seq<usize>, n: int)
    requires
        0 <= n <= offsets.len(),
        units_at(s, offsets.take(n)) is Err,
    ensures
        units_at(s, offsets) == units_at(s, offsets.take(n)),
    decreases offsets.len() - n,
{
    if n == offsets.len() {
        assert(offsets.take(n) =~= offsets);
    } else {
        assert(offsets.take(n + 1).drop_last() =~= offsets.take(n));
        lemma_units_fail(s, offsets, n + 1);
    }
}

/// All units of an object file's sections, or what is wrong with the first that
/// cannot be read.
pub open spec fn all_units(s: SectionsView) -> Result<Seq<UnitView>, Seq<char>> {
    let (offsets, fault) = unit_offsets_in(s.section(".debug_info"@), s.little_endian);
    match (units_at(s, offsets), fault) {
        (Err(text), _) => Err(text),
        (Ok(units), None) => Ok(units),
        (Ok(_), Some(text)) => Err("Failed to read DWARF unit: "@ + text),
    }
}

/// Loads all units of an object file's sections.
pub fn load_units(s: &Sections) -> (r: Result<Vec<UnitInfo>, String>)
    ensures
        all_units(s@) == (match r {
            Ok(units) => Ok(units@.map_values(|u: UnitInfo| u@)),
            Err(text) => Err(text@),
        }),
{
    let (offsets, fault): (Vec<usize>, Option<String>) = unit_offsets(
        s.section(".debug_info"),
        s.little_endian,
    );
    let ghost shown = |u: UnitInfo| u@;
    let mut units: Vec<UnitInfo> = Vec::new();
    let mut i: usize = 0;
    assert(units@.map_values(shown) =~= Seq::<UnitView>::empty());
    assert(offsets@.take(0) =~= Seq::<usize>::empty());
    while i < offsets.len()
        invariant
            i <= offsets@.len(),
            shown == (|u: UnitInfo| u@),
            offsets@ == unit_offsets_in(s@.section(".debug_info"@), s@.little_endian).0,
            units_at(s@, offsets@.take(i as int)) == Ok::<Seq<UnitView>, Seq<char>>(
                units@.map_values(shown),
            ),
        decreases offsets@.len() - i,
    {
        proof {
            assert(offsets@.take(i + 1).drop_last() =~= offsets@.take(i as int));
            assert(offsets@.take(i + 1).last() == offsets@[i as int]);
        }
        match load_unit(s, offsets[i]) {
            Ok(unit) => {
                let ghost before = units@;
                units.push(unit);
                assert(units@.map_values(shown) =~= before.map_values(shown).push(unit@));
            },
            Err(text) => {
                proof {
                    lemma_units_fail(s@, offsets@, i + 1);
                }
                return Err(text);
            },
        }
        i = i + 1;
    }
    assert(offsets@.take(offsets@.len() as int) =~= offsets@);
    if let Some(text) = fault {
        return Err(with_cause("Failed to read DWARF unit: ", text.as_str()));
    }
    Ok(units)
}

/// A section of an object file, by name.
pub open spec fn section_of(data: Seq<u8>, name: Seq<char>) -> (Seq<char>, Seq<u8>) {
    (name, seq_or_empty(object_section(data, name)))
}

/// The DWARF sections of an object file.
pub open spec fn sections_of(data: Seq<u8>, little_endian: bool) -> SectionsView {
    SectionsView {
        little_endian,
        contents: seq![
            section_of(data, ".debug_abbrev"@),
            section_of(data, ".debug_addr"@),
            section_of(data, ".debug_info"@),
            section_of(data, ".debug_line"@),
            section_of(data, ".debug_line_str"@),
            section_of(data, ".debug_loc"@),
            section_of(data, ".debug_loclists"@),
            section_of(data, ".debug_ranges"@),
            section_of(data, ".debug_rnglists"@),
            section_of(data, ".debug_str"@),
            section_of(data, ".debug_str_offsets"@),
            section_of(data, ".debug_types"@),
        ],
    }
}

fn load_section(data: &[u8], name: &str) -> (r: (String, Vec<u8>))
    ensures
        (r.0@, r.1@) == section_of(data@, name@),
{
    let contents: Vec<u8> = match read_section(data, name) {
        Some(contents) => contents,
        None => Vec::new(),
    };
    assert(contents@ =~= section_of(data@, name@).1);
    (name.to_owned(), contents)
}

/// Loads the DWARF sections of an object file.
pub fn load_sections(data: &[u8], little_endian: bool) -> (r: Sections)
    ensures
        r@ == sections_of(data@, little_endian),
{
    let mut contents: Vec<(String, Vec<u8>)> = Vec::new();
    contents.push(load_section(data, ".debug_abbrev"));
    contents.push(load_section(data, ".debug_addr"));
    contents.push(load_section(data, ".debug_info"));
    contents.push(load_section(data, ".debug_line"));
    contents.push(load_section(data, ".debug_line_str"));
    contents.push(load_section(data, ".debug_loc"));
    contents.push(load_section(data, ".debug_loclists"));
    contents.push(load_section(data, ".debug_ranges"));
    contents.push(load_section(data, ".debug_rnglists"));
    contents.push(load_section(data, ".debug_str"));
    contents.push(load_section(data, ".debug_str_offsets"));
    contents.push(load_section(data, ".debug_types"));
    let r = Sections { little_endian, contents };
    assert(r@.contents =~= sections_of(data@, little_endian).contents);
    r
}

impl DwarfParser {
    /// Parse DWARF info from raw bytes
    pub fn parse_bytes(data: &[u8]) -> (r: Result<DwarfParseResult, String>)
        ensures
            match object_parsed(data@) {
                Err(text) => r matches Err(message) && message@ == "Failed to parse object: "@
                    + text,
                Ok(little) => match all_units(sections_of(data@, little)) {
                    Err(text) => r matches Err(message) && message@ == text,
                    Ok(units) => r matches Ok(result) && parsed(units, result)
                        && result.diagnostics.by_status() == result.diagnostics.total_variables,
                },
            },
    {
        let little: bool = match parse_object(data) {
            Ok(little) => little,
            Err(text) => {
                return Err(with_cause("Failed to parse object: ", text.as_str()));
            },
        };
        let sections = load_sections(data, little);
        match load_units(&sections) {
            Ok(units) => Ok(DwarfParser::parse_units(&units)),
            Err(text) => Err(text),
        }
    }
}

} // verus!
