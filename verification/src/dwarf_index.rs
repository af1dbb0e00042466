//! What the indices of a unit stand for: texts, addresses, location lists and
//! files.

use vstd::prelude::*;
use crate::die::{AT_COMP_DIR, AT_LOW_PC, AT_NAME};
use crate::dwarf_source::{
    abbreviations, indexed_address, indexed_list, indexed_text, line_file_directory, line_file_name,
    list_expressions,
    list_indices, lists_base, numbers, places, root, unit_header, FileText, Place, Sections,
};
#[allow(unused_imports)]
use crate::dwarf_source::{
    abbreviations_at, address_at_index, address_index_fits, contents_views, file_directory_at, file_name_at,
    index_fits, indices_in_list,
    list_at_index, list_entry_fits, list_expressions_at, lists_base_at, root_at, root_fits,
    root_place_fits, root_places_fit, text_at_index, text_index_fits, FileTextView, SectionsView,
};

verus! {

/// The text that an index stands for in the unit at this offset.
pub open spec fn indexed_text_of(s: SectionsView, unit: usize, index: usize) -> Option<Seq<u8>> {
    if root_fits(s, unit) && text_index_fits(
        s.section(".debug_info"@),
        s.little_endian,
        unit,
        index,
    ) {
        text_at_index(s, unit, index)
    } else {
        None
    }
}

/// The address that an index stands for in the unit at this offset.
pub open spec fn indexed_address_of(s: SectionsView, unit: usize, index: usize) -> Option<u64> {
    if root_fits(s, unit) && address_index_fits(
        s.section(".debug_info"@),
        s.little_endian,
        unit,
        index,
    ) {
        address_at_index(s, unit, index)
    } else {
        None
    }
}

/// Where the location lists of the unit at this offset start.
pub open spec fn lists_base_of(s: SectionsView, unit: usize) -> usize {
    let info = s.section(".debug_info"@);
    match abbreviations_at(info, s.section(".debug_abbrev"@), s.little_endian, unit) {
        Some(a) => match root_at(info, a, s.little_endian, unit) {
            Some(at) => match lists_base_at(info, a, s.little_endian, unit, at) {
                Some(base) => base,
                None => 0,
            },
            None => 0,
        },
        None => 0,
    }
}

/// Where the location list that an index stands for, in the unit at this offset,
/// starts: the place it gives counts from where the unit's lists start.
pub open spec fn indexed_list_of(s: SectionsView, unit: usize, index: usize) -> Option<usize> {
    let info = s.section(".debug_info"@);
    let lists = s.section(".debug_loclists"@);
    let base = lists_base_of(s, unit);
    if !text_index_fits(info, s.little_endian, unit, index) || base > lists.len() {
        None
    } else {
        match list_at_index(info, lists.skip(base as int), s.little_endian, unit, index) {
            Some(at) => if base + at <= usize::MAX {
                Some((base + at) as usize)
            } else {
                None
            },
            None => None,
        }
    }
}

/// How many entries of a location list, from its start, have indices that fit.
pub open spec fn fitting(s: SectionsView, unit: usize, indices: Seq<(usize, usize)>) -> nat
    decreases indices.len(),
{
    if indices.len() == 0 || !list_entry_fits(s, unit, indices[0]) {
        0
    } else {
        1 + fitting(s, unit, indices.skip(1))
    }
}

/// The expressions of the location list at this offset, as far as it can be
/// read.
pub open spec fn expressions_of_list(s: SectionsView, unit: usize, offset: usize) -> Seq<Seq<u8>> {
    match indices_in_list(s, unit, offset) {
        Some(indices) => match list_expressions_at(
            s,
            unit,
            offset,
            fitting(s, unit, indices) as usize,
        ) {
            Some(codes) if root_fits(s, unit) => codes,
            _ => Seq::empty(),
        },
        None => Seq::empty(),
    }
}

/// Where the name and the directory of the file with this index are, in the line
/// program of the unit at this offset.
pub open spec fn file_of(s: SectionsView, unit: usize, index: u64) -> (
    Option<FileTextView>,
    Option<FileTextView>,
) {
    if root_fits(s, unit) {
        (file_name_at(s, unit, index), file_directory_at(s, unit, index))
    } else {
        (None, None)
    }
}

/// Whether an index into a table of entries of this size fits.
fn fits(index: usize, size: u8) -> (r: bool)
    ensures
        r == index_fits(index, size),
{
    proof {
        vstd::arithmetic::mul::lemma_mul_upper_bound(
            index as int,
            usize::MAX as int,
            size as int,
            u8::MAX as int,
        );
    }
    (index as u128) * (size as u128) <= u64::MAX as u128
}

/// Whether the indices that the root of a unit holds fit.
pub fn root_is_readable(s: &Sections, unit: usize) -> (r: bool)
    ensures
        r == root_fits(s@, unit),
{
    let info: &[u8] = s.section(".debug_info");
    let little: bool = s.little_endian;
    let (header, a) = match (
        unit_header(info, little, unit),
        abbreviations(info, s.section(".debug_abbrev"), little, unit),
    ) {
        (Some(header), Some(a)) => (header, a),
        _ => {
            return true;
        },
    };
    let first: usize = match root(info, &a, little, unit) {
        Some(first) => first,
        None => {
            return true;
        },
    };
    let (held, at) = match (
        numbers(info, &a, little, unit, first),
        places(info, &a, little, unit, first),
    ) {
        (Some(held), Some(at)) => (held, at),
        _ => {
            return false;
        },
    };
    let mut j: usize = 0;
    while j < held.len() && j < at.len()
        invariant
            j <= held@.len(),
            j <= at@.len(),
            forall|k: int|
                0 <= k < j ==> root_place_fits(header, (#[trigger] held@[k]).0, at@[k]),
            root_fits(s@, unit) == root_places_fit(header, held@, at@),
        decreases held@.len() - j,
    {
        let name: u16 = held[j].0;
        let fitting: bool = match at[j] {
            Place::TextIndex(index) => !(name == AT_NAME || name == AT_COMP_DIR) || fits(
                index,
                header.word_size,
            ),
            Place::AddressIndex(index) => name != AT_LOW_PC || fits(index, header.address_size),
            _ => true,
        };
        if !fitting {
            assert(!root_place_fits(header, held@[j as int].0, at@[j as int]));
            return false;
        }
        j = j + 1;
    }
    true
}

/// The text that an index stands for in a unit.
pub fn find_indexed_text(s: &Sections, unit: usize, index: usize) -> (r: Option<Vec<u8>>)
    ensures
        indexed_text_of(s@, unit, index) == (match r {
            Some(bytes) => Some(bytes@),
            None => None,
        }),
{
    if let Some(header) = unit_header(s.section(".debug_info"), s.little_endian, unit) {
        if !fits(index, header.word_size) {
            return None;
        }
    }
    if !root_is_readable(s, unit) {
        return None;
    }
    indexed_text(s, unit, index)
}

/// Whether an index of an address fits, in a unit.
fn address_fits(s: &Sections, unit: usize, index: usize) -> (r: bool)
    ensures
        r == address_index_fits(s@.section(".debug_info"@), s@.little_endian, unit, index),
{
    match unit_header(s.section(".debug_info"), s.little_endian, unit) {
        Some(header) => fits(index, header.address_size),
        None => true,
    }
}

/// The address that an index stands for in a unit.
pub fn find_indexed_address(s: &Sections, unit: usize, index: usize) -> (r: Option<u64>)
    ensures
        r == indexed_address_of(s@, unit, index),
{
    if address_fits(s, unit, index) && root_is_readable(s, unit) {
        indexed_address(s, unit, index)
    } else {
        None
    }
}

/// Where the location lists of a unit start.
fn find_lists_base(s: &Sections, unit: usize) -> (r: usize)
    ensures
        r == lists_base_of(s@, unit),
{
    let info: &[u8] = s.section(".debug_info");
    match abbreviations(info, s.section(".debug_abbrev"), s.little_endian, unit) {
        Some(a) => match root(info, &a, s.little_endian, unit) {
            Some(at) => match lists_base(info, &a, s.little_endian, unit, at) {
                Some(base) => base,
                None => 0,
            },
            None => 0,
        },
        None => 0,
    }
}

/// Where the location list that an index stands for starts, in a unit.
pub fn find_indexed_list(s: &Sections, unit: usize, index: usize) -> (r: Option<usize>)
    ensures
        r == indexed_list_of(s@, unit, index),
{
    let info: &[u8] = s.section(".debug_info");
    let lists: &[u8] = s.section(".debug_loclists");
    let base: usize = find_lists_base(s, unit);
    if let Some(header) = unit_header(info, s.little_endian, unit) {
        if !fits(index, header.word_size) {
            return None;
        }
    }
    if base > lists.len() {
        return None;
    }
    let own: &[u8] = vstd::slice::slice_subrange(lists, base, lists.len());
    assert(own@ =~= lists@.skip(base as int));
    match indexed_list(info, own, s.little_endian, unit, index) {
        Some(at) => base.checked_add(at),
        None => None,
    }
}

/// The expressions of a location list, as far as it can be read.
pub fn find_list_expressions(s: &Sections, unit: usize, offset: usize) -> (r: Vec<Vec<u8>>)
    ensures
        contents_views(r@) == expressions_of_list(s@, unit, offset),
{
    let none: Vec<Vec<u8>> = Vec::new();
    assert(contents_views(none@) =~= Seq::<Seq<u8>>::empty());
    if !root_is_readable(s, unit) {
        return none;
    }
    let indices: Vec<(usize, usize)> = match list_indices(
        s.section(".debug_info"),
        s.section(".debug_loc"),
        s.section(".debug_loclists"),
        s.little_endian,
        unit,
        offset,
    ) {
        Some(indices) => indices,
        None => {
            return none;
        },
    };
    let ghost all = indices@;
    let mut n: usize = 0;
    assert(all.skip(0) =~= all);
    while n < indices.len() && address_fits(s, unit, indices[n].0) && address_fits(
        s,
        unit,
        indices[n].1,
    )
        invariant
            n <= all.len(),
            all == indices@,
            fitting(s@, unit, all) == n + fitting(s@, unit, all.skip(n as int)),
            forall|k: int| 0 <= k < n ==> list_entry_fits(s@, unit, #[trigger] all[k]),
        decreases all.len() - n,
    {
        assert(all.skip(n as int)[0] == all[n as int]);
        assert(all.skip(n as int).skip(1) =~= all.skip(n + 1));
        n = n + 1;
    }
    proof {
        if n < all.len() {
            assert(all.skip(n as int)[0] == all[n as int]);
        }
    }
    match list_expressions(s, unit, offset, n) {
        Some(codes) => codes,
        None => none,
    }
}

/// Where an optional text of a line program is.
pub open spec fn file_text_view(text: Option<FileText>) -> Option<FileTextView> {
    match text {
        Some(text) => Some(text@),
        None => None,
    }
}

/// Where the name and the directory of the file with this index are, in the line
/// program of a unit.
pub fn find_file(s: &Sections, unit: usize, index: u64) -> (r: (Option<FileText>, Option<FileText>))
    ensures
        (file_text_view(r.0), file_text_view(r.1)) == file_of(s@, unit, index),
{
    if root_is_readable(s, unit) {
        (line_file_name(s, unit, index), line_file_directory(s, unit, index))
    } else {
        (None, None)
    }
}

} // verus!
