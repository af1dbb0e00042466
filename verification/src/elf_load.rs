//! An ELF file's symbols, each with the section that holds it.

use vstd::prelude::*;
use vstd::string::*;
use std::sync::Arc;
use object::{Object, ObjectSection, SectionFlags};
#[allow(unused_imports)]
use crate::dwarf_load::{all_units, sections_of};
#[allow(unused_imports)]
use crate::dwarf_parser::{parsed, DwarfParseResult};
use crate::dwarf_parser::{DwarfParser, ParsedSymbol};
#[allow(unused_imports)]
use crate::dwarf_source::object_parsed;
use crate::dwarf_source::parse_object;
use crate::elf::{ElfInfo, SymbolInfo};
#[allow(unused_imports)]
use crate::search::first;
use crate::search::{lemma_first_is, lemma_first_none};
use crate::wrappers::split_path;
#[allow(unused_imports)]
use crate::wrappers::{segments_of, texts};

verus! {

/// An ELF section whose bytes the program may write.
pub const SHF_WRITE: u64 = 1;

/// An ELF section that takes up memory while the program runs.
pub const SHF_ALLOC: u64 = 2;

/// A section of an object file: its name, empty where it cannot be read, its
/// address and size, and its ELF flags.
pub type Placement = (String, u64, u64, u64);

/// What a section of an object file says of where it is.
pub type PlacementView = (Seq<char>, u64, u64, u64);

/// What the sections of an object file say of where they are.
pub open spec fn placements_of(sections: Seq<Placement>) -> Seq<PlacementView> {
    sections.map_values(|s: Placement| (s.0@, s.1, s.2, s.3))
}

/// Where the sections of an object file are, in order.
pub uninterp spec fn placements_in(elf: Seq<u8>) -> Seq<PlacementView>;

/// [`object::File::parse`] and the name, address, size and flags of each of the
/// file's `sections`, in order: none where the file cannot be parsed. The crate is
/// built to read ELF files alone.
#[verifier::external_body]
fn read_placements(elf: &[u8]) -> (r: Vec<Placement>)
    ensures
        placements_in(elf@) == placements_of(r@),
{
    match object::File::parse(elf) {
        Ok(file) => file.sections().map(|s| (
            s.name().unwrap_or_default().to_string(),
            s.address(),
            s.size(),
            match s.flags() {
                SectionFlags::Elf { sh_flags } => sh_flags,
                _ => 0,
            },
        )).collect(),
        Err(_) => Vec::new(),
    }
}

/// An object file's machine, whether its addresses take 64 bits, and its entry
/// point.
pub uninterp spec fn head_in(elf: Seq<u8>) -> (Seq<char>, bool, u64);

/// [`object::File::parse`] and the file's `architecture` as `Debug` shows it, its
/// `is_64` and its `entry`: no text, false and 0 where the file cannot be parsed.
#[verifier::external_body]
fn read_head(elf: &[u8]) -> (r: (String, bool, u64))
    ensures
        head_in(elf@) == (r.0@, r.1, r.2),
{
    match object::File::parse(elf) {
        Ok(file) => (format!("{:?}", file.architecture()), file.is_64(), file.entry()),
        Err(_) => (String::new(), false, 0),
    }
}

/// Picks the sections over this address. A section ends with the address space.
pub open spec fn over(address: u64) -> spec_fn(PlacementView) -> bool {
    |s: PlacementView|
        s.1 <= address && address < if s.1 + s.2 <= u64::MAX {
            s.1 + s.2
        } else {
            u64::MAX as int
        }
}

/// Whether a section with these flags is allocated and writable.
pub open spec fn is_writable(flags: u64) -> bool {
    flags % 2 == 1 && (flags / 2) % 2 == 1
}

/// The symbol for a variable of the debug info, among these sections.
pub open spec fn placed(sections: Seq<PlacementView>, p: ParsedSymbol, s: SymbolInfo) -> bool {
    &&& s.demangled_name@ == p.name@
    &&& s.display_name@ == segments_of(p.name@).last()
    &&& s.address == p.address
    &&& s.size == p.size
    &&& !s.is_function
    &&& s.type_id == Some(p.type_id)
    &&& s.status == p.status
    &&& s.task_storage is None
    &&& match first(sections, over(p.address)) {
        Some(i) => s.section@ == sections[i].0 && s.writable == is_writable(sections[i].3),
        None => s.section@ == Seq::<char>::empty() && !s.writable,
    }
}

/// The file at this path, with what its debug info says.
pub open spec fn loaded(
    path: Seq<char>,
    elf: Seq<u8>,
    little: bool,
    p: DwarfParseResult,
    r: ElfInfo,
) -> bool {
    &&& r.path@ == path
    &&& (r.machine@, r.is_64bit, r.entry_point) == head_in(elf)
    &&& r.is_little_endian == little
    &&& r.symbols@.len() == p.symbols@.len()
    &&& forall|i: int|
        0 <= i < r.symbols@.len() ==> placed(
            placements_in(elf),
            p.symbols@[i],
            #[trigger] r.symbols@[i],
        )
    &&& *r.types == p.type_table
    &&& r.diagnostics == p.diagnostics
}

/// Where the first of these sections over an address stands.
pub fn section_over(sections: &Vec<Placement>, address: u64) -> (r: Option<usize>)
    ensures
        first(placements_of(sections@), over(address)) == (match r {
            Some(i) => Some(i as int),
            None => None,
        }),
        r matches Some(i) ==> i < sections@.len(),
{
    let ghost all = placements_of(sections@);
    let mut i: usize = 0;
    while i < sections.len()
        invariant
            i <= sections.len(),
            all == placements_of(sections@),
            forall|j: int| 0 <= j < i ==> !over(address)(#[trigger] all[j]),
        decreases sections.len() - i,
    {
        assert(all[i as int].1 == sections[i as int].1 && all[i as int].2 == sections[i as int].2);
        let start: u64 = sections[i].1;
        if start <= address && address < start.saturating_add(sections[i].2) {
            proof {
                lemma_first_is(all, over(address), i as int);
            }
            return Some(i);
        }
        i = i + 1;
    }
    proof {
        lemma_first_none(all, over(address));
    }
    None
}

/// Whether a section with these flags is allocated and writable.
fn writable(flags: u64) -> (r: bool)
    ensures
        r == is_writable(flags),
{
    assert((flags & 1 == 1) == (flags % 2 == 1)) by (bit_vector);
    assert((flags & 2 == 2) == ((flags / 2) % 2 == 1)) by (bit_vector);
    flags & SHF_WRITE == SHF_WRITE && flags & SHF_ALLOC == SHF_ALLOC
}

/// The symbol for a variable of the debug info, among these sections.
pub fn place(sections: &Vec<Placement>, p: &ParsedSymbol) -> (r: SymbolInfo)
    ensures
        placed(placements_of(sections@), *p, r),
{
    let mut segments = split_path(p.name.as_str());
    let ghost all = texts(segments@);
    let display_name: String = match segments.pop() {
        Some(last) => last,
        None => String::new(),
    };
    assert(display_name@ == all.last());
    let (section, writable): (String, bool) = match section_over(sections, p.address) {
        Some(i) => {
            assert(placements_of(sections@)[i as int].0 == sections[i as int].0@);
            (sections[i].0.clone(), writable(sections[i].3))
        },
        None => (String::new(), false),
    };
    SymbolInfo {
        demangled_name: p.name.clone(),
        display_name,
        address: p.address,
        size: p.size,
        is_function: false,
        section,
        writable,
        type_id: Some(p.type_id),
        status: p.status.clone(),
        task_storage: None,
    }
}

/// Reads an ELF file: the variables of its debug info, each with the section that
/// holds it, and their types.
pub fn load_elf(path: String, bytes: &[u8]) -> (r: Result<ElfInfo, String>)
    ensures
        match object_parsed(bytes@) {
            Err(text) => r matches Err(message) && message@ == "Failed to parse object: "@ + text,
            Ok(little) => match all_units(sections_of(bytes@, little)) {
                Err(text) => r matches Err(message) && message@ == text,
                Ok(units) => r matches Ok(info) && exists|p: DwarfParseResult| #[trigger]
                    parsed(units, p) && loaded(path@, bytes@, little, p, info),
            },
        },
{
    let result: DwarfParseResult = match DwarfParser::parse_bytes(bytes) {
        Ok(result) => result,
        Err(text) => {
            return Err(text);
        },
    };
    let is_little_endian: bool = match parse_object(bytes) {
        Ok(little) => little,
        Err(_) => false,
    };
    let sections = read_placements(bytes);
    let (machine, is_64bit, entry_point) = read_head(bytes);
    let mut symbols: Vec<SymbolInfo> = Vec::new();
    let mut i: usize = 0;
    while i < result.symbols.len()
        invariant
            i <= result.symbols.len(),
            symbols@.len() == i,
            placements_of(sections@) == placements_in(bytes@),
            forall|j: int|
                0 <= j < i ==> placed(
                    placements_in(bytes@),
                    result.symbols@[j],
                    #[trigger] symbols@[j],
                ),
        decreases result.symbols.len() - i,
    {
        let symbol = place(&sections, &result.symbols[i]);
        symbols.push(symbol);
        i = i + 1;
    }
    let ghost before = result;
    let info = ElfInfo {
        path,
        machine,
        is_64bit,
        is_little_endian,
        entry_point,
        symbols,
        types: Arc::new(result.type_table),
        diagnostics: result.diagnostics,
    };
    assert(object_parsed(bytes@) is Ok);
    assert(loaded(path@, bytes@, is_little_endian, before, info));
    Ok(info)
}

} // verus!
