//! Target memory as an ELF file initialises it.

use vstd::prelude::*;
use vstd::string::*;
use object::{Object, ObjectSection, SectionKind};
use crate::bytes::copy_range;
use crate::carriers::{CarrierError, CarrierErrorView, MemoryAccess};

verus! {

/// What a section is for, as far as it matters to what memory holds.
#[derive(Copy, Clone, Debug, PartialEq, Eq, Structural)]
pub enum Role {
    UninitializedData,
    UninitializedTls,
    Metadata,
    Debug,
    DebugString,
    Other,
    Unknown,
    Note,
    Linker,
    /// Anything that is loaded
    Loaded,
}

/// A section of an object file: its role, address and size, and its contents
/// where they can be read.
pub type Part = (Role, u64, u64, Option<Vec<u8>>);

/// What a section of an object file says.
pub type PartView = (Role, u64, u64, Option<Seq<u8>>);

/// What the sections of an object file say.
pub open spec fn parts_of(parts: Seq<Part>) -> Seq<PartView> {
    parts.map_values(
        |p: Part|
            (
                p.0,
                p.1,
                p.2,
                match p.3 {
                    Some(data) => Some(data@),
                    None => None,
                },
            ),
    )
}

/// The sections of an object file, or what is wrong with it.
pub uninterp spec fn sections_in(elf: Seq<u8>) -> Result<Seq<PartView>, Seq<char>>;

/// [`object::File::parse`] and the kind, address, size and data of each of the
/// file's `sections`, in order; the error is the text it shows. The crate is built
/// to read ELF files alone.
#[verifier::external_body]
fn read_sections(elf: &[u8]) -> (r: Result<Vec<Part>, String>)
    ensures
        sections_in(elf@) == (match r {
            Ok(parts) => Ok(parts_of(parts@)),
            Err(text) => Err(text@),
        }),
{
    let file = object::File::parse(elf).map_err(|error| error.to_string())?;
    Ok(file.sections().map(|s| (match s.kind() {
        SectionKind::UninitializedData => Role::UninitializedData,
        SectionKind::UninitializedTls => Role::UninitializedTls,
        SectionKind::Metadata => Role::Metadata,
        SectionKind::Debug => Role::Debug,
        SectionKind::DebugString => Role::DebugString,
        SectionKind::Other => Role::Other,
        SectionKind::Unknown => Role::Unknown,
        SectionKind::Note => Role::Note,
        SectionKind::Linker => Role::Linker,
        _ => Role::Loaded,
    }, s.address(), s.size(), s.data().ok().map(|data| data.to_vec()))).collect())
}

/// Whether memory holds a section from the start: it is loaded, and at an
/// address, unless it is empty.
pub open spec fn initialises(p: PartView) -> bool {
    p.0 is Loaded && (p.1 != 0 || p.2 == 0) && p.3 is Some
}

/// The regions that sections initialise: addresses and contents.
pub open spec fn regions_in(parts: Seq<PartView>) -> Seq<(u64, Seq<u8>)>
    decreases parts.len(),
{
    if parts.len() == 0 {
        Seq::empty()
    } else {
        let before = regions_in(parts.drop_last());
        let last = parts.last();
        if initialises(last) {
            before.push((last.1, last.3->0))
        } else {
            before
        }
    }
}

/// Target memory as the ELF initialises it: every allocated section with file
/// contents, at its run address. Writes are refused.
#[derive(Debug)]
pub struct ElfImage {
    sections: Vec<(u64, Vec<u8>)>,
}

/// Where a region that holds these bytes starts, if one does: the first.
pub open spec fn region_holding(regions: Seq<(u64, Seq<u8>)>, address: u64, len: nat) -> Option<
    (u64, Seq<u8>),
>
    decreases regions.len(),
{
    if regions.len() == 0 {
        None
    } else {
        let (start, data) = regions[0];
        if start <= address && address + len <= start + data.len() {
            Some((start, data))
        } else {
            region_holding(regions.skip(1), address, len)
        }
    }
}

/// The bytes that regions hold at this address, or why there are none.
pub open spec fn held_at(regions: Seq<(u64, Seq<u8>)>, address: u64, len: usize) -> Result<
    Seq<u8>,
    CarrierErrorView,
> {
    match region_holding(regions, address, len as nat) {
        Some((start, data)) => Ok(data.subrange(address - start, address - start + len)),
        None => Err(
            CarrierErrorView::Read { address, len, reason: "not initialised by the ELF"@ },
        ),
    }
}

impl ElfImage {
    /// The regions that the file initialises: addresses and contents.
    pub closed spec fn regions(self) -> Seq<(u64, Seq<u8>)> {
        self.sections@.map_values(|s: (u64, Vec<u8>)| (s.0, s.1@))
    }

    /// The regions that these sections initialise.
    pub fn from_parts(parts: Vec<Part>) -> (r: Self)
        ensures
            r.regions() == regions_in(parts_of(parts@)),
    {
        let ghost all = parts_of(parts@);
        let mut out: Vec<(u64, Vec<u8>)> = Vec::new();
        let ghost shown = |s: (u64, Vec<u8>)| (s.0, s.1@);
        let mut i: usize = 0;
        assert(out@.map_values(shown) =~= Seq::<(u64, Seq<u8>)>::empty());
        assert(all.take(0) =~= Seq::<PartView>::empty());
        while i < parts.len()
            invariant
                i <= parts@.len(),
                all == parts_of(parts@),
                shown == (|s: (u64, Vec<u8>)| (s.0, s.1@)),
                out@.map_values(shown) == regions_in(all.take(i as int)),
            decreases parts@.len() - i,
        {
            proof {
                assert(all.take(i + 1).drop_last() =~= all.take(i as int));
                assert(all.take(i + 1).last() == all[i as int]);
            }
            let part = &parts[i];
            if part.0 == Role::Loaded && (part.1 != 0 || part.2 == 0) {
                if let Some(data) = &part.3 {
                    let copy: Vec<u8> = copy_range(data.as_slice(), 0, data.len());
                    assert(copy@ =~= data@);
                    let ghost before = out@;
                    out.push((part.1, copy));
                    assert(out@.map_values(shown) =~= before.map_values(shown).push(
                        (part.1, copy@),
                    ));
                }
            }
            i = i + 1;
        }
        assert(all.take(all.len() as int) =~= all);
        ElfImage { sections: out }
    }

    /// The regions that an ELF file initialises.
    pub fn parse(elf: &[u8]) -> (r: Result<Self, String>)
        ensures
            match sections_in(elf@) {
                Ok(parts) => r matches Ok(image) && image.regions() == regions_in(parts),
                Err(text) => r matches Err(message) && message@ == text,
            },
    {
        match read_sections(elf) {
            Ok(parts) => Ok(Self::from_parts(parts)),
            Err(text) => Err(text),
        }
    }

    /// Each initialised region as `(run address, contents)`
    pub fn sections(&self) -> (r: Vec<(u64, &[u8])>)
        ensures
            r@.map_values(|s: (u64, &[u8])| (s.0, s.1@)) == self.regions(),
    {
        let mut out: Vec<(u64, &[u8])> = Vec::new();
        while out.len() < self.sections.len()
            invariant
                out@.len() <= self.sections@.len(),
                forall|i: int|
                    0 <= i < out@.len() ==> (#[trigger] out@[i]).0 == self.sections@[i].0
                        && out@[i].1@ == self.sections@[i].1@,
            decreases self.sections@.len() - out@.len(),
        {
            let i: usize = out.len();
            out.push((self.sections[i].0, self.sections[i].1.as_slice()));
        }
        assert(out@.map_values(|s: (u64, &[u8])| (s.0, s.1@)) =~= self.regions());
        out
    }

    /// The bytes at this address, where one region holds them all.
    pub fn read_at(&self, address: u64, len: usize) -> (r: Result<Vec<u8>, CarrierError>)
        ensures
            held_at(self.regions(), address, len) == (match r {
                Ok(bytes) => Ok(bytes@),
                Err(e) => Err(e@),
            }),
            r matches Ok(bytes) ==> bytes@.len() == len,
    {
        let ghost all = self.regions();
        let mut i: usize = 0;
        assert(all.skip(0) =~= all);
        while i < self.sections.len()
            invariant
                i <= self.sections@.len(),
                all == self.regions(),
                region_holding(all, address, len as nat) == region_holding(
                    all.skip(i as int),
                    address,
                    len as nat,
                ),
            decreases self.sections@.len() - i,
        {
            let start: u64 = self.sections[i].0;
            let data: &[u8] = self.sections[i].1.as_slice();
            let size: usize = data.len();
            assert(all.skip(i as int)[0] == (start, data@));
            assert(all.skip(i as int).skip(1) =~= all.skip(i + 1));
            if start <= address && address as u128 + len as u128 <= start as u128 + size as u128 {
                let from: usize = (address - start) as usize;
                let bytes: Vec<u8> = copy_range(data, from, from + len);
                return Ok(bytes);
            }
            i = i + 1;
        }
        Err(CarrierError::Read { address, len, reason: "not initialised by the ELF".to_owned() })
    }
}

impl MemoryAccess for ElfImage {
    /// A read gives what the file holds, and changes nothing.
    open spec fn gives(
        &self,
        address: u64,
        len: usize,
        r: Result<Seq<u8>, CarrierErrorView>,
        after: &Self,
    ) -> bool {
        r == held_at(self.regions(), address, len) && *after == *self
    }

    fn read(&mut self, address: u64, len: usize) -> (r: Result<Vec<u8>, CarrierError>) {
        self.read_at(address, len)
    }

    fn write(&mut self, address: u64, data: &[u8]) -> (r: Result<(), CarrierError>)
        ensures
            *final(self) == *old(self),
            r matches Err(e) && e@ == (CarrierErrorView::Write {
                address,
                len: data@.len() as usize,
                reason: "the ELF image is read-only"@,
            }),
    {
        Err(
            CarrierError::Write {
                address,
                len: data.len(),
                reason: "the ELF image is read-only".to_owned(),
            },
        )
    }
}

} // verus!
