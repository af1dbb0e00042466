//! Decodes a firmware's table from memory: the ELF image or the live target.

use vstd::prelude::*;
use vstd::string::*;
use vstd::utf8::{decode_utf8, valid_utf8};
use crate::bytes::copy_range;
use crate::carriers::{CarrierError, CarrierErrorView, MemoryAccess};
#[allow(unused_imports)]
use crate::carriers::read_view;
#[allow(unused_imports)]
use crate::elf_image::{held_at, ElfImage};
use crate::catalog::{
    Access, CatalogEntry, CellKind, MAX_ENTRIES, MAX_TEXT, TABLE_MAGIC, TABLE_VERSION,
};
use crate::catalog_layout::{CatalogError, CatalogErrorView, Field, Fields, TableLayout};
use crate::float_bits;
#[allow(unused_imports)]
use crate::float_bits::f32_finite;
use crate::preview::word;
#[allow(unused_imports)]
use crate::preview::word_of;
use crate::search::{first, lemma_first_is, lemma_first_none};
use crate::text::{push_decimal, push_hex8};
#[allow(unused_imports)]
use crate::text::{decimal, hex8};

verus! {

/// [`String::from_utf8`]: the text that these bytes encode, and only where they
/// are UTF-8.
#[verifier::external_body]
fn utf8_text(bytes: Vec<u8>) -> (r: Option<String>)
    ensures
        match r {
            Some(text) => valid_utf8(bytes@) && text@ == decode_utf8(bytes@),
            None => !valid_utf8(bytes@),
        },
{
    String::from_utf8(bytes).ok()
}

/// What reads of memory gave.
pub type Answer = Result<Vec<u8>, CarrierError>;

/// What a read of memory gave.
pub type AnswerView = Result<Seq<u8>, CarrierErrorView>;

/// What reads of memory gave.
pub open spec fn answers_of(answers: Seq<Answer>) -> Seq<AnswerView> {
    answers.map_values(
        |a: Answer|
            match a {
                Ok(bytes) => Ok(bytes@),
                Err(e) => Err(e@),
            },
    )
}

/// Why decoding stopped before the end.
#[derive(Debug)]
pub enum Stop {
    /// It needs `len` bytes at this address
    Need { address: u64, len: usize },
    Error(CatalogError),
}

/// Why decoding stopped before the end.
#[verifier::ext_equal]
pub enum StopView {
    Need { address: u64, len: usize },
    Error(CatalogErrorView),
}

impl View for Stop {
    type V = StopView;

    open spec fn view(&self) -> StopView {
        match self {
            Stop::Need { address, len } => StopView::Need { address: *address, len: *len },
            Stop::Error(e) => StopView::Error(e@),
        }
    }
}

/// The answer to the next read, and how many are used then.
pub open spec fn asked(answers: Seq<AnswerView>, n: nat, address: u64, len: usize) -> Result<
    (Seq<u8>, nat),
    StopView,
> {
    if n < answers.len() {
        match answers[n as int] {
            Ok(bytes) => Ok((bytes, n + 1)),
            Err(e) => Err(StopView::Error(CatalogErrorView::Memory(e))),
        }
    } else {
        Err(StopView::Need { address, len })
    }
}

/// The number that at most eight bytes hold, little-endian.
pub open spec fn number_in(bytes: Seq<u8>) -> u64 {
    match word_of(true, bytes) {
        Ok(word) => word,
        Err(_) => 0,
    }
}

/// How many bytes of a field are read: no more than eight.
pub open spec fn read_size(field: Field) -> usize {
    if field.size > 8 {
        8
    } else {
        field.size as usize
    }
}

/// The number in a field of what stands at `base`.
pub open spec fn number_at(answers: Seq<AnswerView>, n: nat, base: u64, field: Field) -> Result<
    (u64, nat),
    StopView,
> {
    match asked(answers, n, base.wrapping_add(field.offset), read_size(field)) {
        Ok((bytes, n)) => Ok((number_in(bytes), n)),
        Err(stop) => Err(stop),
    }
}

/// The text that these bytes encode, where they are UTF-8.
pub open spec fn text_in(bytes: Seq<u8>) -> Option<Seq<char>> {
    if valid_utf8(bytes) {
        Some(decode_utf8(bytes))
    } else {
        None
    }
}

/// The text that a pointer and a length in what stands at `base` refer to. One
/// that is too long is none.
pub open spec fn text_at(
    answers: Seq<AnswerView>,
    n: nat,
    base: u64,
    ptr: Field,
    len: Field,
) -> Result<(Option<Seq<char>>, nat), StopView> {
    match number_at(answers, n, base, ptr) {
        Err(stop) => Err(stop),
        Ok((at, n)) => match number_at(answers, n, base, len) {
            Err(stop) => Err(stop),
            Ok((count, n)) => if count > MAX_TEXT {
                Ok((None, n))
            } else if count == 0 {
                Ok((text_in(Seq::empty()), n))
            } else {
                match asked(answers, n, at, count as usize) {
                    Err(stop) => Err(stop),
                    Ok((bytes, n)) => Ok((text_in(bytes), n)),
                }
            },
        },
    }
}

/// One value of the table, its numbers as the firmware stores them: floats by
/// their bits.
#[derive(Debug)]
pub struct RawEntry {
    pub id: u32,
    pub name: String,
    pub unit: String,
    pub kind: CellKind,
    pub access: Access,
    /// Bits of the cell
    pub default: u32,
    pub min: Option<u32>,
    pub max: Option<u32>,
    pub max_step: Option<u32>,
    pub requested_address: u64,
    pub applied_address: u64,
}

/// What a value of the table says.
#[verifier::ext_equal]
pub struct RawEntryView {
    pub id: u32,
    pub name: Seq<char>,
    pub unit: Seq<char>,
    pub kind: CellKind,
    pub access: Access,
    pub default: u32,
    pub min: Option<u32>,
    pub max: Option<u32>,
    pub max_step: Option<u32>,
    pub requested_address: u64,
    pub applied_address: u64,
}

impl View for RawEntry {
    type V = RawEntryView;

    open spec fn view(&self) -> RawEntryView {
        RawEntryView {
            id: self.id,
            name: self.name@,
            unit: self.unit@,
            kind: self.kind,
            access: self.access,
            default: self.default,
            min: self.min,
            max: self.max,
            max_step: self.max_step,
            requested_address: self.requested_address,
            applied_address: self.applied_address,
        }
    }
}

/// What an entry says before its numbers.
#[verifier::ext_equal]
pub struct HeadView {
    pub kind: CellKind,
    pub access: Access,
    pub name: Option<Seq<char>>,
    pub unit: Option<Seq<char>>,
}

/// The kind with this tag.
pub open spec fn kind_with(tag: u8) -> Option<CellKind> {
    if tag == 0 {
        Some(CellKind::F32)
    } else if tag == 1 {
        Some(CellKind::I32)
    } else if tag == 2 {
        Some(CellKind::U32)
    } else if tag == 3 {
        Some(CellKind::Bool)
    } else {
        None
    }
}

/// What is wrong with an entry of the table at `address`.
pub open spec fn invalid(address: u64, reason: Seq<char>) -> StopView {
    StopView::Error(CatalogErrorView::Invalid { address, reason })
}

/// The kind, access, name and unit of the entry at `at`.
pub open spec fn head_at(
    answers: Seq<AnswerView>,
    n: nat,
    table: u64,
    f: Fields,
    at: u64,
) -> Result<(HeadView, nat), StopView> {
    match number_at(answers, n, at, f.kind) {
        Err(stop) => Err(stop),
        Ok((kind, n)) => match kind_with(kind as u8) {
            None => Err(invalid(table, "kind "@ + decimal((kind as u8) as nat))),
            Some(kind) => match number_at(answers, n, at, f.access) {
                Err(stop) => Err(stop),
                Ok((access, n)) => match Access::spec_from_tag(access) {
                    None => Err(invalid(table, "access "@ + decimal(access as nat))),
                    Some(access) => match text_at(answers, n, at, f.name_ptr, f.name_len) {
                        Err(stop) => Err(stop),
                        Ok((name, n)) => match text_at(answers, n, at, f.unit_ptr, f.unit_len) {
                            Err(stop) => Err(stop),
                            Ok((unit, n)) => Ok((HeadView { kind, access, name, unit }, n)),
                        },
                    },
                },
            },
        },
    }
}

/// A float that a tunable has; one that is not finite is none.
pub open spec fn bound(bits: u64, tunable: bool) -> Option<u32> {
    if tunable && f32_finite(bits as u32) {
        Some(bits as u32)
    } else {
        None
    }
}

/// The entry at `at`, whose head is `head`.
pub open spec fn tail_at(
    answers: Seq<AnswerView>,
    n: nat,
    table: u64,
    f: Fields,
    at: u64,
    head: HeadView,
) -> Result<(RawEntryView, nat), StopView> {
    let tunable = head.access !is ReadOnly;
    match number_at(answers, n, at, f.min) {
        Err(stop) => Err(stop),
        Ok((min, n)) => match number_at(answers, n, at, f.max) {
            Err(stop) => Err(stop),
            Ok((max, n)) => match number_at(answers, n, at, f.max_step) {
                Err(stop) => Err(stop),
                Ok((max_step, n)) => match number_at(answers, n, at, f.id) {
                    Err(stop) => Err(stop),
                    Ok((id, n)) => match (head.name, head.unit) {
                        (None, _) => Err(invalid(table, "name is not text"@)),
                        (_, None) => Err(invalid(table, "unit is not text"@)),
                        (Some(name), Some(unit)) => match number_at(answers, n, at, f.default) {
                            Err(stop) => Err(stop),
                            Ok((default, n)) => Ok(
                                (
                                    RawEntryView {
                                        id: id as u32,
                                        name,
                                        unit,
                                        kind: head.kind,
                                        access: head.access,
                                        default: default as u32,
                                        min: bound(min, tunable),
                                        max: bound(max, tunable),
                                        max_step: bound(max_step, tunable),
                                        requested_address: at.wrapping_add(f.requested.offset),
                                        applied_address: at.wrapping_add(f.applied.offset),
                                    },
                                    n,
                                ),
                            ),
                        },
                    },
                },
            },
        },
    }
}

/// The entry at `at`.
#[verifier::opaque]
pub open spec fn entry_at(
    answers: Seq<AnswerView>,
    n: nat,
    table: u64,
    f: Fields,
    at: u64,
) -> Result<(RawEntryView, nat), StopView> {
    match head_at(answers, n, table, f, at) {
        Err(stop) => Err(stop),
        Ok((head, n)) => tail_at(answers, n, table, f, at, head),
    }
}

/// Picks the entry with this id.
pub open spec fn raw_with(id: u32) -> spec_fn(RawEntryView) -> bool {
    |e: RawEntryView| e.id == id
}

/// The number of an entry in front of what is wrong with it.
pub open spec fn of_entry(stop: StopView, i: nat) -> StopView {
    match stop {
        StopView::Error(CatalogErrorView::Invalid { address, reason }) => invalid(
            address,
            "entry "@ + decimal(i) + ": "@ + reason,
        ),
        _ => stop,
    }
}

/// Entry `i` of the list at `list`. It may not share its id with one before.
#[verifier::opaque]
pub open spec fn listed_at(
    answers: Seq<AnswerView>,
    n: nat,
    table: u64,
    f: Fields,
    list: u64,
    i: nat,
    before: Seq<RawEntryView>,
) -> Result<(RawEntryView, nat), StopView> {
    match number_at(
        answers,
        n,
        list.wrapping_add((i as u64).wrapping_mul(f.pointer)),
        Field { offset: 0, size: f.pointer },
    ) {
        Err(stop) => Err(stop),
        Ok((at, n)) => match entry_at(answers, n, table, f, at) {
            Err(stop) => Err(of_entry(stop, i)),
            Ok((entry, n)) => match first(before, raw_with(entry.id)) {
                Some(k) => Err(
                    invalid(
                        table,
                        "`"@ + before[k].name + "` and `"@ + entry.name + "` share id "@ + hex8(
                            entry.id as nat,
                        ),
                    ),
                ),
                None => Ok((entry, n)),
            },
        },
    }
}

/// The first `count` entries of the list at `list`.
pub open spec fn entries_at(
    answers: Seq<AnswerView>,
    n: nat,
    table: u64,
    f: Fields,
    list: u64,
    count: nat,
) -> Result<(Seq<RawEntryView>, nat), StopView>
    decreases count,
{
    if count == 0 {
        Ok((Seq::empty(), n))
    } else {
        let i = (count - 1) as nat;
        match entries_at(answers, n, table, f, list, i) {
            Err(stop) => Err(stop),
            Ok((before, n)) => match listed_at(answers, n, table, f, list, i, before) {
                Err(stop) => Err(stop),
                Ok((entry, n)) => Ok((before.push(entry), n)),
            },
        }
    }
}

/// The entries of the table at `table`, or why they cannot be had yet or at
/// all: magic and version come first, then the list and its length.
pub open spec fn table_at(answers: Seq<AnswerView>, table: u64, f: Fields) -> Result<
    (Seq<RawEntryView>, nat),
    StopView,
> {
    match number_at(answers, 0, table, f.magic) {
        Err(stop) => Err(stop),
        Ok((magic, n)) => if magic as u32 != TABLE_MAGIC {
            Err(invalid(table, "magic is "@ + hex8((magic as u32) as nat)))
        } else {
            match number_at(answers, n, table, f.version) {
                Err(stop) => Err(stop),
                Ok((version, n)) => if version as u32 != TABLE_VERSION {
                    Err(
                        invalid(
                            table,
                            "format version "@ + decimal((version as u32) as nat)
                                + ", this tool reads "@ + decimal(TABLE_VERSION as nat),
                        ),
                    )
                } else {
                    match number_at(answers, n, table, f.entries_ptr) {
                        Err(stop) => Err(stop),
                        Ok((list, n)) => match number_at(answers, n, table, f.entries_len) {
                            Err(stop) => Err(stop),
                            Ok((count, n)) => if count > MAX_ENTRIES {
                                Err(invalid(table, decimal(count as nat) + " entries"@))
                            } else {
                                entries_at(answers, n, table, f, list, count as nat)
                            },
                        },
                    }
                },
            }
        },
    }
}

/// Reads answers in turn.
struct Cursor<'a> {
    answers: &'a [Answer],
    next: usize,
}

impl Cursor<'_> {
    spec fn views(self) -> Seq<AnswerView> {
        answers_of(self.answers@)
    }

    spec fn moved(self, to: Self) -> bool {
        to.answers == self.answers
    }

    /// The place of the next answer.
    fn ask(&mut self, address: u64, len: usize) -> (r: Result<usize, Stop>)
        ensures
            old(self).moved(*final(self)),
            match asked(old(self).views(), old(self).next as nat, address, len) {
                Ok((bytes, n)) => r matches Ok(k) && k < old(self).answers@.len()
                    && old(self).answers@[k as int] is Ok && old(self).answers@[k as int]->Ok_0@
                    == bytes && final(self).next == n,
                Err(stop) => r matches Err(s) && s@ == stop,
            },
    {
        let k: usize = self.next;
        if k >= self.answers.len() {
            return Err(Stop::Need { address, len });
        }
        assert(self.views()[k as int] == (match self.answers@[k as int] {
            Ok(bytes) => Ok(bytes@),
            Err(e) => Err(e@),
        }));
        if let Err(e) = &self.answers[k] {
            return Err(Stop::Error(CatalogError::Memory(e.clone())));
        }
        self.next = k + 1;
        Ok(k)
    }

    /// The number in a field of what stands at `base`.
    fn read_uint(&mut self, base: u64, field: Field) -> (r: Result<u64, Stop>)
        ensures
            old(self).moved(*final(self)),
            match number_at(old(self).views(), old(self).next as nat, base, field) {
                Ok((v, n)) => r matches Ok(w) && w == v && final(self).next == n,
                Err(stop) => r matches Err(s) && s@ == stop,
            },
    {
        let len: usize = if field.size > 8 {
            8
        } else {
            field.size as usize
        };
        match self.ask(base.wrapping_add(field.offset), len) {
            Ok(k) => match &self.answers[k] {
                Ok(bytes) => match word(true, bytes.as_slice()) {
                    Ok(value) => Ok(value),
                    Err(_) => Ok(0),
                },
                Err(_) => Ok(0),
            },
            Err(stop) => Err(stop),
        }
    }

    /// The text that a pointer and a length in what stands at `base` refer to.
    fn read_text(&mut self, base: u64, ptr: Field, len: Field) -> (r: Result<Option<String>, Stop>)
        ensures
            old(self).moved(*final(self)),
            match text_at(old(self).views(), old(self).next as nat, base, ptr, len) {
                Ok((v, n)) => r matches Ok(w) && crate::def_view::text_of(w) == v
                    && final(self).next == n,
                Err(stop) => r matches Err(s) && s@ == stop,
            },
    {
        let at: u64 = match self.read_uint(base, ptr) {
            Ok(at) => at,
            Err(stop) => {
                return Err(stop);
            },
        };
        let count: u64 = match self.read_uint(base, len) {
            Ok(count) => count,
            Err(stop) => {
                return Err(stop);
            },
        };
        if count > MAX_TEXT {
            return Ok(None);
        }
        if count == 0 {
            let none: Vec<u8> = Vec::new();
            assert(none@ =~= Seq::<u8>::empty());
            return Ok(utf8_text(none));
        }
        match self.ask(at, count as usize) {
            Ok(k) => match &self.answers[k] {
                Ok(bytes) => {
                    let held: Vec<u8> = copy_range(bytes.as_slice(), 0, bytes.len());
                    assert(held@ =~= bytes@);
                    Ok(utf8_text(held))
                },
                Err(_) => Ok(None),
            },
            Err(stop) => Err(stop),
        }
    }
}

/// What an entry says before its numbers.
struct Head {
    kind: CellKind,
    access: Access,
    name: Option<String>,
    unit: Option<String>,
}

impl Head {
    spec fn says(self) -> HeadView {
        HeadView {
            kind: self.kind,
            access: self.access,
            name: crate::def_view::text_of(self.name),
            unit: crate::def_view::text_of(self.unit),
        }
    }
}

fn refused(address: u64, reason: String) -> (r: Stop)
    ensures
        r@ == invalid(address, reason@),
{
    Stop::Error(CatalogError::Invalid { address, reason })
}

fn with_number(text: &str, n: u64) -> (r: String)
    ensures
        r@ == text@ + decimal(n as nat),
{
    let mut out: String = text.to_owned();
    push_decimal(&mut out, n);
    out
}

impl TableLayout {
    fn read_head(&self, c: &mut Cursor, at: u64) -> (r: Result<Head, Stop>)
        ensures
            old(c).moved(*final(c)),
            match head_at(old(c).views(), old(c).next as nat, self.address, self.fields, at) {
                Ok((v, n)) => r matches Ok(w) && w.says() == v && final(c).next == n,
                Err(stop) => r matches Err(s) && s@ == stop,
            },
    {
        let tag: u8 = match c.read_uint(at, self.fields.kind) {
            Ok(v) => #[verifier::truncate] (v as u8),
            Err(stop) => {
                return Err(stop);
            },
        };
        let kind = match CellKind::from_tag(tag) {
            Some(kind) => kind,
            None => {
                return Err(refused(self.address, with_number("kind ", tag as u64)));
            },
        };
        let tag: u64 = match c.read_uint(at, self.fields.access) {
            Ok(v) => v,
            Err(stop) => {
                return Err(stop);
            },
        };
        let access = match Access::from_tag(tag) {
            Some(access) => access,
            None => {
                return Err(refused(self.address, with_number("access ", tag)));
            },
        };
        let name: Option<String> = match c.read_text(
            at,
            self.fields.name_ptr,
            self.fields.name_len,
        ) {
            Ok(name) => name,
            Err(stop) => {
                return Err(stop);
            },
        };
        let unit: Option<String> = match c.read_text(
            at,
            self.fields.unit_ptr,
            self.fields.unit_len,
        ) {
            Ok(unit) => unit,
            Err(stop) => {
                return Err(stop);
            },
        };
        Ok(Head { kind, access, name, unit })
    }

    fn read_tail(&self, c: &mut Cursor, at: u64, head: Head) -> (r: Result<RawEntry, Stop>)
        ensures
            old(c).moved(*final(c)),
            match tail_at(
                old(c).views(),
                old(c).next as nat,
                self.address,
                self.fields,
                at,
                head.says(),
            ) {
                Ok((v, n)) => r matches Ok(w) && w@ == v && final(c).next == n,
                Err(stop) => r matches Err(s) && s@ == stop,
            },
    {
        let tunable: bool = head.access != Access::ReadOnly;
        let min: u64 = match c.read_uint(at, self.fields.min) {
            Ok(v) => v,
            Err(stop) => {
                return Err(stop);
            },
        };
        let max: u64 = match c.read_uint(at, self.fields.max) {
            Ok(v) => v,
            Err(stop) => {
                return Err(stop);
            },
        };
        let max_step: u64 = match c.read_uint(at, self.fields.max_step) {
            Ok(v) => v,
            Err(stop) => {
                return Err(stop);
            },
        };
        let id: u64 = match c.read_uint(at, self.fields.id) {
            Ok(v) => v,
            Err(stop) => {
                return Err(stop);
            },
        };
        let name: String = match head.name {
            Some(name) => name,
            None => {
                return Err(refused(self.address, "name is not text".to_owned()));
            },
        };
        let unit: String = match head.unit {
            Some(unit) => unit,
            None => {
                return Err(refused(self.address, "unit is not text".to_owned()));
            },
        };
        let default: u64 = match c.read_uint(at, self.fields.default) {
            Ok(v) => v,
            Err(stop) => {
                return Err(stop);
            },
        };
        Ok(
            RawEntry {
                id: #[verifier::truncate] (id as u32),
                name,
                unit,
                kind: head.kind,
                access: head.access,
                default: #[verifier::truncate] (default as u32),
                min: bounded(min, tunable),
                max: bounded(max, tunable),
                max_step: bounded(max_step, tunable),
                requested_address: at.wrapping_add(self.fields.requested.offset),
                applied_address: at.wrapping_add(self.fields.applied.offset),
            },
        )
    }

    fn read_entry(&self, c: &mut Cursor, at: u64) -> (r: Result<RawEntry, Stop>)
        ensures
            old(c).moved(*final(c)),
            match entry_at(old(c).views(), old(c).next as nat, self.address, self.fields, at) {
                Ok((v, n)) => r matches Ok(w) && w@ == v && final(c).next == n,
                Err(stop) => r matches Err(s) && s@ == stop,
            },
    {
        reveal(entry_at);
        match self.read_head(c, at) {
            Ok(head) => self.read_tail(c, at, head),
            Err(stop) => Err(stop),
        }
    }
}

fn bounded(bits: u64, tunable: bool) -> (r: Option<u32>)
    ensures
        r == bound(bits, tunable),
{
    let bits: u32 = #[verifier::truncate] (bits as u32);
    if tunable && float_bits::is_finite(bits) {
        Some(bits)
    } else {
        None
    }
}

/// The entries of a table as it was read.
#[derive(Debug)]
pub struct RawCatalog {
    pub address: u64,
    /// Demangled path of the table static
    pub symbol: String,
    pub entries: Vec<RawEntry>,
}

/// What the entries of a table say.
pub open spec fn raw_views(entries: Seq<RawEntry>) -> Seq<RawEntryView> {
    entries.map_values(|e: RawEntry| e@)
}

fn find_id(entries: &Vec<RawEntry>, id: u32) -> (r: Option<usize>)
    ensures
        first(raw_views(entries@), raw_with(id)) == (match r {
            Some(i) => Some(i as int),
            None => None,
        }),
        r matches Some(i) ==> i < entries@.len(),
{
    let ghost views = raw_views(entries@);
    let mut i: usize = 0;
    while i < entries.len()
        invariant
            i <= entries@.len(),
            views == raw_views(entries@),
            forall|k: int| 0 <= k < i ==> !raw_with(id)(#[trigger] views[k]),
        decreases entries@.len() - i,
    {
        assert(views[i as int] == entries@[i as int]@);
        if entries[i].id == id {
            proof {
                lemma_first_is(views, raw_with(id), i as int);
            }
            return Some(i);
        }
        i = i + 1;
    }
    proof {
        lemma_first_none(views, raw_with(id));
    }
    None
}

/// Reading stops for good where it stops.
proof fn lemma_entries_stop(
    answers: Seq<AnswerView>,
    n: nat,
    table: u64,
    f: Fields,
    list: u64,
    i: nat,
    count: nat,
)
    requires
        i <= count,
        entries_at(answers, n, table, f, list, i) is Err,
    ensures
        entries_at(answers, n, table, f, list, count) == entries_at(
            answers,
            n,
            table,
            f,
            list,
            i,
        ),
    decreases count,
{
    if i < count {
        lemma_entries_stop(answers, n, table, f, list, i, (count - 1) as nat);
    }
}

fn entry_stop(stop: Stop, i: u64) -> (r: Stop)
    ensures
        r@ == of_entry(stop@, i as nat),
{
    match stop {
        Stop::Error(CatalogError::Invalid { address, reason }) => {
            let mut out: String = with_number("entry ", i);
            out.append(": ");
            out.append(reason.as_str());
            refused(address, out)
        },
        other => other,
    }
}

impl TableLayout {
    /// Entry `i` of the list at `list`.
    fn read_listed(&self, c: &mut Cursor, list: u64, i: u64, before: &Vec<RawEntry>) -> (r: Result<
        RawEntry,
        Stop,
    >)
        ensures
            old(c).moved(*final(c)),
            match listed_at(
                old(c).views(),
                old(c).next as nat,
                self.address,
                self.fields,
                list,
                i as nat,
                raw_views(before@),
            ) {
                Ok((v, n)) => r matches Ok(w) && w@ == v && final(c).next == n,
                Err(stop) => r matches Err(s) && s@ == stop,
            },
    {
        reveal(listed_at);
        let place = list.wrapping_add(i.wrapping_mul(self.fields.pointer));
        let at: u64 = match c.read_uint(place, Field { offset: 0, size: self.fields.pointer }) {
            Ok(at) => at,
            Err(stop) => {
                return Err(stop);
            },
        };
        let entry = match self.read_entry(c, at) {
            Ok(entry) => entry,
            Err(stop) => {
                return Err(entry_stop(stop, i));
            },
        };
        if let Some(k) = find_id(before, entry.id) {
            let mut out: String = "`".to_owned();
            out.append(before[k].name.as_str());
            out.append("` and `");
            out.append(entry.name.as_str());
            out.append("` share id ");
            push_hex8(&mut out, entry.id as u64);
            assert(raw_views(before@)[k as int] == before@[k as int]@);
            return Err(refused(self.address, out));
        }
        Ok(entry)
    }

    /// The entries of the list at `list`.
    fn read_entries(&self, c: &mut Cursor, list: u64, count: u64) -> (r: Result<
        Vec<RawEntry>,
        Stop,
    >)
        ensures
            match entries_at(
                old(c).views(),
                old(c).next as nat,
                self.address,
                self.fields,
                list,
                count as nat,
            ) {
                Ok((v, n)) => r matches Ok(w) && raw_views(w@) == v,
                Err(stop) => r matches Err(s) && s@ == stop,
            },
    {
        let ghost views = c.views();
        let ghost start = c.next as nat;
        let mut entries: Vec<RawEntry> = Vec::new();
        let mut i: u64 = 0;
        assert(raw_views(entries@) =~= Seq::<RawEntryView>::empty());
        while i < count
            invariant
                i <= count,
                views == old(c).views(),
                start == old(c).next,
                c.views() == views,
                entries_at(views, start, self.address, self.fields, list, i as nat) == Ok::<
                    (Seq<RawEntryView>, nat),
                    StopView,
                >((raw_views(entries@), c.next as nat)),
            decreases count - i,
        {
            match self.read_listed(c, list, i, &entries) {
                Ok(entry) => {
                    let ghost before = entries@;
                    entries.push(entry);
                    assert(raw_views(entries@) =~= raw_views(before).push(entry@));
                },
                Err(stop) => {
                    proof {
                        lemma_entries_stop(
                            views,
                            start,
                            self.address,
                            self.fields,
                            list,
                            (i + 1) as nat,
                            count as nat,
                        );
                    }
                    return Err(stop);
                },
            }
            i = i + 1;
        }
        Ok(entries)
    }

    /// Decode the table from what reads of memory gave so far, each read at the
    /// address and of the length that the last call asked for.
    pub fn decode(&self, answers: &[Answer]) -> (r: Result<RawCatalog, Stop>)
        ensures
            match table_at(answers_of(answers@), self.address, self.fields) {
                Ok((entries, _)) => r matches Ok(catalog) && raw_views(catalog.entries@) == entries
                    && catalog.address == self.address && catalog.symbol@ == self.symbol@,
                Err(stop) => r matches Err(s) && s@ == stop,
            },
    {
        let mut c = Cursor { answers, next: 0 };
        let magic: u32 = match c.read_uint(self.address, self.fields.magic) {
            Ok(v) => #[verifier::truncate] (v as u32),
            Err(stop) => {
                return Err(stop);
            },
        };
        if magic != TABLE_MAGIC {
            let mut out: String = "magic is ".to_owned();
            push_hex8(&mut out, magic as u64);
            return Err(refused(self.address, out));
        }
        let version: u32 = match c.read_uint(self.address, self.fields.version) {
            Ok(v) => #[verifier::truncate] (v as u32),
            Err(stop) => {
                return Err(stop);
            },
        };
        if version != TABLE_VERSION {
            let mut out: String = with_number("format version ", version as u64);
            out.append(", this tool reads ");
            push_decimal(&mut out, TABLE_VERSION as u64);
            return Err(refused(self.address, out));
        }
        let list: u64 = match c.read_uint(self.address, self.fields.entries_ptr) {
            Ok(list) => list,
            Err(stop) => {
                return Err(stop);
            },
        };
        let count: u64 = match c.read_uint(self.address, self.fields.entries_len) {
            Ok(count) => count,
            Err(stop) => {
                return Err(stop);
            },
        };
        if count > MAX_ENTRIES {
            let mut out: String = String::new();
            push_decimal(&mut out, count);
            out.append(" entries");
            assert(out@ =~= decimal(count as nat) + " entries"@);
            return Err(refused(self.address, out));
        }
        match self.read_entries(&mut c, list, count) {
            Ok(entries) => Ok(
                RawCatalog { address: self.address, symbol: self.symbol.clone(), entries },
            ),
            Err(stop) => Err(stop),
        }
    }

    /// Whether decoding asked for each of these answers in turn and then came
    /// to an end with this result.
    pub open spec fn ends_with(
        self,
        answers: Seq<AnswerView>,
        r: Result<RawCatalog, CatalogError>,
    ) -> bool {
        &&& forall|k: int|
            0 <= k < answers.len() ==> (#[trigger] table_at(
                answers.take(k),
                self.address,
                self.fields,
            ) matches Err(stop) && stop is Need)
        &&& match table_at(answers, self.address, self.fields) {
            Ok((entries, _)) => r matches Ok(catalog) && raw_views(catalog.entries@) == entries
                && catalog.address == self.address && catalog.symbol@ == self.symbol@,
            Err(StopView::Error(e)) => r matches Err(error) && error@ == e,
            Err(_) => false,
        }
    }

    /// What decoding asks for once it had these answers, if it does.
    pub open spec fn asks(self, answers: Seq<AnswerView>) -> Option<(u64, usize)> {
        match table_at(answers, self.address, self.fields) {
            Err(StopView::Need { address, len }) => Some((address, len)),
            _ => None,
        }
    }

    /// Whether memory gave these answers, one after another, each to what decoding
    /// asked for, and was in these states before, between and after.
    pub open spec fn answered_by<M: MemoryAccess>(
        self,
        answers: Seq<AnswerView>,
        states: Seq<M>,
    ) -> bool {
        &&& states.len() == answers.len() + 1
        &&& forall|k: int|
            0 <= k < answers.len() ==> {
                &&& self.asks(answers.take(k)) matches Some((address, len))
                &&& states[k].gives(address, len, #[trigger] answers[k], &states[k + 1])
            }
    }

    /// Whether decoding the table from memory comes to this, and leaves the memory
    /// like that: what it asks for is read, in that order and nothing else.
    pub open spec fn decoded_from<M: MemoryAccess>(
        self,
        before: M,
        after: M,
        r: Result<RawCatalog, CatalogError>,
    ) -> bool {
        exists|answers: Seq<AnswerView>, states: Seq<M>|
            #![trigger self.ends_with(answers, r), self.answered_by(answers, states)]
            {
                &&& self.ends_with(answers, r)
                &&& self.answered_by(answers, states)
                &&& states[0] == before
                &&& states.last() == after
            }
    }

    /// Decode the table from `memory`: the ELF image or the live target. No
    /// more is read than the most entries that a table may have can take.
    pub fn read<M: MemoryAccess>(&self, memory: &mut M) -> (r: Result<RawCatalog, CatalogError>)
        ensures
            self.decoded_from(*old(memory), *final(memory), r),
    {
        let mut answers: Vec<Answer> = Vec::new();
        let ghost mut states: Seq<M> = seq![*memory];
        assert(answers_of(answers@) =~= Seq::<AnswerView>::empty());
        loop
            invariant
                states.len() == answers@.len() + 1,
                states[0] == *old(memory),
                states.last() == *memory,
                self.answered_by(answers_of(answers@), states),
                forall|k: int|
                    0 <= k < answers@.len() ==> (#[trigger] table_at(
                        answers_of(answers@).take(k),
                        self.address,
                        self.fields,
                    ) matches Err(stop) && stop is Need),
            decreases MAX_READS - answers@.len(),
        {
            let ghost views = answers_of(answers@);
            match self.decode(answers.as_slice()) {
                Ok(catalog) => {
                    let r = Ok(catalog);
                    assert(self.ends_with(views, r));
                    assert(self.answered_by(views, states));
                    return r;
                },
                Err(Stop::Error(e)) => {
                    let r = Err(e);
                    assert(self.ends_with(views, r));
                    assert(self.answered_by(views, states));
                    return r;
                },
                Err(Stop::Need { address, len }) => {
                    proof {
                        lemma_reads_bound(views, self.address, self.fields);
                    }
                    let ghost held = states;
                    let answer: Answer = memory.read(address, len);
                    answers.push(answer);
                    proof {
                        let now = answers_of(answers@);
                        assert(now.take(views.len() as int) =~= views);
                        states = held.push(*memory);
                        assert(self.asks(views) == Some((address, len)));
                        assert forall|k: int| 0 <= k < now.len() implies {
                            &&& self.asks(now.take(k)) matches Some((address, len))
                            &&& states[k].gives(address, len, #[trigger] now[k], &states[k + 1])
                        } by {
                            assert(now.take(k) =~= views.take(k));
                            if k < views.len() {
                                assert(now[k] == views[k]);
                                assert(states[k] == held[k] && states[k + 1] == held[k + 1]);
                            } else {
                                assert(views.take(k) =~= views);
                                assert(now[k] == read_view(answer));
                            }
                        }
                        assert forall|k: int| 0 <= k < now.len() implies (#[trigger] table_at(
                            now.take(k),
                            self.address,
                            self.fields,
                        ) matches Err(stop) && stop is Need) by {
                            if k < views.len() {
                                assert(now.take(k) =~= views.take(k));
                            }
                        }
                    }
                },
            }
        }
    }
}

/// Whether these are what an ELF image holds where decoding asks for it.
pub open spec fn held_answers(
    layout: TableLayout,
    regions: Seq<(u64, Seq<u8>)>,
    answers: Seq<AnswerView>,
) -> bool {
    forall|k: int|
        0 <= k < answers.len() ==> {
            &&& layout.asks(answers.take(k)) matches Some((address, len))
            &&& #[trigger] answers[k] == held_at(regions, address, len)
        }
}

/// Decoding the table from an ELF image gives what the ELF holds: it ends with
/// the bytes that the image holds where decoding asks for them, and leaves the
/// image as it was.
pub proof fn lemma_image_gives_what_it_holds(
    layout: TableLayout,
    before: ElfImage,
    after: ElfImage,
    r: Result<RawCatalog, CatalogError>,
)
    requires
        layout.decoded_from(before, after, r),
    ensures
        after == before,
        exists|answers: Seq<AnswerView>|
            #[trigger] layout.ends_with(answers, r) && held_answers(
                layout,
                before.regions(),
                answers,
            ),
{
    let (answers, states) = choose|answers: Seq<AnswerView>, states: Seq<ElfImage>|
        #![trigger layout.ends_with(answers, r), layout.answered_by(answers, states)]
        {
            &&& layout.ends_with(answers, r)
            &&& layout.answered_by(answers, states)
            &&& states[0] == before
            &&& states.last() == after
        };
    lemma_image_stays(layout, answers, states, answers.len() as int);
    assert forall|k: int| 0 <= k < answers.len() implies {
        &&& layout.asks(answers.take(k)) matches Some((address, len))
        &&& #[trigger] answers[k] == held_at(before.regions(), address, len)
    } by {
        lemma_image_stays(layout, answers, states, k);
    }
}

/// Reading leaves an ELF image as it was.
proof fn lemma_image_stays(
    layout: TableLayout,
    answers: Seq<AnswerView>,
    states: Seq<ElfImage>,
    k: int,
)
    requires
        layout.answered_by(answers, states),
        0 <= k <= answers.len(),
    ensures
        states[k] == states[0],
    decreases k,
{
    if k > 0 {
        let j = k - 1;
        lemma_image_stays(layout, answers, states, j);
        assert(layout.asks(answers.take(j)) matches Some((address, len)) && answers[j] == held_at(
            states[j].regions(),
            address,
            len,
        ) && states[j + 1] == states[j]);
    }
}

/// An ELF image holds one table: decoding it always comes to the same entries, or
/// to the same error.
pub proof fn lemma_image_holds_one_table(
    layout: TableLayout,
    regions: Seq<(u64, Seq<u8>)>,
    a: Seq<AnswerView>,
    b: Seq<AnswerView>,
    r: Result<RawCatalog, CatalogError>,
    s: Result<RawCatalog, CatalogError>,
)
    requires
        layout.ends_with(a, r),
        layout.ends_with(b, s),
        held_answers(layout, regions, a),
        held_answers(layout, regions, b),
    ensures
        a == b,
        match (r, s) {
            (Ok(x), Ok(y)) => raw_views(x.entries@) == raw_views(y.entries@) && x.address
                == y.address && x.symbol@ == y.symbol@,
            (Err(x), Err(y)) => x@ == y@,
            _ => false,
        },
{
    let n = if a.len() <= b.len() {
        a.len() as int
    } else {
        b.len() as int
    };
    lemma_same_answers(layout, regions, a, b, n);
    assert(a.take(a.len() as int) =~= a);
    assert(b.take(b.len() as int) =~= b);
    if n < b.len() {
        assert(table_at(b.take(n), layout.address, layout.fields) matches Err(stop) && stop is Need);
    }
    if n < a.len() {
        assert(table_at(a.take(n), layout.address, layout.fields) matches Err(stop) && stop is Need);
    }
}

proof fn lemma_same_answers(
    layout: TableLayout,
    regions: Seq<(u64, Seq<u8>)>,
    a: Seq<AnswerView>,
    b: Seq<AnswerView>,
    n: int,
)
    requires
        held_answers(layout, regions, a),
        held_answers(layout, regions, b),
        0 <= n <= a.len(),
        n <= b.len(),
    ensures
        a.take(n) == b.take(n),
    decreases n,
{
    if n > 0 {
        lemma_same_answers(layout, regions, a, b, n - 1);
        let k = n - 1;
        assert(layout.asks(a.take(k)) matches Some((address, len)) && a[k] == held_at(
            regions,
            address,
            len,
        ));
        assert(layout.asks(b.take(k)) matches Some((address, len)) && b[k] == held_at(
            regions,
            address,
            len,
        ));
        assert(a.take(n) =~= a.take(k).push(a[k]));
        assert(b.take(n) =~= b.take(k).push(b[k]));
    } else {
        assert(a.take(0) =~= b.take(0));
    }
}

/// The head of an entry takes at most eight reads.
proof fn lemma_head_reads(answers: Seq<AnswerView>, n: nat, table: u64, f: Fields, at: u64)
    ensures
        match head_at(answers, n, table, f, at) {
            Ok((_, m)) => m <= n + 8,
            Err(stop) => stop is Need ==> answers.len() < n + 8,
        },
{
}

/// The rest of an entry takes at most five reads.
proof fn lemma_tail_reads(
    answers: Seq<AnswerView>,
    n: nat,
    table: u64,
    f: Fields,
    at: u64,
    head: HeadView,
)
    ensures
        match tail_at(answers, n, table, f, at, head) {
            Ok((_, m)) => m <= n + 5,
            Err(stop) => stop is Need ==> answers.len() < n + 5,
        },
{
}

/// An entry takes at most fourteen reads.
proof fn lemma_entries_reads(
    answers: Seq<AnswerView>,
    n: nat,
    table: u64,
    f: Fields,
    list: u64,
    count: nat,
)
    ensures
        match entries_at(answers, n, table, f, list, count) {
            Ok((_, m)) => m <= n + 14 * count,
            Err(stop) => stop is Need ==> answers.len() < n + 14 * count,
        },
    decreases count,
{
    if count > 0 {
        reveal(listed_at);
        reveal(entry_at);
        let i = (count - 1) as nat;
        lemma_entries_reads(answers, n, table, f, list, i);
        if let Ok((_, m)) = entries_at(answers, n, table, f, list, i) {
            let place = list.wrapping_add((i as u64).wrapping_mul(f.pointer));
            if let Ok((at, m)) = number_at(
                answers,
                m,
                place,
                Field { offset: 0, size: f.pointer },
            ) {
                lemma_head_reads(answers, m, table, f, at);
                if let Ok((head, m)) = head_at(answers, m, table, f, at) {
                    lemma_tail_reads(answers, m, table, f, at, head);
                }
            }
        }
    }
}

/// A table that needs another answer has had fewer than the most it takes.
proof fn lemma_reads_bound(answers: Seq<AnswerView>, table: u64, f: Fields)
    requires
        table_at(answers, table, f) matches Err(stop) && stop is Need,
    ensures
        answers.len() < MAX_READS,
{
    if let Ok((_, n)) = number_at(answers, 0, table, f.magic) {
        if let Ok((_, n)) = number_at(answers, n, table, f.version) {
            if let Ok((list, n)) = number_at(answers, n, table, f.entries_ptr) {
                if let Ok((count, n)) = number_at(answers, n, table, f.entries_len) {
                    if count <= MAX_ENTRIES {
                        lemma_entries_reads(answers, n, table, f, list, count as nat);
                    }
                }
            }
        }
    }
}

/// Most reads that a table takes: four for its head, and for each entry one for
/// its place, two for its kind and access, three each for its name and unit and
/// five for its numbers.
pub const MAX_READS: usize = 57348;

/// No two entries of a table share an id.
pub proof fn lemma_ids_are_distinct(
    answers: Seq<AnswerView>,
    n: nat,
    table: u64,
    f: Fields,
    list: u64,
    count: nat,
)
    ensures
        entries_at(answers, n, table, f, list, count) matches Ok((entries, _)) ==> forall|
            i: int,
            j: int,
        |
            0 <= i < j < entries.len() ==> (#[trigger] entries[i]).id != (#[trigger] entries[j]).id,
    decreases count,
{
    if count > 0 {
        reveal(listed_at);
        let i = (count - 1) as nat;
        lemma_ids_are_distinct(answers, n, table, f, list, i);
        if let Ok((before, n)) = entries_at(answers, n, table, f, list, i) {
            if let Ok((entry, _)) = listed_at(answers, n, table, f, list, i, before) {
                crate::search::lemma_first(before, raw_with(entry.id));
                assert forall|k: int| 0 <= k < before.len() implies (#[trigger] before[k]).id
                    != entry.id by {
                    assert(!raw_with(entry.id)(before[k]));
                }
            }
        }
    }
}

/// The doubles that a person would write for an entry's floats, by their bits.
#[derive(Debug, Clone, Copy)]
pub struct Written {
    pub default: u64,
    pub min: u64,
    pub max: u64,
    pub max_step: u64,
}

/// A number where there is one to write.
pub open spec fn where_some(have: Option<u32>, written: u64) -> Option<u64> {
    match have {
        Some(_) => Some(written),
        None => None,
    }
}

fn keep(have: Option<u32>, written: u64) -> (r: Option<u64>)
    ensures
        r == where_some(have, written),
{
    match have {
        Some(_) => Some(written),
        None => None,
    }
}

impl RawEntry {
    /// The entry with its numbers as a person would write them.
    pub open spec fn spec_into_entry(self, written: Written) -> CatalogEntry {
        CatalogEntry {
            id: self.id,
            name: self.name,
            unit: self.unit,
            kind: self.kind,
            access: self.access,
            default: self.kind.decoded(self.default, written.default),
            min: where_some(self.min, written.min),
            max: where_some(self.max, written.max),
            max_step: where_some(self.max_step, written.max_step),
            requested_address: self.requested_address,
            applied_address: self.applied_address,
        }
    }

    /// The entry with its numbers as a person would write them.
    pub fn into_entry(self, written: Written) -> (r: CatalogEntry)
        ensures
            r == self.spec_into_entry(written),
    {
        CatalogEntry {
            id: self.id,
            name: self.name,
            unit: self.unit,
            kind: self.kind,
            access: self.access,
            default: self.kind.decode(self.default, written.default),
            min: keep(self.min, written.min),
            max: keep(self.max, written.max),
            max_step: keep(self.max_step, written.max_step),
            requested_address: self.requested_address,
            applied_address: self.applied_address,
        }
    }
}

} // verus!
