//! Decoding a table gives back the descriptors that it was laid out from.

use vstd::prelude::*;
use vstd::string::*;
use vstd::utf8::*;
use crate::catalog::{Access, CatalogEntry, CellKind};
use crate::catalog_layout::{
    entry_type, fat_in, field_in, fields_in, first_error, scalars_in, CatalogError, Field, Fields,
    TableLayout,
};
use crate::catalog_read::{
    entries_at, entry_at, head_at, held_answers, listed_at, number_at, raw_views, raw_with,
    read_size, table_at, tail_at, text_at, AnswerView, HeadView, RawCatalog, RawEntry, RawEntryView,
    StopView, Written,
};
use crate::elf_image::held_at;
use crate::float_bits::f32_finite;
use crate::preview::{le_value, lemma_word_fits};
use crate::search::{lemma_first, lemma_first_none};
use crate::type_def::TypeId;
use crate::type_handle::pointee_in;
use crate::type_table::{record_at, size_of_type, underlying_at, TableView};
use crate::wrappers::member_named;

verus! {

/// What reads of memory give, by address and length.
pub type Reads = spec_fn(u64, usize) -> AnswerView;

/// An address so far behind another, around the end of the address space.
pub open spec fn behind(base: u64, offset: u64) -> u64 {
    ((base + offset) % 0x1_0000_0000_0000_0000) as u64
}

/// Whether memory holds a number in a field of what stands at `base`: in the
/// field's bytes, eight at most, the least significant first.
pub open spec fn holds_number(m: Reads, base: u64, field: Field, v: int) -> bool {
    let size = if field.size > 8 {
        8usize
    } else {
        field.size as usize
    };
    &&& 1 <= field.size
    &&& m(behind(base, field.offset), size) matches Ok(bytes) && bytes.len() == size && le_value(
        bytes,
    ) == v
}

/// Whether memory holds a text that a pointer and a length in what stands at `base`
/// refer to.
pub open spec fn holds_text(m: Reads, base: u64, ptr: Field, len: Field, at: u64, text: Seq<char>) -> bool {
    let bytes = encode_utf8(text);
    &&& holds_number(m, base, ptr, at as int)
    &&& holds_number(m, base, len, bytes.len() as int)
    &&& bytes.len() <= 256
    &&& bytes.len() > 0 ==> m(at, bytes.len() as usize) == Ok::<
        Seq<u8>,
        crate::carriers::CarrierErrorView,
    >(bytes)
}

/// Whether memory holds a bound in a field: a float by its bits, which a value that
/// takes requests has where it is finite.
pub open spec fn holds_bound(m: Reads, base: u64, field: Field, v: u32, tunable: bool, have: Option<u32>) -> bool {
    &&& holds_number(m, base, field, v as int)
    &&& have == (if tunable && f32_finite(v) {
        Some(v)
    } else {
        None
    })
}

/// What is in memory beside a descriptor: where its texts are, and the floats of
/// its range.
pub struct Laid {
    pub name: u64,
    pub unit: u64,
    pub min: u32,
    pub max: u32,
    pub max_step: u32,
}

/// Whether memory holds a descriptor at `at`, each of its parts in the field of that
/// name.
pub open spec fn holds_entry(m: Reads, f: Fields, at: u64, d: RawEntryView, l: Laid) -> bool {
    let tunable = d.access != Access::ReadOnly;
    &&& holds_number(
        m,
        at,
        f.kind,
        match d.kind {
            CellKind::F32 => 0,
            CellKind::I32 => 1,
            CellKind::U32 => 2,
            CellKind::Bool => 3,
        },
    )
    &&& holds_number(
        m,
        at,
        f.access,
        match d.access {
            Access::ReadOnly => 0,
            Access::Live => 1,
            Access::SafeOnly => 2,
        },
    )
    &&& holds_text(m, at, f.name_ptr, f.name_len, l.name, d.name)
    &&& holds_text(m, at, f.unit_ptr, f.unit_len, l.unit, d.unit)
    &&& holds_bound(m, at, f.min, l.min, tunable, d.min)
    &&& holds_bound(m, at, f.max, l.max, tunable, d.max)
    &&& holds_bound(m, at, f.max_step, l.max_step, tunable, d.max_step)
    &&& holds_number(m, at, f.id, d.id as int)
    &&& holds_number(m, at, f.default, d.default as int)
    &&& d.requested_address == behind(at, f.requested.offset)
    &&& d.applied_address == behind(at, f.applied.offset)
}

/// Whether memory holds a table of these descriptors at `table`: its magic and
/// version, the list of its entries, and each entry where the list says.
pub open spec fn holds_table(
    m: Reads,
    f: Fields,
    table: u64,
    list: u64,
    places: Seq<u64>,
    laid: Seq<Laid>,
    ds: Seq<RawEntryView>,
) -> bool {
    &&& holds_number(m, table, f.magic, 0x5454_4d52)
    &&& holds_number(m, table, f.version, 1)
    &&& holds_number(m, table, f.entries_ptr, list as int)
    &&& holds_number(m, table, f.entries_len, ds.len() as int)
    &&& ds.len() <= 4096
    &&& places.len() == ds.len() && laid.len() == ds.len()
    &&& forall|i: int|
        0 <= i < ds.len() ==> holds_number(
            m,
            ((list + i * f.pointer) % 0x1_0000_0000_0000_0000) as u64,
            Field { offset: 0, size: f.pointer },
            #[trigger] places[i] as int,
        )
    &&& forall|i: int|
        0 <= i < ds.len() ==> holds_entry(m, f, places[i], #[trigger] ds[i], laid[i])
    &&& forall|i: int, j: int|
        0 <= i < j < ds.len() ==> (#[trigger] ds[i]).id != (#[trigger] ds[j]).id
}

proof fn lemma_number(a: Seq<AnswerView>, n: nat, m: Reads, base: u64, field: Field, v: int)
    requires
        holds_number(m, base, field, v),
        n < a.len(),
        a[n as int] == m(behind(base, field.offset), read_size(field)),
    ensures
        0 <= v <= u64::MAX,
        number_at(a, n, base, field) == Ok::<(u64, nat), StopView>((v as u64, n + 1)),
{
    lemma_word_fits(a[n as int]->Ok_0);
}

proof fn lemma_utf8(text: Seq<char>)
    ensures
        valid_utf8(encode_utf8(text)),
        decode_utf8(encode_utf8(text)) == text,
{
    encode_utf8_valid_utf8(text);
    encode_utf8_decode_utf8(text);
}

/// Whether answers are those that memory gives to what reading an entry asks for.
spec fn entry_served(a: Seq<AnswerView>, n: nat, m: Reads, table: u64, f: Fields, at: u64) -> bool {
    forall|k: int|
        n <= k < a.len() ==> ((#[trigger] entry_at(a.take(k), n, table, f, at)) matches Err(
            StopView::Need { address, len },
        ) ==> a[k] == m(address, len))
}

/// How many answers a text takes.
spec fn text_reads(text: Seq<char>) -> nat {
    if encode_utf8(text).len() > 0 {
        3
    } else {
        2
    }
}

/// A text is asked for by its pointer, its length and then its bytes.
proof fn lemma_text(
    a: Seq<AnswerView>,
    n: nat,
    m: Reads,
    base: u64,
    ptr: Field,
    len: Field,
    at: u64,
    text: Seq<char>,
)
    requires
        holds_text(m, base, ptr, len, at, text),
        n <= a.len(),
        n < a.len() ==> a[n as int] == m(behind(base, ptr.offset), read_size(ptr)),
        n + 1 < a.len() ==> a[n as int + 1] == m(behind(base, len.offset), read_size(len)),
        n + 2 < a.len() && encode_utf8(text).len() > 0 ==> a[n as int + 2] == m(
            at,
            encode_utf8(text).len() as usize,
        ),
    ensures
        a.len() == n ==> text_at(a, n, base, ptr, len) == Err::<(Option<Seq<char>>, nat), StopView>(
            StopView::Need { address: behind(base, ptr.offset), len: read_size(ptr) },
        ),
        a.len() == n + 1 ==> text_at(a, n, base, ptr, len) == Err::<
            (Option<Seq<char>>, nat),
            StopView,
        >(StopView::Need { address: behind(base, len.offset), len: read_size(len) }),
        a.len() == n + 2 && encode_utf8(text).len() > 0 ==> text_at(a, n, base, ptr, len) == Err::<
            (Option<Seq<char>>, nat),
            StopView,
        >(StopView::Need { address: at, len: encode_utf8(text).len() as usize }),
        a.len() >= n + text_reads(text) ==> text_at(a, n, base, ptr, len) == Ok::<
            (Option<Seq<char>>, nat),
            StopView,
        >((Some(text), n + text_reads(text))),
{
    lemma_utf8(text);
    if n < a.len() {
        lemma_number(a, n, m, base, ptr, at as int);
    }
    if n + 1 < a.len() {
        lemma_number(a, n + 1, m, base, len, encode_utf8(text).len() as int);
    }
    if encode_utf8(text).len() == 0 {
        assert(encode_utf8(text) =~= Seq::<u8>::empty());
    }
}

/// What an entry's head asks for, one after another, and what it comes to.
#[verifier::spinoff_prover]
#[verifier::rlimit(60)]
proof fn lemma_head(
    a: Seq<AnswerView>,
    n: nat,
    m: Reads,
    table: u64,
    f: Fields,
    at: u64,
    d: RawEntryView,
    l: Laid,
)
    requires
        holds_entry(m, f, at, d, l),
        n <= a.len(),
        forall|k: int|
            n <= k < a.len() ==> ((#[trigger] head_at(a.take(k), n, table, f, at)) matches Err(
                StopView::Need { address, len },
            ) ==> a[k] == m(address, len)),
    ensures
        ({
            let end = n + 2 + text_reads(d.name) + text_reads(d.unit);
            &&& a.len() < end ==> (head_at(a, n, table, f, at) matches Err(stop) && stop is Need)
            &&& a.len() >= end ==> head_at(a, n, table, f, at) == Ok::<(HeadView, nat), StopView>(
                (
                    HeadView {
                        kind: d.kind,
                        access: d.access,
                        name: Some(d.name),
                        unit: Some(d.unit),
                    },
                    end,
                ),
            )
        }),
{
    let kind = match d.kind {
        CellKind::F32 => 0int,
        CellKind::I32 => 1,
        CellKind::U32 => 2,
        CellKind::Bool => 3,
    };
    let access = match d.access {
        Access::ReadOnly => 0int,
        Access::Live => 1,
        Access::SafeOnly => 2,
    };
    let s = n + 2;
    let u = s + text_reads(d.name);
    if n < a.len() {
        let b = a.take(n as int);
        assert(head_at(b, n, table, f, at) == Err::<(HeadView, nat), StopView>(
            StopView::Need { address: behind(at, f.kind.offset), len: read_size(f.kind) },
        ));
        lemma_number(a, n, m, at, f.kind, kind);
        assert((kind as u64) as u8 == kind);
    }
    if n + 1 < a.len() {
        let b = a.take(n as int + 1);
        lemma_number(b, n, m, at, f.kind, kind);
        assert(head_at(b, n, table, f, at) == Err::<(HeadView, nat), StopView>(
            StopView::Need { address: behind(at, f.access.offset), len: read_size(f.access) },
        ));
        lemma_number(a, n + 1, m, at, f.access, access);
    }
    lemma_text_served(a, n, m, table, f, at, d, l, kind, access);
    if s <= a.len() {
        lemma_text(a, s, m, at, f.name_ptr, f.name_len, l.name, d.name);
    }
    lemma_unit_served(a, n, m, table, f, at, d, l, kind, access);
    if u <= a.len() {
        lemma_text(a, u, m, at, f.unit_ptr, f.unit_len, l.unit, d.unit);
    }
    if s + 2 == a.len() && encode_utf8(d.name).len() == 0 {
        assert(u == a.len());
    }
}

/// The answers behind kind and access are those for the name.
proof fn lemma_text_served(
    a: Seq<AnswerView>,
    n: nat,
    m: Reads,
    table: u64,
    f: Fields,
    at: u64,
    d: RawEntryView,
    l: Laid,
    kind: int,
    access: int,
)
    requires
        holds_text(m, at, f.name_ptr, f.name_len, l.name, d.name),
        n <= a.len(),
        n + 1 < a.len() ==> {
            &&& number_at(a, n, at, f.kind) == Ok::<(u64, nat), StopView>((kind as u64, n + 1))
            &&& number_at(a, n + 1, at, f.access) == Ok::<(u64, nat), StopView>(
                (access as u64, n + 2),
            )
        },
        0 <= kind <= 3,
        0 <= access <= 2,
        forall|k: int|
            n <= k < a.len() ==> ((#[trigger] head_at(a.take(k), n, table, f, at)) matches Err(
                StopView::Need { address, len },
            ) ==> a[k] == m(address, len)),
    ensures
        ({
            let s = n + 2;
            &&& s < a.len() ==> a[s as int] == m(
                behind(at, f.name_ptr.offset),
                read_size(f.name_ptr),
            )
            &&& s + 1 < a.len() ==> a[s as int + 1] == m(
                behind(at, f.name_len.offset),
                read_size(f.name_len),
            )
            &&& s + 2 < a.len() && encode_utf8(d.name).len() > 0 ==> a[s as int + 2] == m(
                l.name,
                encode_utf8(d.name).len() as usize,
            )
        }),
{
    let s = n + 2;
    if s < a.len() {
        let b = a.take(s as int);
        assert(number_at(b, n, at, f.kind) == number_at(a, n, at, f.kind));
        assert(number_at(b, n + 1, at, f.access) == number_at(a, n + 1, at, f.access));
        lemma_text(b, s, m, at, f.name_ptr, f.name_len, l.name, d.name);
        assert(head_at(b, n, table, f, at) is Err);
    }
    if s + 1 < a.len() {
        let b = a.take(s as int + 1);
        assert(number_at(b, n, at, f.kind) == number_at(a, n, at, f.kind));
        assert(number_at(b, n + 1, at, f.access) == number_at(a, n + 1, at, f.access));
        lemma_text(b, s, m, at, f.name_ptr, f.name_len, l.name, d.name);
        assert(head_at(b, n, table, f, at) is Err);
    }
    if s + 2 < a.len() && encode_utf8(d.name).len() > 0 {
        let b = a.take(s as int + 2);
        assert(number_at(b, n, at, f.kind) == number_at(a, n, at, f.kind));
        assert(number_at(b, n + 1, at, f.access) == number_at(a, n + 1, at, f.access));
        lemma_text(b, s, m, at, f.name_ptr, f.name_len, l.name, d.name);
        assert(head_at(b, n, table, f, at) is Err);
    }
}

/// The answers behind the name are those for the unit.
proof fn lemma_unit_served(
    a: Seq<AnswerView>,
    n: nat,
    m: Reads,
    table: u64,
    f: Fields,
    at: u64,
    d: RawEntryView,
    l: Laid,
    kind: int,
    access: int,
)
    requires
        holds_text(m, at, f.name_ptr, f.name_len, l.name, d.name),
        holds_text(m, at, f.unit_ptr, f.unit_len, l.unit, d.unit),
        n <= a.len(),
        n + 1 < a.len() ==> {
            &&& number_at(a, n, at, f.kind) == Ok::<(u64, nat), StopView>((kind as u64, n + 1))
            &&& number_at(a, n + 1, at, f.access) == Ok::<(u64, nat), StopView>(
                (access as u64, n + 2),
            )
        },
        0 <= kind <= 3,
        0 <= access <= 2,
        n + 2 < a.len() ==> a[n as int + 2] == m(behind(at, f.name_ptr.offset), read_size(f.name_ptr)),
        n + 3 < a.len() ==> a[n as int + 3] == m(behind(at, f.name_len.offset), read_size(f.name_len)),
        n + 4 < a.len() && encode_utf8(d.name).len() > 0 ==> a[n as int + 4] == m(
            l.name,
            encode_utf8(d.name).len() as usize,
        ),
        forall|k: int|
            n <= k < a.len() ==> ((#[trigger] head_at(a.take(k), n, table, f, at)) matches Err(
                StopView::Need { address, len },
            ) ==> a[k] == m(address, len)),
    ensures
        ({
            let u = n + 2 + text_reads(d.name);
            &&& u < a.len() ==> a[u as int] == m(
                behind(at, f.unit_ptr.offset),
                read_size(f.unit_ptr),
            )
            &&& u + 1 < a.len() ==> a[u as int + 1] == m(
                behind(at, f.unit_len.offset),
                read_size(f.unit_len),
            )
            &&& u + 2 < a.len() && encode_utf8(d.unit).len() > 0 ==> a[u as int + 2] == m(
                l.unit,
                encode_utf8(d.unit).len() as usize,
            )
        }),
{
    let s = n + 2;
    let u = s + text_reads(d.name);
    if u < a.len() {
        let b = a.take(u as int);
        assert(number_at(b, n, at, f.kind) == number_at(a, n, at, f.kind));
        assert(number_at(b, n + 1, at, f.access) == number_at(a, n + 1, at, f.access));
        lemma_text(b, s, m, at, f.name_ptr, f.name_len, l.name, d.name);
        lemma_text(b, u, m, at, f.unit_ptr, f.unit_len, l.unit, d.unit);
        assert(head_at(b, n, table, f, at) is Err);
    }
    if u + 1 < a.len() {
        let b = a.take(u as int + 1);
        assert(number_at(b, n, at, f.kind) == number_at(a, n, at, f.kind));
        assert(number_at(b, n + 1, at, f.access) == number_at(a, n + 1, at, f.access));
        lemma_text(b, s, m, at, f.name_ptr, f.name_len, l.name, d.name);
        lemma_text(b, u, m, at, f.unit_ptr, f.unit_len, l.unit, d.unit);
        assert(head_at(b, n, table, f, at) is Err);
    }
    if u + 2 < a.len() && encode_utf8(d.unit).len() > 0 {
        let b = a.take(u as int + 2);
        assert(number_at(b, n, at, f.kind) == number_at(a, n, at, f.kind));
        assert(number_at(b, n + 1, at, f.access) == number_at(a, n + 1, at, f.access));
        lemma_text(b, s, m, at, f.name_ptr, f.name_len, l.name, d.name);
        lemma_text(b, u, m, at, f.unit_ptr, f.unit_len, l.unit, d.unit);
        assert(head_at(b, n, table, f, at) is Err);
    }
}

/// An entry's numbers stop for the first that has no answer.
proof fn lemma_tail_stops(a: Seq<AnswerView>, n: nat, table: u64, f: Fields, at: u64, head: HeadView)
    requires
        n <= a.len() < n + 5,
        head.name is Some,
        head.unit is Some,
        a.len() > n ==> a[n as int] is Ok,
        a.len() > n + 1 ==> a[n as int + 1] is Ok,
        a.len() > n + 2 ==> a[n as int + 2] is Ok,
        a.len() > n + 3 ==> a[n as int + 3] is Ok,
    ensures
        ({
            let field = if a.len() == n {
                f.min
            } else if a.len() == n + 1 {
                f.max
            } else if a.len() == n + 2 {
                f.max_step
            } else if a.len() == n + 3 {
                f.id
            } else {
                f.default
            };
            tail_at(a, n, table, f, at, head) == Err::<(RawEntryView, nat), StopView>(
                StopView::Need { address: behind(at, field.offset), len: read_size(field) },
            )
        }),
{
}

/// What an entry's numbers ask for, one after another, and what they come to.
proof fn lemma_tail(
    a: Seq<AnswerView>,
    n: nat,
    m: Reads,
    table: u64,
    f: Fields,
    at: u64,
    d: RawEntryView,
    l: Laid,
    head: HeadView,
)
    requires
        holds_entry(m, f, at, d, l),
        n <= a.len(),
        head == (HeadView {
            kind: d.kind,
            access: d.access,
            name: Some(d.name),
            unit: Some(d.unit),
        }),
        forall|k: int|
            n <= k < a.len() ==> ((#[trigger] tail_at(a.take(k), n, table, f, at, head)) matches Err(
                StopView::Need { address, len },
            ) ==> a[k] == m(address, len)),
    ensures
        a.len() < n + 5 ==> (tail_at(a, n, table, f, at, head) matches Err(stop) && stop is Need),
        a.len() >= n + 5 ==> tail_at(a, n, table, f, at, head) == Ok::<
            (RawEntryView, nat),
            StopView,
        >((d, n + 5)),
{
    if n + 0 < a.len() {
        lemma_tail_stops(a.take(n as int + 0), n, table, f, at, head);
        lemma_number(a, n + 0, m, at, f.min, l.min as int);
    }
    if n + 1 < a.len() {
        lemma_tail_stops(a.take(n as int + 1), n, table, f, at, head);
        assert(number_at(a.take(n as int + 1), n + 0, at, f.min) is Ok);
        lemma_number(a, n + 1, m, at, f.max, l.max as int);
    }
    if n + 2 < a.len() {
        lemma_tail_stops(a.take(n as int + 2), n, table, f, at, head);
        assert(number_at(a.take(n as int + 2), n + 0, at, f.min) is Ok);
        assert(number_at(a.take(n as int + 2), n + 1, at, f.max) is Ok);
        lemma_number(a, n + 2, m, at, f.max_step, l.max_step as int);
    }
    if n + 3 < a.len() {
        lemma_tail_stops(a.take(n as int + 3), n, table, f, at, head);
        assert(number_at(a.take(n as int + 3), n + 0, at, f.min) is Ok);
        assert(number_at(a.take(n as int + 3), n + 1, at, f.max) is Ok);
        assert(number_at(a.take(n as int + 3), n + 2, at, f.max_step) is Ok);
        lemma_number(a, n + 3, m, at, f.id, d.id as int);
    }
    if n + 4 < a.len() {
        lemma_tail_stops(a.take(n as int + 4), n, table, f, at, head);
        assert(number_at(a.take(n as int + 4), n + 0, at, f.min) is Ok);
        assert(number_at(a.take(n as int + 4), n + 1, at, f.max) is Ok);
        assert(number_at(a.take(n as int + 4), n + 2, at, f.max_step) is Ok);
        assert(number_at(a.take(n as int + 4), n + 3, at, f.id) is Ok);
        lemma_number(a, n + 4, m, at, f.default, d.default as int);
    }
    if a.len() >= n + 5 {
        assert((l.min as u64) as u32 == l.min && (l.max as u64) as u32 == l.max
            && (l.max_step as u64) as u32 == l.max_step);
        assert((d.id as u64) as u32 == d.id && (d.default as u64) as u32 == d.default);
    }
}

/// Answers as far as a head needs them make the same head.
proof fn lemma_head_stable(a: Seq<AnswerView>, k: int, n: nat, table: u64, f: Fields, at: u64)
    requires
        k <= a.len(),
        head_at(a, n, table, f, at) matches Ok((_, end)) && end <= k,
    ensures
        head_at(a.take(k), n, table, f, at) == head_at(a, n, table, f, at),
{
}

/// A head that stops does so for the same answer, however many there are behind.
proof fn lemma_entry(
    a: Seq<AnswerView>,
    n: nat,
    m: Reads,
    table: u64,
    f: Fields,
    at: u64,
    d: RawEntryView,
    l: Laid,
)
    requires
        holds_entry(m, f, at, d, l),
        n <= a.len(),
        entry_served(a, n, m, table, f, at),
    ensures
        match entry_at(a, n, table, f, at) {
            Ok((e, end)) => e == d && n <= end <= a.len(),
            Err(stop) => stop is Need,
        },
{
    reveal(entry_at);
    assert forall|k: int| n <= k < a.len() implies ((#[trigger] head_at(
        a.take(k),
        n,
        table,
        f,
        at,
    )) matches Err(StopView::Need { address, len }) ==> a[k] == m(address, len)) by {
        let b = a.take(k);
        if let Err(stop) = head_at(b, n, table, f, at) {
            assert(entry_at(b, n, table, f, at) == Err::<(RawEntryView, nat), StopView>(stop));
        }
    }
    lemma_head(a, n, m, table, f, at, d, l);
    let t = n + 2 + text_reads(d.name) + text_reads(d.unit);
    if a.len() >= t {
        let head = HeadView {
            kind: d.kind,
            access: d.access,
            name: Some(d.name),
            unit: Some(d.unit),
        };
        assert forall|k: int| t <= k < a.len() implies ((#[trigger] tail_at(
            a.take(k),
            t,
            table,
            f,
            at,
            head,
        )) matches Err(StopView::Need { address, len }) ==> a[k] == m(address, len)) by {
            lemma_head_stable(a, k, n, table, f, at);
            assert(entry_at(a.take(k), n, table, f, at) == tail_at(
                a.take(k),
                t,
                table,
                f,
                at,
                head,
            ));
        }
        lemma_tail(a, t, m, table, f, at, d, l, head);
    }
}

/// Answers as far as an entry needs them make the same entry.
proof fn lemma_entry_stable(a: Seq<AnswerView>, k: int, n: nat, table: u64, f: Fields, at: u64)
    requires
        k <= a.len(),
        entry_at(a, n, table, f, at) matches Ok((_, end)) && end <= k,
    ensures
        entry_at(a.take(k), n, table, f, at) == entry_at(a, n, table, f, at),
{
    reveal(entry_at);
    let (head, t) = head_at(a, n, table, f, at)->Ok_0;
    lemma_tail_moves(a, t, table, f, at, head);
    lemma_head_stable(a, k, n, table, f, at);
}

proof fn lemma_tail_moves(
    a: Seq<AnswerView>,
    n: nat,
    table: u64,
    f: Fields,
    at: u64,
    head: HeadView,
)
    ensures
        tail_at(a, n, table, f, at, head) matches Ok((_, end)) ==> end == n + 5 && end <= a.len(),
{
}

/// The place of an entry in the list.
spec fn place_of(list: u64, i: nat, pointer: u64) -> u64 {
    list.wrapping_add((i as u64).wrapping_mul(pointer))
}

proof fn lemma_place(list: u64, i: nat, pointer: u64)
    requires
        i <= u64::MAX,
    ensures
        place_of(list, i, pointer) == ((list + i * pointer) % 0x1_0000_0000_0000_0000) as u64,
{
    let w = 0x1_0000_0000_0000_0000int;
    let p = i * pointer;
    assert((i as u64).wrapping_mul(pointer) == p % w);
    assert((list + p % w) % w == (list + p) % w) by {
        vstd::arithmetic::div_mod::lemma_add_mod_noop(list as int, p as int, w);
        vstd::arithmetic::div_mod::lemma_small_mod(list as nat, w as nat);
    }
}

/// One entry of the list: its place, and then the entry.
proof fn lemma_listed(
    a: Seq<AnswerView>,
    n: nat,
    m: Reads,
    table: u64,
    f: Fields,
    list: u64,
    i: nat,
    before: Seq<RawEntryView>,
    at: u64,
    d: RawEntryView,
    l: Laid,
)
    requires
        i <= 4096,
        holds_number(
            m,
            place_of(list, i, f.pointer),
            Field { offset: 0, size: f.pointer },
            at as int,
        ),
        holds_entry(m, f, at, d, l),
        forall|k: int| 0 <= k < before.len() ==> (#[trigger] before[k]).id != d.id,
        n <= a.len(),
        forall|k: int|
            n <= k < a.len() ==> ((#[trigger] listed_at(
                a.take(k),
                n,
                table,
                f,
                list,
                i,
                before,
            )) matches Err(StopView::Need { address, len }) ==> a[k] == m(address, len)),
    ensures
        match listed_at(a, n, table, f, list, i, before) {
            Ok((e, end)) => e == d && n <= end <= a.len(),
            Err(stop) => stop is Need,
        },
{
    reveal(listed_at);
    let place = place_of(list, i, f.pointer);
    let field = Field { offset: 0, size: f.pointer };
    if n < a.len() {
        let b = a.take(n as int);
        assert(listed_at(b, n, table, f, list, i, before) == Err::<(RawEntryView, nat), StopView>(
            StopView::Need { address: place, len: read_size(field) },
        ));
        assert(behind(place, 0) == place);
        lemma_number(a, n, m, place, field, at as int);
        assert forall|k: int| n + 1 <= k < a.len() implies ((#[trigger] entry_at(
            a.take(k),
            n + 1,
            table,
            f,
            at,
        )) matches Err(StopView::Need { address, len }) ==> a[k] == m(address, len)) by {
            let b = a.take(k);
            assert(number_at(b, n, place, field) == number_at(a, n, place, field));
            assert(entry_at(b, n + 1, table, f, at) matches Err(StopView::Need { address, len })
                ==> listed_at(b, n, table, f, list, i, before) == Err::<
                (RawEntryView, nat),
                StopView,
            >(StopView::Need { address, len }));
        }
        lemma_entry(a, n + 1, m, table, f, at, d, l);
        lemma_first_none(before, raw_with(d.id));
    }
}

proof fn lemma_listed_stable(
    a: Seq<AnswerView>,
    k: int,
    n: nat,
    table: u64,
    f: Fields,
    list: u64,
    i: nat,
    before: Seq<RawEntryView>,
)
    requires
        k <= a.len(),
        listed_at(a, n, table, f, list, i, before) matches Ok((_, end)) && end <= k,
    ensures
        listed_at(a.take(k), n, table, f, list, i, before) == listed_at(
            a,
            n,
            table,
            f,
            list,
            i,
            before,
        ),
        n <= listed_at(a, n, table, f, list, i, before)->Ok_0.1,
{
    reveal(listed_at);
    reveal(entry_at);
    let place = place_of(list, i, f.pointer);
    let field = Field { offset: 0, size: f.pointer };
    let at = number_at(a, n, place, field)->Ok_0.0;
    lemma_entry_moves(a, n + 1, table, f, at);
    lemma_entry_stable(a, k, n + 1, table, f, at);
}

proof fn lemma_entry_moves(a: Seq<AnswerView>, n: nat, table: u64, f: Fields, at: u64)
    ensures
        entry_at(a, n, table, f, at) matches Ok((_, end)) ==> n < end <= a.len(),
{
    reveal(entry_at);
    if let Ok((head, t)) = head_at(a, n, table, f, at) {
        lemma_tail_moves(a, t, table, f, at, head);
    }
}

/// Answers as far as entries need them make the same entries.
proof fn lemma_entries_stable(
    a: Seq<AnswerView>,
    k: int,
    n: nat,
    table: u64,
    f: Fields,
    list: u64,
    count: nat,
)
    requires
        k <= a.len(),
        entries_at(a, n, table, f, list, count) matches Ok((_, end)) && end <= k,
    ensures
        entries_at(a.take(k), n, table, f, list, count) == entries_at(a, n, table, f, list, count),
        n <= entries_at(a, n, table, f, list, count)->Ok_0.1,
    decreases count,
{
    if count > 0 {
        let i = (count - 1) as nat;
        let (before, end) = entries_at(a, n, table, f, list, i)->Ok_0;
        lemma_listed_stable(a, k, end, table, f, list, i, before);
        lemma_entries_stable(a, k, n, table, f, list, i);
    }
}

/// Reading entries that stops does so for all that come behind.
proof fn lemma_entries_stop(
    a: Seq<AnswerView>,
    n: nat,
    table: u64,
    f: Fields,
    list: u64,
    i: nat,
    count: nat,
)
    requires
        i <= count,
        entries_at(a, n, table, f, list, i) is Err,
    ensures
        entries_at(a, n, table, f, list, count) == entries_at(a, n, table, f, list, i),
    decreases count,
{
    if i < count {
        lemma_entries_stop(a, n, table, f, list, i, (count - 1) as nat);
    }
}

/// The first entries of the list.
proof fn lemma_entries(
    a: Seq<AnswerView>,
    n: nat,
    m: Reads,
    table: u64,
    f: Fields,
    list: u64,
    places: Seq<u64>,
    laid: Seq<Laid>,
    ds: Seq<RawEntryView>,
    i: nat,
)
    requires
        holds_table(m, f, table, list, places, laid, ds),
        i <= ds.len(),
        n <= a.len(),
        forall|k: int|
            n <= k < a.len() ==> ((#[trigger] entries_at(
                a.take(k),
                n,
                table,
                f,
                list,
                ds.len(),
            )) matches Err(StopView::Need { address, len }) ==> a[k] == m(address, len)),
    ensures
        match entries_at(a, n, table, f, list, i) {
            Ok((got, end)) => got == ds.take(i as int) && n <= end <= a.len(),
            Err(stop) => stop is Need,
        },
    decreases i,
{
    if i == 0 {
        assert(ds.take(0) =~= Seq::<RawEntryView>::empty());
    } else {
        let j = (i - 1) as nat;
        lemma_entries(a, n, m, table, f, list, places, laid, ds, j);
        if let Ok((before, end)) = entries_at(a, n, table, f, list, j) {
            let at = places[j as int];
            let d = ds[j as int];
            let l = laid[j as int];
            lemma_place(list, j, f.pointer);
            assert(holds_number(
                m,
                place_of(list, j, f.pointer),
                Field { offset: 0, size: f.pointer },
                at as int,
            ));
            assert forall|k: int| 0 <= k < before.len() implies (#[trigger] before[k]).id != d.id by {
                assert(before[k] == ds[k]);
            }
            assert forall|k: int| end <= k < a.len() implies ((#[trigger] listed_at(
                a.take(k),
                end,
                table,
                f,
                list,
                j,
                before,
            )) matches Err(StopView::Need { address, len }) ==> a[k] == m(address, len)) by {
                let b = a.take(k);
                lemma_entries_stable(a, k, n, table, f, list, j);
                if listed_at(b, end, table, f, list, j, before) is Err {
                    assert(entries_at(b, n, table, f, list, i) is Err);
                    lemma_entries_stop(b, n, table, f, list, i, ds.len());
                }
            }
            lemma_listed(a, end, m, table, f, list, j, before, at, d, l);
            assert(ds.take(j as int).push(d) =~= ds.take(i as int));
        }
    }
}

/// What a table asks for before its entries, one after another.
proof fn lemma_table_starts(a: Seq<AnswerView>, m: Reads, t: u64, f: Fields, list: u64, count: nat)
    requires
        holds_number(m, t, f.magic, 0x5454_4d52),
        holds_number(m, t, f.version, 1),
        holds_number(m, t, f.entries_ptr, list as int),
        holds_number(m, t, f.entries_len, count as int),
        count <= 4096,
        0 < a.len() ==> a[0] == m(behind(t, f.magic.offset), read_size(f.magic)),
        1 < a.len() ==> a[1] == m(behind(t, f.version.offset), read_size(f.version)),
        2 < a.len() ==> a[2] == m(behind(t, f.entries_ptr.offset), read_size(f.entries_ptr)),
        3 < a.len() ==> a[3] == m(behind(t, f.entries_len.offset), read_size(f.entries_len)),
    ensures
        a.len() < 4 ==> ({
            let field = if a.len() == 0 {
                f.magic
            } else if a.len() == 1 {
                f.version
            } else if a.len() == 2 {
                f.entries_ptr
            } else {
                f.entries_len
            };
            table_at(a, t, f) == Err::<(Seq<RawEntryView>, nat), StopView>(
                StopView::Need { address: behind(t, field.offset), len: read_size(field) },
            )
        }),
        a.len() >= 4 ==> table_at(a, t, f) == entries_at(a, 4, t, f, list, count),
{
    if 0 < a.len() {
        lemma_number(a, 0, m, t, f.magic, 0x5454_4d52);
        assert(0x5454_4d52u64 as u32 == 0x5454_4d52u32);
    }
    if 1 < a.len() {
        lemma_number(a, 1, m, t, f.version, 1);
        assert(1u64 as u32 == 1u32);
    }
    if 2 < a.len() {
        lemma_number(a, 2, m, t, f.entries_ptr, list as int);
    }
    if 3 < a.len() {
        lemma_number(a, 3, m, t, f.entries_len, count as int);
    }
}

/// Decoding gives back what a table was laid out from: where memory holds a table of
/// some descriptors, and decoding is answered from that memory, it ends with those
/// descriptors, all of them, in their order, each part where it was laid. The least
/// of a range is its least, the greatest its greatest, and the step its step.
pub proof fn lemma_decoding_gives_back_what_was_laid_out(
    layout: TableLayout,
    m: Reads,
    list: u64,
    places: Seq<u64>,
    laid: Seq<Laid>,
    ds: Seq<RawEntryView>,
    answers: Seq<AnswerView>,
    r: Result<RawCatalog, CatalogError>,
)
    requires
        holds_table(m, layout.fields, layout.address, list, places, laid, ds),
        layout.ends_with(answers, r),
        forall|k: int|
            0 <= k < answers.len() ==> (#[trigger] layout.asks(answers.take(k)) matches Some(
                (address, len),
            ) && answers[k] == m(address, len)),
    ensures
        r matches Ok(catalog) && raw_views(catalog.entries@) == ds && catalog.address
            == layout.address && catalog.symbol@ == layout.symbol@,
{
    let a = answers;
    let f = layout.fields;
    let t = layout.address;
    assert(a.take(a.len() as int) =~= a);
    assert forall|k: int| 0 <= k < a.len() implies ((#[trigger] table_at(a.take(k), t, f)) matches Err(
        StopView::Need { address, len },
    ) ==> a[k] == m(address, len)) by {
        let _ = layout.asks(a.take(k));
    }
    if 0 < a.len() {
        lemma_table_starts(a.take(0), m, t, f, list, ds.len());
        assert(table_at(a.take(0), t, f) is Err);
    }
    if 1 < a.len() {
        lemma_table_starts(a.take(1), m, t, f, list, ds.len());
        assert(table_at(a.take(1), t, f) is Err);
    }
    if 2 < a.len() {
        lemma_table_starts(a.take(2), m, t, f, list, ds.len());
        assert(table_at(a.take(2), t, f) is Err);
    }
    if 3 < a.len() {
        lemma_table_starts(a.take(3), m, t, f, list, ds.len());
        assert(table_at(a.take(3), t, f) is Err);
    }
    lemma_table_starts(a, m, t, f, list, ds.len());
    if 4 <= a.len() {
        assert forall|k: int| 4 <= k < a.len() implies ((#[trigger] entries_at(
            a.take(k),
            4,
            t,
            f,
            list,
            ds.len(),
        )) matches Err(StopView::Need { address, len }) ==> a[k] == m(address, len)) by {
            lemma_table_starts(a.take(k), m, t, f, list, ds.len());
            assert(table_at(a.take(k), t, f) == entries_at(a.take(k), 4, t, f, list, ds.len()));
        }
        lemma_entries(a, 4, m, t, f, list, places, laid, ds, ds.len());
        assert(ds.take(ds.len() as int) =~= ds);
    }
}

/// The same for a table in an ELF image: decoding ends with the descriptors that the
/// image holds.
pub proof fn lemma_images_give_back_their_descriptors(
    layout: TableLayout,
    regions: Seq<(u64, Seq<u8>)>,
    list: u64,
    places: Seq<u64>,
    laid: Seq<Laid>,
    ds: Seq<RawEntryView>,
    answers: Seq<AnswerView>,
    r: Result<RawCatalog, CatalogError>,
)
    requires
        holds_table(
            |address: u64, len: usize| held_at(regions, address, len),
            layout.fields,
            layout.address,
            list,
            places,
            laid,
            ds,
        ),
        layout.ends_with(answers, r),
        held_answers(layout, regions, answers),
    ensures
        r matches Ok(catalog) && raw_views(catalog.entries@) == ds,
{
    let m = |address: u64, len: usize| held_at(regions, address, len);
    assert forall|k: int| 0 <= k < answers.len() implies (#[trigger] layout.asks(answers.take(k)) matches Some(
        (address, len),
    ) && answers[k] == m(address, len)) by {
        let _ = answers[k];
    }
    lemma_decoding_gives_back_what_was_laid_out(layout, m, list, places, laid, ds, answers, r);
}

/// Whether a struct has a field with this name, there and of that size: the first
/// member of that name.
pub open spec fn has_field(t: TableView, ty: TypeId, name: Seq<char>, field: Field) -> bool {
    record_at(t.types, underlying_at(t.types, ty, 0), 0) matches Some(rec) && exists|i: int|
        0 <= i < rec.members@.len() && (#[trigger] rec.members@[i]).name@ == name
            && rec.members@[i].offset == field.offset && size_of_type(
            t.types,
            rec.members@[i].type_id,
        ) == Some(field.size) && forall|j: int|
            0 <= j < i ==> (#[trigger] rec.members@[j]).name@ != name
}

/// Whether a struct has a field with this name whose own field `part` is there.
pub open spec fn has_part(t: TableView, ty: TypeId, name: Seq<char>, part: Seq<char>, field: Field) -> bool {
    record_at(t.types, underlying_at(t.types, ty, 0), 0) matches Some(rec) && exists|i: int, inner: u64|
        0 <= i < rec.members@.len() && (#[trigger] rec.members@[i]).name@ == name && #[trigger] has_field(
            t,
            rec.members@[i].type_id,
            part,
            Field { offset: inner, size: field.size },
        ) && field.offset == behind(rec.members@[i].offset, inner) && forall|j: int|
            0 <= j < i ==> (#[trigger] rec.members@[j]).name@ != name
}

proof fn lemma_field(t: TableView, ty: TypeId, name: Seq<char>)
    ensures
        field_in(t, ty, name) matches Ok((field, id)) ==> has_field(t, ty, name, field) && (record_at(
            t.types,
            underlying_at(t.types, ty, 0),
            0,
        ) matches Some(rec) && exists|i: int|
            0 <= i < rec.members@.len() && (#[trigger] rec.members@[i]).name@ == name
                && rec.members@[i].offset == field.offset && rec.members@[i].type_id == id
                && forall|j: int| 0 <= j < i ==> (#[trigger] rec.members@[j]).name@ != name),
{
    if let Some(rec) = record_at(t.types, underlying_at(t.types, ty, 0), 0) {
        lemma_first(rec.members@, member_named(name));
        if let Some(i) = crate::search::first(rec.members@, member_named(name)) {
            assert(member_named(name)(rec.members@[i]));
            assert forall|j: int| 0 <= j < i implies (#[trigger] rec.members@[j]).name@ != name by {
                assert(!member_named(name)(rec.members@[j]));
            }
            assert(rec.members@[i].name@ == name);
        }
    }
}

proof fn lemma_parts(t: TableView, ty: TypeId, name: Seq<char>)
    ensures
        fat_in(t, ty, name) matches Ok((ptr, len, _)) ==> has_part(t, ty, name, "data_ptr"@, ptr)
            && has_part(t, ty, name, "length"@, len),
{
    if let Ok((ptr, len, _)) = fat_in(t, ty, name) {
        lemma_field(t, ty, name);
        let (outer, inner) = field_in(t, ty, name)->Ok_0;
        lemma_field(t, inner, "data_ptr"@);
        lemma_field(t, inner, "length"@);
        let rec = record_at(t.types, underlying_at(t.types, ty, 0), 0)->0;
        let i = choose|i: int|
            0 <= i < rec.members@.len() && (#[trigger] rec.members@[i]).name@ == name
                && rec.members@[i].offset == outer.offset && rec.members@[i].type_id == inner
                && forall|j: int| 0 <= j < i ==> (#[trigger] rec.members@[j]).name@ != name;
        let p = field_in(t, inner, "data_ptr"@)->Ok_0.0;
        let l = field_in(t, inner, "length"@)->Ok_0.0;
        assert(has_field(
            t,
            rec.members@[i].type_id,
            "data_ptr"@,
            Field { offset: p.offset, size: ptr.size },
        ));
        assert(has_field(
            t,
            rec.members@[i].type_id,
            "length"@,
            Field { offset: l.offset, size: len.size },
        ));
    }
}

/// A table's layout is what its types say: each field is where the member of that
/// name is, with that member's size, in the table or in the entries that it lists.
/// Texts and the list are found by their pointers and lengths.
pub proof fn lemma_layouts_go_by_the_names_of_fields(t: TableView, ty: TypeId, f: Fields)
    requires
        fields_in(t, ty) == Ok::<Fields, Seq<char>>(f),
    ensures
        has_field(t, ty, "magic"@, f.magic) && f.magic.size == 4,
        has_field(t, ty, "version"@, f.version) && f.version.size == 4,
        has_part(t, ty, "entries"@, "data_ptr"@, f.entries_ptr),
        has_part(t, ty, "entries"@, "length"@, f.entries_len),
        exists|entry: TypeId| #[trigger] listed_type(t, ty, entry, f.pointer) && {
            &&& has_field(t, entry, "id"@, f.id) && f.id.size == 4
            &&& has_field(t, entry, "kind"@, f.kind) && f.kind.size == 1
            &&& has_field(t, entry, "access"@, f.access) && f.access.size == 1
            &&& has_field(t, entry, "default"@, f.default) && f.default.size == 4
            &&& has_field(t, entry, "min"@, f.min) && f.min.size == 4
            &&& has_field(t, entry, "max"@, f.max) && f.max.size == 4
            &&& has_field(t, entry, "max_step"@, f.max_step) && f.max_step.size == 4
            &&& has_field(t, entry, "requested"@, f.requested) && f.requested.size == 4
            &&& has_field(t, entry, "applied"@, f.applied) && f.applied.size == 4
            &&& has_part(t, entry, "name"@, "data_ptr"@, f.name_ptr)
            &&& has_part(t, entry, "name"@, "length"@, f.name_len)
            &&& has_part(t, entry, "unit"@, "data_ptr"@, f.unit_ptr)
            &&& has_part(t, entry, "unit"@, "length"@, f.unit_len)
        },
{
    lemma_parts(t, ty, "entries"@);
    let element = fat_in(t, ty, "entries"@)->Ok_0.2;
    let (entry, pointer) = entry_type(t, element)->Ok_0;
    lemma_parts(t, entry, "name"@);
    lemma_parts(t, entry, "unit"@);
    let s = scalars_in(t, ty, entry);
    lemma_all_ok(s);
    lemma_field(t, ty, "magic"@);
    assert(s[0] is Ok);
    lemma_field(t, ty, "version"@);
    assert(s[1] is Ok);
    lemma_field(t, entry, "id"@);
    assert(s[2] is Ok);
    lemma_field(t, entry, "kind"@);
    assert(s[3] is Ok);
    lemma_field(t, entry, "access"@);
    assert(s[4] is Ok);
    lemma_field(t, entry, "default"@);
    assert(s[5] is Ok);
    lemma_field(t, entry, "min"@);
    assert(s[6] is Ok);
    lemma_field(t, entry, "max"@);
    assert(s[7] is Ok);
    lemma_field(t, entry, "max_step"@);
    assert(s[8] is Ok);
    lemma_field(t, entry, "requested"@);
    assert(s[9] is Ok);
    lemma_field(t, entry, "applied"@);
    assert(s[10] is Ok);
    assert(listed_type(t, ty, entry, f.pointer));
}

/// Whether a table lists entries of a type: its `entries` points to references of
/// that size, which point to entries.
pub open spec fn listed_type(t: TableView, ty: TypeId, entry: TypeId, pointer: u64) -> bool {
    fat_in(t, ty, "entries"@) matches Ok((_, _, element)) && {
        &&& pointee_in(t.types, element) matches Some(reference)
        &&& pointee_in(t.types, reference) matches Some(to)
        &&& entry == underlying_at(t.types, to, 0)
        &&& size_of_type(t.types, reference) matches Some(size) ==> pointer == size
    }
}

proof fn lemma_all_ok(fields: Seq<Result<Field, Seq<char>>>)
    requires
        first_error(fields) is None,
    ensures
        forall|i: int| 0 <= i < fields.len() ==> (#[trigger] fields[i]) is Ok,
    decreases fields.len(),
{
    if fields.len() > 0 {
        lemma_all_ok(fields.drop_last());
        assert forall|i: int| 0 <= i < fields.len() implies (#[trigger] fields[i]) is Ok by {
            if i < fields.len() - 1 {
                assert(fields.drop_last()[i] is Ok);
            }
        }
    }
}

/// An entry as a person reads it keeps what was decoded: its id, its texts, kind,
/// access and addresses, and each bound where one was decoded, written as given for
/// that bound.
pub proof fn lemma_entries_keep_what_was_decoded(e: RawEntry, w: Written)
    ensures
        ({
            let r = e.spec_into_entry(w);
            &&& r.id == e.id && r.name == e.name && r.unit == e.unit
            &&& r.kind == e.kind && r.access == e.access
            &&& e.min is Some ==> r.min == Some(w.min)
            &&& e.max is Some ==> r.max == Some(w.max)
            &&& e.max_step is Some ==> r.max_step == Some(w.max_step)
            &&& e.min is None ==> r.min is None
            &&& e.max is None ==> r.max is None
            &&& e.max_step is None ==> r.max_step is None
            &&& e.kind is F32 ==> r.default == w.default
            &&& e.kind is U32 ==> crate::double_bits::f64_integer(r.default) == Some(e.default as int)
            &&& e.kind is Bool ==> crate::double_bits::f64_integer(r.default) == Some(e.default as int)
            &&& e.kind is I32 ==> crate::double_bits::f64_integer(r.default) == Some(
                if e.default < 0x8000_0000 {
                    e.default as int
                } else {
                    e.default - 0x1_0000_0000
                },
            )
            &&& r.requested_address == e.requested_address
            &&& r.applied_address == e.applied_address
        }),
{
    let bits = e.default;
    assert(bits < 0x8000_0000 ==> bits as i32 == bits) by (bit_vector);
    assert(bits >= 0x8000_0000 ==> bits as i32 == bits - 0x1_0000_0000) by (bit_vector);
    crate::double_bits::lemma_integer_f64(bits as int);
    crate::double_bits::lemma_integer_f64(bits as i32 as int);
}

/// A request is for a value that takes requests, inside its range, and what is
/// written is read back as the value asked for, where the cell holds whole numbers.
pub proof fn lemma_requests_are_checked(e: CatalogEntry, value: u64)
    ensures
        e.spec_request_bits(value) matches Ok(bits) ==> {
            &&& e.access != Access::ReadOnly
            &&& e.min is Some && e.max is Some ==> crate::double_bits::f64_le(e.min->0, value)
                && crate::double_bits::f64_le(value, e.max->0)
            &&& e.kind is U32 ==> crate::double_bits::f64_integer(value) == Some(bits as int)
            &&& e.kind is Bool ==> bits <= 1 && crate::double_bits::f64_integer(value) == Some(
                bits as int,
            )
            &&& e.kind is I32 ==> crate::double_bits::f64_integer(value) == Some(
                if bits < 0x8000_0000 {
                    bits as int
                } else {
                    bits - 0x1_0000_0000
                },
            )
            &&& e.kind is F32 ==> f32_finite(bits)
        },
        e.access == Access::ReadOnly ==> e.spec_request_bits(value) is Err,
{
}

/// A number that was halved is that many times doubled again.
proof fn lemma_halved(m: nat, n: nat)
    ensures
        crate::double_bits::halved(m, n) matches Some(q) ==> m == q
            * crate::double_bits::two_to(n),
    decreases n,
{
    if n == 0 {
        let d = crate::double_bits::two_to(0);
        assert(d == 1);
        assert(m == m * d) by (nonlinear_arith)
            requires
                d == 1,
        ;
    } else if m % 2 == 0 {
        lemma_halved(m / 2, (n - 1) as nat);
        if let Some(q) = crate::double_bits::halved(m, n) {
            let d = crate::double_bits::two_to((n - 1) as nat);
            assert(m / 2 == q * d);
            assert(q * (2 * d) == 2 * (q * d)) by (nonlinear_arith);
        }
    }
}

/// A double stands for an integer where its significand, scaled by its exponent, is
/// one, with the double's sign.
pub proof fn lemma_doubles_stand_for_their_integers(bits: u64)
    ensures
        crate::double_bits::f64_integer(bits) matches Some(n) ==> {
            let e = bits % 0x8000_0000_0000_0000 / 0x10_0000_0000_0000;
            let m = 0x10_0000_0000_0000 + bits % 0x10_0000_0000_0000;
            &&& n == 0 <==> bits % 0x8000_0000_0000_0000 == 0
            &&& n > 0 ==> bits < 0x8000_0000_0000_0000 && n * crate::double_bits::two_to(
                (1075 - e) as nat,
            ) == m
            &&& n < 0 ==> bits >= 0x8000_0000_0000_0000 && (-n) * crate::double_bits::two_to(
                (1075 - e) as nat,
            ) == m
        },
{
    let e = crate::double_bits::exponent(bits);
    let m = (crate::double_bits::ONE_EXPONENT + crate::double_bits::fraction(bits)) as nat;
    if bits % 0x8000_0000_0000_0000 != 0 && 1023 <= e < 1075 {
        lemma_halved(m, (1075 - e) as nat);
        if let Some(q) = crate::double_bits::halved(m, (1075 - e) as nat) {
            let d = crate::double_bits::two_to((1075 - e) as nat);
            if q == 0 {
                assert(q * d == 0) by (nonlinear_arith)
                    requires
                        q == 0,
                ;
            }
        }
    }
}

/// Rounding gives the nearest number, and of two that are as near the even one.
pub proof fn lemma_rounding_is_to_the_nearest(m: nat, n: nat)
    ensures
        ({
            let r = crate::double_bits::rounded(m, n);
            let d = crate::double_bits::two_to(n);
            &&& -d <= 2 * (m - r * d) <= d
            &&& 2 * (m - r * d) == d || 2 * (m - r * d) == -d ==> r % 2 == 0
        }),
{
    let d = crate::double_bits::two_to(n);
    crate::double_bits::lemma_two_to_grows(0, n);
    assert(d >= 1);
    let q = m / d;
    let r = m % d;
    assert(m == q * d + r && r < d) by (nonlinear_arith)
        requires
            d >= 1,
            q == m / d,
            r == m % d,
    ;
    assert((q + 1) * d == q * d + d) by (nonlinear_arith);
}

/// A cell of an integer kind holds the integer that its bits stand for, signed or
/// not; a flag's is 0 or 1, and a float's the float. What is written into a cell is
/// the number that was asked for, where the cell has room for it.
pub proof fn lemma_cells_hold_their_numbers(bits: u32, widened: u64, value: u64, n: int)
    ensures
        crate::double_bits::f64_integer(crate::catalog::CellKind::U32.decoded(bits, widened))
            == Some(bits as int),
        crate::double_bits::f64_integer(crate::catalog::CellKind::Bool.decoded(bits, widened))
            == Some(bits as int),
        crate::double_bits::f64_integer(
            crate::catalog::CellKind::I32.decoded(bits, widened),
        ) == Some(
            if bits < 0x8000_0000 {
                bits as int
            } else {
                bits - 0x1_0000_0000
            },
        ),
        crate::catalog::CellKind::F32.decoded(bits, widened) == widened,
        crate::double_bits::f64_finite(value) && crate::double_bits::f64_integer(value) == Some(n)
            ==> {
            &&& crate::catalog::CellKind::U32.encoded(value) is Ok <==> 0 <= n <= 0xffff_ffff
            &&& crate::catalog::CellKind::U32.encoded(value) matches Ok(b) ==> b == n
            &&& crate::catalog::CellKind::I32.encoded(value) is Ok <==> -0x8000_0000 <= n
                <= 0x7fff_ffff
            &&& crate::catalog::CellKind::I32.encoded(value) matches Ok(b) ==> (b - n)
                % 0x1_0000_0000 == 0
            &&& crate::catalog::CellKind::Bool.encoded(value) is Ok <==> n == 0 || n == 1
            &&& crate::catalog::CellKind::Bool.encoded(value) matches Ok(b) ==> b == n
        },
        crate::double_bits::f64_integer(value) is None ==> crate::catalog::CellKind::U32.encoded(
            value,
        ) is Err && crate::catalog::CellKind::I32.encoded(value) is Err
            && crate::catalog::CellKind::Bool.encoded(value) is Err,
{
    let signed = bits as i32;
    assert(signed == (if bits < 0x8000_0000 {
        bits as int
    } else {
        bits - 0x1_0000_0000
    })) by (bit_vector)
        requires
            signed == bits as i32,
    ;
    crate::double_bits::lemma_integer_f64(bits as int);
    crate::double_bits::lemma_integer_f64(signed as int);
}

/// A cell's kind goes by its tag and is read as what it holds.
pub proof fn lemma_cells_go_by_their_tags(tag: u8, r: Option<crate::catalog::CellKind>)
    requires
        call_ensures(crate::catalog::CellKind::from_tag, (tag,), r),
    ensures
        r == (match tag {
            0 => Some(crate::catalog::CellKind::F32),
            1 => Some(crate::catalog::CellKind::I32),
            2 => Some(crate::catalog::CellKind::U32),
            3 => Some(crate::catalog::CellKind::Bool),
            _ => None,
        }),
        crate::catalog::CellKind::F32.spec_scalar() is F32,
        crate::catalog::CellKind::I32.spec_scalar() is I32,
        crate::catalog::CellKind::U32.spec_scalar() is U32,
        crate::catalog::CellKind::Bool.spec_scalar() is U32,
{
}

/// A double becomes the float next to it: one that a float can hold is kept, with its
/// sign, exponent and fraction in their places, and any other in a float's range goes
/// to a neighbour. A double beyond the range is infinite.
pub proof fn lemma_doubles_become_the_next_float(bits: u64)
    ensures
        ({
            let sign: int = if bits < 0x8000_0000_0000_0000 {
                0
            } else {
                0x8000_0000
            };
            let e = bits % 0x8000_0000_0000_0000 / 0x10_0000_0000_0000;
            let f = bits % 0x10_0000_0000_0000;
            let below = sign + (e - 896) * 0x80_0000 + f / 0x2000_0000;
            &&& 897 <= e <= 1150 && f % 0x2000_0000 == 0 ==> crate::double_bits::narrowed(bits)
                == below
            &&& 897 <= e <= 1150 ==> crate::double_bits::narrowed(bits) == below
                || crate::double_bits::narrowed(bits) == below + 1
            &&& 897 <= e <= 1150 && 2 * (f % 0x2000_0000) > 0x2000_0000
                ==> crate::double_bits::narrowed(bits) == below + 1
            &&& 897 <= e <= 1150 && 2 * (f % 0x2000_0000) < 0x2000_0000
                ==> crate::double_bits::narrowed(bits) == below
            &&& e > 1150 ==> crate::double_bits::narrowed(bits) == sign + 0x7f80_0000
            &&& e == 0 ==> crate::double_bits::narrowed(bits) == sign
        }),
{
    reveal_with_fuel(crate::double_bits::two_to, 30);
    assert(crate::double_bits::two_to(29) == 0x2000_0000);
    let f = bits % 0x10_0000_0000_0000;
    let m = (0x10_0000_0000_0000 + f) as nat;
    assert(m / 0x2000_0000 == 0x80_0000 + f / 0x2000_0000);
    assert(m % 0x2000_0000 == f % 0x2000_0000);
}

} // verus!
