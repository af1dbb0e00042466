//! Descriptors for the values a host tool may watch and tune.
//!
//! A firmware declares one entry per value and lists them in one [`Table`].
//! The host finds the table through the ELF's debug info, reads the descriptors
//! out of memory, samples the cells over SWD, and writes tunable requests into
//! them. The task that owns a value decides what it actually runs with:
//! [`Tunable::apply`] clamps a request to the declared range and moves toward
//! it by at most `max_step` per call, so a host write cannot push an unsafe
//! value even through a raw debug probe.
//!
//! A number is held by its bits (see [`crate::float_bits`]).

use vstd::prelude::*;
use vstd::string::*;
#[allow(unused_imports)]
use vstd::utf8::*;
use crate::bytes::{put_bytes, put_u32};
#[allow(unused_imports)]
use crate::bytes::{group_le_len, le32};
use crate::float_sum::{negate, sum};
#[allow(unused_imports)]
use crate::float_sum::{
    f32_negated, f32_sum, lemma_minus_itself, lemma_no_units, lemma_plus_zero, lemma_rank_bounded, lemma_rank_grows,
    lemma_rank_of_number, lemma_sum_ordered, lemma_sum_rank, lemma_units_ordered, rank_of_units, units,
};
use crate::float_bits::{clamp, is_finite, F32_INFINITY, F32_NEG_INFINITY};
#[allow(unused_imports)]
use crate::float_bits::{
    f32_clamped, f32_finite, f32_in_range, f32_le, f32_lt, f32_nan, f32_rank, lemma_clamped_in_range,
    lemma_clamped_keeps,
};

verus! {

broadcast use group_le_len;

/// `Table::magic`: `RMTT` in little-endian byte order.
pub const TABLE_MAGIC: u32 = 0x5454_4d52;

pub const TABLE_VERSION: u32 = 1;

/// How a cell's 32 bits are interpreted.
#[derive(Copy, Clone, Debug, PartialEq, Eq, Structural)]
pub enum Kind {
    F32,
    I32,
    U32,
    /// 0 or 1
    Bool,
}

impl Kind {
    pub open spec fn spec_tag(self) -> u8 {
        match self {
            Kind::F32 => 0,
            Kind::I32 => 1,
            Kind::U32 => 2,
            Kind::Bool => 3,
        }
    }

    /// The byte that stands for the kind in catalogs, slots and records.
    pub fn tag(self) -> (r: u8)
        ensures
            r == self.spec_tag(),
    {
        match self {
            Kind::F32 => 0,
            Kind::I32 => 1,
            Kind::U32 => 2,
            Kind::Bool => 3,
        }
    }
}

/// Who may change a value.
#[derive(Copy, Clone, Debug, PartialEq, Eq, Structural)]
pub enum Access {
    /// Published by the firmware; host writes are ignored.
    ReadOnly,
    /// The owner applies host requests while running, within range and step.
    Live,
    /// As `Live`, but a framed write is refused unless the robot is safe.
    SafeOnly,
}

impl Access {
    pub open spec fn spec_tag(self) -> u8 {
        match self {
            Access::ReadOnly => 0,
            Access::Live => 1,
            Access::SafeOnly => 2,
        }
    }

    /// The byte that stands for the access in catalogs.
    pub fn tag(self) -> (r: u8)
        ensures
            r == self.spec_tag(),
    {
        match self {
            Access::ReadOnly => 0,
            Access::Live => 1,
            Access::SafeOnly => 2,
        }
    }
}

/// Longest `Entry` name, so one descriptor fits a catalog frame.
pub const MAX_NAME_LEN: usize = 96;

/// Longest `Entry` unit.
pub const MAX_UNIT_LEN: usize = 16;

pub const FNV_OFFSET: u32 = 0x811c_9dc5;

/// FNV-1a over `s`, from `hash` on: xor in a byte, multiply by the prime.
pub open spec fn fnv_extended(hash: u32, s: Seq<u8>) -> u32
    decreases s.len(),
{
    if s.len() == 0 {
        hash
    } else {
        (fnv_extended(hash, s.drop_last()) ^ (s.last() as u32)).wrapping_mul(0x0100_0193)
    }
}

/// 32-bit FNV-1a of `s`.
pub open spec fn fnv_of(s: Seq<u8>) -> u32 {
    fnv_extended(FNV_OFFSET, s)
}

/// Hashing in pieces hashes the whole.
pub proof fn lemma_fnv_joins(hash: u32, a: Seq<u8>, b: Seq<u8>)
    ensures
        fnv_extended(fnv_extended(hash, a), b) == fnv_extended(hash, a + b),
    decreases b.len(),
{
    if b.len() == 0 {
        assert(a + b =~= a);
    } else {
        lemma_fnv_joins(hash, a, b.drop_last());
        assert((a + b).drop_last() =~= a + b.drop_last());
    }
}

/// 32-bit FNV-1a.
pub fn fnv1a(bytes: &[u8]) -> (r: u32)
    ensures
        r == fnv_of(bytes@),
{
    fnv1a_extend(FNV_OFFSET, bytes)
}

fn fnv1a_extend(start: u32, bytes: &[u8]) -> (r: u32)
    ensures
        r == fnv_extended(start, bytes@),
{
    let mut hash: u32 = start;
    let mut i: usize = 0;
    assert(bytes@.take(0) =~= Seq::<u8>::empty());
    while i < bytes.len()
        invariant
            i <= bytes@.len(),
            hash == fnv_extended(start, bytes@.take(i as int)),
        decreases bytes@.len() - i,
    {
        hash = hash ^ (bytes[i] as u32);
        hash = hash.wrapping_mul(0x0100_0193);
        i = i + 1;
        proof {
            assert(bytes@.take(i as int).drop_last() =~= bytes@.take(i - 1));
            assert(bytes@.take(i as int).last() == bytes@[i - 1]);
        }
    }
    assert(bytes@.take(bytes@.len() as int) =~= bytes@);
    hash
}

/// What an entry is: its descriptor and its two cells.
pub struct EntryView {
    pub id: u32,
    pub kind: Kind,
    pub access: Access,
    pub name: Seq<char>,
    pub unit: Seq<char>,
    pub default: u32,
    pub min: u32,
    pub max: u32,
    pub max_step: u32,
    pub requested: u32,
    pub applied: u32,
}

impl EntryView {
    /// Whether a host may request a value.
    pub open spec fn tunable(self) -> bool {
        self.access != Access::ReadOnly
    }

    /// The id is the name's hash, the texts fit a catalog frame, a tunable has
    /// a finite range that holds its default, and a watch has none.
    pub open spec fn valid(self) -> bool {
        &&& self.id == fnv_of(encode_utf8(self.name))
        &&& encode_utf8(self.name).len() <= MAX_NAME_LEN
        &&& encode_utf8(self.unit).len() <= MAX_UNIT_LEN
        &&& self.tunable() ==> {
            &&& self.kind == Kind::F32
            &&& valid_range(self.default, self.min, self.max, self.max_step)
        }
        &&& !self.tunable() ==> {
            &&& self.default == 0
            &&& self.min == F32_NEG_INFINITY
            &&& self.max == F32_INFINITY
            &&& self.max_step == F32_INFINITY
        }
    }

    /// The value to move toward from `current`: the request inside the range,
    /// or what runs now where the request is not a number, or the default
    /// where neither is one.
    pub open spec fn target(self, current: u32) -> u32 {
        if f32_finite(self.requested) {
            f32_clamped(self.requested, self.min, self.max)
        } else if f32_finite(current) {
            f32_clamped(current, self.min, self.max)
        } else {
            self.default
        }
    }

    /// The value to run with after `current`: moved toward the target by at most
    /// the step, or the target itself where `current` is no number.
    pub open spec fn next(self, current: u32) -> u32 {
        let target = self.target(current);
        if f32_finite(current) {
            f32_sum(
                current,
                f32_clamped(
                    f32_sum(target, f32_negated(current)),
                    f32_negated(self.max_step),
                    self.max_step,
                ),
            )
        } else {
            target
        }
    }

    /// The entry after its owner has settled what to run with.
    pub open spec fn settled(self, current: u32) -> EntryView {
        self.requesting(self.target(current)).running(self.next(current))
    }

    /// The entry with another request.
    pub open spec fn requesting(self, bits: u32) -> EntryView {
        EntryView { requested: bits, ..self }
    }

    /// The entry running with another value.
    pub open spec fn running(self, bits: u32) -> EntryView {
        EntryView { applied: bits, ..self }
    }

    /// The descriptor without the name, as the fingerprint covers it.
    pub open spec fn descriptor(self) -> Seq<u8> {
        le32(self.id) + seq![self.kind.spec_tag(), self.access.spec_tag()] + le32(self.default)
            + le32(self.min) + le32(self.max) + le32(self.max_step) + encode_utf8(self.unit)
    }
}

/// Whether the range is finite and ordered, holds `default`, and the step is
/// positive.
pub open spec fn valid_range(default: u32, min: u32, max: u32, max_step: u32) -> bool {
    &&& f32_finite(min)
    &&& f32_finite(max)
    &&& f32_le(min, max)
    &&& f32_le(min, default)
    &&& f32_le(default, max)
    &&& f32_lt(0, max_step)
}

/// One watchable or tunable value. Build it through [`Tunable`] or a watch
/// type, which fix the kind and access and give the firmware the matching
/// methods.
#[derive(Debug)]
pub struct Entry {
    /// FNV-1a of `name`: stable across builds while the name is.
    id: u32,
    kind: Kind,
    access: Access,
    /// Dotted path, for example `gimbal.pitch.encoder.angle.kp`.
    name: String,
    /// Display unit, empty when dimensionless.
    unit: String,
    /// Bits of the value the firmware was built with.
    default: u32,
    /// Inclusive range a request is clamped to. Infinite for watches.
    min: u32,
    max: u32,
    /// Largest change one [`Tunable::apply`] makes. Infinite for no limit.
    max_step: u32,
    /// Written by the host. The owner writes back only to correct a request it
    /// cannot take, so a host reading this sees what will be applied.
    requested: u32,
    /// Written by the owner: the value it is running with.
    applied: u32,
}

impl View for Entry {
    type V = EntryView;

    closed spec fn view(&self) -> EntryView {
        EntryView {
            id: self.id,
            kind: self.kind,
            access: self.access,
            name: self.name@,
            unit: self.unit@,
            default: self.default,
            min: self.min,
            max: self.max,
            max_step: self.max_step,
            requested: self.requested,
            applied: self.applied,
        }
    }
}

impl Entry {
    #[verifier::type_invariant]
    spec fn well_formed(self) -> bool {
        self@.valid()
    }

    fn new(
        name: &str,
        unit: &str,
        kind: Kind,
        access: Access,
        default: u32,
        range: (u32, u32, u32),
    ) -> (r: Self)
        requires
            encode_utf8(name@).len() <= MAX_NAME_LEN,
            encode_utf8(unit@).len() <= MAX_UNIT_LEN,
            access != Access::ReadOnly ==> kind == Kind::F32 && valid_range(
                default,
                range.0,
                range.1,
                range.2,
            ),
            access == Access::ReadOnly ==> default == 0 && range == (
                F32_NEG_INFINITY,
                F32_INFINITY,
                F32_INFINITY,
            ),
        ensures
            r@ == (EntryView {
                id: fnv_of(encode_utf8(name@)),
                kind,
                access,
                name: name@,
                unit: unit@,
                default,
                min: range.0,
                max: range.1,
                max_step: range.2,
                requested: default,
                applied: default,
            }),
    {
        Entry {
            id: fnv1a(name.as_bytes()),
            kind,
            access,
            name: name.to_owned(),
            unit: unit.to_owned(),
            default,
            min: range.0,
            max: range.1,
            max_step: range.2,
            requested: default,
            applied: default,
        }
    }

    pub fn id(&self) -> (r: u32)
        ensures
            r == self@.id,
            self@.valid(),
    {
        proof {
            use_type_invariant(self);
        }
        self.id
    }

    pub fn name(&self) -> (r: &str)
        ensures
            r@ == self@.name,
            encode_utf8(r@).len() <= MAX_NAME_LEN,
    {
        proof {
            use_type_invariant(self);
        }
        self.name.as_str()
    }

    pub fn unit(&self) -> (r: &str)
        ensures
            r@ == self@.unit,
            encode_utf8(r@).len() <= MAX_UNIT_LEN,
    {
        proof {
            use_type_invariant(self);
        }
        self.unit.as_str()
    }

    pub fn kind(&self) -> (r: Kind)
        ensures
            r == self@.kind,
    {
        self.kind
    }

    pub fn access(&self) -> (r: Access)
        ensures
            r == self@.access,
    {
        self.access
    }

    /// The value the owner last applied or published, as raw bits.
    pub fn applied_bits(&self) -> (r: u32)
        ensures
            r == self@.applied,
    {
        self.applied
    }

    pub fn requested_bits(&self) -> (r: u32)
        ensures
            r == self@.requested,
    {
        self.requested
    }

    pub fn default_bits(&self) -> (r: u32)
        ensures
            r == self@.default,
    {
        self.default
    }

    /// Bits of `(min, max, max_step)`; infinite for watches.
    pub fn range(&self) -> (r: (u32, u32, u32))
        ensures
            r == (self@.min, self@.max, self@.max_step),
    {
        (self.min, self.max, self.max_step)
    }

    /// Whether a host may request a value for this entry.
    pub fn is_tunable(&self) -> (r: bool)
        ensures
            r == self@.tunable(),
    {
        match self.access {
            Access::ReadOnly => false,
            _ => true,
        }
    }

    fn store_request(&mut self, bits: u32)
        ensures
            final(self)@ == old(self)@.requesting(bits),
        no_unwind
    {
        proof {
            use_type_invariant(&*self);
        }
        self.requested = bits;
    }

    fn store_applied(&mut self, bits: u32)
        ensures
            final(self)@ == old(self)@.running(bits),
        no_unwind
    {
        proof {
            use_type_invariant(&*self);
        }
        self.applied = bits;
    }

    /// The value to move toward from `current`.
    pub fn target(&self, current: u32) -> (r: u32)
        requires
            self@.tunable(),
        ensures
            r == self@.target(current),
            f32_in_range(r, self@.min, self@.max),
        no_unwind
    {
        proof {
            use_type_invariant(self);
            if f32_finite(self.requested) {
                lemma_clamped_in_range(self.requested, self.min, self.max);
            } else if f32_finite(current) {
                lemma_clamped_in_range(current, self.min, self.max);
            }
        }
        if is_finite(self.requested) {
            clamp(self.requested, self.min, self.max)
        } else if is_finite(current) {
            clamp(current, self.min, self.max)
        } else {
            self.default
        }
    }

    /// The value to run with after `current`.
    pub fn next(&self, current: u32) -> (r: u32)
        requires
            self@.tunable(),
        ensures
            r == self@.next(current),
    {
        let target: u32 = self.target(current);
        if is_finite(current) {
            proof {
                use_type_invariant(self);
                lemma_minus_itself(current);
            }
            let gap: u32 = sum(target, negate(current));
            sum(current, clamp(gap, negate(self.max_step), self.max_step))
        } else {
            target
        }
    }

    fn settle(&mut self, target: u32, next: u32)
        ensures
            final(self)@ == old(self)@.requesting(target).running(next),
        no_unwind
    {
        if target != self.requested {
            self.store_request(target);
        }
        self.store_applied(next);
    }
}

/// An `f32` the host may change while the firmware runs.
#[derive(Debug)]
pub struct Tunable(Entry);

impl View for Tunable {
    type V = EntryView;

    closed spec fn view(&self) -> EntryView {
        self.0@
    }
}

impl Tunable {
    #[verifier::type_invariant]
    spec fn well_formed(self) -> bool {
        self.0@.tunable()
    }

    /// `max_step` bounds the change per [`Tunable::apply`]: with one call per
    /// control tick, `(max - min) / max_step` ticks cross the whole range.
    pub fn new(name: &str, unit: &str, default: u32, min: u32, max: u32, max_step: u32) -> (r: Self)
        requires
            encode_utf8(name@).len() <= MAX_NAME_LEN,
            encode_utf8(unit@).len() <= MAX_UNIT_LEN,
            valid_range(default, min, max, max_step),
        ensures
            r@ == (EntryView {
                id: fnv_of(encode_utf8(name@)),
                kind: Kind::F32,
                access: Access::Live,
                name: name@,
                unit: unit@,
                default,
                min,
                max,
                max_step,
                requested: default,
                applied: default,
            }),
    {
        Tunable(Entry::new(name, unit, Kind::F32, Access::Live, default, (min, max, max_step)))
    }

    /// Refuse framed writes unless the robot is safe (see [`crate::server::Server`]).
    pub fn safe_only(self) -> (r: Self)
        ensures
            r@ == (EntryView { access: Access::SafeOnly, ..self@ }),
    {
        proof {
            use_type_invariant(&self);
            use_type_invariant(&self.0);
        }
        let e = self.0;
        Tunable(
            Entry {
                id: e.id,
                kind: e.kind,
                access: Access::SafeOnly,
                name: e.name,
                unit: e.unit,
                default: e.default,
                min: e.min,
                max: e.max,
                max_step: e.max_step,
                requested: e.requested,
                applied: e.applied,
            },
        )
    }

    pub fn entry(&self) -> (r: &Entry)
        ensures
            r@ == self@,
            r@.tunable(),
    {
        proof {
            use_type_invariant(self);
        }
        &self.0
    }

    /// The entry itself, to list it in a [`Table`].
    pub fn into_entry(self) -> (r: Entry)
        ensures
            r@ == self@,
            r@.tunable(),
    {
        proof {
            use_type_invariant(&self);
        }
        self.0
    }

    /// Bits of the value the firmware was built with.
    pub fn default_value(&self) -> (r: u32)
        ensures
            r == self@.default,
    {
        self.0.default
    }

    /// The value to run with this tick, given the one running now.
    ///
    /// A request outside the range is clamped, and one that is not a number
    /// is replaced by `current`; either correction is written back so the
    /// host sees it. The result moves from `current` toward the request by at
    /// most `max_step`, and is recorded as applied.
    pub fn apply(&mut self, current: u32) -> (r: u32)
        ensures
            r == old(self)@.next(current),
            final(self)@ == old(self)@.settled(current),
    {
        proof {
            use_type_invariant(&*self);
        }
        let target: u32 = self.0.target(current);
        let next: u32 = self.0.next(current);
        self.0.settle(target, next);
        next
    }

    /// Ask for the value with these bits from the firmware itself, as a host
    /// write would.
    pub fn request(&mut self, bits: u32)
        ensures
            final(self)@ == old(self)@.requesting(bits),
    {
        proof {
            use_type_invariant(&*self);
        }
        self.0.store_request(bits);
    }

    pub fn requested(&self) -> (r: u32)
        ensures
            r == self@.requested,
    {
        self.0.requested
    }
}

pub const WATCH_RANGE: (u32, u32, u32) = (F32_NEG_INFINITY, F32_INFINITY, F32_INFINITY);

/// A watch as declared: read-only, without a range, at zero.
pub open spec fn watch_view(name: Seq<char>, unit: Seq<char>, kind: Kind) -> EntryView {
    EntryView {
        id: fnv_of(encode_utf8(name)),
        kind,
        access: Access::ReadOnly,
        name,
        unit,
        default: 0,
        min: F32_NEG_INFINITY,
        max: F32_INFINITY,
        max_step: F32_INFINITY,
        requested: 0,
        applied: 0,
    }
}

/// The bits of an `i32`: two's complement.
pub open spec fn i32_bits(v: i32) -> u32 {
    if v < 0 {
        (v + 0x1_0000_0000) as u32
    } else {
        v as u32
    }
}

/// The bits of an `i32`: two's complement.
pub fn bits_of_i32(v: i32) -> (r: u32)
    ensures
        r == i32_bits(v),
    no_unwind
{
    if v < 0 {
        (v as i64 + 0x1_0000_0000) as u32
    } else {
        v as u32
    }
}

/// The bits of a `bool`: 0 or 1.
pub open spec fn bool_bits(v: bool) -> u32 {
    if v {
        1
    } else {
        0
    }
}

/// The bits of a `bool`: 0 or 1.
pub fn bits_of_bool(v: bool) -> (r: u32)
    ensures
        r == bool_bits(v),
    no_unwind
{
    if v {
        1
    } else {
        0
    }
}

/// An `f32` the firmware publishes for the host to sample; published by its bits.
#[derive(Debug)]
pub struct WatchF32(Entry);

impl View for WatchF32 {
    type V = EntryView;

    closed spec fn view(&self) -> EntryView {
        self.0@
    }
}

impl WatchF32 {
    #[verifier::type_invariant]
    spec fn well_formed(self) -> bool {
        !self.0@.tunable()
    }

    pub fn new(name: &str, unit: &str) -> (r: Self)
        requires
            encode_utf8(name@).len() <= MAX_NAME_LEN,
            encode_utf8(unit@).len() <= MAX_UNIT_LEN,
        ensures
            r@ == watch_view(name@, unit@, Kind::F32),
    {
        WatchF32(Entry::new(name, unit, Kind::F32, Access::ReadOnly, 0, WATCH_RANGE))
    }

    pub fn entry(&self) -> (r: &Entry)
        ensures
            r@ == self@,
            !r@.tunable(),
    {
        proof {
            use_type_invariant(self);
        }
        &self.0
    }

    /// The entry itself, to list it in a [`Table`].
    pub fn into_entry(self) -> (r: Entry)
        ensures
            r@ == self@,
            !r@.tunable(),
    {
        proof {
            use_type_invariant(&self);
        }
        self.0
    }

    pub fn publish(&mut self, value: u32)
        ensures
            final(self)@ == old(self)@.running(value),
    {
        proof {
            use_type_invariant(&*self);
        }
        self.0.store_applied(value);
    }
}

/// An `i32` the firmware publishes for the host to sample.
#[derive(Debug)]
pub struct WatchI32(Entry);

impl View for WatchI32 {
    type V = EntryView;

    closed spec fn view(&self) -> EntryView {
        self.0@
    }
}

impl WatchI32 {
    #[verifier::type_invariant]
    spec fn well_formed(self) -> bool {
        !self.0@.tunable()
    }

    pub fn new(name: &str, unit: &str) -> (r: Self)
        requires
            encode_utf8(name@).len() <= MAX_NAME_LEN,
            encode_utf8(unit@).len() <= MAX_UNIT_LEN,
        ensures
            r@ == watch_view(name@, unit@, Kind::I32),
    {
        WatchI32(Entry::new(name, unit, Kind::I32, Access::ReadOnly, 0, WATCH_RANGE))
    }

    pub fn entry(&self) -> (r: &Entry)
        ensures
            r@ == self@,
            !r@.tunable(),
    {
        proof {
            use_type_invariant(self);
        }
        &self.0
    }

    /// The entry itself, to list it in a [`Table`].
    pub fn into_entry(self) -> (r: Entry)
        ensures
            r@ == self@,
            !r@.tunable(),
    {
        proof {
            use_type_invariant(&self);
        }
        self.0
    }

    pub fn publish(&mut self, value: i32)
        ensures
            final(self)@ == old(self)@.running(i32_bits(value)),
    {
        proof {
            use_type_invariant(&*self);
        }
        self.0.store_applied(bits_of_i32(value));
    }
}

/// A `u32` the firmware publishes for the host to sample.
#[derive(Debug)]
pub struct WatchU32(Entry);

impl View for WatchU32 {
    type V = EntryView;

    closed spec fn view(&self) -> EntryView {
        self.0@
    }
}

impl WatchU32 {
    #[verifier::type_invariant]
    spec fn well_formed(self) -> bool {
        !self.0@.tunable()
    }

    pub fn new(name: &str, unit: &str) -> (r: Self)
        requires
            encode_utf8(name@).len() <= MAX_NAME_LEN,
            encode_utf8(unit@).len() <= MAX_UNIT_LEN,
        ensures
            r@ == watch_view(name@, unit@, Kind::U32),
    {
        WatchU32(Entry::new(name, unit, Kind::U32, Access::ReadOnly, 0, WATCH_RANGE))
    }

    pub fn entry(&self) -> (r: &Entry)
        ensures
            r@ == self@,
            !r@.tunable(),
    {
        proof {
            use_type_invariant(self);
        }
        &self.0
    }

    /// The entry itself, to list it in a [`Table`].
    pub fn into_entry(self) -> (r: Entry)
        ensures
            r@ == self@,
            !r@.tunable(),
    {
        proof {
            use_type_invariant(&self);
        }
        self.0
    }

    pub fn publish(&mut self, value: u32)
        ensures
            final(self)@ == old(self)@.running(value),
    {
        proof {
            use_type_invariant(&*self);
        }
        self.0.store_applied(value);
    }
}

/// A `bool` the firmware publishes for the host to sample.
#[derive(Debug)]
pub struct WatchBool(Entry);

impl View for WatchBool {
    type V = EntryView;

    closed spec fn view(&self) -> EntryView {
        self.0@
    }
}

impl WatchBool {
    #[verifier::type_invariant]
    spec fn well_formed(self) -> bool {
        !self.0@.tunable()
    }

    pub fn new(name: &str, unit: &str) -> (r: Self)
        requires
            encode_utf8(name@).len() <= MAX_NAME_LEN,
            encode_utf8(unit@).len() <= MAX_UNIT_LEN,
        ensures
            r@ == watch_view(name@, unit@, Kind::Bool),
    {
        WatchBool(Entry::new(name, unit, Kind::Bool, Access::ReadOnly, 0, WATCH_RANGE))
    }

    pub fn entry(&self) -> (r: &Entry)
        ensures
            r@ == self@,
            !r@.tunable(),
    {
        proof {
            use_type_invariant(self);
        }
        &self.0
    }

    /// The entry itself, to list it in a [`Table`].
    pub fn into_entry(self) -> (r: Entry)
        ensures
            r@ == self@,
            !r@.tunable(),
    {
        proof {
            use_type_invariant(&self);
        }
        self.0
    }

    pub fn publish(&mut self, value: bool)
        ensures
            final(self)@ == old(self)@.running(bool_bits(value)),
    {
        proof {
            use_type_invariant(&*self);
        }
        self.0.store_applied(bits_of_bool(value));
    }
}

/// The views of a list of entries.
pub open spec fn views(entries: Seq<Entry>) -> Seq<EntryView> {
    Seq::new(entries.len(), |i: int| entries[i]@)
}

/// The descriptors of a table, one after another.
pub open spec fn descriptors(entries: Seq<EntryView>) -> Seq<u8>
    decreases entries.len(),
{
    if entries.len() == 0 {
        Seq::empty()
    } else {
        descriptors(entries.drop_last()) + entries.last().descriptor()
    }
}

/// No two entries share an id.
pub open spec fn unique_ids(entries: Seq<EntryView>) -> bool {
    forall|i: int, j: int|
        0 <= j < i < entries.len() ==> #[trigger] entries[i].id != #[trigger] entries[j].id
}

/// Entry `i` is the first whose id an earlier entry has, and `j` is the first
/// such earlier entry.
pub open spec fn first_duplicate(entries: Seq<EntryView>, j: int, i: int) -> bool {
    &&& 0 <= j < i < entries.len()
    &&& entries[i].id == entries[j].id
    &&& unique_ids(entries.take(i))
    &&& forall|k: int| 0 <= k < j ==> #[trigger] entries[k].id != entries[i].id
}

/// The firmware's list of values. One per binary; the host finds it by type.
#[derive(Debug)]
pub struct Table {
    magic: u32,
    version: u32,
    entries: Vec<Entry>,
}

#[derive(Debug, PartialEq, Eq)]
pub enum TableError {
    /// Two names hash to one id, or one name is listed twice.
    DuplicateId { first: String, second: String },
}

impl View for Table {
    type V = Seq<EntryView>;

    closed spec fn view(&self) -> Seq<EntryView> {
        views(self.entries@)
    }
}

impl Table {
    #[verifier::type_invariant]
    spec fn well_formed(self) -> bool {
        self.magic == TABLE_MAGIC && self.version == TABLE_VERSION
    }

    pub fn new(entries: Vec<Entry>) -> (r: Self)
        ensures
            r@ == views(entries@),
    {
        Table { magic: TABLE_MAGIC, version: TABLE_VERSION, entries }
    }

    /// [`TABLE_MAGIC`] and [`TABLE_VERSION`] as built.
    pub fn format(&self) -> (r: (u32, u32))
        ensures
            r == (TABLE_MAGIC, TABLE_VERSION),
    {
        proof {
            use_type_invariant(self);
        }
        (self.magic, self.version)
    }

    pub fn entries(&self) -> (r: &[Entry])
        ensures
            views(r@) == self@,
    {
        self.entries.as_slice()
    }

    /// How many entries the table lists.
    pub fn len(&self) -> (r: usize)
        ensures
            r == self@.len(),
    {
        self.entries.len()
    }

    /// The entry at `index`.
    pub fn entry(&self, index: usize) -> (r: &Entry)
        requires
            index < self@.len(),
        ensures
            r@ == self@[index as int],
            r@.valid(),
    {
        let e: &Entry = &self.entries[index];
        let _ = e.id();
        e
    }

    /// FNV-1a over every descriptor (not the values), so a host can tell
    /// whether a cached catalog still describes this build.
    pub fn fingerprint(&self) -> (r: u32)
        ensures
            r == fnv_of(descriptors(self@)),
    {
        let mut hash: u32 = FNV_OFFSET;
        let mut i: usize = 0;
        assert(self@.take(0) =~= Seq::<EntryView>::empty());
        while i < self.entries.len()
            invariant
                i <= self.entries@.len(),
                hash == fnv_of(descriptors(self@.take(i as int))),
            decreases self.entries@.len() - i,
        {
            let e: &Entry = &self.entries[i];
            let mut bytes: Vec<u8> = Vec::new();
            put_u32(&mut bytes, e.id);
            bytes.push(e.kind.tag());
            bytes.push(e.access.tag());
            put_u32(&mut bytes, e.default);
            put_u32(&mut bytes, e.min);
            put_u32(&mut bytes, e.max);
            put_u32(&mut bytes, e.max_step);
            put_bytes(&mut bytes, e.unit.as_str().as_bytes());
            assert(bytes@ =~= e@.descriptor());
            let ghost before = descriptors(self@.take(i as int));
            hash = fnv1a_extend(hash, bytes.as_slice());
            i = i + 1;
            proof {
                lemma_fnv_joins(FNV_OFFSET, before, e@.descriptor());
                assert(self@.take(i as int).drop_last() =~= self@.take(i - 1));
                assert(self@.take(i as int).last() == e@);
            }
        }
        assert(self@.take(self@.len() as int) =~= self@);
        hash
    }

    /// Check what a declaration cannot: ids are unique.
    pub fn validate(&self) -> (r: Result<(), TableError>)
        ensures
            r is Ok <==> unique_ids(self@),
            r matches Err(TableError::DuplicateId { first, second }) ==> exists|j: int, i: int|
                #![trigger self@[j], self@[i]]
                first_duplicate(self@, j, i) && first@ == self@[j].name && second@ == self@[i].name,
    {
        let mut i: usize = 0;
        while i < self.entries.len()
            invariant
                i <= self.entries@.len(),
                unique_ids(self@.take(i as int)),
            decreases self.entries@.len() - i,
        {
            let mut j: usize = 0;
            while j < i
                invariant
                    j <= i < self.entries@.len(),
                    unique_ids(self@.take(i as int)),
                    forall|k: int| 0 <= k < j ==> #[trigger] self@[k].id != self@[i as int].id,
                decreases i - j,
            {
                if self.entries[j].id == self.entries[i].id {
                    let first: String = self.entries[j].name.clone();
                    let second: String = self.entries[i].name.clone();
                    assert(first_duplicate(self@, j as int, i as int));
                    assert(self@[i as int].id == self@[j as int].id);
                    return Err(TableError::DuplicateId { first, second });
                }
                j = j + 1;
            }
            assert forall|a: int, b: int| 0 <= b < a < i + 1 implies #[trigger] self@.take(
                i + 1,
            )[a].id != #[trigger] self@.take(i + 1)[b].id by {
                if a < i {
                    assert(self@.take(i as int)[a].id != self@.take(i as int)[b].id);
                }
            }
            i = i + 1;
        }
        assert(self@.take(self@.len() as int) =~= self@);
        Ok(())
    }

    /// Writes the request of the entry at `index`, as a host does.
    pub fn request(&mut self, index: usize, bits: u32)
        requires
            index < old(self)@.len(),
        ensures
            final(self)@ == old(self)@.update(
                index as int,
                old(self)@[index as int].requesting(bits),
            ),
    {
        proof {
            use_type_invariant(&*self);
        }
        let mut entries: Vec<Entry> = Vec::new();
        std::mem::swap(&mut entries, &mut self.entries);
        entries[index].store_request(bits);
        self.entries = entries;
        assert(self@ =~= old(self)@.update(
            index as int,
            old(self)@[index as int].requesting(bits),
        ));
    }

    /// Writes the value the entry at `index` runs with, as its owner does.
    pub fn publish(&mut self, index: usize, bits: u32)
        requires
            index < old(self)@.len(),
        ensures
            final(self)@ == old(self)@.update(index as int, old(self)@[index as int].running(bits)),
    {
        proof {
            use_type_invariant(&*self);
        }
        let mut entries: Vec<Entry> = Vec::new();
        std::mem::swap(&mut entries, &mut self.entries);
        entries[index].store_applied(bits);
        self.entries = entries;
        assert(self@ =~= old(self)@.update(index as int, old(self)@[index as int].running(bits)));
    }

    /// [`Tunable::apply`] on the entry at `index`.
    pub fn apply(&mut self, index: usize, current: u32) -> (r: u32)
        requires
            index < old(self)@.len(),
            old(self)@[index as int].tunable(),
        ensures
            r == old(self)@[index as int].next(current),
            final(self)@ == old(self)@.update(
                index as int,
                old(self)@[index as int].settled(current),
            ),
    {
        proof {
            use_type_invariant(&*self);
        }
        let mut entries: Vec<Entry> = Vec::new();
        std::mem::swap(&mut entries, &mut self.entries);
        let target: u32 = entries[index].target(current);
        let next: u32 = entries[index].next(current);
        entries[index].settle(target, next);
        self.entries = entries;
        assert(self@ =~= old(self)@.update(
            index as int,
            old(self)@[index as int].settled(current),
        ));
        next
    }

    /// The first entry with this id.
    pub fn find(&self, id: u32) -> (r: Option<usize>)
        ensures
            r == position_of(self@, id),
    {
        let mut i: usize = 0;
        while i < self.entries.len()
            invariant
                i <= self.entries@.len(),
                forall|k: int| 0 <= k < i ==> (#[trigger] self@[k]).id != id,
            decreases self.entries@.len() - i,
        {
            if self.entries[i].id == id {
                proof {
                    lemma_position(self@, id, i as int);
                }
                return Some(i);
            }
            i = i + 1;
        }
        proof {
            lemma_no_position(self@, id);
        }
        None
    }
}

/// Where the first entry with this id stands.
pub open spec fn position_of(entries: Seq<EntryView>, id: u32) -> Option<usize>
    decreases entries.len(),
{
    if entries.len() == 0 {
        None
    } else if position_of(entries.drop_last(), id) is Some {
        position_of(entries.drop_last(), id)
    } else if entries.last().id == id {
        Some((entries.len() - 1) as usize)
    } else {
        None
    }
}

/// The first entry with an id is where [`position_of`] says.
pub proof fn lemma_position(entries: Seq<EntryView>, id: u32, at: int)
    requires
        0 <= at < entries.len(),
        entries.len() <= usize::MAX,
        entries[at].id == id,
        forall|k: int| 0 <= k < at ==> (#[trigger] entries[k]).id != id,
    ensures
        position_of(entries, id) == Some(at as usize),
    decreases entries.len(),
{
    if at == entries.len() - 1 {
        lemma_no_position(entries.drop_last(), id);
    } else {
        lemma_position(entries.drop_last(), id, at);
    }
}

/// An id that no entry has is nowhere.
pub proof fn lemma_no_position(entries: Seq<EntryView>, id: u32)
    requires
        forall|k: int| 0 <= k < entries.len() ==> (#[trigger] entries[k]).id != id,
    ensures
        position_of(entries, id) is None,
    decreases entries.len(),
{
    if entries.len() > 0 {
        lemma_no_position(entries.drop_last(), id);
    }
}

/// What [`position_of`] finds is inside the table and has the id.
pub proof fn lemma_position_is(entries: Seq<EntryView>, id: u32)
    requires
        entries.len() <= usize::MAX,
    ensures
        position_of(entries, id) matches Some(at) ==> {
            &&& at < entries.len()
            &&& entries[at as int].id == id
            &&& forall|k: int| 0 <= k < at ==> (#[trigger] entries[k]).id != id
        },
        position_of(entries, id) is None ==> forall|k: int|
            0 <= k < entries.len() ==> (#[trigger] entries[k]).id != id,
    decreases entries.len(),
{
    if entries.len() > 0 {
        let rest = entries.drop_last();
        lemma_position_is(rest, id);
        assert forall|k: int| 0 <= k < rest.len() implies (#[trigger] entries[k]) == rest[k] by {}
    }
}

/// However an owner settles a request, the entry then asks for a value inside
/// its range, and asking again changes nothing.
pub proof fn lemma_apply_corrects(e: EntryView, current: u32, next: u32)
    requires
        e.valid(),
        e.tunable(),
    ensures
        f32_in_range(e.target(current), e.min, e.max),
        e.requesting(e.target(current)).target(next) == e.target(current),
        f32_in_range(e.requested, e.min, e.max) ==> e.target(current) == e.requested,
{
    if f32_finite(e.requested) {
        lemma_clamped_in_range(e.requested, e.min, e.max);
    } else if f32_finite(current) {
        lemma_clamped_in_range(current, e.min, e.max);
    }
    lemma_clamped_keeps(e.target(current), e.min, e.max);
}

/// One step never goes farther than `max_step` from the running value, as the
/// float unit adds it: the result lies between `current - max_step` and
/// `current + max_step`.
pub proof fn lemma_step_is_bounded(e: EntryView, current: u32)
    requires
        e.valid(),
        e.tunable(),
        f32_finite(current),
    ensures
        f32_le(f32_sum(current, f32_negated(e.max_step)), e.next(current)),
        f32_le(e.next(current), f32_sum(current, e.max_step)),
{
    let target = e.target(current);
    lemma_apply_corrects(e, current, current);
    lemma_minus_itself(current);
    let gap = f32_sum(target, f32_negated(current));
    lemma_sum_rank(target, f32_negated(current));
    let low = f32_negated(e.max_step);
    let step = f32_clamped(gap, low, e.max_step);
    assert(f32_le(low, step) && f32_le(step, e.max_step));
    lemma_sum_ordered(current, low, step);
    lemma_sum_ordered(current, step, e.max_step);
}

/// A step goes toward the request: up where it lies above the running value,
/// down where it lies below.
pub proof fn lemma_step_goes_toward(e: EntryView, current: u32)
    requires
        e.valid(),
        e.tunable(),
        f32_finite(current),
    ensures
        f32_le(current, e.target(current)) ==> f32_le(current, e.next(current)),
        f32_le(e.target(current), current) ==> f32_le(e.next(current), current),
{
    let target = e.target(current);
    lemma_apply_corrects(e, current, current);
    lemma_minus_itself(current);
    let back = f32_negated(current);
    let gap = f32_sum(target, back);
    let step = f32_clamped(gap, f32_negated(e.max_step), e.max_step);
    lemma_sum_rank(target, back);
    lemma_units_ordered(current, target);
    lemma_units_ordered(target, current);
    lemma_no_units();
    lemma_rank_of_number(0);
    lemma_rank_of_number(current);
    lemma_sum_rank(current, 0);
    if f32_le(current, target) {
        lemma_rank_grows(0, units(target) + units(back));
        lemma_sum_ordered(current, 0, step);
    }
    if f32_le(target, current) {
        lemma_rank_grows(units(target) + units(back), 0);
        lemma_sum_ordered(current, step, 0);
    }
}

/// Whether a step is exact: it is cut short by `max_step`, or the distance to the
/// target is a number that needs no rounding.
pub open spec fn exact_step(e: EntryView, current: u32) -> bool {
    let target = e.target(current);
    let gap = f32_sum(target, f32_negated(current));
    ||| f32_lt(e.max_step, gap)
    ||| f32_lt(gap, f32_negated(e.max_step))
    ||| f32_finite(gap) && units(gap) == units(target) - units(current)
}

/// An exact step never passes its target, so what runs inside the range stays
/// inside, whatever was requested.
pub proof fn lemma_step_stays_in_range(e: EntryView, current: u32)
    requires
        e.valid(),
        e.tunable(),
        f32_finite(current),
        exact_step(e, current),
    ensures
        f32_le(current, e.target(current)) ==> f32_le(e.next(current), e.target(current)),
        f32_le(e.target(current), current) ==> f32_le(e.target(current), e.next(current)),
        f32_in_range(current, e.min, e.max) ==> f32_in_range(e.next(current), e.min, e.max),
{
    let target = e.target(current);
    lemma_apply_corrects(e, current, current);
    lemma_minus_itself(current);
    let back = f32_negated(current);
    let gap = f32_sum(target, back);
    let low = f32_negated(e.max_step);
    let step = f32_clamped(gap, low, e.max_step);
    lemma_sum_rank(target, back);
    lemma_units_ordered(current, target);
    lemma_units_ordered(target, current);
    let x = units(target) + units(back);
    lemma_step_goes_toward(e, current);
    lemma_rank_of_number(target);
    lemma_no_units();
    lemma_rank_of_number(0);
    assert(f32_rank(low) == -f32_rank(e.max_step));
    if f32_lt(e.max_step, gap) {
        if x <= 0 {
            lemma_rank_grows(x, 0);
        }
        lemma_limited_above(x, e.max_step);
        lemma_sum_rank(current, step);
        lemma_rank_grows(units(current) + units(step), units(target));
    } else if f32_lt(gap, low) {
        if x >= 0 {
            lemma_rank_grows(0, x);
        }
        lemma_limited_below(x, low);
        lemma_sum_rank(current, step);
        lemma_rank_grows(units(target), units(current) + units(step));
    } else {
        lemma_sum_rank(current, step);
    }
}

/// A step that is smaller than a distance, rounded, is no larger than the
/// distance itself.
proof fn lemma_limited_above(x: int, step: u32)
    requires
        !f32_nan(step),
        0 < f32_rank(step) < rank_of_units(x),
    ensures
        f32_finite(step),
        units(step) <= x,
{
    lemma_rank_bounded(x);
    lemma_rank_of_number(step);
    if x < units(step) {
        lemma_rank_grows(x, units(step));
    }
}

/// The same for a step down.
proof fn lemma_limited_below(x: int, step: u32)
    requires
        !f32_nan(step),
        rank_of_units(x) < f32_rank(step) < 0,
    ensures
        f32_finite(step),
        x <= units(step),
{
    lemma_rank_bounded(x);
    lemma_rank_of_number(step);
    if units(step) < x {
        lemma_rank_grows(units(step), x);
    }
}

/// What runs as requested keeps running: nothing moves, and nothing is written
/// back. (A negative zero becomes a positive one.)
pub proof fn lemma_at_rest(e: EntryView, current: u32)
    requires
        e.valid(),
        e.tunable(),
        f32_in_range(e.requested, e.min, e.max),
        current == e.requested,
        current != 0x8000_0000,
    ensures
        e.next(current) == current,
        e.settled(current) == e.running(current),
{
    lemma_apply_corrects(e, current, current);
    lemma_minus_itself(current);
    lemma_plus_zero(current);
}

} // verus!
