//! The firmware's value catalog: the table a build declares.
//!
//! The table is found by type in the ELF's DWARF and decoded by field name, so
//! the host follows the firmware's layout rather than hard-coding one. Every
//! descriptor is an initialised static, so the catalog decodes from the ELF
//! file alone; a probe is needed only for live values and writes. Numbers are
//! handled by their bits: `f32` as the firmware stores them, `f64` as a person
//! reads and writes them.

use vstd::prelude::*;
use vstd::string::*;
use crate::double_bits;
#[allow(unused_imports)]
use crate::double_bits::{f64_finite, f64_integer, f64_le, integer_f64, narrowed};
#[allow(unused_imports)]
use crate::float_bits::f32_finite;
use crate::float_bits;
#[allow(unused_imports)]
use crate::search::{first, lemma_first_is, lemma_first_none};
use crate::variable_type::VariableType;

verus! {

/// `RMTT`, little-endian
pub const TABLE_MAGIC: u32 = 0x5454_4d52;

pub const TABLE_VERSION: u32 = crate::table::TABLE_VERSION;

/// Refuse tables larger than any firmware would declare; guards against garbage
pub const MAX_ENTRIES: u64 = 4096;

/// Longest name or unit, in bytes
pub const MAX_TEXT: u64 = 256;

/// What a cell holds.
#[derive(Debug, Clone, Copy, PartialEq, Eq, Structural)]
pub enum CellKind {
    F32,
    I32,
    U32,
    Bool,
}

/// Why a cell cannot hold a value.
#[derive(Debug, Clone, Copy, PartialEq, Eq, Structural)]
pub enum CellError {
    NotANumber,
    DoesNotFit(CellKind),
}

impl CellKind {
    /// The kind as a message names it.
    pub open spec fn spec_name(self) -> Seq<char> {
        match self {
            CellKind::F32 => "F32"@,
            CellKind::I32 => "I32"@,
            CellKind::U32 => "U32"@,
            CellKind::Bool => "Bool"@,
        }
    }

    /// The kind as a message names it.
    pub fn name(self) -> (r: &'static str)
        ensures
            r@ == self.spec_name(),
    {
        match self {
            CellKind::F32 => "F32",
            CellKind::I32 => "I32",
            CellKind::U32 => "U32",
            CellKind::Bool => "Bool",
        }
    }
}

impl CellError {
    /// The error as a message, of a value written like this.
    pub open spec fn shown(self, value: Seq<char>) -> Seq<char> {
        match self {
            CellError::NotANumber => "the value is not a number"@,
            CellError::DoesNotFit(kind) => value + " does not fit a "@ + kind.spec_name()
                + " cell"@,
        }
    }

    /// The error as a message, of a value written like this.
    pub fn to_text(self, value: &str) -> (r: String)
        ensures
            r@ == self.shown(value@),
    {
        match self {
            CellError::NotANumber => "the value is not a number".to_owned(),
            CellError::DoesNotFit(kind) => {
                let mut out: String = value.to_owned();
                out.append(" does not fit a ");
                out.append(kind.name());
                out.append(" cell");
                out
            },
        }
    }
}

/// Bits that hold an integer's low half, for the cells that take one.
pub open spec fn low_bits(n: int) -> u32 {
    (if n >= 0 {
        n
    } else {
        n + 0x1_0000_0000
    }) as u32
}

impl CellKind {
    pub open spec fn spec_tag(self) -> u8 {
        match self {
            CellKind::F32 => 0,
            CellKind::I32 => 1,
            CellKind::U32 => 2,
            CellKind::Bool => 3,
        }
    }

    /// The kind with this tag.
    pub fn from_tag(tag: u8) -> (r: Option<Self>)
        ensures
            r matches Some(kind) ==> kind.spec_tag() == tag,
            r is None <==> tag > 3,
    {
        match tag {
            0 => Some(CellKind::F32),
            1 => Some(CellKind::I32),
            2 => Some(CellKind::U32),
            3 => Some(CellKind::Bool),
            _ => None,
        }
    }

    pub fn tag(self) -> (r: u8)
        ensures
            r == self.spec_tag(),
    {
        match self {
            CellKind::F32 => 0,
            CellKind::I32 => 1,
            CellKind::U32 => 2,
            CellKind::Bool => 3,
        }
    }

    /// The value of a cell with these bits, as bits of a double. For a float
    /// cell that is `widened`, the double a person would write for it.
    pub open spec fn decoded(self, bits: u32, widened: u64) -> u64 {
        match self {
            CellKind::F32 => widened,
            CellKind::I32 => integer_f64(bits as i32 as int) as u64,
            CellKind::U32 => integer_f64(bits as int) as u64,
            CellKind::Bool => integer_f64(bits as int) as u64,
        }
    }

    /// The value of a cell with these bits.
    pub fn decode(self, bits: u32, widened: u64) -> (r: u64)
        ensures
            r == self.decoded(bits, widened),
    {
        match self {
            CellKind::F32 => widened,
            CellKind::I32 => double_bits::from_integer(#[verifier::truncate] (bits as i32) as i64),
            CellKind::U32 => double_bits::from_integer(bits as i64),
            CellKind::Bool => double_bits::from_integer(bits as i64),
        }
    }

    /// The integers that a cell holds.
    pub open spec fn takes(self, n: int) -> bool {
        match self {
            CellKind::F32 => false,
            CellKind::I32 => i32::MIN <= n <= i32::MAX,
            CellKind::U32 => 0 <= n <= u32::MAX,
            CellKind::Bool => n == 0 || n == 1,
        }
    }

    /// Bits for a value, or why the cell cannot hold it: a float cell holds the
    /// nearest number that is finite, the others whole numbers in their range.
    pub open spec fn encoded(self, value: u64) -> Result<u32, CellError> {
        if !f64_finite(value) {
            Err(CellError::NotANumber)
        } else if self is F32 {
            if f32_finite(narrowed(value) as u32) {
                Ok(narrowed(value) as u32)
            } else {
                Err(CellError::DoesNotFit(self))
            }
        } else {
            match f64_integer(value) {
                Some(n) => if self.takes(n) {
                    Ok(low_bits(n))
                } else {
                    Err(CellError::DoesNotFit(self))
                },
                None => Err(CellError::DoesNotFit(self)),
            }
        }
    }

    /// Bits for a value, or why the cell cannot hold it.
    pub fn encode(self, value: u64) -> (r: Result<u32, CellError>)
        ensures
            r == self.encoded(value),
    {
        if !double_bits::is_finite(value) {
            return Err(CellError::NotANumber);
        }
        if let CellKind::F32 = self {
            let bits: u32 = double_bits::narrow(value);
            if !float_bits::is_finite(bits) {
                return Err(CellError::DoesNotFit(self));
            }
            return Ok(bits);
        }
        match double_bits::to_integer(value) {
            Some(n) => {
                let fits: bool = match self {
                    CellKind::F32 => false,
                    CellKind::I32 => -0x8000_0000 <= n && n <= 0x7fff_ffff,
                    CellKind::U32 => 0 <= n && n <= 0xffff_ffff,
                    CellKind::Bool => n == 0 || n == 1,
                };
                if !fits {
                    return Err(CellError::DoesNotFit(self));
                }
                Ok(
                    if n >= 0 {
                        n as u32
                    } else {
                        (n + 0x1_0000_0000) as u32
                    },
                )
            },
            None => Err(CellError::DoesNotFit(self)),
        }
    }

    pub open spec fn spec_scalar(self) -> VariableType {
        match self {
            CellKind::F32 => VariableType::F32,
            CellKind::I32 => VariableType::I32,
            CellKind::U32 => VariableType::U32,
            CellKind::Bool => VariableType::U32,
        }
    }

    fn scalar(self) -> (r: VariableType)
        ensures
            r == self.spec_scalar(),
    {
        match self {
            CellKind::F32 => VariableType::F32,
            CellKind::I32 => VariableType::I32,
            CellKind::U32 => VariableType::U32,
            CellKind::Bool => VariableType::U32,
        }
    }
}

/// Encoding what an integer cell decodes to gives the same bits.
pub proof fn lemma_integer_cells_round_trip(kind: CellKind, bits: u32, widened: u64)
    requires
        kind !is F32,
        kind is Bool ==> bits <= 1,
    ensures
        kind.encoded(kind.decoded(bits, widened)) == Ok::<u32, CellError>(bits),
{
    let n = if kind is I32 {
        bits as i32 as int
    } else {
        bits as int
    };
    assert(bits < 0x8000_0000 ==> bits as i32 == bits) by (bit_vector);
    assert(bits >= 0x8000_0000 ==> bits as i32 == bits - 0x1_0000_0000) by (bit_vector);
    double_bits::lemma_integer_f64(n);
}

/// Who may change a value, and when.
#[derive(Debug, Clone, Copy, PartialEq, Eq, Structural)]
pub enum Access {
    ReadOnly,
    Live,
    /// Tunable while the robot is disarmed; the firmware enforces it on the
    /// framed link, a raw SWD write is not checked
    SafeOnly,
}

impl Access {
    pub open spec fn spec_from_tag(tag: u64) -> Option<Access> {
        if tag == 0 {
            Some(Access::ReadOnly)
        } else if tag == 1 {
            Some(Access::Live)
        } else if tag == 2 {
            Some(Access::SafeOnly)
        } else {
            None
        }
    }

    /// The access with this tag.
    pub fn from_tag(tag: u64) -> (r: Option<Self>)
        ensures
            r == Self::spec_from_tag(tag),
    {
        match tag {
            0 => Some(Access::ReadOnly),
            1 => Some(Access::Live),
            2 => Some(Access::SafeOnly),
            _ => None,
        }
    }
}

/// One value to sample from target memory.
#[derive(Debug, Clone, Copy, PartialEq, Eq, Structural)]
pub struct ReadItem {
    pub id: u32,
    pub address: u64,
    pub scalar: VariableType,
    pub bit_offset: Option<u64>,
    pub bit_size: Option<u64>,
}

/// Why a request would be refused.
#[derive(Debug)]
pub enum RequestError {
    ReadOnly { name: String },
    /// Outside the range, whose ends are given by their bits
    OutOfRange { name: String, min: u64, max: u64 },
    Cell(CellError),
}

/// What a request's error says.
#[verifier::ext_equal]
pub enum RequestErrorView {
    ReadOnly { name: Seq<char> },
    OutOfRange { name: Seq<char>, min: u64, max: u64 },
    Cell(CellError),
}

impl View for RequestError {
    type V = RequestErrorView;

    open spec fn view(&self) -> RequestErrorView {
        match self {
            RequestError::ReadOnly { name } => RequestErrorView::ReadOnly { name: name@ },
            RequestError::OutOfRange { name, min, max } => RequestErrorView::OutOfRange {
                name: name@,
                min: *min,
                max: *max,
            },
            RequestError::Cell(e) => RequestErrorView::Cell(*e),
        }
    }
}

impl RequestErrorView {
    /// The error as a message, of a value and a range written like this.
    pub open spec fn shown(self, value: Seq<char>, low: Seq<char>, high: Seq<char>) -> Seq<char> {
        match self {
            RequestErrorView::ReadOnly { name } => name + " is read-only"@,
            RequestErrorView::OutOfRange { name, .. } => name + " takes "@ + low + " to "@ + high,
            RequestErrorView::Cell(e) => e.shown(value),
        }
    }
}

impl RequestError {
    /// The error as a message, of a value and a range written like this.
    pub fn to_text(&self, value: &str, low: &str, high: &str) -> (r: String)
        ensures
            r@ == self@.shown(value@, low@, high@),
    {
        match self {
            RequestError::ReadOnly { name } => {
                let mut out: String = name.clone();
                out.append(" is read-only");
                out
            },
            RequestError::OutOfRange { name, .. } => {
                let mut out: String = name.clone();
                out.append(" takes ");
                out.append(low);
                out.append(" to ");
                out.append(high);
                out
            },
            RequestError::Cell(e) => e.to_text(value),
        }
    }
}

/// One value of the catalog. Its numbers are doubles, by their bits.
#[derive(Debug)]
pub struct CatalogEntry {
    /// FNV-1a of `name`, stable across builds
    pub id: u32,
    pub name: String,
    pub unit: String,
    pub kind: CellKind,
    pub access: Access,
    pub default: u64,
    /// Range and step exist only for tunables
    pub min: Option<u64>,
    pub max: Option<u64>,
    pub max_step: Option<u64>,
    pub requested_address: u64,
    pub applied_address: u64,
}

impl CatalogEntry {
    pub open spec fn spec_item(self, id: u32, address: u64) -> ReadItem {
        ReadItem {
            id,
            address,
            scalar: self.kind.spec_scalar(),
            bit_offset: None,
            bit_size: None,
        }
    }

    /// Sample the value the firmware runs with
    pub fn applied_item(&self, id: u32) -> (r: ReadItem)
        ensures
            r == self.spec_item(id, self.applied_address),
    {
        self.item(id, self.applied_address)
    }

    /// Sample the value the firmware was asked for
    pub fn requested_item(&self, id: u32) -> (r: ReadItem)
        ensures
            r == self.spec_item(id, self.requested_address),
    {
        self.item(id, self.requested_address)
    }

    fn item(&self, id: u32, address: u64) -> (r: ReadItem)
        ensures
            r == self.spec_item(id, address),
    {
        ReadItem { id, address, scalar: self.kind.scalar(), bit_offset: None, bit_size: None }
    }

    /// Bits to write for a request of `value`: none for a read-only value or
    /// outside the range, which is only checked where both ends are known.
    pub open spec fn spec_request_bits(self, value: u64) -> Result<u32, RequestErrorView> {
        if self.access is ReadOnly {
            Err(RequestErrorView::ReadOnly { name: self.name@ })
        } else if self.min is Some && self.max is Some && !(f64_le(self.min->0, value) && f64_le(
            value,
            self.max->0,
        )) {
            Err(
                RequestErrorView::OutOfRange {
                    name: self.name@,
                    min: self.min->0,
                    max: self.max->0,
                },
            )
        } else {
            match self.kind.encoded(value) {
                Ok(bits) => Ok(bits),
                Err(e) => Err(RequestErrorView::Cell(e)),
            }
        }
    }

    /// Bits to write for a request of `value`, checked as the firmware will
    /// check it, so the user hears about a bad value before it is sent.
    pub fn request_bits(&self, value: u64) -> (r: Result<u32, RequestError>)
        ensures
            self.spec_request_bits(value) == (match r {
                Ok(bits) => Ok(bits),
                Err(e) => Err(e@),
            }),
    {
        if let Access::ReadOnly = self.access {
            return Err(RequestError::ReadOnly { name: self.name.clone() });
        }
        if let (Some(min), Some(max)) = (self.min, self.max) {
            if !(double_bits::less_or_equal(min, value) && double_bits::less_or_equal(value, max)) {
                return Err(RequestError::OutOfRange { name: self.name.clone(), min, max });
            }
        }
        match self.kind.encode(value) {
            Ok(bits) => Ok(bits),
            Err(e) => Err(RequestError::Cell(e)),
        }
    }
}

/// The values that a firmware declares.
#[derive(Debug)]
pub struct Catalog {
    pub address: u64,
    /// Demangled path of the table static
    pub symbol: String,
    pub entries: Vec<CatalogEntry>,
}

/// Picks the entry with this id.
pub open spec fn entry_with(id: u32) -> spec_fn(CatalogEntry) -> bool {
    |e: CatalogEntry| e.id == id
}

impl Catalog {
    /// The first entry with this id.
    pub fn entry(&self, id: u32) -> (r: Option<&CatalogEntry>)
        ensures
            match first(self.entries@, entry_with(id)) {
                Some(i) => r == Some(&self.entries@[i]),
                None => r is None,
            },
    {
        let mut i: usize = 0;
        while i < self.entries.len()
            invariant
                i <= self.entries@.len(),
                forall|k: int| 0 <= k < i ==> !entry_with(id)(#[trigger] self.entries@[k]),
            decreases self.entries@.len() - i,
        {
            if self.entries[i].id == id {
                proof {
                    lemma_first_is(self.entries@, entry_with(id), i as int);
                }
                return Some(&self.entries[i]);
            }
            i = i + 1;
        }
        proof {
            lemma_first_none(self.entries@, entry_with(id));
        }
        None
    }
}

} // verus!
