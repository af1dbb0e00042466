//! Short texts for values that the symbol tree shows on one line.

use vstd::prelude::*;
use vstd::string::*;
use vstd::arithmetic::power2::pow2;
use crate::browse::Progress;
#[allow(unused_imports)]
use crate::browse::symbol_of;
use crate::elf::{ElfInfo, SymbolInfo};
use crate::host_wire::text_lossy;
#[allow(unused_imports)]
use crate::host_wire::lossy_text;
use crate::node_ref::NodeRef;
#[allow(unused_imports)]
use crate::node_ref::NodeView;
use crate::search::{first, lemma_first_is, lemma_first_none};
#[allow(unused_imports)]
use crate::search::lemma_first;
use crate::text::{push_decimal, push_upper_hex4};
#[allow(unused_imports)]
use crate::text::{
    decimal, lemma_decimal_reads_back, lemma_hex_shows_the_number, numeral, upper_hex4,
};
use crate::tree::{resolve_with_memory, Resolved, Source, Walk};
#[allow(unused_imports)]
use crate::tree::{answer_views, resolution, tag_size, text_in, ResolvedView, SourceView, WalkView};
use crate::type_def::{EnumDef, EnumVariant, PrimitiveDef, TypeDef, VariantPart};
use crate::type_table::TypeTable;
#[allow(unused_imports)]
use crate::wrappers::{peel, sequence, variant_label, Sequence};
#[allow(unused_imports)]
use crate::wrappers::{peeled, plain_def, sequence_of, variant_label_of};

verus! {

/// Most bytes of a string that a preview shows.
pub const MAX_PREVIEW: u64 = 256;

#[derive(Debug)]
pub struct Preview {
    pub text: String,
    pub active_variant: Option<String>,
}

/// A preview by its content.
pub struct PreviewView {
    pub text: Seq<char>,
    pub active_variant: Option<Seq<char>>,
}

impl View for Preview {
    type V = PreviewView;

    open spec fn view(&self) -> PreviewView {
        PreviewView { text: self.text@, active_variant: text_in(self.active_variant) }
    }
}

/// The number whose bytes these are, least significant first.
pub open spec fn le_value(bytes: Seq<u8>) -> nat
    decreases bytes.len(),
{
    if bytes.len() == 0 {
        0
    } else {
        bytes[0] as nat + 256 * le_value(bytes.drop_first())
    }
}

/// The number whose bytes these are, most significant first.
pub open spec fn be_value(bytes: Seq<u8>) -> nat
    decreases bytes.len(),
{
    if bytes.len() == 0 {
        0
    } else {
        256 * be_value(bytes.drop_last()) + bytes.last() as nat
    }
}

/// The word that up to eight bytes hold.
pub open spec fn word_of(little: bool, bytes: Seq<u8>) -> Result<u64, Seq<char>> {
    if bytes.len() == 0 || bytes.len() > 8 {
        Err("unsupported word size"@)
    } else if little {
        Ok(le_value(bytes) as u64)
    } else {
        Ok(be_value(bytes) as u64)
    }
}

/// `n` bytes hold less than `256` to the power `n`.
proof fn lemma_value_bounds(bytes: Seq<u8>)
    ensures
        le_value(bytes) < pow2(8 * bytes.len()),
        be_value(bytes) < pow2(8 * bytes.len()),
    decreases bytes.len(),
{
    vstd::arithmetic::power2::lemma2_to64();
    if bytes.len() > 0 {
        let n = (bytes.len() - 1) as nat;
        lemma_value_bounds(bytes.drop_first());
        lemma_value_bounds(bytes.drop_last());
        vstd::arithmetic::power2::lemma_pow2_adds(8, 8 * n);
        assert(8 * bytes.len() == 8 + 8 * n);
        assert(pow2(8 * bytes.len()) == 256 * pow2(8 * n));
    }
}

/// Up to eight bytes hold a number that fits in a word.
pub proof fn lemma_word_fits(bytes: Seq<u8>)
    requires
        bytes.len() <= 8,
    ensures
        le_value(bytes) <= u64::MAX,
        be_value(bytes) <= u64::MAX,
{
    lemma_value_bounds(bytes);
    vstd::arithmetic::power2::lemma2_to64();
    if bytes.len() < 8 {
        vstd::arithmetic::power2::lemma_pow2_strictly_increases(8 * bytes.len(), 64);
    }
}

/// The word that up to eight bytes hold.
pub fn word(little: bool, bytes: &[u8]) -> (r: Result<u64, String>)
    ensures
        word_of(little, bytes@) == (match r {
            Ok(word) => Ok(word),
            Err(reason) => Err(reason@),
        }),
{
    let n: usize = bytes.len();
    if n == 0 || n > 8 {
        return Err("unsupported word size".to_owned());
    }
    let mut value: u64 = 0;
    let mut i: usize = 0;
    if little {
        assert(bytes@.skip(n as int) =~= Seq::<u8>::empty());
        while i < n
            invariant
                i <= n == bytes@.len() <= 8,
                value == le_value(bytes@.skip(n - i)),
            decreases n - i,
        {
            let ghost rest = bytes@.skip(n - i - 1);
            proof {
                assert(rest.drop_first() =~= bytes@.skip(n - i));
                assert(rest[0] == bytes@[n - i - 1]);
                lemma_word_fits(rest);
            }
            value = value * 256 + bytes[n - i - 1] as u64;
            i = i + 1;
        }
        assert(bytes@.skip(0) =~= bytes@);
    } else {
        assert(bytes@.take(0) =~= Seq::<u8>::empty());
        while i < n
            invariant
                i <= n == bytes@.len() <= 8,
                value == be_value(bytes@.take(i as int)),
            decreases n - i,
        {
            let ghost seen = bytes@.take(i + 1);
            proof {
                assert(seen.drop_last() =~= bytes@.take(i as int));
                assert(seen.last() == bytes@[i as int]);
                lemma_word_fits(seen);
            }
            value = value * 256 + bytes[i] as u64;
            i = i + 1;
        }
        assert(bytes@.take(n as int) =~= bytes@);
    }
    Ok(value)
}

/// Bytes that were read, or why they could not be.
pub open spec fn bytes_answers(list: Seq<Result<Vec<u8>, String>>) -> Seq<
    Result<Seq<u8>, Seq<char>>,
> {
    Seq::new(
        list.len(),
        |i: int|
            match list[i] {
                Ok(bytes) => Ok(bytes@),
                Err(reason) => Err(reason@),
            },
    )
}

/// The words that answers hold.
pub open spec fn word_answers(little: bool, list: Seq<Result<Seq<u8>, Seq<char>>>) -> Seq<
    Result<u64, Seq<char>>,
> {
    Seq::new(
        list.len(),
        |i: int|
            match list[i] {
                Ok(bytes) => word_of(little, bytes),
                Err(reason) => Err(reason),
            },
    )
}

fn words_of(little: bool, list: &[Result<Vec<u8>, String>]) -> (r: Vec<Result<u64, String>>)
    ensures
        answer_views(r@) == word_answers(little, bytes_answers(list@)),
{
    let mut out: Vec<Result<u64, String>> = Vec::new();
    while out.len() < list.len()
        invariant
            out@.len() <= list@.len(),
            forall|i: int|
                0 <= i < out@.len() ==> #[trigger] answer_views(out@)[i] == word_answers(
                    little,
                    bytes_answers(list@),
                )[i],
        decreases list@.len() - out@.len(),
    {
        let ghost before = out@;
        let answer: Result<u64, String> = match &list[out.len()] {
            Ok(bytes) => word(little, bytes.as_slice()),
            Err(reason) => Err(reason.clone()),
        };
        out.push(answer);
        assert forall|i: int| 0 <= i < out@.len() implies #[trigger] answer_views(out@)[i]
            == word_answers(little, bytes_answers(list@))[i] by {
            if i < before.len() {
                assert(answer_views(out@)[i] == answer_views(before)[i]);
            }
        }
    }
    assert(answer_views(out@) =~= word_answers(little, bytes_answers(list@)));
    out
}

/// What asking for a preview comes to.
pub enum Outcome {
    Read { address: u64, size: usize },
    Failed(Seq<char>),
    /// The value has no preview
    Nothing,
    Shown(PreviewView),
}

/// Whether a result is an outcome.
pub open spec fn preview_result(o: Outcome, r: Progress<Result<Option<Preview>, String>>) -> bool {
    match o {
        Outcome::Read { address, size } => r matches Progress::Read { address: a, size: s } && a
            == address && s == size,
        Outcome::Failed(reason) => r matches Progress::Done(Err(got)) && got@ == reason,
        Outcome::Nothing => r matches Progress::Done(Ok(None)),
        Outcome::Shown(p) => r matches Progress::Done(Ok(Some(got))) && got@ == p,
    }
}

/// The next bytes, read at `address`, or what it comes to without them.
pub open spec fn next_bytes(
    list: Seq<Result<Seq<u8>, Seq<char>>>,
    used: nat,
    address: u64,
    size: usize,
) -> Result<Seq<u8>, Outcome> {
    if used >= list.len() {
        Err(Outcome::Read { address, size })
    } else {
        match list[used as int] {
            Ok(bytes) => Ok(bytes),
            Err(reason) => Err(Outcome::Failed(reason)),
        }
    }
}

/// The next word, read at `address`, or what it comes to without it.
pub open spec fn next_word(
    little: bool,
    list: Seq<Result<Seq<u8>, Seq<char>>>,
    used: nat,
    address: u64,
    size: usize,
) -> Result<u64, Outcome> {
    match next_bytes(list, used, address, size) {
        Err(o) => Err(o),
        Ok(bytes) => match word_of(little, bytes) {
            Ok(word) => Ok(word),
            Err(reason) => Err(Outcome::Failed(reason)),
        },
    }
}

fn ask_bytes<'a>(list: &'a [Result<Vec<u8>, String>], used: usize, address: u64, size: usize) -> (r:
    Result<&'a [u8], Progress<Result<Option<Preview>, String>>>)
    ensures
        match next_bytes(bytes_answers(list@), used as nat, address, size) {
            Ok(bytes) => r matches Ok(got) && got@ == bytes && used < list@.len(),
            Err(o) => r matches Err(got) && preview_result(o, got),
        },
{
    if used >= list.len() {
        return Err(Progress::Read { address, size });
    }
    match &list[used] {
        Ok(bytes) => Ok(bytes.as_slice()),
        Err(reason) => Err(Progress::Done(Err(reason.clone()))),
    }
}

fn ask_word(
    little: bool,
    list: &[Result<Vec<u8>, String>],
    used: usize,
    address: u64,
    size: usize,
) -> (r: Result<u64, Progress<Result<Option<Preview>, String>>>)
    ensures
        match next_word(little, bytes_answers(list@), used as nat, address, size) {
            Ok(word) => r matches Ok(got) && got == word && used < list@.len(),
            Err(o) => r matches Err(got) && preview_result(o, got),
        },
{
    match ask_bytes(list, used, address, size) {
        Err(p) => Err(p),
        Ok(bytes) => match word(little, bytes) {
            Ok(word) => Ok(word),
            Err(reason) => Err(Progress::Done(Err(reason))),
        },
    }
}

/// A text as Rust's `Debug` writes it: quoted and escaped.
pub uninterp spec fn debug_text(s: Seq<char>) -> Seq<char>;

/// Formatting with `{:?}` writes a `str` quoted and escaped; which characters
/// are escaped is only named.
#[verifier::external_body]
fn debug_str(s: &str) -> (r: String)
    ensures
        r@ == debug_text(s@),
{
    format!("{s:?}")
}

/// A character as Rust's `Debug` writes it: quoted and escaped.
pub uninterp spec fn debug_letter(c: char) -> Seq<char>;

/// Formatting with `{:?}` writes a `char` quoted and escaped; which characters
/// are escaped is only named.
#[verifier::external_body]
fn debug_char(c: char) -> (r: String)
    ensures
        r@ == debug_letter(c),
{
    format!("{c:?}")
}

/// Whether a number is a Unicode scalar value.
pub open spec fn scalar_value(n: int) -> bool {
    0 <= n <= 0xd7ff || 0xe000 <= n <= 0x10_ffff
}

/// [`char::from_u32`]: the character with this number, where there is one.
pub assume_specification[ char::from_u32 ](i: u32) -> (r: Option<char>)
    ensures
        r is Some <==> scalar_value(i as int),
        r matches Some(c) ==> c as u32 == i,
;

/// A string's preview.
pub open spec fn str_preview(bytes: Seq<u8>, count: u64) -> Seq<char> {
    if count > MAX_PREVIEW {
        debug_text(lossy_text(bytes)) + "… (truncated)"@
    } else {
        debug_text(lossy_text(bytes))
    }
}

/// What a sequence's preview comes to.
pub open spec fn sequence_outcome(
    elf: ElfInfo,
    at: ResolvedView,
    s: Sequence,
    list: Seq<Result<Seq<u8>, Seq<char>>>,
    used: nat,
) -> Outcome {
    let width = elf.spec_pointer_size();
    let little = elf.is_little_endian;
    match next_word(little, list, used, at.address.wrapping_add(s.length_offset), width) {
        Err(o) => o,
        Ok(count) => if !s.is_str {
            Outcome::Shown(
                PreviewView {
                    text: "["@ + decimal(count as nat) + " elements]"@,
                    active_variant: None,
                },
            )
        } else {
            match next_word(little, list, used + 1, at.address.wrapping_add(s.data_offset), width) {
                Err(o) => o,
                Ok(pointer) => if count > 0 && pointer == 0 {
                    Outcome::Failed("null string pointer"@)
                } else if count == 0 {
                    Outcome::Shown(
                        PreviewView {
                            text: str_preview(Seq::empty(), count),
                            active_variant: None,
                        },
                    )
                } else {
                    match next_bytes(
                        list,
                        used + 2,
                        pointer,
                        (if count < MAX_PREVIEW {
                            count
                        } else {
                            MAX_PREVIEW
                        }) as usize,
                    ) {
                        Err(o) => o,
                        Ok(bytes) => Outcome::Shown(
                            PreviewView { text: str_preview(bytes, count), active_variant: None },
                        ),
                    }
                },
            }
        },
    }
}

fn preview_sequence(
    elf: &ElfInfo,
    at: &Resolved,
    s: Sequence,
    list: &[Result<Vec<u8>, String>],
    used: usize,
) -> (r: Progress<Result<Option<Preview>, String>>)
    requires
        used <= list@.len(),
    ensures
        preview_result(
            sequence_outcome(*elf, at@, s, bytes_answers(list@), used as nat),
            r,
        ),
{
    let width: usize = elf.pointer_size();
    let little: bool = elf.is_little_endian;
    let given: usize = list.len();
    let count: u64 = match ask_word(
        little,
        list,
        used,
        at.address.wrapping_add(s.length_offset),
        width,
    ) {
        Ok(count) => count,
        Err(p) => {
            return p;
        },
    };
    if !s.is_str {
        let mut text: String = "[".to_owned();
        push_decimal(&mut text, count);
        text.append(" elements]");
        return Progress::Done(Ok(Some(Preview { text, active_variant: None })));
    }
    let pointer: u64 = match ask_word(
        little,
        list,
        used + 1,
        at.address.wrapping_add(s.data_offset),
        width,
    ) {
        Ok(pointer) => pointer,
        Err(p) => {
            return p;
        },
    };
    if count > 0 && pointer == 0 {
        return Progress::Done(Err("null string pointer".to_owned()));
    }
    let text: String = if count == 0 {
        let none: Vec<u8> = Vec::new();
        assert(none@ =~= Seq::<u8>::empty());
        text_lossy(none.as_slice())
    } else {
        let size: usize = (if count < MAX_PREVIEW {
            count
        } else {
            MAX_PREVIEW
        }) as usize;
        match ask_bytes(list, used + 2, pointer, size) {
            Ok(bytes) => text_lossy(bytes),
            Err(p) => {
                return p;
            },
        }
    };
    let mut shown: String = debug_str(text.as_str());
    if count > MAX_PREVIEW {
        shown.append("… (truncated)");
    }
    Progress::Done(Ok(Some(Preview { text: shown, active_variant: None })))
}

/// A number of `bits` bits read as signed.
pub open spec fn sign_extended(value: u64, bits: u64) -> int {
    if 0 < bits < 64 {
        let m = pow2(bits as nat) as int;
        let low = value as int % m;
        if low >= m / 2 {
            low - m
        } else {
            low
        }
    } else if value >= 0x8000_0000_0000_0000 {
        value - 0x1_0000_0000_0000_0000
    } else {
        value as int
    }
}

fn sign_extend(value: u64, bits: u64) -> (r: i128)
    ensures
        r == sign_extended(value, bits),
{
    if bits == 0 || bits >= 64 {
        return if value >= 0x8000_0000_0000_0000 {
            value as i128 - 0x1_0000_0000_0000_0000
        } else {
            value as i128
        };
    }
    let mut m: i128 = 1;
    let mut i: u64 = 0;
    proof {
        vstd::arithmetic::power2::lemma2_to64();
    }
    while i < bits
        invariant
            i <= bits < 64,
            m == pow2(i as nat),
            m <= 0x1_0000_0000_0000_0000,
        decreases bits - i,
    {
        proof {
            vstd::arithmetic::power2::lemma_pow2_adds(1, i as nat);
            vstd::arithmetic::power2::lemma2_to64();
            if i + 1 < 64 {
                vstd::arithmetic::power2::lemma_pow2_strictly_increases((i + 1) as nat, 64);
            }
        }
        m = m * 2;
        i = i + 1;
    }
    proof {
        vstd::arithmetic::power2::lemma_pow2_pos(bits as nat);
    }
    let low: i128 = value as i128 % m;
    if low >= m / 2 {
        low - m
    } else {
        low
    }
}

/// The bits of an `i64` as a number without sign.
pub open spec fn unsigned_bits(v: i64) -> int {
    if v < 0 {
        v + 0x1_0000_0000_0000_0000
    } else {
        v as int
    }
}

/// Picks the enumerator of a value that was read as a number: enumerators are
/// signed, so both the raw bits and the sign-extended value match.
pub open spec fn reads_as(value: u64, signed: int) -> spec_fn(EnumVariant) -> bool {
    |v: EnumVariant| unsigned_bits(v.value) == value || v.value == signed
}

/// An enumeration's value: its enumerator with the number, or the number.
pub open spec fn enum_preview(e: EnumDef, value: u64) -> Seq<char> {
    let signed = sign_extended(value, e.size.wrapping_mul(8));
    match first(e.variants@, reads_as(value, signed)) {
        Some(i) => e.variants@[i].name@ + " ("@ + decimal(value as nat) + ")"@,
        None => decimal(value as nat),
    }
}

fn show_enum(e: &EnumDef, value: u64) -> (r: String)
    ensures
        r@ == enum_preview(*e, value),
{
    let signed: i128 = sign_extend(value, e.size.wrapping_mul(8));
    let mut i: usize = 0;
    while i < e.variants.len()
        invariant
            i <= e.variants@.len(),
            signed == sign_extended(value, e.size.wrapping_mul(8)),
            forall|k: int|
                0 <= k < i ==> !reads_as(value, signed as int)(#[trigger] e.variants@[k]),
        decreases e.variants@.len() - i,
    {
        let v: i128 = e.variants[i].value as i128;
        let raw: i128 = if v < 0 {
            v + 0x1_0000_0000_0000_0000
        } else {
            v
        };
        if raw == value as i128 || v == signed {
            proof {
                lemma_first_is(e.variants@, reads_as(value, signed as int), i as int);
            }
            let mut out: String = e.variants[i].name.clone();
            out.append(" (");
            push_decimal(&mut out, value);
            out.append(")");
            return out;
        }
        i = i + 1;
    }
    proof {
        lemma_first_none(e.variants@, reads_as(value, signed as int));
    }
    let mut out: String = String::new();
    push_decimal(&mut out, value);
    assert(out@ =~= decimal(value as nat));
    out
}

/// What a tagged enum's preview comes to.
pub open spec fn tagged_outcome(
    elf: ElfInfo,
    at: ResolvedView,
    part: VariantPart,
    list: Seq<Result<Seq<u8>, Seq<char>>>,
    used: nat,
) -> Outcome {
    let types = elf.types@.types;
    let tag = match part.discriminant {
        None => Ok(0u64),
        Some(d) => next_word(
            elf.is_little_endian,
            list,
            used,
            at.address.wrapping_add(d.offset),
            tag_size(types, d),
        ),
    };
    match tag {
        Err(o) => o,
        Ok(tag) => match part.spec_select(tag) {
            None => Outcome::Failed("unknown enum discriminant"@),
            Some(i) => Outcome::Shown(
                PreviewView {
                    text: variant_label_of(types, part.variants@[i]),
                    active_variant: Some(part.variants@[i].member.name@),
                },
            ),
        },
    }
}

fn preview_tagged(
    elf: &ElfInfo,
    at: &Resolved,
    part: &VariantPart,
    list: &[Result<Vec<u8>, String>],
    used: usize,
) -> (r: Progress<Result<Option<Preview>, String>>)
    ensures
        preview_result(
            tagged_outcome(*elf, at@, *part, bytes_answers(list@), used as nat),
            r,
        ),
{
    let table: &TypeTable = &elf.types;
    let tag: u64 = match &part.discriminant {
        None => 0,
        Some(d) => {
            let size: usize = (match table.type_size(d.type_id) {
                Some(size) => size,
                None => 0,
            }) as usize;
            match ask_word(
                elf.is_little_endian,
                list,
                used,
                at.address.wrapping_add(d.offset),
                size,
            ) {
                Ok(tag) => tag,
                Err(p) => {
                    return p;
                },
            }
        },
    };
    match part.select(tag) {
        None => Progress::Done(Err("unknown enum discriminant".to_owned())),
        Some(v) => Progress::Done(
            Ok(
                Some(
                    Preview {
                        text: variant_label(table, v),
                        active_variant: Some(v.member.name.clone()),
                    },
                ),
            ),
        ),
    }
}

/// A character's preview.
pub open spec fn char_preview(c: char, value: u64) -> Seq<char> {
    debug_letter(c) + " (U+"@ + upper_hex4(value as nat) + ")"@
}

/// What a value's preview comes to.
pub open spec fn value_outcome(
    elf: ElfInfo,
    at: ResolvedView,
    list: Seq<Result<Seq<u8>, Seq<char>>>,
    used: nat,
) -> Outcome {
    let types = elf.types@.types;
    let little = elf.is_little_endian;
    match sequence_of(types, at.type_id) {
        Some(s) => sequence_outcome(elf, at, s, list, used),
        None => match plain_def(types, peeled(types, at.type_id)) {
            Some(TypeDef::Enum(e)) => match next_word(
                little,
                list,
                used,
                at.address,
                e.size as usize,
            ) {
                Err(o) => o,
                Ok(value) => Outcome::Shown(
                    PreviewView { text: enum_preview(e, value), active_variant: None },
                ),
            },
            Some(TypeDef::Struct(s)) => match s.variant_part {
                Some(part) => tagged_outcome(elf, at, part, list, used),
                None => Outcome::Nothing,
            },
            Some(TypeDef::Primitive(PrimitiveDef::UnicodeChar { size })) => match next_word(
                little,
                list,
                used,
                at.address,
                size as usize,
            ) {
                Err(o) => o,
                Ok(value) => if scalar_value(value as int) {
                    Outcome::Shown(
                        PreviewView {
                            text: char_preview(value as u32 as char, value),
                            active_variant: None,
                        },
                    )
                } else {
                    Outcome::Failed("invalid character"@)
                },
            },
            _ => Outcome::Nothing,
        },
    }
}

fn preview_value(
    elf: &ElfInfo,
    at: &Resolved,
    list: &[Result<Vec<u8>, String>],
    used: usize,
) -> (r: Progress<Result<Option<Preview>, String>>)
    requires
        used <= list@.len(),
    ensures
        preview_result(value_outcome(*elf, at@, bytes_answers(list@), used as nat), r),
{
    let table: &TypeTable = &elf.types;
    let little: bool = elf.is_little_endian;
    if let Some(s) = sequence(table, at.type_id) {
        return preview_sequence(elf, at, s, list, used);
    }
    match table.get(table.get_underlying(peel(table, at.type_id))) {
        Some(TypeDef::Enum(e)) => match ask_word(little, list, used, at.address, e.size as usize) {
            Ok(value) => Progress::Done(
                Ok(Some(Preview { text: show_enum(e, value), active_variant: None })),
            ),
            Err(p) => p,
        },
        Some(TypeDef::Struct(s)) => match &s.variant_part {
            Some(part) => preview_tagged(elf, at, part, list, used),
            None => Progress::Done(Ok(None)),
        },
        Some(TypeDef::Primitive(PrimitiveDef::UnicodeChar { size })) => match ask_word(
            little,
            list,
            used,
            at.address,
            *size as usize,
        ) {
            Err(p) => p,
            Ok(value) => {
                if value > u32::MAX as u64 {
                    return Progress::Done(Err("invalid character".to_owned()));
                }
                match char::from_u32(value as u32) {
                    Some(c) => {
                        let mut text: String = debug_char(c);
                        text.append(" (U+");
                        push_upper_hex4(&mut text, value);
                        text.append(")");
                        proof {
                            vstd::utf8::char_u32_cast(c, value as u32);
                        }
                        Progress::Done(Ok(Some(Preview { text, active_variant: None })))
                    },
                    None => Progress::Done(Err("invalid character".to_owned())),
                }
            },
        },
        _ => Progress::Done(Ok(None)),
    }
}

/// What asking for a preview comes to: bounded string/slice previews and enum
/// labels, with inactive payload checks.
pub open spec fn preview_outcome(
    elf: ElfInfo,
    node: NodeView,
    list: Seq<Result<Seq<u8>, Seq<char>>>,
) -> Outcome {
    let src = SourceView::Answers(word_answers(elf.is_little_endian, list));
    match resolution(elf, node, src, true) {
        WalkView::Read { address, size } => Outcome::Read { address, size },
        WalkView::Failed(e) => Outcome::Failed(e.shown()),
        WalkView::At(at, used) => if !symbol_of(elf, node).status.spec_is_readable() {
            Outcome::Failed("not readable"@)
        } else {
            value_outcome(elf, at, list, used)
        },
    }
}

/// A preview of a value, with the bytes that were read for it, in order.
pub fn preview(elf: &ElfInfo, node: &NodeRef, answers: &[Result<Vec<u8>, String>]) -> (r: Progress<
    Result<Option<Preview>, String>,
>)
    ensures
        preview_result(preview_outcome(*elf, node@, bytes_answers(answers@)), r),
{
    let words: Vec<Result<u64, String>> = words_of(elf.is_little_endian, answers);
    assert(answer_views(words@).len() == answers@.len());
    let (walk, found): (Walk, Option<&SymbolInfo>) = resolve_with_memory(
        elf,
        node,
        &Source::Answers(words.as_slice()),
        true,
    );
    match (walk, found) {
        (Walk::Read { address, size }, _) => Progress::Read { address, size },
        (Walk::Failed(e), _) => Progress::Done(Err(e.to_text())),
        (Walk::At(at, used), Some(sym)) => {
            if !sym.is_readable() {
                return Progress::Done(Err("not readable".to_owned()));
            }
            preview_value(elf, &at, answers, used)
        },
        (Walk::At(_, _), None) => Progress::Done(Err("not readable".to_owned())),
    }
}

/// A preview of a string or slice asks for no more than 256 bytes at once, and
/// for nothing once it has had three answers.
pub proof fn lemma_sequence_previews_are_bounded(
    elf: ElfInfo,
    at: ResolvedView,
    list: Seq<Result<Seq<u8>, Seq<char>>>,
    used: nat,
)
    requires
        sequence_of(elf.types@.types, at.type_id) is Some,
    ensures
        value_outcome(elf, at, list, used) matches Outcome::Read { size, .. } ==> size
            <= MAX_PREVIEW && list.len() < used + 3,
{
}

/// What bytes hold as a number: one byte holds itself, and of bytes in two parts
/// the first part counts least where the least significant comes first, and most
/// where it comes last.
pub proof fn lemma_words_are_positional(a: Seq<u8>, b: Seq<u8>, byte: u8)
    ensures
        le_value(seq![byte]) == byte,
        be_value(seq![byte]) == byte,
        le_value(a + b) == le_value(a) + pow2(8 * a.len()) * le_value(b),
        be_value(a + b) == be_value(a) * pow2(8 * b.len()) + be_value(b),
        a.len() <= 8 && a.len() > 0 ==> word_of(true, a) == Ok::<u64, Seq<char>>(le_value(a) as u64)
            && word_of(false, a) == Ok::<u64, Seq<char>>(be_value(a) as u64) && le_value(a)
            <= u64::MAX && be_value(a) <= u64::MAX,
    decreases a.len() + b.len(),
{
    vstd::arithmetic::power2::lemma2_to64();
    reveal_with_fuel(le_value, 2);
    reveal_with_fuel(be_value, 2);
    assert(seq![byte].drop_first() =~= Seq::<u8>::empty());
    assert(seq![byte].drop_last() =~= Seq::<u8>::empty());
    if a.len() <= 8 {
        lemma_word_fits(a);
    }
    lemma_le_parts(a, b);
    lemma_be_parts(a, b);
}

proof fn lemma_le_parts(a: Seq<u8>, b: Seq<u8>)
    ensures
        le_value(a + b) == le_value(a) + pow2(8 * a.len()) * le_value(b),
    decreases a.len(),
{
    vstd::arithmetic::power2::lemma2_to64();
    if a.len() == 0 {
        assert(a + b =~= b);
        assert(pow2(0) == 1);
        assert(1 * le_value(b) == le_value(b));
    } else {
        assert((a + b)[0] == a[0]);
        let n = (a.len() - 1) as nat;
        lemma_le_parts(a.drop_first(), b);
        assert((a + b).drop_first() =~= a.drop_first() + b);
        vstd::arithmetic::power2::lemma_pow2_adds(8, 8 * n);
        let p = pow2(8 * n) as int;
        let v = le_value(b) as int;
        let l = le_value(a.drop_first()) as int;
        assert(8 * a.len() == 8 + 8 * n);
        assert(256 * (l + p * v) == 256 * l + (256 * p) * v) by (nonlinear_arith);
        assert(pow2(8 * a.len()) == 256 * p);
        assert(le_value(a + b) == a[0] + 256 * (l + p * v));
    }
}

proof fn lemma_be_parts(a: Seq<u8>, b: Seq<u8>)
    ensures
        be_value(a + b) == be_value(a) * pow2(8 * b.len()) + be_value(b),
    decreases b.len(),
{
    vstd::arithmetic::power2::lemma2_to64();
    if b.len() == 0 {
        assert(a + b =~= a);
        assert(be_value(a) * 1 == be_value(a));
    } else {
        let n = (b.len() - 1) as nat;
        lemma_be_parts(a, b.drop_last());
        assert((a + b).drop_last() =~= a + b.drop_last());
        vstd::arithmetic::power2::lemma_pow2_adds(8, 8 * n);
        let p = pow2(8 * n) as int;
        let v = be_value(a) as int;
        let l = be_value(b.drop_last()) as int;
        assert(8 * b.len() == 8 + 8 * n);
        assert(256 * (v * p + l) == v * (256 * p) + 256 * l) by (nonlinear_arith);
    }
}

/// Whether a word of so many bytes holds a number: they leave the same over two to
/// the power of the word's bits.
pub open spec fn encodes(value: u64, size: u64, number: int) -> bool {
    (number - value) % (pow2(8 * size as nat) as int) == 0
}

/// An enumeration's value is shown under the name of its own enumerator, with the
/// value in brackets: where a word encodes the number of one enumerator, and of no
/// other, that one's name stands in front, whichever it is. Where it encodes none,
/// the value stands alone. The enumeration takes one to eight bytes, and its
/// enumerators are numbers of that many bytes, signed or not.
pub proof fn lemma_enum_values_have_their_own_names(e: EnumDef, value: u64)
    requires
        1 <= e.size <= 8,
        value < pow2(8 * e.size as nat),
        forall|i: int|
            0 <= i < e.variants@.len() ==> -(pow2((8 * e.size - 1) as nat) as int) <= (
            #[trigger] e.variants@[i]).value < pow2(8 * e.size as nat),
    ensures
        ({
            let shown = enum_preview(e, value);
            &&& forall|k: int|
                0 <= k < e.variants@.len() && encodes(
                    value,
                    e.size,
                    (#[trigger] e.variants@[k]).value as int,
                ) && (forall|j: int|
                    0 <= j < e.variants@.len() && j != k ==> !encodes(
                        value,
                        e.size,
                        (#[trigger] e.variants@[j]).value as int,
                    )) ==> exists|digits: Seq<char>|
                    shown == e.variants@[k].name@ + " ("@ + digits + ")"@ && #[trigger] numeral(
                        digits,
                        10,
                    ) == value
            &&& (forall|k: int|
                0 <= k < e.variants@.len() ==> !encodes(
                    value,
                    e.size,
                    (#[trigger] e.variants@[k]).value as int,
                )) ==> numeral(shown, 10) == value
        }),
{
    lemma_decimal_reads_back(value as nat);
    let bits = e.size.wrapping_mul(8);
    let signed = sign_extended(value, bits);
    let found = first(e.variants@, reads_as(value, signed));
    lemma_first(e.variants@, reads_as(value, signed));
    assert forall|i: int| 0 <= i < e.variants@.len() implies (reads_as(value, signed)(
        #[trigger] e.variants@[i],
    ) <==> encodes(value, e.size, e.variants@[i].value as int)) by {
        lemma_reading_is_congruence(e.size, value, e.variants@[i].value);
    }
    assert forall|k: int|
        0 <= k < e.variants@.len() && encodes(
            value,
            e.size,
            (#[trigger] e.variants@[k]).value as int,
        ) && (forall|j: int|
            0 <= j < e.variants@.len() && j != k ==> !encodes(
                value,
                e.size,
                (#[trigger] e.variants@[j]).value as int,
            )) implies exists|digits: Seq<char>|
        enum_preview(e, value) == e.variants@[k].name@ + " ("@ + digits + ")"@
            && #[trigger] numeral(digits, 10) == value by {
        assert(reads_as(value, signed)(e.variants@[k]));
        lemma_first_is(e.variants@, reads_as(value, signed), k);
        let digits = decimal(value as nat);
        assert(numeral(digits, 10) == value);
    }
}

/// A number of so many bytes is read as a word exactly where the word encodes it.
proof fn lemma_reading_is_congruence(size: u64, value: u64, v: i64)
    requires
        1 <= size <= 8,
        value < pow2(8 * size as nat),
        -(pow2((8 * size - 1) as nat) as int) <= v < pow2(8 * size as nat),
    ensures
        (unsigned_bits(v) == value || v == sign_extended(value, size.wrapping_mul(8))) <==> encodes(
            value,
            size,
            v as int,
        ),
{
    vstd::arithmetic::power2::lemma2_to64();
    vstd::arithmetic::power2::lemma2_to64_rest();
    let m = pow2(8 * size as nat) as int;
    assert(size.wrapping_mul(8) == 8 * size);
    assert(m == 0x100 || m == 0x1_0000 || m == 0x100_0000 || m == 0x1_0000_0000 || m
        == 0x100_0000_0000 || m == 0x1_0000_0000_0000 || m == 0x100_0000_0000_0000 || m
        == 0x1_0000_0000_0000_0000);
    assert(m == 2 * pow2((8 * size - 1) as nat));
    let d = v - value;
    assert(-2 * m < d < m);
    assert(d % m == 0 <==> d == 0 || d == -m) by (nonlinear_arith)
        requires
            m > 0,
            -2 * m < d < m,
    ;
}

/// A tagged enum is shown as the variant that its tag selects: the one whose
/// number is the tag, and where none has that number the one without a number.
/// The tag is read where the discriminant stands, with its size.
pub proof fn lemma_a_tag_selects_its_variant(
    elf: ElfInfo,
    at: ResolvedView,
    part: VariantPart,
    tag: Seq<u8>,
    k: int,
)
    requires
        1 <= tag.len() <= 8,
        0 <= k < part.variants@.len(),
        part.discriminant is Some,
        ({
            let n = if elf.is_little_endian {
                le_value(tag)
            } else {
                be_value(tag)
            };
            ||| part.variants@[k].discr_value == Some(n as u64) && forall|j: int|
                0 <= j < part.variants@.len() && j != k ==> (
                #[trigger] part.variants@[j]).discr_value != Some(n as u64)
            ||| part.variants@[k].discr_value is None && forall|j: int|
                0 <= j < part.variants@.len() && j != k ==> ((
                #[trigger] part.variants@[j]).discr_value matches Some(v) && v != n)
        }),
    ensures
        tagged_outcome(elf, at, part, Seq::empty(), 0) matches Outcome::Read { address, size }
            && address as int == (at.address + part.discriminant->0.offset) % 0x1_0000_0000_0000_0000
            && size == tag_size(elf.types@.types, part.discriminant->0),
        tagged_outcome(elf, at, part, seq![Ok(tag)], 0) matches Outcome::Shown(p)
            && p.active_variant == Some(part.variants@[k].member.name@) && p.text
            == variant_label_of(elf.types@.types, part.variants@[k]),
{
    lemma_word_fits(tag);
    let n = if elf.is_little_endian {
        le_value(tag)
    } else {
        be_value(tag)
    };
    let tag_is = crate::type_def::discr_is(n as u64);
    let none = crate::type_def::no_discr();
    if part.variants@[k].discr_value == Some(n as u64) {
        assert forall|j: int| 0 <= j < k implies !tag_is(#[trigger] part.variants@[j]) by {}
        lemma_first_is(part.variants@, tag_is, k);
    } else {
        lemma_first_none(part.variants@, tag_is);
        lemma_first_is(part.variants@, none, k);
    }
}

/// A variant that is named by letters is shown by its name.
pub proof fn lemma_named_variants_keep_their_names(elf: ElfInfo, v: crate::type_def::VariantDef)
    requires
        exists|i: int|
            0 <= i < v.member.name@.len() && !('0' <= #[trigger] v.member.name@[i]
                && v.member.name@[i] <= '9'),
    ensures
        variant_label_of(elf.types@.types, v) == v.member.name@,
{
}

/// Whether a member is the only one with its name.
pub open spec fn only_member(members: Seq<crate::type_def::MemberDef>, i: int, name: Seq<char>) -> bool {
    &&& 0 <= i < members.len()
    &&& members[i].name@ == name
    &&& forall|j: int| 0 <= j < members.len() && j != i ==> (#[trigger] members[j]).name@ != name
}

/// A borrowed string or slice is read through its members: the count where
/// `length` stands, the pointer where `data_ptr` stands, and the first 256 bytes at
/// most from where the pointer leads. A string is then shown as its bytes are
/// written by `Debug`, with a mark behind it exactly where it is longer; a slice as
/// how many elements it has.
pub proof fn lemma_strings_are_read_through_their_members(
    elf: ElfInfo,
    at: ResolvedView,
    s: crate::type_def::StructDef,
    data: int,
    length: int,
    count: Seq<u8>,
    pointer: Seq<u8>,
    bytes: Seq<u8>,
)
    requires
        plain_def(elf.types@.types, peeled(elf.types@.types, at.type_id)) == Some(
            TypeDef::Struct(s),
        ),
        s.name matches Some(name) && (name@ == "&str"@ || name@ == "&mut str"@),
        only_member(s.members@, data, "data_ptr"@),
        only_member(s.members@, length, "length"@),
        plain_def(elf.types@.types, s.members@[data].type_id) matches Some(TypeDef::Pointer(_)),
        1 <= count.len() <= 8,
        1 <= pointer.len() <= 8,
    ensures
        ({
            let number = |b: Seq<u8>|
                if elf.is_little_endian {
                    le_value(b)
                } else {
                    be_value(b)
                };
            let n = number(count);
            let space = 0x1_0000_0000_0000_0000int;
            let width: usize = if elf.is_64bit {
                8
            } else {
                4
            };
            &&& value_outcome(elf, at, Seq::empty(), 0) matches Outcome::Read { address, size }
                && address as int == (at.address + s.members@[length].offset) % space && size == width
            &&& value_outcome(elf, at, seq![Ok(count)], 0) matches Outcome::Read { address, size }
                && address as int == (at.address + s.members@[data].offset) % space && size == width
            &&& n > 0 && number(pointer) == 0 ==> value_outcome(
                elf,
                at,
                seq![Ok(count), Ok(pointer)],
                0,
            ) is Failed
            &&& n > 0 && number(pointer) > 0 ==> {
                &&& value_outcome(elf, at, seq![Ok(count), Ok(pointer)], 0) matches Outcome::Read {
                    address,
                    size,
                } && address == number(pointer) && size == (if n < 256 {
                    n as int
                } else {
                    256
                })
                &&& value_outcome(
                    elf,
                    at,
                    seq![Ok(count), Ok(pointer), Ok(bytes)],
                    0,
                ) matches Outcome::Shown(p) && p.active_variant is None && (n <= 256 ==> p.text
                    == debug_text(lossy_text(bytes))) && (n > 256 ==> p.text == debug_text(
                    lossy_text(bytes),
                ) + "… (truncated)"@)
            }
        }),
{
    lemma_word_fits(count);
    lemma_word_fits(pointer);
    reveal_strlit("&str");
    reveal_strlit("&mut str");
    reveal_strlit("&[");
    reveal_strlit("&mut [");
    lemma_first_is(s.members@, crate::wrappers::member_named("data_ptr"@), data);
    lemma_first_is(s.members@, crate::wrappers::member_named("length"@), length);
    let a1 = seq![Ok::<Seq<u8>, Seq<char>>(count)];
    let a2 = seq![Ok::<Seq<u8>, Seq<char>>(count), Ok(pointer)];
    let a3 = seq![Ok::<Seq<u8>, Seq<char>>(count), Ok(pointer), Ok(bytes)];
    assert(a1[0] == Ok::<Seq<u8>, Seq<char>>(count));
    assert(a2[0] == Ok::<Seq<u8>, Seq<char>>(count) && a2[1] == Ok::<Seq<u8>, Seq<char>>(pointer));
    assert(a3[0] == Ok::<Seq<u8>, Seq<char>>(count) && a3[1] == Ok::<Seq<u8>, Seq<char>>(pointer)
        && a3[2] == Ok::<Seq<u8>, Seq<char>>(bytes));
}

/// A character is shown with its number, four hexadecimal digits at least, behind
/// the character that has it; a number that is no character is refused.
pub proof fn lemma_characters_are_shown_with_their_number(
    elf: ElfInfo,
    at: ResolvedView,
    size: u64,
    bytes: Seq<u8>,
)
    requires
        plain_def(elf.types@.types, peeled(elf.types@.types, at.type_id)) == Some(
            TypeDef::Primitive(PrimitiveDef::UnicodeChar { size }),
        ),
        1 <= bytes.len() <= 8,
        size <= 8,
    ensures
        ({
            let n = if elf.is_little_endian {
                le_value(bytes)
            } else {
                be_value(bytes)
            };
            let shown = value_outcome(elf, at, seq![Ok(bytes)], 0);
            &&& value_outcome(elf, at, Seq::empty(), 0) matches Outcome::Read { address, size: s }
                && address == at.address && s == size
            &&& (n > 0x10_ffff || 0xd800 <= n <= 0xdfff) <==> shown is Failed
            &&& shown matches Outcome::Shown(p) ==> exists|c: char, digits: Seq<char>|
                p.text == #[trigger] debug_letter(c) + " (U+"@ + digits + ")"@ && c as nat == n
                    && #[trigger] numeral(digits, 16) == n && digits.len() >= 4
        }),
{
    lemma_word_fits(bytes);
    let n = if elf.is_little_endian {
        le_value(bytes)
    } else {
        be_value(bytes)
    };
    let list = seq![Ok::<Seq<u8>, Seq<char>>(bytes)];
    assert(list[0] == Ok::<Seq<u8>, Seq<char>>(bytes));
    lemma_hex_shows_the_number(n);
    if scalar_value(n as int) {
        let c = (n as u64) as u32 as char;
        assert(c as nat == n);
        assert(numeral(upper_hex4(n), 16) == n);
        let shown = value_outcome(elf, at, list, 0);
        assert(shown->Shown_0.text == debug_letter(c) + " (U+"@ + upper_hex4(n) + ")"@);
    }
}

/// An enumeration is read where it stands, with its size, and shown by the number
/// that was read. A slice is shown as the count that stands at its `length`.
pub proof fn lemma_enums_and_slices_are_read_where_they_stand(
    elf: ElfInfo,
    at: ResolvedView,
    bytes: Seq<u8>,
)
    requires
        1 <= bytes.len() <= 8,
    ensures
        ({
            let types = elf.types@.types;
            let n = if elf.is_little_endian {
                le_value(bytes)
            } else {
                be_value(bytes)
            };
            &&& plain_def(types, peeled(types, at.type_id)) matches Some(TypeDef::Enum(e)) ==> {
                &&& value_outcome(elf, at, Seq::empty(), 0) matches Outcome::Read { address, size }
                    && address == at.address && size == e.size as usize
                &&& value_outcome(elf, at, seq![Ok(bytes)], 0) matches Outcome::Shown(p) && p.text
                    == enum_preview(e, n as u64) && p.active_variant is None
            }
            &&& (sequence_of(types, at.type_id) matches Some(s) && !s.is_str) ==> {
                value_outcome(elf, at, seq![Ok(bytes)], 0) matches Outcome::Shown(p)
                    && p.active_variant is None && exists|digits: Seq<char>|
                    p.text == "["@ + digits + " elements]"@ && #[trigger] numeral(digits, 10) == n
            }
        }),
{
    lemma_word_fits(bytes);
    let n = if elf.is_little_endian {
        le_value(bytes)
    } else {
        be_value(bytes)
    };
    lemma_decimal_reads_back(n);
    let list = seq![Ok::<Seq<u8>, Seq<char>>(bytes)];
    assert(list[0] == Ok::<Seq<u8>, Seq<char>>(bytes));
    assert(numeral(decimal(n), 10) == n);
}

/// Answers that led to a value take no part in showing it: what follows them does.
pub proof fn lemma_earlier_answers_are_spent(
    elf: ElfInfo,
    at: ResolvedView,
    list: Seq<Result<Seq<u8>, Seq<char>>>,
    used: nat,
)
    requires
        used <= list.len(),
    ensures
        value_outcome(elf, at, list, used) == value_outcome(elf, at, list.skip(used as int), 0),
{
    let rest = list.skip(used as int);
    assert(used < list.len() ==> rest[0] == list[used as int]);
    assert(used + 1 < list.len() ==> rest[1] == list[used as int + 1]);
    assert(used + 2 < list.len() ==> rest[2] == list[used as int + 2]);
}

} // verus!
