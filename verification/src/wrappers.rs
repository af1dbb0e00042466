//! Wrappers that only hold one value, and other shapes the symbol tree
//! recognises in types and paths.

use vstd::prelude::*;
use vstd::string::*;
use crate::search::{first, lemma_first_is, lemma_first_none};
use crate::text::{chars_of, same_text, starts_with, trim_start};
#[allow(unused_imports)]
use crate::text::{begins_with, trimmed_start};
use crate::type_def::{MemberDef, StructDef, TypeDef, TypeId, VariantDef};
use crate::type_table::TypeTable;
#[allow(unused_imports)]
use crate::type_table::{def_in, size_of_type, underlying_at};

verus! {

/// Deepest a wrapper chain is followed, against a cyclic type table.
pub const MAX_WRAPPERS: usize = 16;

/// The definition behind a type's typedefs and qualifiers.
pub open spec fn plain_def(types: Seq<TypeDef>, id: TypeId) -> Option<TypeDef> {
    def_in(types, underlying_at(types, id, 0))
}

/// The struct or union with this id.
pub open spec fn record_of(types: Seq<TypeDef>, id: TypeId) -> Option<StructDef> {
    match plain_def(types, id) {
        Some(TypeDef::Struct(s)) => Some(s),
        Some(TypeDef::Union(s)) => Some(s),
        _ => None,
    }
}

/// Whether a member fills its whole struct.
pub open spec fn fills(types: Seq<TypeDef>, s: StructDef, m: MemberDef) -> bool {
    size_of_type(types, m.type_id) == Some(s.size) && m.offset == 0 && m.bit_size is None
}

/// Whether a member takes no space.
pub open spec fn zero_sized(types: Seq<TypeDef>, m: MemberDef) -> bool {
    size_of_type(types, m.type_id) == Some(0u64)
}

/// Whether member `i` is the one value that `s` holds: it fills the whole
/// struct, it is not zero-sized, and every other member is.
pub open spec fn holds_at(types: Seq<TypeDef>, s: StructDef, i: int) -> bool {
    &&& 0 <= i < s.members@.len()
    &&& !zero_sized(types, s.members@[i])
    &&& fills(types, s, s.members@[i])
    &&& forall|k: int|
        0 <= k < s.members@.len() && k != i ==> zero_sized(types, #[trigger] s.members@[k])
}

/// Whether a type is a wrapper around its member `i`. Tagged enums and types
/// with base classes are not wrappers.
pub open spec fn wraps_at(types: Seq<TypeDef>, id: TypeId, i: int) -> bool {
    record_of(types, id) matches Some(s) && s.variant_part is None && s.base_classes@.len() == 0
        && holds_at(types, s, i)
}

/// The type of the one value a wrapper holds.
pub open spec fn held_type(types: Seq<TypeDef>, id: TypeId) -> Option<TypeId> {
    if exists|i: int| wraps_at(types, id, i) {
        Some(record_of(types, id)->0.members@[choose|i: int| wraps_at(types, id, i)].type_id)
    } else {
        None
    }
}

proof fn lemma_held_type(types: Seq<TypeDef>, id: TypeId, i: int)
    requires
        wraps_at(types, id, i),
    ensures
        held_type(types, id) == Some(record_of(types, id)->0.members@[i].type_id),
{
    let k = choose|k: int| wraps_at(types, id, k);
    assert(wraps_at(types, id, k));
    assert(k == i);
}

/// The type of the one value a wrapper holds: its only member that is not
/// zero-sized, filling the whole wrapper. `Atomic<u32>.v`, `Mutex.data` (beside
/// a zero-sized `raw`), `MaybeUninit.value`.
pub fn held_member(table: &TypeTable, type_id: TypeId) -> (r: Option<TypeId>)
    ensures
        r == held_type(table@.types, type_id),
{
    let ghost types = table@.types;
    let s: &StructDef = match table.get(table.get_underlying(type_id)) {
        Some(TypeDef::Struct(s)) => s,
        Some(TypeDef::Union(s)) => s,
        _ => {
            return None;
        },
    };
    if s.variant_part.is_some() || s.base_classes.len() > 0 {
        return None;
    }
    let mut held: Option<usize> = None;
    let mut i: usize = 0;
    while i < s.members.len()
        invariant
            i <= s.members@.len(),
            types == table@.types,
            record_of(types, type_id) == Some(*s),
            s.variant_part is None,
            s.base_classes@.len() == 0,
            held matches Some(h) ==> {
                &&& h < i
                &&& !zero_sized(types, s.members@[h as int])
                &&& fills(types, *s, s.members@[h as int])
            },
            forall|k: int|
                0 <= k < i && held != Some(k as usize) ==> zero_sized(
                    types,
                    #[trigger] s.members@[k],
                ),
        decreases s.members@.len() - i,
    {
        let m: &MemberDef = &s.members[i];
        match table.type_size(m.type_id) {
            Some(0) => {},
            Some(size) => {
                if size == s.size && m.offset == 0 && m.bit_size.is_none() && held.is_none() {
                    held = Some(i);
                } else {
                    proof {
                        lemma_not_held(types, type_id, *s, i as int, held);
                    }
                    return None;
                }
            },
            None => {
                proof {
                    lemma_not_held(types, type_id, *s, i as int, held);
                }
                return None;
            },
        }
        i = i + 1;
    }
    match held {
        Some(h) => {
            proof {
                assert(wraps_at(types, type_id, h as int));
                lemma_held_type(types, type_id, h as int);
            }
            Some(s.members[h].type_id)
        },
        None => {
            assert forall|k: int| !wraps_at(types, type_id, k) by {
                if wraps_at(types, type_id, k) {
                    assert(zero_sized(types, s.members@[k]));
                }
            }
            None
        },
    }
}

/// A member that neither is zero-sized nor fills the struct alone means that
/// the struct is no wrapper.
proof fn lemma_not_held(
    types: Seq<TypeDef>,
    id: TypeId,
    s: StructDef,
    i: int,
    held: Option<usize>,
)
    requires
        record_of(types, id) == Some(s),
        0 <= i < s.members@.len(),
        !zero_sized(types, s.members@[i]),
        !fills(types, s, s.members@[i]) || held is Some,
        held matches Some(h) ==> h < i && !zero_sized(types, s.members@[h as int]),
    ensures
        held_type(types, id) is None,
{
    assert forall|k: int| !wraps_at(types, id, k) by {
        if wraps_at(types, id, k) {
            assert(zero_sized(types, s.members@[i]) || k == i);
            if held is Some {
                assert(zero_sized(types, s.members@[held->0 as int]) || k == held->0);
            }
        }
    }
}

/// A type, then each type it wraps, outermost first, at most `n` layers.
pub open spec fn wrapped(types: Seq<TypeDef>, id: TypeId, n: nat) -> Seq<TypeId>
    decreases n,
{
    if n == 0 || held_type(types, id) is None {
        seq![id]
    } else {
        seq![id] + wrapped(types, held_type(types, id)->0, (n - 1) as nat)
    }
}

/// A type, then each type it wraps, outermost first.
pub open spec fn chain_of(types: Seq<TypeDef>, id: TypeId) -> Seq<TypeId> {
    wrapped(types, id, MAX_WRAPPERS as nat)
}

/// The value inside every wrapper around a type.
pub open spec fn peeled(types: Seq<TypeDef>, id: TypeId) -> TypeId {
    chain_of(types, id).last()
}

/// A chain holds at least the type itself.
pub proof fn lemma_chain_not_empty(types: Seq<TypeDef>, id: TypeId, n: nat)
    ensures
        wrapped(types, id, n).len() >= 1,
        wrapped(types, id, n).len() <= n + 1,
        wrapped(types, id, n)[0] == id,
    decreases n,
{
    if n > 0 && held_type(types, id) is Some {
        lemma_chain_not_empty(types, held_type(types, id)->0, (n - 1) as nat);
    }
}

/// `type_id`, then each type it wraps, outermost first.
pub fn wrapper_chain(table: &TypeTable, type_id: TypeId) -> (r: Vec<TypeId>)
    ensures
        r@ == chain_of(table@.types, type_id),
        1 <= r@.len() <= MAX_WRAPPERS + 1,
{
    let ghost types = table@.types;
    let mut chain: Vec<TypeId> = Vec::new();
    chain.push(type_id);
    let mut last: TypeId = type_id;
    proof {
        lemma_chain_not_empty(types, type_id, MAX_WRAPPERS as nat);
        assert(chain@.drop_last() + wrapped(types, last, MAX_WRAPPERS as nat) =~= chain_of(
            types,
            type_id,
        ));
    }
    while chain.len() <= MAX_WRAPPERS
        invariant
            1 <= chain@.len() <= MAX_WRAPPERS + 1,
            types == table@.types,
            last == chain@.last(),
            chain@.drop_last() + wrapped(
                types,
                last,
                (MAX_WRAPPERS + 1 - chain@.len()) as nat,
            ) == chain_of(types, type_id),
        ensures
            chain@ == chain_of(types, type_id),
        decreases MAX_WRAPPERS + 1 - chain@.len(),
    {
        let ghost n = (MAX_WRAPPERS + 1 - chain@.len()) as nat;
        match held_member(table, last) {
            Some(held) => {
                let ghost before = chain@;
                chain.push(held);
                proof {
                    assert(chain@.drop_last() =~= before);
                    assert(before =~= before.drop_last() + seq![before.last()]);
                    assert(before + wrapped(types, held, (n - 1) as nat) =~= before.drop_last()
                        + wrapped(types, last, n));
                }
                last = held;
            },
            None => {
                proof {
                    assert(chain@ =~= chain@.drop_last() + seq![last]);
                }
                break;
            },
        }
    }
    proof {
        if chain@.len() == MAX_WRAPPERS + 1 {
            assert(chain@ =~= chain@.drop_last() + seq![last]);
        }
    }
    chain
}

/// The value inside every wrapper around `type_id`.
pub fn peel(table: &TypeTable, type_id: TypeId) -> (r: TypeId)
    ensures
        r == peeled(table@.types, type_id),
{
    let chain: Vec<TypeId> = wrapper_chain(table, type_id);
    chain[chain.len() - 1]
}

/// Picks the member with this name.
pub open spec fn member_named(name: Seq<char>) -> spec_fn(MemberDef) -> bool {
    |m: MemberDef| m.name@ == name
}

/// Where the member with this name stands.
pub fn find_member(members: &[MemberDef], name: &str) -> (r: Option<usize>)
    ensures
        first(members@, member_named(name@)) == (match r {
            Some(i) => Some(i as int),
            None => None,
        }),
        r matches Some(i) ==> i < members@.len(),
{
    let mut i: usize = 0;
    while i < members.len()
        invariant
            i <= members@.len(),
            forall|k: int| 0 <= k < i ==> !member_named(name@)(#[trigger] members@[k]),
        decreases members@.len() - i,
    {
        if same_text(members[i].name.as_str(), name) {
            proof {
                lemma_first_is(members@, member_named(name@), i as int);
            }
            return Some(i);
        }
        i = i + 1;
    }
    proof {
        lemma_first_none(members@, member_named(name@));
    }
    None
}

/// Picks the variant with this name.
pub open spec fn variant_named(name: Seq<char>) -> spec_fn(VariantDef) -> bool {
    |v: VariantDef| v.member.name@ == name
}

/// Where the variant with this name stands.
pub fn find_variant(variants: &[VariantDef], name: &str) -> (r: Option<usize>)
    ensures
        first(variants@, variant_named(name@)) == (match r {
            Some(i) => Some(i as int),
            None => None,
        }),
        r matches Some(i) ==> i < variants@.len(),
{
    let mut i: usize = 0;
    while i < variants.len()
        invariant
            i <= variants@.len(),
            forall|k: int| 0 <= k < i ==> !variant_named(name@)(#[trigger] variants@[k]),
        decreases variants@.len() - i,
    {
        if same_text(variants[i].member.name.as_str(), name) {
            proof {
                lemma_first_is(variants@, variant_named(name@), i as int);
            }
            return Some(i);
        }
        i = i + 1;
    }
    proof {
        lemma_first_none(variants@, variant_named(name@));
    }
    None
}

/// A borrowed `str` or slice: where its pointer and length stand, what it
/// points to, and whether it is a `str`.
#[derive(Copy, Clone, Debug)]
pub struct Sequence {
    pub data_offset: u64,
    pub length_offset: u64,
    pub element: TypeId,
    pub is_str: bool,
}

/// The name of a borrowed `str`.
pub open spec fn str_name(name: Seq<char>) -> bool {
    name == "&str"@ || name == "&mut str"@
}

/// The name of a borrowed slice.
pub open spec fn slice_name(name: Seq<char>) -> bool {
    begins_with(name, "&["@) || begins_with(name, "&mut ["@)
}

/// Only genuine Rust borrowed str/slice DWARF layouts, not arbitrary structs.
pub open spec fn sequence_of(types: Seq<TypeDef>, outer: TypeId) -> Option<Sequence> {
    match plain_def(types, peeled(types, outer)) {
        Some(TypeDef::Struct(s)) => match s.name {
            None => None,
            Some(name) => {
                let data = first(s.members@, member_named("data_ptr"@));
                let length = first(s.members@, member_named("length"@));
                if (str_name(name@) || slice_name(name@)) && data is Some && length is Some {
                    match plain_def(types, s.members@[data->0].type_id) {
                        Some(TypeDef::Pointer(element)) => Some(
                            Sequence {
                                data_offset: s.members@[data->0].offset,
                                length_offset: s.members@[length->0].offset,
                                element,
                                is_str: str_name(name@),
                            },
                        ),
                        _ => None,
                    }
                } else {
                    None
                }
            },
        },
        _ => None,
    }
}

/// Recognize only genuine Rust borrowed str/slice DWARF layouts, not arbitrary structs.
pub fn sequence(table: &TypeTable, outer: TypeId) -> (r: Option<Sequence>)
    ensures
        r == sequence_of(table@.types, outer),
{
    let s: &StructDef = match table.get(table.get_underlying(peel(table, outer))) {
        Some(TypeDef::Struct(s)) => s,
        _ => {
            return None;
        },
    };
    let name: &str = match &s.name {
        Some(name) => name.as_str(),
        None => {
            return None;
        },
    };
    let is_str: bool = same_text(name, "&str") || same_text(name, "&mut str");
    if !is_str && !(starts_with(name, "&[") || starts_with(name, "&mut [")) {
        return None;
    }
    let data: usize = match find_member(s.members.as_slice(), "data_ptr") {
        Some(i) => i,
        None => {
            return None;
        },
    };
    let length: usize = match find_member(s.members.as_slice(), "length") {
        Some(i) => i,
        None => {
            return None;
        },
    };
    match table.get(table.get_underlying(s.members[data].type_id)) {
        Some(TypeDef::Pointer(element)) => Some(
            Sequence {
                data_offset: s.members[data].offset,
                length_offset: s.members[length].offset,
                element: *element,
                is_str,
            },
        ),
        _ => None,
    }
}

/// How a character changes the nesting of brackets.
pub open spec fn nesting(c: char) -> int {
    if c == '<' || c == '(' || c == '[' {
        1
    } else if c == '>' || c == ')' || c == ']' {
        -1
    } else {
        0
    }
}

/// Whether `::` stands at `i`.
pub open spec fn separator_at(s: Seq<char>, i: int) -> bool {
    i + 1 < s.len() && s[i] == ':' && s[i + 1] == ':'
}

/// The segments of a path from `i` on, where the current one began at `start`
/// and `depth` brackets are open.
pub open spec fn segments_from(s: Seq<char>, i: int, start: int, depth: int) -> Seq<Seq<char>>
    decreases s.len() - i,
{
    if i >= s.len() || i < 0 {
        seq![s.skip(start)]
    } else if depth == 0 && separator_at(s, i) {
        seq![s.subrange(start, i)] + segments_from(s, i + 2, i + 2, depth)
    } else {
        segments_from(s, i + 1, start, depth + nesting(s[i]))
    }
}

/// The segments of a path: its parts between `::` outside brackets.
pub open spec fn segments_of(s: Seq<char>) -> Seq<Seq<char>> {
    segments_from(s, 0, 0, 0)
}

/// Segments with `::` between them.
pub open spec fn joined(segments: Seq<Seq<char>>) -> Seq<char>
    decreases segments.len(),
{
    if segments.len() == 0 {
        Seq::empty()
    } else if segments.len() == 1 {
        segments[0]
    } else {
        segments[0] + seq![':', ':'] + joined(segments.skip(1))
    }
}

proof fn lemma_segments_join(s: Seq<char>, i: int, start: int, depth: int)
    requires
        0 <= start <= i <= s.len(),
    ensures
        segments_from(s, i, start, depth).len() >= 1,
        joined(segments_from(s, i, start, depth)) == s.skip(start),
    decreases s.len() - i,
{
    let segments = segments_from(s, i, start, depth);
    if i >= s.len() {
    } else if depth == 0 && separator_at(s, i) {
        let rest = segments_from(s, i + 2, i + 2, depth);
        lemma_segments_join(s, i + 2, i + 2, depth);
        assert(segments.skip(1) =~= rest);
        assert(joined(segments) =~= s.skip(start));
    } else {
        lemma_segments_join(s, i + 1, start, depth + nesting(s[i]));
    }
}

/// A path's segments with `::` between them are the path.
pub proof fn lemma_segments_make_the_path(s: Seq<char>)
    ensures
        joined(segments_of(s)) == s,
{
    lemma_segments_join(s, 0, 0, 0);
    assert(s.skip(0) =~= s);
}

/// How many brackets are open before place `i` of a path.
pub open spec fn depth_at(s: Seq<char>, i: int) -> int
    decreases i,
{
    if i <= 0 {
        0
    } else {
        depth_at(s, i - 1) + nesting(s[i - 1])
    }
}

/// Whether a `::` outside brackets stands at place `i` of a path.
pub open spec fn cut_at(s: Seq<char>, i: int) -> bool {
    separator_at(s, i) && depth_at(s, i) == 0
}

/// Whether these are the segments of a path from `start` on: each goes from where
/// it starts to the next `::` outside brackets, with none in it, and the last to
/// the end.
pub open spec fn cut_right(s: Seq<char>, start: int, segments: Seq<Seq<char>>) -> bool
    decreases segments.len(),
{
    if segments.len() == 0 {
        false
    } else {
        let end = start + segments[0].len();
        &&& end <= s.len()
        &&& segments[0] == s.subrange(start, end)
        &&& forall|i: int| start <= i < end ==> !#[trigger] cut_at(s, i)
        &&& if segments.len() == 1 {
            end == s.len()
        } else {
            cut_at(s, end) && cut_right(s, end + 2, segments.skip(1))
        }
    }
}

proof fn lemma_segments_cut(s: Seq<char>, i: int, start: int, depth: int)
    requires
        0 <= start <= i <= s.len(),
        depth == depth_at(s, i),
        forall|k: int| start <= k < i ==> !#[trigger] cut_at(s, k),
    ensures
        cut_right(s, start, segments_from(s, i, start, depth)),
    decreases s.len() - i,
{
    let segments = segments_from(s, i, start, depth);
    if i >= s.len() {
        assert(s.skip(start) =~= s.subrange(start, s.len() as int));
    } else if depth == 0 && separator_at(s, i) {
        let rest = segments_from(s, i + 2, i + 2, depth);
        assert(depth_at(s, i + 1) == depth_at(s, i) + nesting(s[i]));
        assert(depth_at(s, i + 2) == depth_at(s, i + 1) + nesting(s[i + 1]));
        lemma_segments_cut(s, i + 2, i + 2, depth);
        lemma_segments_join(s, i + 2, i + 2, depth);
        assert(segments.skip(1) =~= rest);
        assert(segments[0] == s.subrange(start, i));
        assert(cut_at(s, i));
    } else {
        assert(!cut_at(s, i));
        lemma_segments_cut(s, i + 1, start, depth + nesting(s[i]));
    }
}

/// A path has at least one segment, its segments with `::` between them are the
/// path, and it is cut at every `::` outside brackets and at none inside.
pub proof fn lemma_path_is_cut_outside_brackets(s: Seq<char>)
    ensures
        segments_of(s).len() >= 1,
        joined(segments_of(s)) == s,
        cut_right(s, 0, segments_of(s)),
{
    lemma_segments_join(s, 0, 0, 0);
    lemma_segments_make_the_path(s);
    lemma_segments_cut(s, 0, 0, 0);
}

/// The contents of a list of texts.
pub open spec fn texts(list: Seq<String>) -> Seq<Seq<char>> {
    Seq::new(list.len(), |i: int| list[i]@)
}

/// Split a demangled path on `::` outside `<...>`, `(...)` and `[...]`.
pub fn split_path(path: &str) -> (r: Vec<String>)
    ensures
        texts(r@) == segments_of(path@),
        r@.len() >= 1,
{
    let chars: Vec<char> = chars_of(path);
    let ghost s = path@;
    let mut segments: Vec<String> = Vec::new();
    let mut depth: i128 = 0;
    let mut start: usize = 0;
    let mut i: usize = 0;
    assert(texts(segments@) + segments_from(s, 0, 0, 0) =~= segments_of(s));
    while i < chars.len()
        invariant
            chars@ == s,
            s == path@,
            start <= i <= s.len(),
            -i <= depth <= i,
            texts(segments@) + segments_from(s, i as int, start as int, depth as int)
                == segments_of(s),
        decreases s.len() - i,
    {
        let c: char = chars[i];
        if c == ':' && depth == 0 && i + 1 < chars.len() && chars[i + 1] == ':' {
            let segment: String = path.substring_char(start, i).to_owned();
            let ghost before = texts(segments@);
            let ghost rest = segments_from(s, i + 2, i + 2, depth as int);
            segments.push(segment);
            proof {
                assert(texts(segments@) =~= before.push(s.subrange(start as int, i as int)));
                assert(texts(segments@) + rest =~= before + (seq![
                    s.subrange(start as int, i as int),
                ] + rest));
            }
            i = i + 2;
            start = i;
            continue;
        }
        if c == '<' || c == '(' || c == '[' {
            depth = depth + 1;
        } else if c == '>' || c == ')' || c == ']' {
            depth = depth - 1;
        }
        i = i + 1;
    }
    let segment: String = path.substring_char(start, chars.len()).to_owned();
    let ghost before = texts(segments@);
    segments.push(segment);
    proof {
        assert(s.subrange(start as int, s.len() as int) =~= s.skip(start as int));
        assert(texts(segments@) =~= before + seq![s.skip(start as int)]);
    }
    segments
}

/// Whether a text is all decimal digits.
pub open spec fn all_digits(s: Seq<char>) -> bool {
    forall|i: int| 0 <= i < s.len() ==> '0' <= #[trigger] s[i] <= '9'
}

fn is_number(s: &str) -> (r: bool)
    ensures
        r == all_digits(s@),
{
    let chars: Vec<char> = chars_of(s);
    let mut i: usize = 0;
    while i < chars.len()
        invariant
            i <= chars@.len(),
            chars@ == s@,
            forall|k: int| 0 <= k < i ==> '0' <= #[trigger] s@[k] <= '9',
        decreases chars@.len() - i,
    {
        if chars[i] < '0' || chars[i] > '9' {
            return false;
        }
        i = i + 1;
    }
    true
}

/// A variant's name. Coroutine variants are members named by number (`3`)
/// with a payload type named after the state (`…::Suspend0`).
pub open spec fn variant_label_of(types: Seq<TypeDef>, v: VariantDef) -> Seq<char> {
    if !all_digits(v.member.name@) {
        v.member.name@
    } else {
        match plain_def(types, v.member.type_id) {
            Some(def) => match def.spec_name() {
                Some(payload) => segments_of(payload).last(),
                None => v.member.name@,
            },
            None => v.member.name@,
        }
    }
}

/// A variant's name.
pub fn variant_label(table: &TypeTable, v: &VariantDef) -> (r: String)
    ensures
        r@ == variant_label_of(table@.types, *v),
{
    if !is_number(v.member.name.as_str()) {
        return v.member.name.clone();
    }
    match table.get(table.get_underlying(v.member.type_id)) {
        Some(def) => match def.name() {
            Some(payload) => {
                let segments: Vec<String> = split_path(payload);
                let last: usize = segments.len() - 1;
                assert(texts(segments@).last() == segments@[last as int]@);
                segments[last].clone()
            },
            None => v.member.name.clone(),
        },
        None => v.member.name.clone(),
    }
}

/// Task storage, cells handing out buffers once, RTT, and runtime crates' own
/// statics. Judged by the outer type name, before wrappers are shown through.
pub open spec fn internal(path: Seq<char>, section: Seq<char>, outer: Seq<char>) -> bool {
    let krate = trimmed_start(path, '<');
    ||| section == ".rtt"@
    ||| path == "_SEGGER_RTT"@
    ||| begins_with(outer, "TaskPoolHolder<"@)
    ||| begins_with(outer, "StaticCell<"@)
    ||| begins_with(krate, "embassy_"@)
    ||| begins_with(krate, "defmt"@)
    ||| begins_with(krate, "rtt_target"@)
    ||| begins_with(krate, "cortex_m"@)
    ||| begins_with(krate, "critical_section"@)
    ||| begins_with(krate, "static_cell"@)
}

/// Whether a static is runtime plumbing rather than application state.
pub fn is_internal(path: &str, section: &str, outer: &str) -> (r: bool)
    ensures
        r == internal(path@, section@, outer@),
{
    let krate: &str = trim_start(path, '<');
    same_text(section, ".rtt") || same_text(path, "_SEGGER_RTT") || starts_with(
        outer,
        "TaskPoolHolder<",
    ) || starts_with(outer, "StaticCell<") || starts_with(krate, "embassy_") || starts_with(
        krate,
        "defmt",
    ) || starts_with(krate, "rtt_target") || starts_with(krate, "cortex_m") || starts_with(
        krate,
        "critical_section",
    ) || starts_with(krate, "static_cell")
}

} // verus!
