//! What a host sees of values in target memory: where they lie, which bytes are
//! theirs, and how samples of them are written down.

use vstd::prelude::*;
use vstd::string::*;
use crate::catalog::ReadItem;
use crate::elf::{ElfInfo, SymbolInfo};
use crate::node_ref::{NodeView, StepView};
use crate::preview::only_member;
use crate::search::{lemma_first_is, lemma_first_none};
use crate::server_laws::word64;
use crate::session::exact_text;
use crate::stream::{column, json_text, samples_shown, shown_columns, shown_number, shown_numbers};
use crate::text::{
    decimal, lemma_decimal_reads_back, lemma_signed_decimal_reads_back, lemma_split_appends,
    lemma_split_has_a_part, numeral, split_at,
};
use crate::tree::{
    entered, pointer_entered, resolution, slice_entered, task_entered, ResolvedView, SourceView,
    WalkView,
};
use crate::type_def::{StructDef, TypeDef, TypeId, VariantPart};
use crate::type_table::{def_in, resolved, size_in, size_of_type};
use crate::values::covering;
use crate::wrappers::{member_named, peeled, plain_def, sequence_of, variant_named, Sequence};

verus! {

/// An element of an array lies so many elements behind its start, and has the
/// array's element type; one past the end is refused.
pub proof fn lemma_elements_lie_one_behind_another(
    types: Seq<TypeDef>,
    id: TypeId,
    address: u64,
    element: TypeId,
    n: u64,
    size: u64,
    i: u64,
)
    requires
        plain_def(types, id) == Some(TypeDef::Array { element, count: Some(n) }),
        size_of_type(types, element) == Some(size),
        address + n * size <= u64::MAX,
    ensures
        i < n <==> entered(types, id, address, StepView::Index(i)) is Ok,
        entered(types, id, address, StepView::Index(i)) matches Ok(at) ==> {
            &&& at.address == address + i * size
            &&& at.type_id == element
            &&& at.bit_offset is None && at.bit_size is None && at.discr_value is None
            &&& exists|digits: Seq<char>|
                at.label == "["@ + digits + "]"@ && #[trigger] numeral(digits, 10) == i
        },
{
    lemma_decimal_reads_back(i as nat);
    if i < n {
        assert(i * size <= n * size) by (nonlinear_arith)
            requires
                i < n,
        ;
        assert(numeral(decimal(i as nat), 10) == i);
    }
}

/// A member lies at its offset in the struct or union that has it, under its name,
/// with its type and its bits; a name that no member has is refused.
pub proof fn lemma_members_lie_at_their_offsets(
    types: Seq<TypeDef>,
    id: TypeId,
    address: u64,
    s: StructDef,
    k: int,
    name: Seq<char>,
)
    requires
        plain_def(types, id) == Some(TypeDef::Struct(s)) || plain_def(types, id) == Some(
            TypeDef::Union(s),
        ),
    ensures
        ({
            let got = entered(types, id, address, StepView::Member(name));
            &&& only_member(s.members@, k, name) && address + s.members@[k].offset <= u64::MAX ==> (
            got matches Ok(at) && {
                &&& at.address == address + s.members@[k].offset
                &&& at.type_id == s.members@[k].type_id
                &&& at.label == name
                &&& at.bit_offset == s.members@[k].bit_offset
                &&& at.bit_size == s.members@[k].bit_size
            })
            &&& (forall|j: int|
                0 <= j < s.members@.len() ==> (#[trigger] s.members@[j]).name@ != name) ==> got is Err
            &&& only_member(s.members@, k, name) && address + s.members@[k].offset > u64::MAX
                ==> got is Err
        }),
{
    if only_member(s.members@, k, name) {
        lemma_first_is(s.members@, member_named(name), k);
    }
    if forall|j: int| 0 <= j < s.members@.len() ==> (#[trigger] s.members@[j]).name@ != name {
        lemma_first_none(s.members@, member_named(name));
    }
}

/// The payload of a variant lies at the variant's own offset, with its type and the
/// number that selects it; the discriminant lies at its own.
pub proof fn lemma_payloads_lie_at_their_offsets(
    types: Seq<TypeDef>,
    id: TypeId,
    address: u64,
    s: StructDef,
    part: VariantPart,
    k: int,
    name: Seq<char>,
)
    requires
        plain_def(types, id) == Some(TypeDef::Struct(s)),
        s.variant_part == Some(part),
        0 <= k < part.variants@.len(),
        part.variants@[k].member.name@ == name,
        forall|j: int|
            0 <= j < part.variants@.len() && j != k ==> (#[trigger] part.variants@[j]).member.name@
                != name,
        address + part.variants@[k].member.offset <= u64::MAX,
    ensures
        entered(types, id, address, StepView::Variant(name)) matches Ok(at) && at.address == address
            + part.variants@[k].member.offset && at.type_id == part.variants@[k].member.type_id
            && at.discr_value == part.variants@[k].discr_value && at.label == name,
        part.discriminant matches Some(d) ==> (address + d.offset <= u64::MAX ==> (entered(
            types,
            id,
            address,
            StepView::Discriminant,
        ) matches Ok(at) && at.address == address + d.offset && at.type_id == d.type_id
            && at.discr_value is None)),
{
    assert(variant_named(name)(part.variants@[k]));
    assert forall|j: int| 0 <= j < k implies !variant_named(name)(#[trigger] part.variants@[j]) by {}
    lemma_first_is(part.variants@, variant_named(name), k);
}

/// What a pointer points to lies where the word in it says, and has the type that it
/// points to. The word is read where the pointer lies, as wide as pointers are. A
/// null pointer of a live target leads nowhere.
pub proof fn lemma_pointers_lead_where_they_point(
    elf: ElfInfo,
    sym: SymbolInfo,
    at: ResolvedView,
    inner: TypeId,
    word: u64,
    node: NodeView,
    live: bool,
)
    requires
        sym.status.spec_is_readable(),
        plain_def(elf.types@.types, peeled(elf.types@.types, at.type_id)) == Some(
            TypeDef::Pointer(inner),
        ),
    ensures
        pointer_entered(elf, sym, at, node, SourceView::Answers(Seq::empty()), 0, live)
            == (WalkView::Read {
            address: at.address,
            size: if elf.is_64bit {
                8
            } else {
                4
            },
        }),
        !live || word != 0 ==> (pointer_entered(
            elf,
            sym,
            at,
            node,
            SourceView::Answers(seq![Ok(word)]),
            0,
            live,
        ) matches WalkView::At(to, used) && to.address == word && to.type_id == inner && used == 1),
        live && word == 0 ==> pointer_entered(
            elf,
            sym,
            at,
            node,
            SourceView::Answers(seq![Ok(word)]),
            0,
            live,
        ) is Failed,
{
    assert(seq![Ok::<u64, Seq<char>>(word)][0] == Ok::<u64, Seq<char>>(word));
}

/// An element of a slice lies so many elements behind where the slice's pointer
/// leads. The length is read before the pointer, each where its member lies, and an
/// index past the length of a live target leads nowhere.
pub proof fn lemma_slice_elements_lie_behind_the_pointer(
    elf: ElfInfo,
    at: ResolvedView,
    s: Sequence,
    size: u64,
    i: u64,
    length: u64,
    pointer: u64,
    node: NodeView,
)
    requires
        sequence_of(elf.types@.types, at.type_id) == Some(s),
        size_of_type(elf.types@.types, s.element) == Some(size),
        pointer + i * size <= u64::MAX,
    ensures
        ({
            let none = SourceView::Answers(Seq::empty());
            let one = SourceView::Answers(seq![Ok(length)]);
            let two = SourceView::Answers(seq![Ok(length), Ok(pointer)]);
            let space = 0x1_0000_0000_0000_0000int;
            let width: usize = if elf.is_64bit {
                8
            } else {
                4
            };
            &&& slice_entered(elf, at, i, node, none, 0, true) matches WalkView::Read { address, size: w }
                && address as int == (at.address + s.length_offset) % space && w == width
            &&& i >= length ==> slice_entered(elf, at, i, node, one, 0, true) is Failed
            &&& i < length ==> (slice_entered(elf, at, i, node, one, 0, true) matches WalkView::Read {
                address,
                size: w,
            } && address as int == (at.address + s.data_offset) % space && w == width)
            &&& i < length && pointer != 0 ==> (slice_entered(elf, at, i, node, two, 0, true) matches WalkView::At(
                to,
                used,
            ) && to.address == pointer + i * size && to.type_id == s.element && used == 2)
            &&& i < length && pointer == 0 ==> slice_entered(elf, at, i, node, two, 0, true) is Failed
        }),
{
    let one = seq![Ok::<u64, Seq<char>>(length)];
    let two = seq![Ok::<u64, Seq<char>>(length), Ok(pointer)];
    assert(one[0] == Ok::<u64, Seq<char>>(length));
    assert(two[0] == Ok::<u64, Seq<char>>(length) && two[1] == Ok::<u64, Seq<char>>(pointer));
    assert(i * size <= u64::MAX) by (nonlinear_arith)
        requires
            pointer + i * size <= u64::MAX,
    ;
}

/// A task's slot lies so many slots behind the start of its pool, with the task's
/// type; a slot that the pool does not have leads nowhere.
pub proof fn lemma_task_slots_lie_one_behind_another(
    sym: SymbolInfo,
    node: NodeView,
    slot: u64,
    used: nat,
)
    requires
        node.steps.len() == 0,
        sym.task_storage matches Some(storage) && sym.address + slot * storage.size <= u64::MAX,
    ensures
        sym.task_storage matches Some(storage) && {
            &&& slot < storage.slots <==> task_entered(sym, node, slot, used) is At
            &&& task_entered(sym, node, slot, used) matches WalkView::At(at, n) ==> at.address
                == sym.address + slot * storage.size && at.type_id == storage.type_id && n == used
        },
{
    let storage = sym.task_storage->0;
    assert(slot * storage.size <= u64::MAX) by (nonlinear_arith)
        requires
            sym.address + slot * storage.size <= u64::MAX,
    ;
}

/// A symbol's own node is the symbol: its address and its type, found by its path.
pub proof fn lemma_a_symbol_lies_at_its_address(elf: ElfInfo, k: int, src: SourceView, live: bool)
    requires
        0 <= k < elf.symbols@.len(),
        forall|j: int|
            0 <= j < k ==> (#[trigger] elf.symbols@[j]).demangled_name@
                != elf.symbols@[k].demangled_name@,
        elf.symbols@[k].type_id is Some,
        elf.symbols@[k].status.spec_is_readable(),
    ensures
        resolution(
            elf,
            NodeView { symbol: elf.symbols@[k].demangled_name@, steps: Seq::empty() },
            src,
            live,
        ) matches WalkView::At(at, used) && at.address == elf.symbols@[k].address && at.type_id
            == elf.symbols@[k].type_id->0 && used == 0 && at.label == elf.symbols@[k].display_name@,
{
    lemma_first_is(
        elf.symbols@,
        crate::elf::symbol_named(elf.symbols@[k].demangled_name@),
        k,
    );
}

/// How many bytes a type takes: an array as many times its element as it has
/// elements, a struct, union or enum what its definition says, and a pointer four.
pub proof fn lemma_sizes_add_up(types: Seq<TypeDef>, id: TypeId, n: nat)
    requires
        n > 0,
    ensures
        match def_in(types, resolved(types, id)) {
            Some(TypeDef::Array { element, count: Some(count) }) => size_in(
                types,
                element,
                (n - 1) as nat,
            ) matches Some(size) ==> (count * size <= u64::MAX ==> (size_in(types, id, n) matches Some(
                whole,
            ) && whole == count * size)),
            Some(TypeDef::Struct(s)) => size_in(types, id, n) == Some(s.size),
            Some(TypeDef::Union(s)) => size_in(types, id, n) == Some(s.size),
            Some(TypeDef::Enum(e)) => size_in(types, id, n) == Some(e.size),
            Some(TypeDef::Primitive(p)) => size_in(types, id, n) == Some(p.spec_size()),
            Some(TypeDef::Pointer(_)) => size_in(types, id, n) == Some(4u64),
            Some(TypeDef::Reference(_)) => size_in(types, id, n) == Some(4u64),
            Some(TypeDef::Typedef { underlying, .. }) => size_in(types, id, n) == size_in(
                types,
                underlying,
                (n - 1) as nat,
            ),
            Some(TypeDef::Const(inner)) => size_in(types, id, n) == size_in(
                types,
                inner,
                (n - 1) as nat,
            ),
            Some(TypeDef::Volatile(inner)) => size_in(types, id, n) == size_in(
                types,
                inner,
                (n - 1) as nat,
            ),
            _ => true,
        },
{
    if let Some(TypeDef::Array { element, count: Some(count) }) = def_in(
        types,
        resolved(types, id),
    ) {
        if let Some(size) = size_in(types, element, (n - 1) as nat) {
            assert(count * size == size * count) by (nonlinear_arith);
        }
    }
}

/// Whether block `i` of a read holds a span of memory.
pub open spec fn block_holds(regions: Seq<u64>, blocks: Seq<Seq<u8>>, i: int, address: u64, len: u64) -> bool {
    0 <= i < regions.len() && i < blocks.len() && regions[i] <= address && address + len
        <= regions[i] + blocks[i].len()
}

/// The bytes of a value are those that memory held at its address: they come from a
/// block that covers them, from as far into it as the value lies behind the block's
/// start. There are none only where no block covers them all.
pub proof fn lemma_spans_are_the_bytes_at_their_address(
    regions: Seq<u64>,
    blocks: Seq<Seq<u8>>,
    address: u64,
    len: u64,
)
    ensures
        covering(regions, blocks, address, len, 0) is Some <==> exists|i: int| #[trigger]
            block_holds(regions, blocks, i, address, len),
        covering(regions, blocks, address, len, 0) matches Some(bytes) ==> bytes.len() == len
            && exists|i: int| #[trigger]
            block_holds(regions, blocks, i, address, len) && forall|j: int|
                0 <= j < len ==> #[trigger] bytes[j] == blocks[i][address - regions[i] + j],
{
    lemma_covering(regions, blocks, address, len, 0);
}

proof fn lemma_covering(
    regions: Seq<u64>,
    blocks: Seq<Seq<u8>>,
    address: u64,
    len: u64,
    n: nat,
)
    ensures
        covering(regions, blocks, address, len, n) is Some <==> exists|i: int|
            i >= n && #[trigger] block_holds(regions, blocks, i, address, len),
        covering(regions, blocks, address, len, n) matches Some(bytes) ==> bytes.len() == len
            && exists|i: int| #[trigger]
            block_holds(regions, blocks, i, address, len) && forall|j: int|
                0 <= j < len ==> #[trigger] bytes[j] == blocks[i][address - regions[i] + j],
    decreases regions.len() - n,
{
    if n < regions.len() && n < blocks.len() {
        assert(block_holds(regions, blocks, n as int, address, len) <==> crate::values::covers(
            regions[n as int],
            blocks[n as int],
            address,
            len,
        ));
        if !crate::values::covers(regions[n as int], blocks[n as int], address, len) {
            lemma_covering(regions, blocks, address, len, n + 1);
        }
    }
}

/// A whole 64-bit integer is also written out, digit by digit, as the number that
/// its bytes hold, the least significant first; nothing else is.
pub proof fn lemma_long_integers_are_written_out(item: ReadItem, bytes: Seq<u8>)
    ensures
        exact_text(item, bytes) is Some <==> bytes.len() == 8 && item.bit_size is None
            && item.bit_offset is None && (item.scalar is U64 || item.scalar is I64),
        exact_text(item, bytes) matches Some(text) ==> {
            let n = word64(bytes, 0);
            let negative = item.scalar is I64 && n >= 0x8000_0000_0000_0000;
            &&& !negative ==> numeral(text, 10) == n
            &&& negative ==> text[0] == '-' && numeral(text.skip(1), 10) == 0x1_0000_0000_0000_0000
                - n
        },
{
    if let Some(text) = exact_text(item, bytes) {
        let n = crate::bytes::u64_at(bytes, 0);
        assert(n == word64(bytes, 0));
        assert(n < 0x8000_0000_0000_0000 ==> n as i64 == n) by (bit_vector);
        assert(n >= 0x8000_0000_0000_0000 ==> n as i64 == n - 0x1_0000_0000_0000_0000) by (bit_vector);
        lemma_decimal_reads_back(n as nat);
        lemma_signed_decimal_reads_back((n as i64) as int);
    }
}

/// Numbers in a row are told apart by the commas between them.
proof fn lemma_numbers_are_separated(list: Seq<Option<Seq<char>>>)
    requires
        list.len() > 0,
        forall|i: int|
            0 <= i < list.len() ==> ((#[trigger] list[i]) matches Some(text) ==> !text.contains(
                ',',
            )),
    ensures
        split_at(shown_numbers(list), ',').len() == list.len(),
        forall|i: int|
            0 <= i < list.len() ==> #[trigger] split_at(shown_numbers(list), ',')[i]
                == shown_number(list[i]),
    decreases list.len(),
{
    reveal_strlit("null");
    let last = shown_number(list.last());
    assert(!last.contains(',')) by {
        assert(list[list.len() - 1] == list.last());
    }
    if list.len() == 1 {
        lemma_split_has_a_part(last, ',');
    } else {
        let rest = list.drop_last();
        assert forall|i: int| 0 <= i < rest.len() implies ((#[trigger] rest[i]) matches Some(text)
            ==> !text.contains(',')) by {
            assert(rest[i] == list[i]);
        }
        lemma_numbers_are_separated(rest);
        lemma_split_appends(shown_numbers(rest), last, ',');
        let all = split_at(shown_numbers(list), ',');
        assert forall|i: int| 0 <= i < list.len() implies #[trigger] all[i] == shown_number(list[i]) by {
            if i < rest.len() {
                assert(all[i] == split_at(shown_numbers(rest), ',')[i]);
                assert(rest[i] == list[i]);
            }
        }
    }
}

/// Whether a text holds the values of a watch: its name as a JSON string, and
/// behind it one number for every tick, in order.
pub open spec fn holds_column(
    text: Seq<char>,
    name: Seq<char>,
    values: Seq<Option<Seq<char>>>,
    ticks: nat,
    width: nat,
    k: int,
    front: Seq<char>,
    numbers: Seq<char>,
    back: Seq<char>,
) -> bool {
    &&& text == front + json_text(name) + seq![':', '['] + numbers + seq![']'] + back
    &&& split_at(numbers, ',').len() == ticks
    &&& forall|tick: int|
        0 <= tick < ticks ==> #[trigger] split_at(numbers, ',')[tick] == (match values[tick * width
            + k] {
            Some(number) => number,
            None => "null"@,
        })
}

proof fn lemma_columns(
    names: Seq<Seq<char>>,
    values: Seq<Option<Seq<char>>>,
    ticks: nat,
    width: nat,
    n: nat,
    k: int,
) -> (r: (Seq<char>, Seq<char>, Seq<char>))
    requires
        0 <= k < n <= width,
        n <= names.len(),
        ticks > 0,
        ticks * width <= values.len(),
        forall|i: int|
            0 <= i < values.len() ==> ((#[trigger] values[i]) matches Some(text) ==> !text.contains(
                ',',
            )),
    ensures
        holds_column(
            shown_columns(names, values, ticks, width, n),
            names[k],
            values,
            ticks,
            width,
            k,
            r.0,
            r.1,
            r.2,
        ),
    decreases n,
{
    let text = shown_columns(names, values, ticks, width, n);
    let m = (n - 1) as nat;
    let before = shown_columns(names, values, ticks, width, m);
    let comma = if n > 1 {
        seq![',']
    } else {
        Seq::empty()
    };
    let own = column(values, ticks, width, n - 1);
    let tail = comma + json_text(names[n - 1]) + seq![':', '['] + shown_numbers(own) + seq![']'];
    if k == n - 1 {
        assert forall|i: int| 0 <= i < own.len() implies ((#[trigger] own[i]) matches Some(text)
            ==> !text.contains(',')) by {
            assert(0 <= i * width + k < values.len()) by (nonlinear_arith)
                requires
                    0 <= i < ticks,
                    0 <= k < width,
                    ticks * width <= values.len(),
            ;
            assert(own[i] == values[i * width + k]);
        }
        lemma_numbers_are_separated(own);
        let front = before + comma;
        let numbers = shown_numbers(own);
        assert(text =~= front + json_text(names[k]) + seq![':', '['] + numbers + seq![']']
            + Seq::<char>::empty());
        assert forall|tick: int| 0 <= tick < ticks implies #[trigger] split_at(numbers, ',')[tick]
            == (match values[tick * width + k] {
            Some(number) => number,
            None => "null"@,
        }) by {
            assert(own[tick] == values[tick * width + k]);
        }
        (front, numbers, Seq::empty())
    } else {
        let (front, numbers, back) = lemma_columns(names, values, ticks, width, m, k);
        assert(text =~= before + tail);
        assert(text =~= front + json_text(names[k]) + seq![':', '['] + numbers + seq![']'] + (back
            + tail));
        (front, numbers, back + tail)
    }
}

/// A line of samples names every watch, and behind each name stand that watch's own
/// values, one for every tick and in their order, `null` where one is no number.
/// The numbers hold no comma.
pub proof fn lemma_samples_stand_under_their_names(
    seq: u64,
    times: Seq<Option<Seq<char>>>,
    names: Seq<Seq<char>>,
    values: Seq<Option<Seq<char>>>,
    width: nat,
    k: int,
)
    requires
        0 <= k < names.len(),
        k < width,
        times.len() > 0,
        times.len() * width <= values.len(),
        forall|i: int|
            0 <= i < values.len() ==> ((#[trigger] values[i]) matches Some(text) ==> !text.contains(
                ',',
            )),
    ensures
        exists|front: Seq<char>, numbers: Seq<char>, back: Seq<char>| #[trigger]
            holds_column(
                samples_shown(seq, times, names, values, width),
                names[k],
                values,
                times.len(),
                width,
                k,
                front,
                numbers,
                back,
            ),
{
    let shown = if names.len() < width {
        names.len()
    } else {
        width
    };
    let (front, numbers, back) = lemma_columns(names, values, times.len(), width, shown, k);
    let head = "{\"type\":\"samples\",\"seq\":"@ + decimal(seq as nat) + ",\"t\":["@ + shown_numbers(
        times,
    ) + "],\"values\":{"@;
    let line = samples_shown(seq, times, names, values, width);
    assert(line =~= (head + front) + json_text(names[k]) + seq![':', '['] + numbers + seq![']'] + (
    back + "}}\n"@));
    assert(holds_column(
        line,
        names[k],
        values,
        times.len(),
        width,
        k,
        head + front,
        numbers,
        back + "}}\n"@,
    ));
}

/// A line of samples starts with its number and the times of its ticks, in order.
pub proof fn lemma_samples_say_when(
    seq: u64,
    times: Seq<Option<Seq<char>>>,
    names: Seq<Seq<char>>,
    values: Seq<Option<Seq<char>>>,
    width: nat,
)
    requires
        times.len() > 0,
        forall|i: int|
            0 <= i < times.len() ==> ((#[trigger] times[i]) matches Some(text) ==> !text.contains(
                ',',
            )),
    ensures
        exists|digits: Seq<char>, ticks: Seq<char>, back: Seq<char>|
            samples_shown(seq, times, names, values, width) == "{\"type\":\"samples\",\"seq\":"@ + digits
                + ",\"t\":["@ + ticks + "],\"values\":{"@ + back && #[trigger] numeral(digits, 10) == seq
                && #[trigger] split_at(ticks, ',').len() == times.len() && (forall|i: int|
                0 <= i < times.len() ==> #[trigger] split_at(ticks, ',')[i] == (match times[i] {
                    Some(number) => number,
                    None => "null"@,
                })) && #[trigger] back.len() >= 0,
{
    lemma_decimal_reads_back(seq as nat);
    lemma_numbers_are_separated(times);
    let shown = if names.len() < width {
        names.len()
    } else {
        width
    };
    let digits = decimal(seq as nat);
    let ticks = shown_numbers(times);
    let back = shown_columns(names, values, times.len(), width, shown) + "}}\n"@;
    assert(samples_shown(seq, times, names, values, width) =~= "{\"type\":\"samples\",\"seq\":"@ + digits
        + ",\"t\":["@ + ticks + "],\"values\":{"@ + back);
    assert(numeral(digits, 10) == seq && split_at(ticks, ',').len() == times.len() && back.len()
        >= 0);
}

} // verus!
