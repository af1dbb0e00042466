//! What the browsed tree says of the nodes in it.

use vstd::prelude::*;
use vstd::string::*;
use crate::browse::{
    deduplicated, element_node, live_slice, page, place_for, record_nodes, root_of, same_root,
    slice_nodes, sorted_roots, target_nodes, ChildrenOutcome, RootView,
};
use crate::elf::{ElfInfo, SymbolInfo};
use crate::node_ref::{NodeView, StepView, TreeErrorView};
use crate::leaves::leaves;
use crate::text::{begins_with, decimal, trimmed_start};
use crate::tree::{
    described, element_address, index_label, kind_of, NodeKind, ResolvedView, SourceView,
    SymbolNodeView,
};
use crate::type_def::{StructDef, TypeDef, TypeId};
use crate::type_table::{size_of_type, underlying_at, variable_type_in, TableView};
use crate::wrappers::{
    held_type, internal, peeled, plain_def, record_of, segments_of, sequence_of, variant_label_of,
    Sequence,
};

verus! {

/// A path is the symbol's name and then each step as it is written in a program.
pub proof fn lemma_paths_are_written_step_by_step(node: NodeView, step: StepView)
    ensures
        (NodeView { symbol: node.symbol, steps: Seq::empty() }).shown() == node.symbol,
        node.child(step).symbol == node.symbol,
        node.child(step).shown() == node.shown() + (match step {
            StepView::Member(name) => seq!['.'] + name,
            StepView::Deref => seq!['.', '*'],
            StepView::Index(i) => seq!['['] + decimal(i as nat) + seq![']'],
            StepView::SliceIndex(i) => seq!['['] + decimal(i as nat) + seq![']'],
            StepView::Variant(name) => seq!['#'] + name,
            StepView::Discriminant => "#<discriminant>"@,
            StepView::Task(slot) => "[task "@ + decimal(slot as nat) + seq![']'],
        }),
{
    reveal_strlit(".");
    reveal_strlit(".*");
    reveal_strlit("[");
    reveal_strlit("]");
    reveal_strlit("#");
    assert("."@ =~= seq!['.']);
    assert(".*"@ =~= seq!['.', '*']);
    assert("["@ =~= seq!['[']);
    assert("]"@ =~= seq![']']);
    assert("#"@ =~= seq!['#']);
    let next = node.child(step);
    assert(next.steps.drop_last() =~= node.steps);
    assert((NodeView { symbol: node.symbol, steps: Seq::empty() }).shown() =~= node.symbol);
    let written = step.shown();
    assert(next.shown() =~= node.shown() + written);
}

/// A node is what its type is, and has as many children as that has parts.
pub proof fn lemma_nodes_are_what_their_types_are(types: Seq<TypeDef>, def: TypeDef)
    ensures
        ({
            let (kind, children) = kind_of(types, Some(def));
            match def {
                TypeDef::Primitive(_) => kind == NodeKind::Scalar && children is None,
                TypeDef::Enum(_) => kind == NodeKind::Enum && children is None,
                TypeDef::Struct(s) => match s.variant_part {
                    None => kind == NodeKind::Struct && children == Some(s.members@.len() as u64),
                    Some(p) => kind == NodeKind::TaggedEnum && (p.variants@.len() < u64::MAX
                        ==> children == Some(
                        (p.variants@.len() + (if p.discriminant is Some {
                            1int
                        } else {
                            0
                        })) as u64,
                    )),
                },
                TypeDef::Union(s) => kind == NodeKind::Union && children == Some(
                    s.members@.len() as u64,
                ),
                TypeDef::Array { count, .. } => kind == NodeKind::Array && children == count,
                TypeDef::Pointer(inner) => kind == NodeKind::Pointer && (children is Some
                    ==> children == Some(1u64) && size_of_type(types, inner) is Some),
                TypeDef::Reference(inner) => kind == NodeKind::Pointer && (children is Some
                    ==> children == Some(1u64) && size_of_type(types, inner) is Some),
                TypeDef::Subroutine { .. } => kind == NodeKind::Function && children is None,
                _ => kind == NodeKind::Other && children is None,
            }
        }),
        kind_of(types, None) == (NodeKind::Other, None::<u64>),
{
}

/// A node says where it lies, how large it is and of what type it is: the type of the
/// value inside, where it is wrapped, beside the wrapper's name. A number, an enum or a
/// pointer says how it is read.
pub proof fn lemma_nodes_describe_their_values(
    t: TableView,
    node: NodeView,
    label: Seq<char>,
    address: u64,
    outer: TypeId,
)
    ensures
        ({
            let d = described(t, node, label, address, outer);
            let id = peeled(t.types, outer);
            &&& d.node == node
            &&& d.label == label
            &&& d.address == address
            &&& d.path == node.shown()
            &&& d.size == size_of_type(t.types, id)
            &&& d.type_text == t.name_at(id, 0)
            &&& id == outer ==> d.wrapper is None
            &&& id != outer ==> d.wrapper == Some(t.name_at(outer, 0))
            &&& (d.kind, d.child_count) == kind_of(t.types, plain_def(t.types, id))
            &&& d.kind == NodeKind::Scalar || d.kind == NodeKind::Enum || d.kind
                == NodeKind::Pointer <==> d.scalar is Some
            &&& d.scalar is Some ==> d.scalar->0 == variable_type_in(
                t.types,
                underlying_at(t.types, id, 0),
                t.types.len(),
            )
            &&& d.sequence <==> sequence_of(t.types, outer) is Some
            &&& d.expandable <==> d.sequence || (d.child_count is Some && d.child_count->0 > 0)
        }),
{
}

/// A type that wraps one value holds a member of that type which is the only one with
/// a size, and fills it.
pub proof fn lemma_wrappers_hold_one_value(types: Seq<TypeDef>, id: TypeId)
    ensures
        held_type(types, id) matches Some(inner) ==> record_of(types, id) matches Some(s)
            && exists|i: int|
            0 <= i < s.members@.len() && (#[trigger] s.members@[i]).type_id == inner
                && s.members@[i].offset == 0 && s.members@[i].bit_size is None && size_of_type(
                types,
                inner,
            ) == Some(s.size) && s.size != 0 && forall|k: int|
                0 <= k < s.members@.len() && k != i ==> size_of_type(
                    types,
                    (#[trigger] s.members@[k]).type_id,
                ) == Some(0u64),
{
    if exists|i: int| crate::wrappers::wraps_at(types, id, i) {
        let i = choose|i: int| crate::wrappers::wraps_at(types, id, i);
        let s = record_of(types, id)->0;
        assert(s.members@[i].type_id == held_type(types, id)->0);
    }
}

/// A record's nodes are its members under their own names, each at its own distance
/// from the record and of its own type.
pub proof fn lemma_members_are_shown_as_themselves(
    t: TableView,
    node: NodeView,
    s: StructDef,
    address: u64,
    readable: bool,
    i: int,
)
    requires
        s.variant_part is None,
        0 <= i < s.members@.len(),
    ensures
        ({
            let n = record_nodes(t, node, s, address, readable)[i];
            let m = s.members@[i];
            &&& record_nodes(t, node, s, address, readable).len() == s.members@.len()
            &&& n.label == m.name@
            &&& n.node == node.child(StepView::Member(m.name@))
            &&& (n.address - address - m.offset) % 0x1_0000_0000_0000_0000 == 0
            &&& n.size == size_of_type(t.types, peeled(t.types, m.type_id))
            &&& n.type_text == t.name_at(peeled(t.types, m.type_id), 0)
            &&& n.bit_offset == m.bit_offset
            &&& n.bit_size == m.bit_size
            &&& n.discr_value is None
            &&& n.readable == readable
        }),
{
}

/// A tagged enum's nodes are its tag and then its variants, each with the value of the
/// tag that selects it.
pub proof fn lemma_variants_are_shown_with_their_tag(
    t: TableView,
    node: NodeView,
    s: StructDef,
    address: u64,
    readable: bool,
    i: int,
)
    requires
        s.variant_part is Some,
        0 <= i < s.variant_part->0.variants@.len(),
    ensures
        ({
            let part = s.variant_part->0;
            let nodes = record_nodes(t, node, s, address, readable);
            let tags: int = if part.discriminant is Some {
                1
            } else {
                0
            };
            let n = nodes[tags + i];
            let v = part.variants@[i];
            &&& nodes.len() == tags + part.variants@.len()
            &&& n.node == node.child(StepView::Variant(v.member.name@))
            &&& n.label == variant_label_of(t.types, v)
            &&& n.discr_value == v.discr_value
            &&& n.location == v.location
            &&& (n.address - address - v.member.offset) % 0x1_0000_0000_0000_0000 == 0
            &&& n.type_text == t.name_at(peeled(t.types, v.member.type_id), 0)
            &&& n.readable == readable
            &&& part.discriminant matches Some(d) ==> {
                &&& nodes[0].label == "<discriminant>"@
                &&& nodes[0].node == node.child(StepView::Discriminant)
                &&& (nodes[0].address - address - d.offset) % 0x1_0000_0000_0000_0000 == 0
                &&& nodes[0].type_text == t.name_at(peeled(t.types, d.type_id), 0)
                &&& nodes[0].discr_value is None
            }
        }),
{
}

/// A variant goes by its name; where that is only a number, by the last part of its
/// payload's.
pub proof fn lemma_variants_go_by_their_names(
    types: Seq<TypeDef>,
    v: crate::type_def::VariantDef,
)
    ensures
        (exists|i: int|
            0 <= i < v.member.name@.len() && !('0' <= #[trigger] v.member.name@[i]
                && v.member.name@[i] <= '9')) ==> variant_label_of(types, v) == v.member.name@,
        plain_def(types, v.member.type_id) is None ==> variant_label_of(types, v)
            == v.member.name@,
        v.member.name@.len() > 0 && (forall|i: int|
            0 <= i < v.member.name@.len() ==> '0' <= #[trigger] v.member.name@[i]
                && v.member.name@[i] <= '9') ==> (plain_def(types, v.member.type_id) matches Some(
            TypeDef::Struct(s),
        ) ==> (s.name matches Some(name) ==> variant_label_of(types, v) == segments_of(
            name@,
        ).last())),
{
}

/// An element is shown by its index and lies that many elements behind the first.
pub proof fn lemma_elements_are_shown_by_their_index(
    t: TableView,
    node: NodeView,
    element: TypeId,
    size: u64,
    address: u64,
    readable: bool,
    i: u64,
)
    requires
        address + i * size <= u64::MAX,
    ensures
        ({
            let n = element_node(t, node, element, size, address, readable, i);
            &&& n.label == seq!['['] + decimal(i as nat) + seq![']']
            &&& n.node == node.child(StepView::Index(i))
            &&& n.address == address + i * size
            &&& n.type_text == t.name_at(peeled(t.types, element), 0)
            &&& n.readable == readable
        }),
{
    reveal_strlit("[");
    reveal_strlit("]");
    assert("["@ =~= seq!['[']);
    assert("]"@ =~= seq![']']);
    assert(0 <= i * size) by (nonlinear_arith);
    assert(i.wrapping_mul(size) == i * size);
}

/// A page begins where it was asked to and ends after as many as were asked for, or
/// where there are no more.
pub proof fn lemma_pages_are_cut_to_what_there_is(offset: u64, limit: u64, count: u64)
    ensures
        page(offset, limit, count).0 <= count,
        page(offset, limit, count).1 <= count,
        offset <= count ==> page(offset, limit, count).0 == offset,
        offset > count ==> page(offset, limit, count).0 == count,
        offset + limit <= count ==> page(offset, limit, count).1 == offset + limit,
        offset + limit > count ==> page(offset, limit, count).1 == count,
{
}

/// A root is a variable under its own name, at its own address, in its own section,
/// and says whether it can be read or written.
pub proof fn lemma_roots_are_variables(t: TableView, sym: SymbolInfo, type_id: TypeId)
    ensures
        ({
            let r = root_of(t, sym, type_id);
            let id = peeled(t.types, type_id);
            &&& r.node.node.symbol == sym.demangled_name@
            &&& r.node.node.steps.len() == 0
            &&& r.node.path == sym.demangled_name@
            &&& r.node.label == sym.display_name@
            &&& r.node.address == sym.address
            &&& r.node.type_text == t.name_at(id, 0)
            &&& size_of_type(t.types, id) is Some ==> r.node.size == size_of_type(t.types, id)
            &&& size_of_type(t.types, id) is None && sym.size > 0 ==> r.node.size == Some(sym.size)
            &&& r.node.readable == sym.status.spec_is_readable()
            &&& r.section == sym.section@
            &&& r.read_only == !sym.writable
            &&& r.segments == segments_of(sym.demangled_name@)
        }),
{
    assert(r_path(sym) =~= sym.demangled_name@);
}

spec fn r_path(sym: SymbolInfo) -> Seq<char> {
    (NodeView { symbol: sym.demangled_name@, steps: Seq::empty() }).shown()
}

proof fn lemma_place_fits(list: Seq<RootView>, x: RootView)
    ensures
        0 <= place_for(list, x) <= list.len(),
    decreases list.len(),
{
    if list.len() > 0 {
        lemma_place_fits(list.drop_last(), x);
    }
}

/// Every variable with a type has a root, and every root is of one; a function has
/// none.
pub proof fn lemma_every_variable_has_a_root(elf: ElfInfo, n: nat)
    requires
        n <= elf.symbols@.len(),
    ensures
        forall|k: int|
            0 <= k < n && !(#[trigger] elf.symbols@[k]).is_function && elf.symbols@[k].type_id
                is Some ==> sorted_roots(elf, n).contains(
                root_of(elf.types@, elf.symbols@[k], elf.symbols@[k].type_id->0),
            ),
        forall|i: int|
            0 <= i < sorted_roots(elf, n).len() ==> exists|k: int|
                0 <= k < n && !(#[trigger] elf.symbols@[k]).is_function && elf.symbols@[k].type_id
                    is Some && #[trigger] sorted_roots(elf, n)[i] == root_of(
                    elf.types@,
                    elf.symbols@[k],
                    elf.symbols@[k].type_id->0,
                ),
    decreases n,
{
    if n > 0 {
        let m = (n - 1) as nat;
        lemma_every_variable_has_a_root(elf, m);
        let before = sorted_roots(elf, m);
        let after = sorted_roots(elf, n);
        let sym = elf.symbols@[n - 1];
        if sym.type_id is Some && !sym.is_function {
            let root = root_of(elf.types@, sym, sym.type_id->0);
            let at = place_for(before, root);
            lemma_place_fits(before, root);
            assert(after == before.insert(at, root));
            assert(after[at] == root);
            assert forall|k: int|
                0 <= k < n && !(#[trigger] elf.symbols@[k]).is_function && elf.symbols@[k].type_id
                    is Some implies after.contains(
                root_of(elf.types@, elf.symbols@[k], elf.symbols@[k].type_id->0),
            ) by {
                if k < m {
                    let r = root_of(elf.types@, elf.symbols@[k], elf.symbols@[k].type_id->0);
                    let j = choose|j: int| 0 <= j < before.len() && before[j] == r;
                    assert(after[if j < at { j } else { j + 1 }] == r);
                }
            }
            assert forall|i: int| 0 <= i < after.len() implies exists|k: int|
                0 <= k < n && !(#[trigger] elf.symbols@[k]).is_function && elf.symbols@[k].type_id
                    is Some && #[trigger] after[i] == root_of(
                    elf.types@,
                    elf.symbols@[k],
                    elf.symbols@[k].type_id->0,
                ) by {
                if i == at {
                    assert(elf.symbols@[n - 1] == sym);
                } else {
                    let j = if i < at { i } else { i - 1 };
                    assert(before[j] == after[i]);
                }
            }
        } else {
            assert(after == before);
        }
    }
}

/// The place behind this one.
pub open spec fn behind(i: int) -> int {
    i + 1
}

/// Of roots with the same path and address only the first stands: nothing is made up,
/// and no two that are the same stand next to each other.
pub proof fn lemma_the_same_root_stands_once(list: Seq<RootView>)
    ensures
        forall|i: int|
            0 <= i < deduplicated(list).len() ==> list.contains(#[trigger] deduplicated(list)[i]),
        forall|i: int|
            0 <= i && behind(i) < deduplicated(list).len() ==> !same_root(
                deduplicated(list)[i],
                deduplicated(list)[#[trigger] behind(i)],
            ),
        list.len() > 0 ==> deduplicated(list).len() > 0 && same_root(
            deduplicated(list).last(),
            list.last(),
        ),
    decreases list.len(),
{
    if list.len() > 0 {
        let before = list.drop_last();
        lemma_the_same_root_stands_once(before);
        let shorter = deduplicated(before);
        let kept = deduplicated(list);
        assert forall|i: int| 0 <= i < kept.len() implies list.contains(#[trigger] kept[i]) by {
            if i < shorter.len() {
                assert(before.contains(shorter[i]));
                let j = choose|j: int| 0 <= j < before.len() && before[j] == shorter[i];
                assert(list[j] == kept[i]);
            } else {
                assert(list[list.len() - 1] == kept[i]);
            }
        }
        assert forall|i: int| 0 <= i && behind(i) < kept.len() implies !same_root(
            kept[i],
            kept[#[trigger] behind(i)],
        ) by {
            if behind(i) < shorter.len() {
                assert(!same_root(shorter[i], shorter[behind(i)]));
            }
        }
    }
}

/// A root that was left out is the same as one that stands.
pub proof fn lemma_a_root_left_out_still_stands(list: Seq<RootView>, k: int)
    requires
        0 <= k < list.len(),
    ensures
        exists|i: int|
            0 <= i < deduplicated(list).len() && same_root(
                #[trigger] deduplicated(list)[i],
                list[k],
            ),
    decreases list.len(),
{
    let before = list.drop_last();
    let shorter = deduplicated(before);
    let kept = deduplicated(list);
    if k < before.len() {
        lemma_a_root_left_out_still_stands(before, k);
        let i = choose|i: int| 0 <= i < shorter.len() && same_root(#[trigger] shorter[i], before[k]);
        assert(kept[i] == shorter[i]);
        assert(before[k] == list[k]);
    } else {
        lemma_the_same_root_stands_once(list);
        assert(same_root(kept[kept.len() - 1], list[k]));
    }
}

/// What went wrong in the tree is told with where it did.
pub proof fn lemma_tree_errors_are_told(symbol: Seq<char>, at: Seq<char>, reason: Seq<char>)
    ensures
        TreeErrorView::SymbolNotFound(symbol).shown() == "symbol not found: "@ + symbol,
        (TreeErrorView::Untyped { symbol }).shown() == symbol + " has no type information"@,
        (TreeErrorView::BadStep { at, reason }).shown() == "cannot step into "@ + at + ": "@
            + reason,
{
}

/// What belongs to the runtime is told by its section, its crate or its wrapper, and
/// nothing else is.
pub proof fn lemma_runtime_statics_are_told_apart(
    path: Seq<char>,
    section: Seq<char>,
    outer: Seq<char>,
    rest: Seq<char>,
)
    ensures
        internal(path, ".rtt"@, outer),
        internal("_SEGGER_RTT"@, section, outer),
        internal(path, section, "TaskPoolHolder<"@ + rest),
        internal(path, section, "StaticCell<"@ + rest),
        internal("embassy_"@ + rest, section, outer),
        internal("defmt"@ + rest, section, outer),
        internal("rtt_target"@ + rest, section, outer),
        internal("cortex_m"@ + rest, section, outer),
        internal("critical_section"@ + rest, section, outer),
        internal("static_cell"@ + rest, section, outer),
        section != ".rtt"@ && path.len() > 0 && path[0] != '<' && path[0] != '_' && path[0] != 'e'
            && path[0] != 'd' && path[0] != 'r' && path[0] != 'c' && path[0] != 's' && (outer.len()
            == 0 || outer[0] != 'T' && outer[0] != 'S') ==> !internal(path, section, outer),
{
    reveal_strlit("_SEGGER_RTT");
    reveal_strlit("TaskPoolHolder<");
    reveal_strlit("StaticCell<");
    reveal_strlit("embassy_");
    reveal_strlit("defmt");
    reveal_strlit("rtt_target");
    reveal_strlit("cortex_m");
    reveal_strlit("critical_section");
    reveal_strlit("static_cell");
    lemma_begins("TaskPoolHolder<"@, rest);
    lemma_begins("StaticCell<"@, rest);
    lemma_begins("embassy_"@, rest);
    lemma_begins("defmt"@, rest);
    lemma_begins("rtt_target"@, rest);
    lemma_begins("cortex_m"@, rest);
    lemma_begins("critical_section"@, rest);
    lemma_begins("static_cell"@, rest);
    if path.len() > 0 && path[0] != '<' && path[0] != '_' && path[0] != 'e' && path[0] != 'd'
        && path[0] != 'r' && path[0] != 'c' && path[0] != 's' {
        lemma_begins_otherwise(path, "embassy_"@);
        lemma_begins_otherwise(path, "defmt"@);
        lemma_begins_otherwise(path, "rtt_target"@);
        lemma_begins_otherwise(path, "cortex_m"@);
        lemma_begins_otherwise(path, "critical_section"@);
        lemma_begins_otherwise(path, "static_cell"@);
    }
    lemma_begins_otherwise(outer, "TaskPoolHolder<"@);
    lemma_begins_otherwise(outer, "StaticCell<"@);
}

proof fn lemma_begins(a: Seq<char>, b: Seq<char>)
    requires
        a.len() > 0,
        a[0] != '<',
    ensures
        begins_with(a + b, a),
        trimmed_start(a + b, '<') == a + b,
{
    assert((a + b).take(a.len() as int) =~= a);
}

proof fn lemma_begins_otherwise(s: Seq<char>, prefix: Seq<char>)
    requires
        prefix.len() > 0,
    ensures
        s.len() == 0 || s[0] != prefix[0] ==> !begins_with(s, prefix),
{
    if begins_with(s, prefix) {
        assert(s.take(prefix.len() as int)[0] == s[0]);
    }
}

/// A pointer that can be followed shows what it points to, without an address before
/// it is followed; one to nothing or to a function shows nothing.
pub proof fn lemma_pointers_show_their_target(t: TableView, node: NodeView, inner: TypeId)
    ensures
        match plain_def(t.types, inner) {
            Some(TypeDef::Void) => target_nodes(t, node, inner).len() == 0,
            Some(TypeDef::Subroutine { .. }) => target_nodes(t, node, inner).len() == 0,
            _ => {
                let nodes = target_nodes(t, node, inner);
                &&& nodes.len() == 1
                &&& nodes[0].node == node.child(StepView::Deref)
                &&& nodes[0].label == "*"@
                &&& nodes[0].address == 0
                &&& nodes[0].type_text == t.name_at(peeled(t.types, inner), 0)
            },
        },
{
}

/// What can be watched of a number is the number; of a record, its parts in their
/// order; of what cannot be read, nothing. What was found before stays in front.
pub proof fn lemma_leaves_come_in_order(
    elf: ElfInfo,
    at: SymbolNodeView,
    before: Seq<SymbolNodeView>,
    n: nat,
)
    ensures
        !at.readable ==> leaves(elf, at, before, n) == Ok::<Seq<SymbolNodeView>, Seq<char>>(before),
        at.readable && before.len() < 256 && (at.kind == NodeKind::Scalar || at.kind
            == NodeKind::Enum) && at.scalar is Some && !(at.scalar->0 is Raw) ==> leaves(
            elf,
            at,
            before,
            n,
        ) == Ok::<Seq<SymbolNodeView>, Seq<char>>(before.push(at)),
        at.kind == NodeKind::Pointer || at.kind == NodeKind::Union || at.kind == NodeKind::Function
            || at.kind == NodeKind::Other ==> leaves(elf, at, before, n) == Ok::<
            Seq<SymbolNodeView>,
            Seq<char>,
        >(before),
        before.len() >= 256 ==> leaves(elf, at, before, n) == Ok::<
            Seq<SymbolNodeView>,
            Seq<char>,
        >(before),
{
}

/// The elements of a slice are asked for in the order in which they are needed: how
/// many there are where the slice says, then where they begin; and they are shown
/// with how many there are.
pub proof fn lemma_slices_are_read_by_their_two_words(
    elf: ElfInfo,
    node: NodeView,
    at: ResolvedView,
    s: Sequence,
    src: SourceView,
    used: nat,
    offset: u64,
    limit: u64,
)
    requires
        at.address + s.length_offset <= u64::MAX,
        at.address + s.data_offset <= u64::MAX,
    ensures
        ({
            let outcome = live_slice(elf, node, at, s, src, used, offset, limit);
            let width: usize = if elf.is_64bit {
                8
            } else {
                4
            };
            &&& src.next(used) is None ==> outcome == (ChildrenOutcome::Read {
                address: (at.address + s.length_offset) as u64,
                size: width,
            })
            &&& src.next(used) matches Some((Ok(count), after)) ==> {
                &&& src.next(after) is None ==> outcome == (ChildrenOutcome::Read {
                    address: (at.address + s.data_offset) as u64,
                    size: width,
                })
                &&& outcome matches ChildrenOutcome::Found(c) ==> c.total == count && c.nodes.len()
                    == (if offset + limit <= count {
                    limit as int
                } else if offset <= count {
                    count - offset
                } else {
                    0
                })
            }
        }),
{
    let t = elf.types@;
    if let Some((Ok(count), after)) = src.next(used) {
        if let Some((Ok(pointer), _)) = src.next(after) {
            if let Some(stride) = size_of_type(t.types, s.element) {
                let (from, to) = page(offset, limit, count);
                let n = if from < to {
                    (to - from) as nat
                } else {
                    0
                };
                lemma_slice_len(t, node, s.element, pointer, stride, from, n);
            }
        }
    }
}

proof fn lemma_slice_len(
    t: TableView,
    node: NodeView,
    element: TypeId,
    pointer: u64,
    stride: u64,
    from: u64,
    n: nat,
)
    ensures
        slice_nodes(t, node, element, pointer, stride, from, n) matches Ok(nodes) ==> nodes.len()
            == n,
    decreases n,
{
    if n > 0 {
        lemma_slice_len(t, node, element, pointer, stride, from, (n - 1) as nat);
    }
}

/// Each element of a slice is shown by its index, as many elements behind the first.
pub proof fn lemma_slice_elements_are_shown_in_order(
    t: TableView,
    node: NodeView,
    element: TypeId,
    pointer: u64,
    stride: u64,
    from: u64,
    n: nat,
    i: int,
)
    requires
        0 <= i < n,
        from + n <= u64::MAX,
        slice_nodes(t, node, element, pointer, stride, from, n) is Ok,
    ensures
        ({
            let nodes = slice_nodes(t, node, element, pointer, stride, from, n)->Ok_0;
            let k = (from + i) as u64;
            &&& nodes.len() == n
            &&& nodes[i].node == node.child(StepView::SliceIndex(k))
            &&& nodes[i].label == index_label(k)
            &&& Ok::<u64, Seq<char>>(nodes[i].address) == element_address(pointer, k, stride)
            &&& nodes[i].type_text == t.name_at(peeled(t.types, element), 0)
        }),
    decreases n,
{
    lemma_slice_len(t, node, element, pointer, stride, from, n);
    lemma_slice_len(t, node, element, pointer, stride, from, (n - 1) as nat);
    if i < n - 1 {
        lemma_slice_elements_are_shown_in_order(
            t,
            node,
            element,
            pointer,
            stride,
            from,
            (n - 1) as nat,
            i,
        );
    }
}

} // verus!
