//! Nodes of the symbol tree and their children.

use vstd::prelude::*;
use vstd::string::*;
use crate::elf::{ElfInfo, SymbolInfo};
#[allow(unused_imports)]
use crate::elf::{functions, symbol_named, variables};
use crate::node_ref::{NodeRef, Step, TreeError};
#[allow(unused_imports)]
use crate::node_ref::{NodeView, StepView, TreeErrorView};
#[allow(unused_imports)]
use crate::search::{count, first, lemma_first_is};
use crate::text::{same_text, text_less_or_equal};
#[allow(unused_imports)]
use crate::text::{lemma_bytes_le_total, lemma_bytes_le_transitive, text_le};
use crate::tree::{
    address_of_element, can_open, describe, label_index, resolve_with_memory, Resolved, Source,
    SymbolNode, Walk,
};
#[allow(unused_imports)]
use crate::tree::{
    described, element_address, entered, entered_outward, index_label, opens, resolution,
    step_member, walked, ResolvedView, SourceView, SymbolNodeView, WalkView,
};
use crate::type_def::{MemberDef, TypeDef, TypeId, VariantDef};
use crate::type_table::TypeTable;
#[allow(unused_imports)]
use crate::type_table::{size_of_type, TableView};
use crate::variable_status::DwarfDiagnostics;
use crate::wrappers::{is_internal, peel, sequence, split_path, variant_label, Sequence};
#[allow(unused_imports)]
use crate::wrappers::{
    chain_of, internal, lemma_chain_not_empty, member_named, peeled, plain_def, segments_of,
    sequence_of, texts, variant_label_of, variant_named, MAX_WRAPPERS,
};

verus! {

/// Array elements returned per [`children`] call when no limit is given.
pub const DEFAULT_CHILD_LIMIT: usize = 256;

/// Most elements returned per call, whatever limit is given.
pub const MAX_CHILD_LIMIT: usize = 4096;

/// What a call that reads target memory has come to.
#[derive(Debug)]
pub enum Progress<T> {
    /// It needs `size` bytes at this address; call again with that answer added
    Read { address: u64, size: usize },
    Done(T),
}

#[derive(Debug)]
pub struct RootNode {
    pub node: SymbolNode,
    /// Path split on `::`, respecting `<...>` (`<A as B>::info::INFO` has 3 segments)
    pub segments: Vec<String>,
    pub section: String,
    /// Not in an allocated, writable section: flash constants, vtables, defmt strings
    pub read_only: bool,
    /// Owned by the runtime, not the application: task storage, RTT buffers,
    /// embassy and defmt state
    pub internal: bool,
}

/// A root by its content.
pub struct RootView {
    pub node: SymbolNodeView,
    pub segments: Seq<Seq<char>>,
    pub section: Seq<char>,
    pub read_only: bool,
    pub internal: bool,
}

impl View for RootNode {
    type V = RootView;

    open spec fn view(&self) -> RootView {
        RootView {
            node: self.node@,
            segments: texts(self.segments@),
            section: self.section@,
            read_only: self.read_only,
            internal: self.internal,
        }
    }
}

#[derive(Debug)]
pub struct Children {
    pub nodes: Vec<SymbolNode>,
    /// Total children; larger than `nodes.len()` when an array was truncated
    pub total: u64,
}

/// The views of a list of nodes.
pub open spec fn node_views(nodes: Seq<SymbolNode>) -> Seq<SymbolNodeView> {
    Seq::new(nodes.len(), |i: int| nodes[i]@)
}

/// The views of a list of roots.
pub open spec fn root_views(roots: Seq<RootNode>) -> Seq<RootView> {
    Seq::new(roots.len(), |i: int| roots[i]@)
}

#[derive(Debug)]
pub struct ElfSummary {
    pub path: String,
    pub machine: String,
    pub is_64bit: bool,
    pub little_endian: bool,
    pub entry_point: u64,
    pub variables: usize,
    pub functions: usize,
    pub types: usize,
    pub diagnostics: DiagnosticsSummary,
}

#[derive(Debug, Copy, Clone, PartialEq, Eq, Structural)]
pub struct DiagnosticsSummary {
    pub total_variables: usize,
    pub with_valid_address: usize,
    pub optimized_out: usize,
    pub local_variables: usize,
    pub extern_declarations: usize,
    pub compile_time_constants: usize,
    pub register_only: usize,
}

/// The part of the diagnostics that a summary shows.
pub open spec fn summarized(d: DwarfDiagnostics) -> DiagnosticsSummary {
    DiagnosticsSummary {
        total_variables: d.total_variables,
        with_valid_address: d.with_valid_address,
        optimized_out: d.optimized_out,
        local_variables: d.local_variables,
        extern_declarations: d.extern_declarations,
        compile_time_constants: d.compile_time_constants,
        register_only: d.register_only,
    }
}

impl From<&DwarfDiagnostics> for DiagnosticsSummary {
    fn from(d: &DwarfDiagnostics) -> (r: Self) {
        DiagnosticsSummary {
            total_variables: d.total_variables,
            with_valid_address: d.with_valid_address,
            optimized_out: d.optimized_out,
            local_variables: d.local_variables,
            extern_declarations: d.extern_declarations,
            compile_time_constants: d.compile_time_constants,
            register_only: d.register_only,
        }
    }
}

impl vstd::std_specs::convert::FromSpecImpl<&DwarfDiagnostics> for DiagnosticsSummary {
    open spec fn obeys_from_spec() -> bool {
        true
    }

    open spec fn from_spec(d: &DwarfDiagnostics) -> Self {
        summarized(*d)
    }
}

pub fn summary(elf: &ElfInfo) -> (r: ElfSummary)
    ensures
        r.path@ == elf.path@,
        r.machine@ == elf.machine@,
        r.is_64bit == elf.is_64bit,
        r.little_endian == elf.is_little_endian,
        r.entry_point == elf.entry_point,
        r.variables == count(elf.symbols@, variables()),
        r.functions == count(elf.symbols@, functions()),
        r.types == elf.types@.types.len(),
        r.diagnostics == summarized(elf.diagnostics),
{
    ElfSummary {
        path: elf.path.clone(),
        machine: elf.machine.clone(),
        is_64bit: elf.is_64bit,
        little_endian: elf.is_little_endian,
        entry_point: elf.entry_point,
        variables: elf.variable_count(),
        functions: elf.function_count(),
        types: elf.types.len(),
        diagnostics: DiagnosticsSummary::from(elf.get_diagnostics()),
    }
}

/// The root for a typed symbol.
pub open spec fn root_of(t: TableView, sym: SymbolInfo, type_id: TypeId) -> RootView {
    let plain = described(
        t,
        NodeView { symbol: sym.demangled_name@, steps: Seq::empty() },
        sym.display_name@,
        sym.address,
        type_id,
    );
    RootView {
        node: SymbolNodeView {
            size: if plain.size is None && sym.size > 0 {
                Some(sym.size)
            } else {
                plain.size
            },
            readable: sym.status.spec_is_readable(),
            status: sym.spec_unreadable_reason(),
            ..plain
        },
        segments: segments_of(sym.demangled_name@),
        section: sym.section@,
        read_only: !sym.writable,
        internal: internal(sym.demangled_name@, sym.section@, t.name_at(type_id, 0)),
    }
}

fn make_root(table: &TypeTable, sym: &SymbolInfo, type_id: TypeId) -> (r: RootNode)
    ensures
        r@ == root_of(table@, *sym, type_id),
{
    let path: &str = sym.demangled_name.as_str();
    let mut node: SymbolNode = describe(
        table,
        NodeRef::root(path),
        sym.display_name.clone(),
        sym.address,
        type_id,
    );
    if node.size.is_none() && sym.size > 0 {
        node.size = Some(sym.size);
    }
    node.readable = sym.is_readable();
    node.status = sym.unreadable_reason();
    let outer: String = table.type_display_name(type_id);
    RootNode {
        segments: split_path(path),
        read_only: !sym.writable,
        internal: is_internal(path, sym.section.as_str(), outer.as_str()),
        section: sym.section.clone(),
        node,
    }
}

/// How many roots of a sorted list stand before `x` or at its place.
pub open spec fn place_for(list: Seq<RootView>, x: RootView) -> int
    decreases list.len(),
{
    if list.len() == 0 || text_le(list.last().node.path, x.node.path) {
        list.len() as int
    } else {
        place_for(list.drop_last(), x)
    }
}

proof fn lemma_place_inside(list: Seq<RootView>, x: RootView)
    ensures
        0 <= place_for(list, x) <= list.len(),
    decreases list.len(),
{
    if list.len() > 0 {
        lemma_place_inside(list.drop_last(), x);
    }
}

/// The roots of the first `n` symbols that are typed variables, sorted by path;
/// those with the same path in the symbols' order.
pub open spec fn sorted_roots(elf: ElfInfo, n: nat) -> Seq<RootView>
    decreases n,
{
    if n == 0 {
        Seq::empty()
    } else {
        let before = sorted_roots(elf, (n - 1) as nat);
        let sym = elf.symbols@[n - 1];
        match sym.type_id {
            Some(type_id) => if sym.is_function {
                before
            } else {
                let root = root_of(elf.types@, sym, type_id);
                before.insert(place_for(before, root), root)
            },
            None => before,
        }
    }
}

/// Whether two roots show the same place under the same path.
pub open spec fn same_root(a: RootView, b: RootView) -> bool {
    a.node.path == b.node.path && a.node.address == b.node.address
}

/// A list without the entries that repeat the one kept before them.
pub open spec fn deduplicated(list: Seq<RootView>) -> Seq<RootView>
    decreases list.len(),
{
    if list.len() == 0 {
        Seq::empty()
    } else {
        let before = deduplicated(list.drop_last());
        if before.len() > 0 && same_root(before.last(), list.last()) {
            before
        } else {
            before.push(list.last())
        }
    }
}

/// Whether a list is sorted by path.
pub open spec fn sorted_by_path(list: Seq<RootView>) -> bool {
    forall|i: int, j: int|
        0 <= i < j < list.len() ==> text_le(
            (#[trigger] list[i]).node.path,
            (#[trigger] list[j]).node.path,
        )
}

fn insert_sorted(list: &mut Vec<RootNode>, root: RootNode)
    ensures
        root_views(final(list)@) == root_views(old(list)@).insert(
            place_for(root_views(old(list)@), root@),
            root@,
        ),
{
    let ghost views = root_views(list@);
    let mut i: usize = list.len();
    assert(views.take(i as int) =~= views);
    while i > 0
        invariant
            i <= list@.len(),
            views == root_views(list@),
            place_for(views.take(i as int), root@) == place_for(views, root@),
        ensures
            i == place_for(views, root@),
            i <= list@.len(),
        decreases i,
    {
        assert(views.take(i as int).last() == list@[i - 1]@);
        if text_less_or_equal(list[i - 1].node.path.as_str(), root.node.path.as_str()) {
            break;
        }
        assert(views.take(i as int).drop_last() =~= views.take(i - 1));
        i = i - 1;
    }
    list.insert(i, root);
    assert(root_views(list@) =~= views.insert(i as int, root@));
}

/// Every typed variable symbol, sorted by path.
pub fn roots(elf: &ElfInfo) -> (r: Vec<RootNode>)
    ensures
        root_views(r@) == deduplicated(sorted_roots(*elf, elf.symbols@.len())),
{
    let mut sorted: Vec<RootNode> = Vec::new();
    let mut i: usize = 0;
    assert(root_views(sorted@) =~= Seq::<RootView>::empty());
    while i < elf.symbols.len()
        invariant
            i <= elf.symbols@.len(),
            root_views(sorted@) == sorted_roots(*elf, i as nat),
        decreases elf.symbols@.len() - i,
    {
        let sym: &SymbolInfo = &elf.symbols[i];
        if !sym.is_function {
            if let Some(type_id) = sym.type_id {
                let root: RootNode = make_root(&elf.types, sym, type_id);
                insert_sorted(&mut sorted, root);
            }
        }
        i = i + 1;
    }
    let ghost all = root_views(sorted@);
    let ghost n = all.len();
    let mut kept: Vec<RootNode> = Vec::new();
    let mut rest: Vec<RootNode> = sorted;
    let mut back: Vec<RootNode> = Vec::new();
    while rest.len() > 0
        invariant
            rest@.len() + back@.len() == n == all.len(),
            forall|k: int| 0 <= k < rest@.len() ==> rest@[k]@ == #[trigger] all[k],
            forall|k: int| 0 <= k < back@.len() ==> (#[trigger] back@[k])@ == all[n - 1 - k],
        decreases rest@.len(),
    {
        if let Some(root) = rest.pop() {
            back.push(root);
        }
    }
    assert(all.take(0) =~= Seq::<RootView>::empty());
    assert(root_views(kept@) =~= Seq::<RootView>::empty());
    while back.len() > 0
        invariant
            back@.len() <= n == all.len(),
            forall|k: int| 0 <= k < back@.len() ==> (#[trigger] back@[k])@ == all[n - 1 - k],
            root_views(kept@) == deduplicated(all.take(n - back@.len())),
        decreases back@.len(),
    {
        let ghost done = (n - back@.len()) as int;
        if let Some(root) = back.pop() {
            proof {
                assert(root@ == all[done]);
                assert(all.take(done + 1).drop_last() =~= all.take(done));
                assert(all.take(done + 1).last() == all[done]);
            }
            let ghost before = root_views(kept@);
            let mut repeated: bool = false;
            if kept.len() > 0 {
                let last: &RootNode = &kept[kept.len() - 1];
                assert(before.last() == last@);
                repeated = last.node.address == root.node.address && same_text(
                    last.node.path.as_str(),
                    root.node.path.as_str(),
                );
            }
            if !repeated {
                kept.push(root);
                assert(root_views(kept@) =~= before.push(root@));
            }
        }
    }
    assert(all.take(n as int) =~= all);
    kept
}

/// Roots come sorted by path.
pub proof fn lemma_roots_sorted(elf: ElfInfo, n: nat)
    ensures
        sorted_by_path(sorted_roots(elf, n)),
        sorted_by_path(deduplicated(sorted_roots(elf, n))),
    decreases n,
{
    if n > 0 {
        let before = sorted_roots(elf, (n - 1) as nat);
        lemma_roots_sorted(elf, (n - 1) as nat);
        let sym = elf.symbols@[n - 1];
        if sym.type_id is Some && !sym.is_function {
            let root = root_of(elf.types@, sym, sym.type_id->0);
            lemma_insert_keeps_sorted(before, root);
        }
    }
    lemma_dedup_keeps_sorted(sorted_roots(elf, n));
}

proof fn lemma_insert_keeps_sorted(list: Seq<RootView>, x: RootView)
    requires
        sorted_by_path(list),
    ensures
        sorted_by_path(list.insert(place_for(list, x), x)),
{
    let p = place_for(list, x);
    lemma_place_splits(list, x);
    lemma_place_inside(list, x);
    let after = list.insert(p, x);
    assert forall|i: int, j: int| 0 <= i < j < after.len() implies text_le(
        (#[trigger] after[i]).node.path,
        (#[trigger] after[j]).node.path,
    ) by {
        if j == p {
            assert(after[i] == list[i]);
        } else if i == p {
            assert(after[j] == list[j - 1]);
        } else {
            let a = if i < p {
                i
            } else {
                i - 1
            };
            let b = if j < p {
                j
            } else {
                j - 1
            };
            assert(after[i] == list[a] && after[j] == list[b]);
        }
    }
}

/// What stands before the place sorts no later, what stands after no earlier.
proof fn lemma_place_splits(list: Seq<RootView>, x: RootView)
    requires
        sorted_by_path(list),
    ensures
        forall|i: int|
            0 <= i < place_for(list, x) ==> text_le((#[trigger] list[i]).node.path, x.node.path),
        forall|i: int|
            place_for(list, x) <= i < list.len() ==> text_le(
                x.node.path,
                (#[trigger] list[i]).node.path,
            ),
    decreases list.len(),
{
    lemma_place_inside(list, x);
    if list.len() > 0 {
        let last = list.last();
        if text_le(last.node.path, x.node.path) {
            assert forall|i: int| 0 <= i < list.len() implies text_le(
                (#[trigger] list[i]).node.path,
                x.node.path,
            ) by {
                if i < list.len() - 1 {
                    assert(text_le(list[i].node.path, list[list.len() - 1].node.path));
                    lemma_bytes_le_transitive(
                        vstd::utf8::encode_utf8(list[i].node.path),
                        vstd::utf8::encode_utf8(last.node.path),
                        vstd::utf8::encode_utf8(x.node.path),
                    );
                }
            }
        } else {
            let rest = list.drop_last();
            assert(sorted_by_path(rest));
            lemma_place_splits(rest, x);
            lemma_place_inside(rest, x);
            lemma_bytes_le_total(
                vstd::utf8::encode_utf8(last.node.path),
                vstd::utf8::encode_utf8(x.node.path),
            );
            assert forall|i: int| 0 <= i < rest.len() implies #[trigger] list[i] == rest[i] by {}
        }
    }
}

proof fn lemma_dedup_keeps_sorted(list: Seq<RootView>)
    requires
        sorted_by_path(list),
    ensures
        sorted_by_path(deduplicated(list)),
        deduplicated(list).len() <= list.len(),
        forall|i: int|
            0 <= i < deduplicated(list).len() ==> list.contains(#[trigger] deduplicated(list)[i]),
    decreases list.len(),
{
    if list.len() > 0 {
        let rest = list.drop_last();
        let before = deduplicated(rest);
        assert(sorted_by_path(rest));
        lemma_dedup_keeps_sorted(rest);
        assert(list[list.len() - 1] == list.last());
        assert forall|i: int| 0 <= i < before.len() implies list.contains(
            #[trigger] before[i],
        ) && text_le(before[i].node.path, list.last().node.path) by {
            assert(rest.contains(before[i]));
            let k = choose|k: int| 0 <= k < rest.len() && rest[k] == before[i];
            assert(list[k] == before[i]);
            assert(text_le(list[k].node.path, list[list.len() - 1].node.path));
        }
    }
}

/// The node that a reference leads to.
pub open spec fn node_at(
    elf: ElfInfo,
    node: NodeView,
    sym: SymbolInfo,
    at: ResolvedView,
) -> SymbolNodeView {
    let plain = described(elf.types@, node, at.label, at.address, at.type_id);
    SymbolNodeView {
        bit_offset: at.bit_offset,
        bit_size: at.bit_size,
        discr_value: at.discr_value,
        readable: sym.status.spec_is_readable(),
        status: sym.spec_unreadable_reason(),
        ..plain
    }
}

/// The symbol that a reference begins at.
pub open spec fn symbol_of(elf: ElfInfo, node: NodeView) -> SymbolInfo {
    elf.symbols@[first(elf.symbols@, symbol_named(node.symbol))->0]
}

/// What asking for a node comes to.
pub open spec fn node_result(
    elf: ElfInfo,
    node: NodeView,
    src: SourceView,
    live: bool,
    r: Progress<Result<SymbolNode, TreeError>>,
) -> bool {
    match resolution(elf, node, src, live) {
        WalkView::Read { address, size } => r matches Progress::Read { address: a, size: s } && a
            == address && s == size,
        WalkView::Failed(e) => r matches Progress::Done(Err(got)) && got@ == e,
        WalkView::At(at, _) => r matches Progress::Done(Ok(got)) && got@ == node_at(
            elf,
            node,
            symbol_of(elf, node),
            at,
        ),
    }
}

fn node_impl(elf: &ElfInfo, node: &NodeRef, src: &Source<'_>, live: bool) -> (r: Progress<
    Result<SymbolNode, TreeError>,
>)
    ensures
        node_result(*elf, node@, src@, live, r),
{
    let (walk, found) = resolve_with_memory(elf, node, src, live);
    match (walk, found) {
        (Walk::Read { address, size }, _) => Progress::Read { address, size },
        (Walk::Failed(e), _) => Progress::Done(Err(e)),
        (Walk::At(at, _), Some(sym)) => {
            let mut out: SymbolNode = describe(
                &elf.types,
                node.copy(),
                at.label,
                at.address,
                at.type_id,
            );
            out.bit_offset = at.bit_offset;
            out.bit_size = at.bit_size;
            out.discr_value = at.discr_value;
            if !sym.is_readable() {
                out.readable = false;
                out.status = sym.unreadable_reason();
            }
            Progress::Done(Ok(out))
        },
        (Walk::At(_, _), None) => Progress::Done(
            Err(TreeError::SymbolNotFound(node.symbol.clone())),
        ),
    }
}

/// A source that never waits for an answer never leaves a walk waiting.
proof fn lemma_never_waits(elf: ElfInfo, node: NodeView, src: SourceView, live: bool)
    requires
        src is Refusing || src is Zero,
    ensures
        resolution(elf, node, src, live) !is Read,
{
    if let Some(i) = first(elf.symbols@, symbol_named(node.symbol)) {
        let sym = elf.symbols@[i];
        if sym.type_id is Some {
            lemma_walk_never_waits(
                elf,
                sym,
                sym.type_id->0,
                node,
                node.steps.len(),
                src,
                live,
            );
        }
    }
}

proof fn lemma_walk_never_waits(
    elf: ElfInfo,
    sym: SymbolInfo,
    type_id: TypeId,
    node: NodeView,
    n: nat,
    src: SourceView,
    live: bool,
)
    requires
        src is Refusing || src is Zero,
    ensures
        walked(elf, sym, type_id, node, n, src, live) !is Read,
    decreases n,
{
    if n > 0 {
        lemma_walk_never_waits(elf, sym, type_id, node, (n - 1) as nat, src, live);
    }
}

/// Describe the node `at` refers to.
pub fn node(elf: &ElfInfo, at: &NodeRef) -> (r: Result<SymbolNode, TreeError>)
    ensures
        node_result(*elf, at@, SourceView::Refusing, false, Progress::Done(r)),
{
    proof {
        lemma_never_waits(*elf, at@, SourceView::Refusing, false);
    }
    match node_impl(elf, at, &Source::Refusing, false) {
        Progress::Done(r) => r,
        Progress::Read { .. } => Err(TreeError::SymbolNotFound(at.symbol.clone())),
    }
}

/// Resolve a node with the words its pointers were found to hold, in order.
/// Never caches live addresses.
pub fn node_with_memory(elf: &ElfInfo, node: &NodeRef, answers: &[Result<u64, String>]) -> (r:
    Progress<Result<SymbolNode, TreeError>>)
    ensures
        node_result(
            *elf,
            node@,
            SourceView::Answers(crate::tree::answer_views(answers@)),
            true,
            r,
        ),
{
    node_impl(elf, node, &Source::Answers(answers), true)
}

pub fn metadata_node(elf: &ElfInfo, node: &NodeRef) -> (r: Result<SymbolNode, TreeError>)
    ensures
        node_result(*elf, node@, SourceView::Zero, false, Progress::Done(r)),
{
    proof {
        lemma_never_waits(*elf, node@, SourceView::Zero, false);
    }
    match node_impl(elf, node, &Source::Zero, false) {
        Progress::Done(r) => r,
        Progress::Read { .. } => Err(TreeError::SymbolNotFound(node.symbol.clone())),
    }
}

/// Children by their content.
pub struct ChildrenView {
    pub nodes: Seq<SymbolNodeView>,
    pub total: u64,
}

impl View for Children {
    type V = ChildrenView;

    open spec fn view(&self) -> ChildrenView {
        ChildrenView { nodes: node_views(self.nodes@), total: self.total }
    }
}

/// The node for a member.
pub open spec fn member_node(
    t: TableView,
    node: NodeView,
    step: StepView,
    m: MemberDef,
    discr_value: Option<u64>,
    address: u64,
    readable: bool,
) -> SymbolNodeView {
    SymbolNodeView {
        bit_offset: m.bit_offset,
        bit_size: m.bit_size,
        discr_value,
        readable,
        ..described(
            t,
            node.child(step),
            if step is Discriminant {
                "<discriminant>"@
            } else {
                m.name@
            },
            address.wrapping_add(m.offset),
            m.type_id,
        )
    }
}

/// The node for a variant's payload.
pub open spec fn variant_node(
    t: TableView,
    node: NodeView,
    v: VariantDef,
    address: u64,
    readable: bool,
) -> SymbolNodeView {
    SymbolNodeView {
        label: variant_label_of(t.types, v),
        location: v.location,
        ..member_node(
            t,
            node,
            StepView::Variant(v.member.name@),
            v.member,
            v.discr_value,
            address,
            readable,
        )
    }
}

fn make_member_node(
    table: &TypeTable,
    node: &NodeRef,
    step: Step,
    m: &MemberDef,
    discr_value: Option<u64>,
    address: u64,
    readable: bool,
) -> (r: SymbolNode)
    ensures
        r@ == member_node(table@, node@, step@, *m, discr_value, address, readable),
{
    let label: String = match &step {
        Step::Discriminant => "<discriminant>".to_owned(),
        _ => m.name.clone(),
    };
    let mut n: SymbolNode = describe(
        table,
        node.child(step),
        label,
        address.wrapping_add(m.offset),
        m.type_id,
    );
    n.bit_offset = m.bit_offset;
    n.bit_size = m.bit_size;
    n.discr_value = discr_value;
    n.readable = readable;
    n
}

/// The first of the elements that a page from `offset` on shows, and the first
/// that it does not.
pub open spec fn page(offset: u64, limit: u64, count: u64) -> (u64, u64) {
    let end = offset.saturating_add(limit);
    (
        if offset < count {
            offset
        } else {
            count
        },
        if end < count {
            end
        } else {
            count
        },
    )
}

/// The children of a value that are no slice's or array's elements.
pub open spec fn member_nodes(
    t: TableView,
    node: NodeView,
    def: Option<TypeDef>,
    address: u64,
    readable: bool,
) -> Seq<SymbolNodeView> {
    match def {
        Some(TypeDef::Struct(s)) => record_nodes(t, node, s, address, readable),
        Some(TypeDef::Union(s)) => record_nodes(t, node, s, address, readable),
        Some(TypeDef::Pointer(inner)) => target_nodes(t, node, inner),
        Some(TypeDef::Reference(inner)) => target_nodes(t, node, inner),
        _ => Seq::empty(),
    }
}

/// The node for what a pointer points to, where that can be shown.
pub open spec fn target_nodes(t: TableView, node: NodeView, inner: TypeId) -> Seq<SymbolNodeView> {
    if opens(t.types, inner) {
        seq![described(t, node.child(StepView::Deref), "*"@, 0, inner)]
    } else {
        Seq::empty()
    }
}

/// The node for a tagged enum's discriminant, if it has one.
pub open spec fn discriminant_nodes(
    t: TableView,
    node: NodeView,
    part: crate::type_def::VariantPart,
    address: u64,
    readable: bool,
) -> Seq<SymbolNodeView> {
    match part.discriminant {
        Some(d) => seq![
            member_node(t, node, StepView::Discriminant, d, None, address, readable),
        ],
        None => Seq::empty(),
    }
}

/// A struct's members, or a tagged enum's discriminant and variants.
pub open spec fn record_nodes(
    t: TableView,
    node: NodeView,
    s: crate::type_def::StructDef,
    address: u64,
    readable: bool,
) -> Seq<SymbolNodeView> {
    match s.variant_part {
        Some(part) => discriminant_nodes(t, node, part, address, readable) + Seq::new(
            part.variants@.len(),
            |i: int| variant_node(t, node, part.variants@[i], address, readable),
        ),
        None => Seq::new(
            s.members@.len(),
            |i: int|
                member_node(
                    t,
                    node,
                    StepView::Member(s.members@[i].name@),
                    s.members@[i],
                    None,
                    address,
                    readable,
                ),
        ),
    }
}

/// The node for element `i` of an array.
pub open spec fn element_node(
    t: TableView,
    node: NodeView,
    element: TypeId,
    size: u64,
    address: u64,
    readable: bool,
    i: u64,
) -> SymbolNodeView {
    SymbolNodeView {
        readable,
        ..described(
            t,
            node.child(StepView::Index(i)),
            index_label(i),
            address.wrapping_add(i.wrapping_mul(size)),
            element,
        )
    }
}

/// The children of a value that is no live slice.
pub open spec fn plain_children(
    t: TableView,
    node: NodeView,
    at: ResolvedView,
    readable: bool,
    offset: u64,
    limit: u64,
) -> ChildrenView {
    let types = t.types;
    let def = plain_def(types, peeled(types, at.type_id));
    match def {
        Some(TypeDef::Array { element, count: Some(count) }) => {
            let size = match size_of_type(types, element) {
                Some(size) => size,
                None => 0,
            };
            let (from, to) = page(offset, limit, count);
            ChildrenView {
                nodes: Seq::new(
                    if from < to {
                        (to - from) as nat
                    } else {
                        0
                    },
                    |i: int|
                        element_node(
                            t,
                            node,
                            element,
                            size,
                            at.address,
                            readable,
                            (from + i) as u64,
                        ),
                ),
                total: count,
            }
        },
        _ => {
            let nodes = member_nodes(t, node, def, at.address, readable);
            ChildrenView { nodes, total: nodes.len() as u64 }
        },
    }
}

/// The nodes for the first `n` elements of a slice from `from` on, or why the
/// first that cannot be placed cannot.
pub open spec fn slice_nodes(
    t: TableView,
    node: NodeView,
    element: TypeId,
    pointer: u64,
    stride: u64,
    from: u64,
    n: nat,
) -> Result<Seq<SymbolNodeView>, Seq<char>>
    decreases n,
{
    if n == 0 {
        Ok(Seq::empty())
    } else {
        match slice_nodes(t, node, element, pointer, stride, from, (n - 1) as nat) {
            Err(reason) => Err(reason),
            Ok(before) => {
                let i = (from + n - 1) as u64;
                match element_address(pointer, i, stride) {
                    Err(reason) => Err(reason),
                    Ok(address) => Ok(
                        before.push(
                            described(
                                t,
                                node.child(StepView::SliceIndex(i)),
                                index_label(i),
                                address,
                                element,
                            ),
                        ),
                    ),
                }
            },
        }
    }
}

/// What asking for children comes to.
pub enum ChildrenOutcome {
    Read { address: u64, size: usize },
    Failed(TreeErrorView),
    Found(ChildrenView),
}

/// A reason why a node's children cannot be shown.
pub open spec fn bad_children(node: NodeView, reason: Seq<char>) -> ChildrenOutcome {
    ChildrenOutcome::Failed(TreeErrorView::BadStep { at: node.shown(), reason })
}

/// The children of a live slice.
pub open spec fn live_slice(
    elf: ElfInfo,
    node: NodeView,
    at: ResolvedView,
    s: Sequence,
    src: SourceView,
    used: nat,
    offset: u64,
    limit: u64,
) -> ChildrenOutcome {
    let t = elf.types@;
    let width = elf.spec_pointer_size();
    match src.next(used) {
        None => ChildrenOutcome::Read {
            address: at.address.wrapping_add(s.length_offset),
            size: width,
        },
        Some((Err(reason), _)) => bad_children(node, reason),
        Some((Ok(count), used)) => match src.next(used) {
            None => ChildrenOutcome::Read {
                address: at.address.wrapping_add(s.data_offset),
                size: width,
            },
            Some((Err(reason), _)) => bad_children(node, reason),
            Some((Ok(pointer), _)) => match size_of_type(t.types, s.element) {
                None => bad_children(node, "unknown slice element size"@),
                Some(stride) => {
                    let (from, to) = page(offset, limit, count);
                    let n = if from < to {
                        (to - from) as nat
                    } else {
                        0
                    };
                    match slice_nodes(t, node, s.element, pointer, stride, from, n) {
                        Err(reason) => bad_children(node, reason),
                        Ok(nodes) => ChildrenOutcome::Found(ChildrenView { nodes, total: count }),
                    }
                },
            },
        },
    }
}

/// At most this many elements, whatever limit is given.
pub open spec fn bounded_limit(limit: usize) -> u64 {
    if limit < MAX_CHILD_LIMIT {
        limit as u64
    } else {
        MAX_CHILD_LIMIT as u64
    }
}

/// What asking for a page of children comes to.
pub open spec fn children_outcome(
    elf: ElfInfo,
    node: NodeView,
    offset: u64,
    limit: usize,
    src: SourceView,
    live: bool,
) -> ChildrenOutcome {
    match resolution(elf, node, src, live) {
        WalkView::Read { address, size } => ChildrenOutcome::Read { address, size },
        WalkView::Failed(e) => ChildrenOutcome::Failed(e),
        WalkView::At(at, used) => {
            let limit = bounded_limit(limit);
            match sequence_of(elf.types@.types, at.type_id) {
                Some(s) => if live {
                    live_slice(elf, node, at, s, src, used, offset, limit)
                } else {
                    ChildrenOutcome::Found(
                        plain_children(
                            elf.types@,
                            node,
                            at,
                            symbol_of(elf, node).status.spec_is_readable(),
                            offset,
                            limit,
                        ),
                    )
                },
                None => ChildrenOutcome::Found(
                    plain_children(
                        elf.types@,
                        node,
                        at,
                        symbol_of(elf, node).status.spec_is_readable(),
                        offset,
                        limit,
                    ),
                ),
            }
        },
    }
}

/// Whether a result is an outcome.
pub open spec fn children_result(
    o: ChildrenOutcome,
    r: Progress<Result<Children, TreeError>>,
) -> bool {
    match o {
        ChildrenOutcome::Read { address, size } => r matches Progress::Read { address: a, size: s }
            && a == address && s == size,
        ChildrenOutcome::Failed(e) => r matches Progress::Done(Err(got)) && got@ == e,
        ChildrenOutcome::Found(c) => r matches Progress::Done(Ok(got)) && got@ == c,
    }
}

fn refuse_children(node: &NodeRef, reason: String) -> (r: Progress<Result<Children, TreeError>>)
    ensures
        children_result(bad_children(node@, reason@), r),
{
    Progress::Done(Err(TreeError::BadStep { at: node.to_text(), reason }))
}

/// The first of the elements that a page shows, and the first that it does not.
fn page_of(offset: u64, limit: u64, count: u64) -> (r: (u64, u64))
    ensures
        r == page(offset, limit, count),
{
    let end: u64 = offset.saturating_add(limit);
    (
        if offset < count {
            offset
        } else {
            count
        },
        if end < count {
            end
        } else {
            count
        },
    )
}

/// A slice whose element cannot be placed has no further nodes.
proof fn lemma_slice_nodes_stop(
    t: TableView,
    node: NodeView,
    element: TypeId,
    pointer: u64,
    stride: u64,
    from: u64,
    n: nat,
    m: nat,
)
    requires
        n <= m,
        slice_nodes(t, node, element, pointer, stride, from, n) is Err,
    ensures
        slice_nodes(t, node, element, pointer, stride, from, m) == slice_nodes(
            t,
            node,
            element,
            pointer,
            stride,
            from,
            n,
        ),
    decreases m - n,
{
    if n < m {
        lemma_slice_nodes_stop(t, node, element, pointer, stride, from, n, (m - 1) as nat);
    }
}

fn slice_page(
    table: &TypeTable,
    node: &NodeRef,
    element: TypeId,
    pointer: u64,
    stride: u64,
    from: u64,
    to: u64,
) -> (r: Result<Vec<SymbolNode>, String>)
    ensures
        slice_nodes(
            table@,
            node@,
            element,
            pointer,
            stride,
            from,
            if from < to {
                (to - from) as nat
            } else {
                0
            },
        ) == (match r {
            Ok(nodes) => Ok(node_views(nodes@)),
            Err(reason) => Err(reason@),
        }),
{
    let mut nodes: Vec<SymbolNode> = Vec::new();
    let mut i: u64 = from;
    assert(node_views(nodes@) =~= Seq::<SymbolNodeView>::empty());
    while i < to
        invariant
            from <= i,
            i <= to || i == from,
            slice_nodes(
                table@,
                node@,
                element,
                pointer,
                stride,
                from,
                (i - from) as nat,
            ) == Ok::<Seq<SymbolNodeView>, Seq<char>>(node_views(nodes@)),
        decreases to - i,
    {
        assert((from + (i - from + 1) - 1) as u64 == i);
        match address_of_element(pointer, i, stride) {
            Err(reason) => {
                proof {
                    lemma_slice_nodes_stop(
                        table@,
                        node@,
                        element,
                        pointer,
                        stride,
                        from,
                        (i - from + 1) as nat,
                        (to - from) as nat,
                    );
                }
                return Err(reason);
            },
            Ok(address) => {
                let ghost before = node_views(nodes@);
                let child: SymbolNode = describe(
                    table,
                    node.child(Step::SliceIndex(i)),
                    label_index(i),
                    address,
                    element,
                );
                nodes.push(child);
                assert(node_views(nodes@) =~= before.push(child@));
            },
        }
        i = i + 1;
    }
    Ok(nodes)
}

fn slice_children(
    elf: &ElfInfo,
    node: &NodeRef,
    at: &Resolved,
    s: Sequence,
    src: &Source<'_>,
    used: usize,
    offset: u64,
    limit: u64,
) -> (r: Progress<Result<Children, TreeError>>)
    requires
        src@.gave(used as nat),
    ensures
        children_result(
            live_slice(*elf, node@, at@, s, src@, used as nat, offset, limit),
            r,
        ),
{
    let ghost t = elf.types@;
    let width: usize = elf.pointer_size();
    let (count, used) = match src.ask(used) {
        None => {
            return Progress::Read {
                address: at.address.wrapping_add(s.length_offset),
                size: width,
            };
        },
        Some((Err(reason), _)) => {
            return refuse_children(node, reason);
        },
        Some((Ok(count), used)) => (count, used),
    };
    let pointer: u64 = match src.ask(used) {
        None => {
            return Progress::Read { address: at.address.wrapping_add(s.data_offset), size: width };
        },
        Some((Err(reason), _)) => {
            return refuse_children(node, reason);
        },
        Some((Ok(pointer), _)) => pointer,
    };
    let stride: u64 = match elf.types.type_size(s.element) {
        Some(stride) => stride,
        None => {
            return refuse_children(node, "unknown slice element size".to_owned());
        },
    };
    let (from, to) = page_of(offset, limit, count);
    match slice_page(&elf.types, node, s.element, pointer, stride, from, to) {
        Err(reason) => refuse_children(node, reason),
        Ok(nodes) => Progress::Done(Ok(Children { nodes, total: count })),
    }
}

/// A struct's members, or a tagged enum's discriminant and variants.
fn make_record_nodes(
    table: &TypeTable,
    node: &NodeRef,
    s: &crate::type_def::StructDef,
    address: u64,
    readable: bool,
) -> (r: Vec<SymbolNode>)
    ensures
        node_views(r@) == record_nodes(table@, node@, *s, address, readable),
{
    let mut nodes: Vec<SymbolNode> = Vec::new();
    match &s.variant_part {
        Some(part) => {
            let ghost head = discriminant_nodes(table@, node@, *part, address, readable);
            if let Some(d) = &part.discriminant {
                let child: SymbolNode = make_member_node(
                    table,
                    node,
                    Step::Discriminant,
                    d,
                    None,
                    address,
                    readable,
                );
                nodes.push(child);
            }
            assert(node_views(nodes@) =~= head);
            let mut i: usize = 0;
            while i < part.variants.len()
                invariant
                    i <= part.variants@.len(),
                    node_views(nodes@) == head + Seq::new(
                        i as nat,
                        |k: int|
                            variant_node(table@, node@, part.variants@[k], address, readable),
                    ),
                decreases part.variants@.len() - i,
            {
                let v: &VariantDef = &part.variants[i];
                let ghost before = node_views(nodes@);
                let mut child: SymbolNode = make_member_node(
                    table,
                    node,
                    Step::Variant(v.member.name.clone()),
                    &v.member,
                    v.discr_value,
                    address,
                    readable,
                );
                child.label = variant_label(table, v);
                child.location = match &v.location {
                    Some(location) => Some(location.clone()),
                    None => None,
                };
                nodes.push(child);
                i = i + 1;
                proof {
                    assert(child@ == variant_node(table@, node@, *v, address, readable));
                    assert(node_views(nodes@) =~= before.push(child@));
                    assert(node_views(nodes@) =~= head + Seq::new(
                        i as nat,
                        |k: int|
                            variant_node(table@, node@, part.variants@[k], address, readable),
                    ));
                }
            }
        },
        None => {
            let mut i: usize = 0;
            while i < s.members.len()
                invariant
                    i <= s.members@.len(),
                    node_views(nodes@) =~= Seq::new(
                        i as nat,
                        |k: int|
                            member_node(
                                table@,
                                node@,
                                StepView::Member(s.members@[k].name@),
                                s.members@[k],
                                None,
                                address,
                                readable,
                            ),
                    ),
                decreases s.members@.len() - i,
            {
                let m: &MemberDef = &s.members[i];
                let ghost before = node_views(nodes@);
                let child: SymbolNode = make_member_node(
                    table,
                    node,
                    Step::Member(m.name.clone()),
                    m,
                    None,
                    address,
                    readable,
                );
                nodes.push(child);
                i = i + 1;
                assert(node_views(nodes@) =~= before.push(child@));
            }
        },
    }
    nodes
}

fn make_array_nodes(
    table: &TypeTable,
    node: &NodeRef,
    element: TypeId,
    size: u64,
    address: u64,
    readable: bool,
    from: u64,
    to: u64,
) -> (r: Vec<SymbolNode>)
    ensures
        node_views(r@) == Seq::new(
            if from < to {
                (to - from) as nat
            } else {
                0
            },
            |i: int|
                element_node(
                    table@,
                    node@,
                    element,
                    size,
                    address,
                    readable,
                    (from + i) as u64,
                ),
        ),
{
    let mut nodes: Vec<SymbolNode> = Vec::new();
    let mut i: u64 = from;
    while i < to
        invariant
            from <= i,
            i <= to || i == from,
            node_views(nodes@) =~= Seq::new(
                (i - from) as nat,
                |k: int|
                    element_node(
                        table@,
                        node@,
                        element,
                        size,
                        address,
                        readable,
                        (from + k) as u64,
                    ),
            ),
        decreases to - i,
    {
        let ghost before = node_views(nodes@);
        let mut child: SymbolNode = describe(
            table,
            node.child(Step::Index(i)),
            label_index(i),
            address.wrapping_add(i.wrapping_mul(size)),
            element,
        );
        child.readable = readable;
        nodes.push(child);
        assert(node_views(nodes@) =~= before.push(child@));
        i = i + 1;
    }
    nodes
}

fn make_children(
    table: &TypeTable,
    node: &NodeRef,
    at: &Resolved,
    readable: bool,
    offset: u64,
    limit: u64,
) -> (r: Children)
    ensures
        r@ == plain_children(table@, node@, at@, readable, offset, limit),
{
    let nodes: Vec<SymbolNode> = match table.get(table.get_underlying(peel(table, at.type_id))) {
        Some(TypeDef::Struct(s)) => make_record_nodes(table, node, s, at.address, readable),
        Some(TypeDef::Union(s)) => make_record_nodes(table, node, s, at.address, readable),
        Some(TypeDef::Pointer(inner)) | Some(TypeDef::Reference(inner)) => {
            let mut nodes: Vec<SymbolNode> = Vec::new();
            if can_open(table, *inner) {
                let child: SymbolNode = describe(
                    table,
                    node.child(Step::Deref),
                    "*".to_owned(),
                    0,
                    *inner,
                );
                nodes.push(child);
                assert(node_views(nodes@) =~= seq![child@]);
            } else {
                assert(node_views(nodes@) =~= Seq::<SymbolNodeView>::empty());
            }
            nodes
        },
        Some(TypeDef::Array { element, count: Some(count) }) => {
            let size: u64 = match table.type_size(*element) {
                Some(size) => size,
                None => 0,
            };
            let (from, to) = page_of(offset, limit, *count);
            let nodes: Vec<SymbolNode> = make_array_nodes(
                table,
                node,
                *element,
                size,
                at.address,
                readable,
                from,
                to,
            );
            return Children { nodes, total: *count };
        },
        _ => {
            let none: Vec<SymbolNode> = Vec::new();
            assert(node_views(none@) =~= Seq::<SymbolNodeView>::empty());
            none
        },
    };
    let total: u64 = nodes.len() as u64;
    Children { nodes, total }
}

/// A page of a node's children: at most `limit` array or slice elements from
/// `offset` on, with the words its pointers were found to hold, in order.
pub fn children_page(
    elf: &ElfInfo,
    node: &NodeRef,
    offset: u64,
    limit: usize,
    src: &Source<'_>,
    live: bool,
) -> (r: Progress<Result<Children, TreeError>>)
    ensures
        children_result(children_outcome(*elf, node@, offset, limit, src@, live), r),
{
    let (walk, found) = resolve_with_memory(elf, node, src, live);
    let (at, used, sym) = match (walk, found) {
        (Walk::Read { address, size }, _) => {
            return Progress::Read { address, size };
        },
        (Walk::Failed(e), _) => {
            return Progress::Done(Err(e));
        },
        (Walk::At(at, used), Some(sym)) => (at, used, sym),
        (Walk::At(_, _), None) => {
            return Progress::Done(Err(TreeError::SymbolNotFound(node.symbol.clone())));
        },
    };
    let limit: u64 = if limit < MAX_CHILD_LIMIT {
        limit as u64
    } else {
        MAX_CHILD_LIMIT as u64
    };
    if live {
        if let Some(s) = sequence(&elf.types, at.type_id) {
            return slice_children(elf, node, &at, s, src, used, offset, limit);
        }
    }
    Progress::Done(Ok(make_children(&elf.types, node, &at, sym.is_readable(), offset, limit)))
}

/// Children of `node`, at most `limit` array elements (default [`DEFAULT_CHILD_LIMIT`]).
pub fn children(elf: &ElfInfo, node: &NodeRef, limit: Option<usize>) -> (r: Result<
    Children,
    TreeError,
>)
    ensures
        children_result(
            children_outcome(
                *elf,
                node@,
                0,
                match limit {
                    Some(limit) => limit,
                    None => DEFAULT_CHILD_LIMIT,
                },
                SourceView::Zero,
                false,
            ),
            Progress::Done(r),
        ),
{
    proof {
        lemma_never_waits(*elf, node@, SourceView::Zero, false);
    }
    let limit: usize = match limit {
        Some(limit) => limit,
        None => DEFAULT_CHILD_LIMIT,
    };
    match children_page(elf, node, 0, limit, &Source::Zero, false) {
        Progress::Done(r) => r,
        Progress::Read { .. } => Err(TreeError::SymbolNotFound(node.symbol.clone())),
    }
}

/// How far a child stands from the beginning of a value of this type.
pub open spec fn child_distance(types: Seq<TypeDef>, type_id: TypeId, step: StepView) -> int {
    let def = plain_def(types, peeled(types, type_id));
    match (step, def) {
        (StepView::Index(i), Some(TypeDef::Array { element, .. })) => i * (match size_of_type(
            types,
            element,
        ) {
            Some(size) => size,
            None => 0,
        }),
        _ => match step_member(def, step) {
            Ok((m, _)) => m.offset as int,
            Err(_) => 0,
        },
    }
}

/// A reference to a child begins with the walk to its parent.
proof fn lemma_walk_to_parent(
    elf: ElfInfo,
    sym: SymbolInfo,
    type_id: TypeId,
    node: NodeView,
    step: StepView,
    n: nat,
    src: SourceView,
    live: bool,
)
    requires
        n <= node.steps.len(),
    ensures
        walked(elf, sym, type_id, node.child(step), n, src, live) == walked(
            elf,
            sym,
            type_id,
            node,
            n,
            src,
            live,
        ),
    decreases n,
{
    if n > 0 {
        let child = node.child(step);
        lemma_walk_to_parent(elf, sym, type_id, node, step, (n - 1) as nat, src, live);
        assert(child.above(n - 1).steps =~= node.above(n - 1).steps);
        assert(child.steps[n - 1] == node.steps[n - 1]);
    }
}

/// A step that no pointer is read for leads from a node to where the innermost
/// value says.
proof fn lemma_step_from(
    elf: ElfInfo,
    node: NodeView,
    step: StepView,
    src: SourceView,
    at: ResolvedView,
    used: nat,
    to: ResolvedView,
)
    requires
        resolution(elf, node, src, false) == WalkView::At(at, used),
        !step.follows_pointer(),
        step !is Task,
        entered(elf.types@.types, peeled(elf.types@.types, at.type_id), at.address, step) == Ok::<
            ResolvedView,
            Seq<char>,
        >(to),
    ensures
        resolution(elf, node.child(step), src, false) == WalkView::At(to, used),
{
    let child = node.child(step);
    let sym = symbol_of(elf, node);
    let type_id = sym.type_id->0;
    let n = node.steps.len();
    let types = elf.types@.types;
    assert(child.steps.drop_last() =~= node.steps);
    assert(child.steps.last() == step);
    lemma_walk_to_parent(elf, sym, type_id, node, step, n, src, false);
    lemma_chain_not_empty(types, at.type_id, MAX_WRAPPERS as nat);
    let chain = chain_of(types, at.type_id);
    assert(chain[chain.len() - 1] == chain.last());
    assert(entered_outward(types, chain, chain.len(), at.address, step) == Some(to));
}

/// A member that no earlier child shares its reference with is the one that its
/// step names.
proof fn lemma_record_child(
    t: TableView,
    node: NodeView,
    s: crate::type_def::StructDef,
    address: u64,
    readable: bool,
    i: int,
)
    requires
        0 <= i < record_nodes(t, node, s, address, readable).len(),
        forall|k: int|
            0 <= k < i ==> (#[trigger] record_nodes(t, node, s, address, readable)[k]).node
                != record_nodes(t, node, s, address, readable)[i].node,
    ensures
        ({
            let child = record_nodes(t, node, s, address, readable)[i];
            let step = child.node.steps.last();
            &&& child.node == node.child(step)
            &&& step is Member || step is Variant || step is Discriminant
            &&& s.variant_part is None ==> step is Member
            &&& step_member(Some(TypeDef::Struct(s)), step) matches Ok((m, discr_value))
            &&& child == (SymbolNodeView {
                label: child.label,
                location: child.location,
                ..member_node(t, node, step, m, discr_value, address, readable)
            })
            &&& step !is Variant ==> child == member_node(
                t,
                node,
                step,
                m,
                discr_value,
                address,
                readable,
            )
        }),
{
    let all = record_nodes(t, node, s, address, readable);
    let child = all[i];
    match s.variant_part {
        None => {
            let name = s.members@[i].name@;
            assert(child.node == node.child(StepView::Member(name)));
            assert forall|k: int| 0 <= k < i implies !member_named(name)(
                #[trigger] s.members@[k],
            ) by {
                assert(all[k].node == node.child(StepView::Member(s.members@[k].name@)));
            }
            lemma_first_is(s.members@, member_named(name), i);
        },
        Some(part) => {
            let head = discriminant_nodes(t, node, part, address, readable).len() as int;
            if i < head {
                assert(child.node == node.child(StepView::Discriminant));
            } else {
                let j = i - head;
                let v = part.variants@[j];
                let name = v.member.name@;
                assert(child == variant_node(t, node, v, address, readable));
                assert(child.node == node.child(StepView::Variant(name)));
                assert forall|k: int| 0 <= k < j implies !variant_named(name)(
                    #[trigger] part.variants@[k],
                ) by {
                    let other = part.variants@[k];
                    assert(all[head + k] == variant_node(t, node, other, address, readable));
                    assert(all[head + k].node == node.child(
                        StepView::Variant(other.member.name@),
                    ));
                }
                lemma_first_is(part.variants@, variant_named(name), j);
            }
        },
    }
}

/// What a record's child is found as, where its step leads.
proof fn lemma_record_child_entered(
    elf: ElfInfo,
    node: NodeView,
    def: TypeDef,
    s: crate::type_def::StructDef,
    at: ResolvedView,
    i: int,
)
    requires
        ({
            let readable = symbol_of(elf, node).status.spec_is_readable();
            let all = record_nodes(elf.types@, node, s, at.address, readable);
            let types = elf.types@.types;
            &&& 0 <= i < all.len()
            &&& forall|k: int| 0 <= k < i ==> (#[trigger] all[k]).node != all[i].node
            &&& plain_def(types, peeled(types, at.type_id)) == Some(def)
            &&& def == TypeDef::Struct(s) || def == TypeDef::Union(s) && s.variant_part is None
            &&& at.address + child_distance(types, at.type_id, all[i].node.steps.last())
                <= u64::MAX
        }),
    ensures
        ({
            let readable = symbol_of(elf, node).status.spec_is_readable();
            let child = record_nodes(elf.types@, node, s, at.address, readable)[i];
            let types = elf.types@.types;
            let step = child.node.steps.last();
            &&& child.node == node.child(step)
            &&& !step.follows_pointer() && step !is Task
            &&& entered(types, peeled(types, at.type_id), at.address, step) matches Ok(to)
            &&& leads_to(elf, child, symbol_of(elf, node), to)
        }),
{
    let readable = symbol_of(elf, node).status.spec_is_readable();
    lemma_record_child(elf.types@, node, s, at.address, readable, i);
    let child = record_nodes(elf.types@, node, s, at.address, readable)[i];
    let step = child.node.steps.last();
    assert(step_member(Some(def), step) == step_member(Some(TypeDef::Struct(s)), step));
}

/// What an array's element is found as, where its step leads.
proof fn lemma_element_entered(
    elf: ElfInfo,
    node: NodeView,
    element: TypeId,
    count: u64,
    at: ResolvedView,
    k: u64,
)
    requires
        ({
            let types = elf.types@.types;
            &&& plain_def(types, peeled(types, at.type_id)) == Some(
                TypeDef::Array { element, count: Some(count) },
            )
            &&& k < count
            &&& at.address + child_distance(types, at.type_id, StepView::Index(k)) <= u64::MAX
        }),
    ensures
        ({
            let types = elf.types@.types;
            let sym = symbol_of(elf, node);
            let size = match size_of_type(types, element) {
                Some(size) => size,
                None => 0,
            };
            let child = element_node(
                elf.types@,
                node,
                element,
                size,
                at.address,
                sym.status.spec_is_readable(),
                k,
            );
            &&& entered(types, peeled(types, at.type_id), at.address, StepView::Index(k))
                matches Ok(to)
            &&& leads_to(elf, child, sym, to)
        }),
{
    let size = match size_of_type(elf.types@.types, element) {
        Some(size) => size,
        None => 0,
    };
    assert(k * size >= 0) by (nonlinear_arith);
    assert(k.wrapping_mul(size) == k * size);
    assert(at.address.wrapping_add(k.wrapping_mul(size)) == at.address + k * size);
}

/// Whether a place is that of a child: what is found there differs from the child
/// at most in how it is labelled and where its status and source come from.
pub open spec fn leads_to(
    elf: ElfInfo,
    child: SymbolNodeView,
    sym: SymbolInfo,
    to: ResolvedView,
) -> bool {
    let found = node_at(elf, child.node, sym, to);
    &&& found == (SymbolNodeView {
        label: found.label,
        status: found.status,
        location: found.location,
        ..child
    })
    &&& child.node.steps.last() !is Variant ==> found.label == child.label
}

/// The reference of a child leads to the child: same place, same type, same bits.
/// Left out are a pointer's target, whose address only memory knows; a member
/// behind another of its name, which is found in its place; a union with
/// variants; and a child beyond the end of the address space.
#[verifier::spinoff_prover]
#[verifier::rlimit(40)]
pub proof fn lemma_child_is_found(
    elf: ElfInfo,
    node: NodeView,
    offset: u64,
    limit: usize,
    src: SourceView,
    at: ResolvedView,
    used: nat,
    i: int,
)
    requires
        resolution(elf, node, src, false) == WalkView::At(at, used),
        ({
            let all = plain_children(
                elf.types@,
                node,
                at,
                symbol_of(elf, node).status.spec_is_readable(),
                offset,
                bounded_limit(limit),
            ).nodes;
            let types = elf.types@.types;
            &&& 0 <= i < all.len()
            &&& all[i].node.steps.last() !is Deref
            &&& forall|k: int| 0 <= k < i ==> (#[trigger] all[k]).node != all[i].node
            &&& !(plain_def(types, peeled(types, at.type_id)) matches Some(TypeDef::Union(s))
                && s.variant_part is Some)
            &&& at.address + child_distance(types, at.type_id, all[i].node.steps.last())
                <= u64::MAX
        }),
    ensures
        children_outcome(elf, node, offset, limit, src, false) matches ChildrenOutcome::Found(c)
            && resolution(elf, c.nodes[i].node, src, false) matches WalkView::At(to, _)
            && leads_to(elf, c.nodes[i], symbol_of(elf, node), to),
{
    let types = elf.types@.types;
    let readable = symbol_of(elf, node).status.spec_is_readable();
    let all = plain_children(elf.types@, node, at, readable, offset, bounded_limit(limit)).nodes;
    let inner = peeled(types, at.type_id);
    let child = all[i];
    let step = child.node.steps.last();
    let to = entered(types, inner, at.address, step)->Ok_0;
    match plain_def(types, inner) {
        Some(TypeDef::Array { element, count: Some(count) }) => {
            let (from, _) = page(offset, bounded_limit(limit), count);
            let k = (from + i) as u64;
            assert(child.node == node.child(StepView::Index(k)));
            lemma_element_entered(elf, node, element, count, at, k);
            lemma_step_from(elf, node, step, src, at, used, to);
        },
        Some(TypeDef::Struct(s)) => {
            lemma_record_child_entered(elf, node, TypeDef::Struct(s), s, at, i);
            lemma_step_from(elf, node, step, src, at, used, to);
        },
        Some(TypeDef::Union(s)) => {
            lemma_record_child_entered(elf, node, TypeDef::Union(s), s, at, i);
            lemma_step_from(elf, node, step, src, at, used, to);
        },
        _ => {},
    }
}

/// A child agrees with the node that its reference leads to: they have the same
/// path, address, size, type, kind and number. Left out are those that
/// [`lemma_child_is_found`] leaves out.
pub proof fn lemma_child_agrees_with_its_node(
    elf: ElfInfo,
    node: NodeView,
    offset: u64,
    limit: usize,
    src: SourceView,
    at: ResolvedView,
    used: nat,
    i: int,
)
    requires
        resolution(elf, node, src, false) == WalkView::At(at, used),
        ({
            let all = plain_children(
                elf.types@,
                node,
                at,
                symbol_of(elf, node).status.spec_is_readable(),
                offset,
                bounded_limit(limit),
            ).nodes;
            let types = elf.types@.types;
            &&& 0 <= i < all.len()
            &&& all[i].node.steps.last() !is Deref
            &&& forall|k: int| 0 <= k < i ==> (#[trigger] all[k]).node != all[i].node
            &&& !(plain_def(types, peeled(types, at.type_id)) matches Some(TypeDef::Union(s))
                && s.variant_part is Some)
            &&& at.address + child_distance(types, at.type_id, all[i].node.steps.last())
                <= u64::MAX
        }),
    ensures
        children_outcome(elf, node, offset, limit, src, false) matches ChildrenOutcome::Found(c)
            && resolution(elf, c.nodes[i].node, src, false) matches WalkView::At(to, _) && {
            let child = c.nodes[i];
            let found = node_at(elf, child.node, symbol_of(elf, node), to);
            &&& found.path == child.path
            &&& found.address == child.address
            &&& found.size == child.size
            &&& found.type_text == child.type_text
            &&& found.kind == child.kind
            &&& found.scalar == child.scalar
            &&& found.child_count == child.child_count
        },
{
    lemma_child_is_found(elf, node, offset, limit, src, at, used, i);
}

/// The smaller of two numbers.
pub open spec fn least(a: int, b: int) -> int {
    if a <= b {
        a
    } else {
        b
    }
}

/// Children are counted right: where a node says how many it has, that is their
/// total. Of an array's elements a page shows those from its start on, at most
/// as many as it is limited to and never more than [`MAX_CHILD_LIMIT`]; of
/// anything else it shows all. Left out is a union with variants, whose members
/// are counted.
pub proof fn lemma_children_are_counted(
    elf: ElfInfo,
    node: NodeView,
    offset: u64,
    limit: usize,
    src: SourceView,
    at: ResolvedView,
    used: nat,
)
    requires
        resolution(elf, node, src, false) == WalkView::At(at, used),
        match plain_def(elf.types@.types, peeled(elf.types@.types, at.type_id)) {
            Some(TypeDef::Struct(s)) => s.members@.len() < u64::MAX && (s.variant_part matches Some(
                part,
            ) ==> part.variants@.len() < u64::MAX),
            Some(TypeDef::Union(s)) => s.members@.len() < u64::MAX && s.variant_part is None,
            _ => true,
        },
    ensures
        children_outcome(elf, node, offset, limit, src, false) matches ChildrenOutcome::Found(c) && {
            let shown = node_at(elf, node, symbol_of(elf, node), at);
            let def = plain_def(elf.types@.types, peeled(elf.types@.types, at.type_id));
            &&& shown.child_count matches Some(n) ==> c.total == n
            &&& match def {
                Some(TypeDef::Array { count: Some(n), .. }) => c.nodes.len() == least(
                    n - least(offset as int, n as int),
                    least(limit as int, MAX_CHILD_LIMIT as int),
                ),
                _ => c.nodes.len() == c.total,
            }
        },
{
}

/// Children come in order: an array's elements from the page's start on, a
/// struct's members as they are defined, and of a tagged enum the discriminant
/// first and then the variants as they are defined.
pub proof fn lemma_children_in_order(
    elf: ElfInfo,
    node: NodeView,
    offset: u64,
    limit: usize,
    src: SourceView,
    at: ResolvedView,
    used: nat,
)
    requires
        resolution(elf, node, src, false) == WalkView::At(at, used),
    ensures
        children_outcome(elf, node, offset, limit, src, false) matches ChildrenOutcome::Found(c)
            && match plain_def(elf.types@.types, peeled(elf.types@.types, at.type_id)) {
            Some(TypeDef::Array { count: Some(_), .. }) => forall|i: int|
                0 <= i < c.nodes.len() ==> (#[trigger] c.nodes[i]).node == node.child(
                    StepView::Index((offset + i) as u64),
                ),
            Some(TypeDef::Struct(s)) => record_in_order(node, s, c.nodes),
            Some(TypeDef::Union(s)) => record_in_order(node, s, c.nodes),
            _ => true,
        },
{
}

/// Whether these are a record's children in order.
pub open spec fn record_in_order(
    node: NodeView,
    s: crate::type_def::StructDef,
    nodes: Seq<SymbolNodeView>,
) -> bool {
    match s.variant_part {
        Some(part) => {
            let first: int = if part.discriminant is Some {
                1
            } else {
                0
            };
            &&& nodes.len() == first + part.variants@.len()
            &&& first == 1 ==> nodes[0].node == node.child(StepView::Discriminant)
            &&& forall|i: int|
                first <= i < nodes.len() ==> (#[trigger] nodes[i]).node == node.child(
                    StepView::Variant(part.variants@[i - first].member.name@),
                )
        },
        None => {
            &&& nodes.len() == s.members@.len()
            &&& forall|i: int|
                0 <= i < nodes.len() ==> (#[trigger] nodes[i]).node == node.child(
                    StepView::Member(s.members@[i].name@),
                )
        },
    }
}

} // verus!
