//! The values under a node that can be sampled.

use vstd::prelude::*;
use vstd::string::*;
use crate::browse::{children, node, DEFAULT_CHILD_LIMIT};
#[allow(unused_imports)]
use crate::browse::{children_outcome, node_at, node_views, symbol_of, ChildrenOutcome};
use crate::catalog::ReadItem;
use crate::elf::ElfInfo;
use crate::node_ref::{NodeRef, Step};
#[allow(unused_imports)]
use crate::node_ref::{step_views, NodeView, StepView, TreeErrorView};
use crate::tree::{NodeKind, SymbolNode};
#[allow(unused_imports)]
use crate::tree::{resolution, SourceView, SymbolNodeView, WalkView};
use crate::variable_type::VariableType;

verus! {

/// Values collected before it stops.
pub const MAX_LEAVES: usize = 256;

/// Bytes of a number; what is no single number has none.
pub open spec fn spec_scalar_len(t: VariableType) -> Option<u64> {
    match t {
        VariableType::Bool => Some(1),
        VariableType::U8 => Some(1),
        VariableType::I8 => Some(1),
        VariableType::U16 => Some(2),
        VariableType::I16 => Some(2),
        VariableType::U32 => Some(4),
        VariableType::I32 => Some(4),
        VariableType::F32 => Some(4),
        VariableType::U64 => Some(8),
        VariableType::I64 => Some(8),
        VariableType::F64 => Some(8),
        VariableType::Raw(_) => None,
    }
}

/// Bytes of a number; what is no single number has none.
pub fn scalar_len(t: VariableType) -> (r: Option<u64>)
    ensures
        r == spec_scalar_len(t),
{
    match t {
        VariableType::Bool => Some(1),
        VariableType::U8 => Some(1),
        VariableType::I8 => Some(1),
        VariableType::U16 => Some(2),
        VariableType::I16 => Some(2),
        VariableType::U32 => Some(4),
        VariableType::I32 => Some(4),
        VariableType::F32 => Some(4),
        VariableType::U64 => Some(8),
        VariableType::I64 => Some(8),
        VariableType::F64 => Some(8),
        VariableType::Raw(_) => None,
    }
}

/// The node that a reference names, without target memory.
pub open spec fn plain_node(elf: ElfInfo, at: NodeView) -> Result<SymbolNodeView, TreeErrorView> {
    match resolution(elf, at, SourceView::Refusing, false) {
        WalkView::At(found, _) => Ok(node_at(elf, at, symbol_of(elf, at), found)),
        WalkView::Failed(e) => Err(e),
        WalkView::Read { .. } => Err(TreeErrorView::SymbolNotFound(at.symbol)),
    }
}

/// The children of a node, without target memory.
pub open spec fn plain_nodes_below(elf: ElfInfo, at: NodeView) -> Result<
    Seq<SymbolNodeView>,
    TreeErrorView,
> {
    match children_outcome(elf, at, 0, DEFAULT_CHILD_LIMIT, SourceView::Zero, false) {
        ChildrenOutcome::Found(c) => Ok(c.nodes),
        ChildrenOutcome::Failed(e) => Err(e),
        ChildrenOutcome::Read { .. } => Err(TreeErrorView::SymbolNotFound(at.symbol)),
    }
}

/// Whether a node is a single number.
pub open spec fn is_number(n: SymbolNodeView) -> bool {
    n.scalar matches Some(s) && spec_scalar_len(s) is Some
}

/// Where the tag of a tagged enum stands among its children.
pub open spec fn tag_among(nodes: Seq<SymbolNodeView>) -> Option<int>
    decreases nodes.len(),
{
    if nodes.len() == 0 {
        None
    } else if tag_among(nodes.drop_last()) is Some {
        tag_among(nodes.drop_last())
    } else if nodes.last().node.steps.len() > 0 && nodes.last().node.steps.last()
        == StepView::Discriminant {
        Some(nodes.len() - 1)
    } else {
        None
    }
}

/// The numbers under a node after those found before, depth first, until there
/// are enough. A tagged enum's payload depends on the live tag, so only the tag
/// is taken. Types nest no deeper than `n` further levels.
pub open spec fn leaves(
    elf: ElfInfo,
    at: SymbolNodeView,
    before: Seq<SymbolNodeView>,
    n: nat,
) -> Result<Seq<SymbolNodeView>, Seq<char>>
    decreases n, 1nat, 0nat,
{
    if before.len() >= MAX_LEAVES || !at.readable {
        Ok(before)
    } else {
        match at.kind {
            NodeKind::Scalar => Ok(
                if is_number(at) {
                    before.push(at)
                } else {
                    before
                },
            ),
            NodeKind::Enum => Ok(
                if is_number(at) {
                    before.push(at)
                } else {
                    before
                },
            ),
            NodeKind::TaggedEnum => match plain_nodes_below(elf, at.node) {
                Err(e) => Err(e.shown()),
                Ok(nodes) => match tag_among(nodes) {
                    Some(i) => if n == 0 {
                        Ok(before)
                    } else {
                        leaves(elf, nodes[i], before, (n - 1) as nat)
                    },
                    None => Ok(before),
                },
            },
            NodeKind::Struct => match plain_nodes_below(elf, at.node) {
                Err(e) => Err(e.shown()),
                Ok(nodes) => leaves_below(elf, nodes, before, n, nodes.len()),
            },
            NodeKind::Array => match plain_nodes_below(elf, at.node) {
                Err(e) => Err(e.shown()),
                Ok(nodes) => leaves_below(elf, nodes, before, n, nodes.len()),
            },
            _ => Ok(before),
        }
    }
}

/// The numbers under the first `k` nodes after those found before.
pub open spec fn leaves_below(
    elf: ElfInfo,
    nodes: Seq<SymbolNodeView>,
    before: Seq<SymbolNodeView>,
    n: nat,
    k: nat,
) -> Result<Seq<SymbolNodeView>, Seq<char>>
    decreases n, 0nat, k,
{
    if n == 0 || k == 0 {
        Ok(before)
    } else {
        match leaves_below(elf, nodes, before, n, (k - 1) as nat) {
            Err(text) => Err(text),
            Ok(found) => leaves(elf, nodes[k - 1], found, (n - 1) as nat),
        }
    }
}

fn nodes_below(elf: &ElfInfo, at: &NodeRef) -> (r: Result<Vec<SymbolNode>, String>)
    ensures
        match plain_nodes_below(*elf, at@) {
            Ok(nodes) => r matches Ok(found) && node_views(found@) == nodes,
            Err(e) => r matches Err(text) && text@ == e.shown(),
        },
{
    match children(elf, at, None) {
        Ok(found) => Ok(found.nodes),
        Err(e) => Err(e.to_text()),
    }
}

/// Once found, the tag stays the tag.
proof fn lemma_tag_stays(nodes: Seq<SymbolNodeView>, n: int)
    requires
        0 <= n <= nodes.len(),
        tag_among(nodes.take(n)) is Some,
    ensures
        tag_among(nodes) == tag_among(nodes.take(n)),
    decreases nodes.len() - n,
{
    if n == nodes.len() {
        assert(nodes.take(n) =~= nodes);
    } else {
        assert(nodes.take(n + 1).drop_last() =~= nodes.take(n));
        lemma_tag_stays(nodes, n + 1);
    }
}

fn find_tag(nodes: &Vec<SymbolNode>) -> (r: Option<usize>)
    ensures
        tag_among(node_views(nodes@)) == (match r {
            Some(i) => Some(i as int),
            None => None,
        }),
        r matches Some(i) ==> i < nodes@.len(),
{
    let ghost views = node_views(nodes@);
    let mut i: usize = 0;
    assert(views.take(0) =~= Seq::<SymbolNodeView>::empty());
    while i < nodes.len()
        invariant
            i <= nodes@.len(),
            views == node_views(nodes@),
            tag_among(views.take(i as int)) is None,
        decreases nodes@.len() - i,
    {
        proof {
            assert(views.take(i + 1).drop_last() =~= views.take(i as int));
            assert(views.take(i + 1).last() == nodes@[i as int]@);
        }
        let steps: &Vec<Step> = &nodes[i].node.steps;
        let len: usize = steps.len();
        if len > 0 {
            assert(step_views(steps@).last() == steps@[len - 1]@);
            if let Step::Discriminant = steps[len - 1] {
                proof {
                    lemma_tag_stays(views, i + 1);
                }
                return Some(i);
            }
        }
        i = i + 1;
    }
    assert(views.take(views.len() as int) =~= views);
    None
}

/// A failure stops what follows.
proof fn lemma_leaves_fail(
    elf: ElfInfo,
    nodes: Seq<SymbolNodeView>,
    before: Seq<SymbolNodeView>,
    n: nat,
    k: nat,
    count: nat,
)
    requires
        k <= count,
        leaves_below(elf, nodes, before, n, k) is Err,
    ensures
        leaves_below(elf, nodes, before, n, count) == leaves_below(elf, nodes, before, n, k),
    decreases count,
{
    if k < count {
        lemma_leaves_fail(elf, nodes, before, n, k, (count - 1) as nat);
    }
}

/// Collects the numbers under these nodes.
fn collect_below(
    elf: &ElfInfo,
    nodes: Vec<SymbolNode>,
    out: &mut Vec<SymbolNode>,
    n: usize,
) -> (r: Result<(), String>)
    ensures
        match leaves_below(
            *elf,
            node_views(nodes@),
            node_views(old(out)@),
            n as nat,
            nodes@.len(),
        ) {
            Ok(found) => r is Ok && node_views(final(out)@) == found,
            Err(text) => r matches Err(e) && e@ == text,
        },
    decreases n, 0nat,
{
    if n == 0 {
        return Ok(());
    }
    let ghost all = node_views(nodes@);
    let ghost start = node_views(out@);
    let mut rest: Vec<SymbolNode> = nodes;
    let count: usize = rest.len();
    let mut k: usize = 0;
    while k < count
        invariant
            k <= count == all.len(),
            rest@.len() == count - k,
            n > 0,
            forall|i: int| 0 <= i < rest@.len() ==> (#[trigger] rest@[i])@ == all[k + i],
            leaves_below(*elf, all, start, n as nat, k as nat) == Ok::<
                Seq<SymbolNodeView>,
                Seq<char>,
            >(node_views(out@)),
            all == node_views(nodes@),
            start == node_views(old(out)@),
        decreases count - k,
    {
        assert(rest@[0]@ == all[k as int]);
        let ghost left = rest@;
        let child = rest.remove(0);
        assert forall|i: int| 0 <= i < rest@.len() implies (#[trigger] rest@[i])@ == all[k + 1
            + i] by {
            assert(rest@[i] == left[i + 1]);
        }
        if let Err(e) = collect_leaves(elf, child, out, n - 1) {
            proof {
                lemma_leaves_fail(*elf, all, start, n as nat, (k + 1) as nat, count as nat);
            }
            return Err(e);
        }
        k = k + 1;
    }
    Ok(())
}

/// Collects the numbers under a node.
fn collect_leaves(elf: &ElfInfo, at: SymbolNode, out: &mut Vec<SymbolNode>, n: usize) -> (r: Result<
    (),
    String,
>)
    ensures
        match leaves(*elf, at@, node_views(old(out)@), n as nat) {
            Ok(found) => r is Ok && node_views(final(out)@) == found,
            Err(text) => r matches Err(e) && e@ == text,
        },
    decreases n, 1nat,
{
    if out.len() >= MAX_LEAVES || !at.readable {
        return Ok(());
    }
    match at.kind {
        NodeKind::Scalar | NodeKind::Enum => {
            let number: bool = match at.scalar {
                Some(s) => scalar_len(s).is_some(),
                None => false,
            };
            if number {
                out.push(at);
                assert(node_views(out@) =~= node_views(old(out)@).push(at@));
            }
            Ok(())
        },
        NodeKind::TaggedEnum => {
            let mut nodes: Vec<SymbolNode> = match nodes_below(elf, &at.node) {
                Ok(nodes) => nodes,
                Err(e) => {
                    return Err(e);
                },
            };
            let ghost views = node_views(nodes@);
            match find_tag(&nodes) {
                Some(i) => if n == 0 {
                    Ok(())
                } else {
                    assert(views[i as int] == nodes@[i as int]@);
                    let tag = nodes.remove(i);
                    collect_leaves(elf, tag, out, n - 1)
                },
                None => Ok(()),
            }
        },
        NodeKind::Struct | NodeKind::Array => {
            let nodes: Vec<SymbolNode> = match nodes_below(elf, &at.node) {
                Ok(nodes) => nodes,
                Err(e) => {
                    return Err(e);
                },
            };
            collect_below(elf, nodes, out, n)
        },
        _ => Ok(()),
    }
}

/// Numeric leaves under `at` (the node itself when it is one), depth first.
pub fn watchable_leaves(elf: &ElfInfo, at: &NodeRef) -> (r: Result<Vec<SymbolNode>, String>)
    ensures
        match plain_node(*elf, at@) {
            Err(e) => r matches Err(text) && text@ == e.shown(),
            Ok(start) => match leaves(*elf, start, Seq::empty(), elf.types@.types.len()) {
                Ok(found) => r matches Ok(out) && node_views(out@) == found,
                Err(text) => r matches Err(e) && e@ == text,
            },
        },
{
    let start: SymbolNode = match node(elf, at) {
        Ok(start) => start,
        Err(e) => {
            return Err(e.to_text());
        },
    };
    let mut out: Vec<SymbolNode> = Vec::new();
    assert(node_views(out@) =~= Seq::<SymbolNodeView>::empty());
    match collect_leaves(elf, start, &mut out, elf.types.len()) {
        Ok(()) => Ok(out),
        Err(e) => Err(e),
    }
}

/// What keeps a node from being sampled, or how it is.
pub open spec fn item_for(n: SymbolNodeView) -> Result<ReadItem, Seq<char>> {
    if !n.readable {
        Err(
            match n.status {
                Some(status) => status,
                None => "not readable"@,
            },
        )
    } else if !is_number(n) {
        Err(n.type_text + " is not a single number"@)
    } else {
        Ok(
            ReadItem {
                id: 0,
                address: n.address,
                scalar: n.scalar->0,
                bit_offset: n.bit_offset,
                bit_size: n.bit_size,
            },
        )
    }
}

/// How a node is sampled.
pub fn read_item(n: SymbolNode) -> (r: Result<ReadItem, String>)
    ensures
        match item_for(n@) {
            Ok(item) => r == Ok::<ReadItem, String>(item),
            Err(text) => r matches Err(e) && e@ == text,
        },
{
    if !n.readable {
        return Err(
            match n.status {
                Some(status) => status,
                None => "not readable".to_owned(),
            },
        );
    }
    if let Some(scalar) = n.scalar {
        if scalar_len(scalar).is_some() {
            return Ok(
                ReadItem {
                    id: 0,
                    address: n.address,
                    scalar,
                    bit_offset: n.bit_offset,
                    bit_size: n.bit_size,
                },
            );
        }
    }
    let mut out: String = n.type_text;
    out.append(" is not a single number");
    Err(out)
}

/// No more values are collected than there is room for, whatever the tree.
pub proof fn lemma_leaves_bounded(
    elf: ElfInfo,
    at: SymbolNodeView,
    before: Seq<SymbolNodeView>,
    n: nat,
)
    requires
        before.len() <= MAX_LEAVES,
    ensures
        leaves(elf, at, before, n) matches Ok(found) ==> found.len() <= MAX_LEAVES,
    decreases n, 1nat, 0nat,
{
    if before.len() < MAX_LEAVES && at.readable {
        if let Ok(nodes) = plain_nodes_below(elf, at.node) {
            lemma_leaves_below_bounded(elf, nodes, before, n, nodes.len());
            if n > 0 {
                if let Some(i) = tag_among(nodes) {
                    lemma_leaves_bounded(elf, nodes[i], before, (n - 1) as nat);
                }
            }
        }
    }
}

proof fn lemma_leaves_below_bounded(
    elf: ElfInfo,
    nodes: Seq<SymbolNodeView>,
    before: Seq<SymbolNodeView>,
    n: nat,
    k: nat,
)
    requires
        before.len() <= MAX_LEAVES,
    ensures
        leaves_below(elf, nodes, before, n, k) matches Ok(found) ==> found.len() <= MAX_LEAVES,
    decreases n, 0nat, k,
{
    if n > 0 && k > 0 {
        lemma_leaves_below_bounded(elf, nodes, before, n, (k - 1) as nat);
        if let Ok(found) = leaves_below(elf, nodes, before, n, (k - 1) as nat) {
            lemma_leaves_bounded(elf, nodes[k - 1], found, (n - 1) as nat);
        }
    }
}

} // verus!
