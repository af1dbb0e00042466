//! Browse statics as a tree: roots are variables, children are struct members,
//! array elements and enum variants, expanded one level at a time.
//!
//! Nodes are addressed by [`NodeRef`] (symbol path plus steps), never by address,
//! so a reference stays meaningful after a rebuild moves things around.
//! Pointer children describe types; live addresses require [`node_with_memory`].
//!
//! Wrappers that only hold one value (`AtomicU32`, `UnsafeCell`, `Cell`,
//! `MaybeUninit`, embassy's blocking `Mutex`, newtypes) are shown through: a
//! node has the type of the value inside, and its children are that value's.
//! A reference therefore names members of the innermost type; one that names a
//! wrapper's own member still resolves.
//!
//! An embassy task pool is untyped bytes; [`Step::Task`] reads one of its slots
//! as the task's storage.
//!
//! Reading target memory is the caller's: a function that needs a word says
//! which ([`Progress::Read`]), and is called again with one more answer.

use vstd::prelude::*;
use vstd::string::*;
use crate::elf::{ElfInfo, SymbolInfo, TaskStorage};
#[allow(unused_imports)]
use crate::elf::symbol_named;
use crate::node_ref::{NodeRef, Step, TreeError};
#[allow(unused_imports)]
use crate::node_ref::{NodeView, StepView, TreeErrorView};
use crate::text::{push_decimal, same_text};
#[allow(unused_imports)]
use crate::search::{count, first};
#[allow(unused_imports)]
use crate::text::decimal;
use crate::type_def::{MemberDef, SourceLocation, StructDef, TypeDef, TypeId, VariantPart};
use crate::type_table::TypeTable;
#[allow(unused_imports)]
use crate::type_table::{size_of_type, underlying_at, variable_type_in, TableView};
use crate::variable_type::VariableType;
use crate::wrappers::{find_member, find_variant, peel, sequence, wrapper_chain, Sequence};
#[allow(unused_imports)]
use crate::wrappers::{chain_of, member_named, peeled, plain_def, sequence_of, variant_named};

verus! {

/// Most pointers one reference may follow.
pub const MAX_POINTERS: usize = 8;

#[derive(Debug, Clone, Copy, PartialEq, Eq, Structural)]
pub enum NodeKind {
    /// Integer, float or bool
    Scalar,
    /// C-like enum stored as an integer
    Enum,
    /// Rust enum with data (`DW_TAG_variant_part`)
    TaggedEnum,
    Struct,
    Union,
    Array,
    Pointer,
    Function,
    Other,
}

#[derive(Debug)]
pub struct SymbolNode {
    pub node: NodeRef,
    /// Display label: short symbol name, member name, `[i]` or variant name
    pub label: String,
    /// `node` rendered as a string
    pub path: String,
    pub address: u64,
    pub size: Option<u64>,
    /// Name of the type
    pub type_text: String,
    /// Outermost type when the node shows through wrappers, e.g. `Atomic<u32>`
    pub wrapper: Option<String>,
    pub kind: NodeKind,
    /// How to decode the bytes when the node is a single value
    pub scalar: Option<VariableType>,
    /// Rust str/slice fat pointer with DWARF data_ptr and length fields.
    pub sequence: bool,
    pub expandable: bool,
    /// Members / elements / variants, when known
    pub child_count: Option<u64>,
    pub readable: bool,
    /// Why the node cannot be read, when it cannot
    pub status: Option<String>,
    pub bit_offset: Option<u64>,
    pub bit_size: Option<u64>,
    /// For variant nodes: the tag value selecting this variant (`None` = default)
    pub discr_value: Option<u64>,
    /// For variant nodes: where the variant is declared; an `async fn` suspend
    /// variant's is its `.await`
    pub location: Option<SourceLocation>,
}

/// A node by its content.
pub struct SymbolNodeView {
    pub node: NodeView,
    pub label: Seq<char>,
    pub path: Seq<char>,
    pub address: u64,
    pub size: Option<u64>,
    pub type_text: Seq<char>,
    pub wrapper: Option<Seq<char>>,
    pub kind: NodeKind,
    pub scalar: Option<VariableType>,
    pub sequence: bool,
    pub expandable: bool,
    pub child_count: Option<u64>,
    pub readable: bool,
    pub status: Option<Seq<char>>,
    pub bit_offset: Option<u64>,
    pub bit_size: Option<u64>,
    pub discr_value: Option<u64>,
    pub location: Option<SourceLocation>,
}

/// The content of an optional text.
pub open spec fn text_in(s: Option<String>) -> Option<Seq<char>> {
    match s {
        Some(s) => Some(s@),
        None => None,
    }
}

impl View for SymbolNode {
    type V = SymbolNodeView;

    open spec fn view(&self) -> SymbolNodeView {
        SymbolNodeView {
            node: self.node@,
            label: self.label@,
            path: self.path@,
            address: self.address,
            size: self.size,
            type_text: self.type_text@,
            wrapper: text_in(self.wrapper),
            kind: self.kind,
            scalar: self.scalar,
            sequence: self.sequence,
            expandable: self.expandable,
            child_count: self.child_count,
            readable: self.readable,
            status: text_in(self.status),
            bit_offset: self.bit_offset,
            bit_size: self.bit_size,
            discr_value: self.discr_value,
            location: self.location,
        }
    }
}

/// What kind of node a definition makes, and how many children, when known.
pub open spec fn kind_of(types: Seq<TypeDef>, def: Option<TypeDef>) -> (NodeKind, Option<u64>) {
    match def {
        Some(TypeDef::Primitive(_)) => (NodeKind::Scalar, None),
        Some(TypeDef::Enum(_)) => (NodeKind::Enum, None),
        Some(TypeDef::Struct(s)) => match s.variant_part {
            Some(p) => (
                NodeKind::TaggedEnum,
                Some(
                    (p.variants@.len() as u64).saturating_add(
                        if p.discriminant is Some {
                            1
                        } else {
                            0
                        },
                    ),
                ),
            ),
            None => (NodeKind::Struct, Some(s.members@.len() as u64)),
        },
        Some(TypeDef::Union(s)) => (NodeKind::Union, Some(s.members@.len() as u64)),
        Some(TypeDef::Array { count, .. }) => (NodeKind::Array, count),
        Some(TypeDef::Pointer(inner)) => (NodeKind::Pointer, pointer_children(types, inner)),
        Some(TypeDef::Reference(inner)) => (NodeKind::Pointer, pointer_children(types, inner)),
        Some(TypeDef::Subroutine { .. }) => (NodeKind::Function, None),
        _ => (NodeKind::Other, None),
    }
}

/// Whether what a pointer points to can be shown: nothing is known of what a void
/// pointer points to, and a function has no value.
pub open spec fn opens(types: Seq<TypeDef>, inner: TypeId) -> bool {
    !(plain_def(types, inner) matches Some(TypeDef::Void)) && !(plain_def(types, inner) matches Some(
        TypeDef::Subroutine { .. },
    ))
}

/// Whether what a pointer points to can be shown.
pub fn can_open(table: &TypeTable, inner: TypeId) -> (r: bool)
    ensures
        r == opens(table@.types, inner),
{
    match table.get(table.get_underlying(inner)) {
        Some(TypeDef::Void) => false,
        Some(TypeDef::Subroutine { .. }) => false,
        _ => true,
    }
}

/// A pointer has one child where it points to something with a size that can be
/// shown.
pub open spec fn pointer_children(types: Seq<TypeDef>, inner: TypeId) -> Option<u64> {
    match size_of_type(types, inner) {
        Some(size) => if size > 0 && opens(types, inner) {
            Some(1)
        } else {
            None
        },
        None => None,
    }
}

/// The node for a value of type `outer` at `address`.
pub open spec fn described(
    t: TableView,
    node: NodeView,
    label: Seq<char>,
    address: u64,
    outer: TypeId,
) -> SymbolNodeView {
    let types = t.types;
    let id = peeled(types, outer);
    let (kind, child_count) = kind_of(types, plain_def(types, id));
    let is_sequence = sequence_of(types, outer) is Some;
    SymbolNodeView {
        node,
        label,
        path: node.shown(),
        address,
        size: size_of_type(types, id),
        type_text: t.name_at(id, 0),
        wrapper: if id != outer {
            Some(t.name_at(outer, 0))
        } else {
            None
        },
        kind,
        scalar: if kind == NodeKind::Scalar || kind == NodeKind::Enum || kind == NodeKind::Pointer {
            Some(variable_type_in(types, underlying_at(types, id, 0), types.len()))
        } else {
            None
        },
        sequence: is_sequence,
        expandable: is_sequence || (child_count matches Some(n) && n > 0),
        child_count,
        readable: true,
        status: None,
        bit_offset: None,
        bit_size: None,
        discr_value: None,
        location: None,
    }
}

fn pointer_child_count(table: &TypeTable, inner: TypeId) -> (r: Option<u64>)
    ensures
        r == pointer_children(table@.types, inner),
{
    match table.type_size(inner) {
        Some(size) => if size > 0 && can_open(table, inner) {
            Some(1)
        } else {
            None
        },
        None => None,
    }
}

/// The node for a value of type `outer` at `address`.
pub fn describe(
    table: &TypeTable,
    node: NodeRef,
    label: String,
    address: u64,
    outer: TypeId,
) -> (r: SymbolNode)
    ensures
        r@ == described(table@, node@, label@, address, outer),
{
    let type_id: TypeId = peel(table, outer);
    let plain: TypeId = table.get_underlying(type_id);
    let (kind, child_count): (NodeKind, Option<u64>) = match table.get(plain) {
        Some(TypeDef::Primitive(_)) => (NodeKind::Scalar, None),
        Some(TypeDef::Enum(_)) => (NodeKind::Enum, None),
        Some(TypeDef::Struct(s)) => match &s.variant_part {
            Some(p) => (
                NodeKind::TaggedEnum,
                Some(
                    (p.variants.len() as u64).saturating_add(
                        if p.discriminant.is_some() {
                            1
                        } else {
                            0
                        },
                    ),
                ),
            ),
            None => (NodeKind::Struct, Some(s.members.len() as u64)),
        },
        Some(TypeDef::Union(s)) => (NodeKind::Union, Some(s.members.len() as u64)),
        Some(TypeDef::Array { count, .. }) => (NodeKind::Array, *count),
        Some(TypeDef::Pointer(inner)) => (NodeKind::Pointer, pointer_child_count(table, *inner)),
        Some(TypeDef::Reference(inner)) => (NodeKind::Pointer, pointer_child_count(table, *inner)),
        Some(TypeDef::Subroutine { .. }) => (NodeKind::Function, None),
        _ => (NodeKind::Other, None),
    };
    let scalar: Option<VariableType> = if kind == NodeKind::Scalar || kind == NodeKind::Enum
        || kind == NodeKind::Pointer {
        Some(table.to_variable_type(plain))
    } else {
        None
    };
    let is_sequence: bool = sequence(table, outer).is_some();
    let has_children: bool = match child_count {
        Some(n) => n > 0,
        None => false,
    };
    SymbolNode {
        path: node.to_text(),
        node,
        label,
        address,
        size: table.type_size(type_id),
        type_text: table.type_display_name(type_id),
        wrapper: if type_id != outer {
            Some(table.type_display_name(outer))
        } else {
            None
        },
        kind,
        scalar,
        sequence: is_sequence,
        expandable: is_sequence || has_children,
        child_count,
        readable: true,
        status: None,
        bit_offset: None,
        bit_size: None,
        discr_value: None,
        location: None,
    }
}

/// A place in memory that a reference leads to.
#[derive(Debug)]
pub struct Resolved {
    pub label: String,
    pub address: u64,
    pub type_id: TypeId,
    pub bit_offset: Option<u64>,
    pub bit_size: Option<u64>,
    pub discr_value: Option<u64>,
}

/// A place by its content.
pub struct ResolvedView {
    pub label: Seq<char>,
    pub address: u64,
    pub type_id: TypeId,
    pub bit_offset: Option<u64>,
    pub bit_size: Option<u64>,
    pub discr_value: Option<u64>,
}

impl View for Resolved {
    type V = ResolvedView;

    open spec fn view(&self) -> ResolvedView {
        ResolvedView {
            label: self.label@,
            address: self.address,
            type_id: self.type_id,
            bit_offset: self.bit_offset,
            bit_size: self.bit_size,
            discr_value: self.discr_value,
        }
    }
}

/// A whole value, not a bit field or a variant.
pub open spec fn place(label: Seq<char>, address: u64, type_id: TypeId) -> ResolvedView {
    ResolvedView {
        label,
        address,
        type_id,
        bit_offset: None,
        bit_size: None,
        discr_value: None,
    }
}

fn new_place(label: String, address: u64, type_id: TypeId) -> (r: Resolved)
    ensures
        r@ == place(label@, address, type_id),
{
    Resolved { label, address, type_id, bit_offset: None, bit_size: None, discr_value: None }
}

/// The label of element `i`.
pub open spec fn index_label(i: u64) -> Seq<char> {
    "["@ + decimal(i as nat) + "]"@
}

pub fn label_index(i: u64) -> (r: String)
    ensures
        r@ == index_label(i),
{
    let mut out: String = "[".to_owned();
    push_decimal(&mut out, i);
    out.append("]");
    out
}

/// The member that a step names, and the tag value that selects it.
pub open spec fn step_member(def: Option<TypeDef>, step: StepView) -> Result<
    (MemberDef, Option<u64>),
    Seq<char>,
> {
    match (step, def) {
        (StepView::Member(name), Some(TypeDef::Struct(s))) => named_member(s, name),
        (StepView::Member(name), Some(TypeDef::Union(s))) => named_member(s, name),
        (StepView::Variant(name), Some(TypeDef::Struct(s))) => match s.variant_part {
            Some(part) => match first(part.variants@, variant_named(name)) {
                Some(i) => Ok((part.variants@[i].member, part.variants@[i].discr_value)),
                None => Err("no variant `"@ + name + "`"@),
            },
            None => Err("no variant `"@ + name + "`"@),
        },
        (StepView::Discriminant, Some(TypeDef::Struct(s))) => match s.variant_part {
            Some(part) => match part.discriminant {
                Some(d) => Ok((d, None)),
                None => Err("not a tagged enum"@),
            },
            None => Err("not a tagged enum"@),
        },
        (StepView::Task(_), _) => Err("only a task pool has task slots"@),
        _ => Err("step does not match the type"@),
    }
}

/// The member of a struct or union with this name.
pub open spec fn named_member(s: StructDef, name: Seq<char>) -> Result<
    (MemberDef, Option<u64>),
    Seq<char>,
> {
    match first(s.members@, member_named(name)) {
        Some(i) => Ok((s.members@[i], None)),
        None => Err("no member `"@ + name + "`"@),
    }
}

/// Where `step` leads from a value of type `type_id` at `address`.
pub open spec fn entered(
    types: Seq<TypeDef>,
    type_id: TypeId,
    address: u64,
    step: StepView,
) -> Result<ResolvedView, Seq<char>> {
    let def = plain_def(types, type_id);
    match (step, def) {
        (StepView::Index(i), Some(TypeDef::Array { element, count })) => {
            let size = match size_of_type(types, element) {
                Some(size) => size,
                None => 0,
            };
            if count matches Some(n) && i >= n {
                Err("index "@ + decimal(i as nat) + " out of bounds"@)
            } else if i * size > u64::MAX {
                Err("array offset overflow"@)
            } else if address + i * size > u64::MAX {
                Err("address overflow"@)
            } else {
                Ok(place(index_label(i), (address + i * size) as u64, element))
            }
        },
        _ => match step_member(def, step) {
            Err(reason) => Err(reason),
            Ok((m, discr_value)) => if address + m.offset > u64::MAX {
                Err("address overflow"@)
            } else {
                Ok(
                    ResolvedView {
                        label: if step is Discriminant {
                            "<discriminant>"@
                        } else {
                            m.name@
                        },
                        address: (address + m.offset) as u64,
                        type_id: m.type_id,
                        bit_offset: m.bit_offset,
                        bit_size: m.bit_size,
                        discr_value,
                    },
                )
            },
        },
    }
}

/// A quoted name behind a reason.
fn quoted(reason: &str, name: &str) -> (r: String)
    ensures
        r@ == reason@ + name@ + "`"@,
{
    let mut out: String = reason.to_owned();
    out.append(name);
    out.append("`");
    out
}

/// Finds the member that a step names, and the tag value that selects it.
fn find_step_member<'a>(def: Option<&'a TypeDef>, step: &Step) -> (r: Result<
    (&'a MemberDef, Option<u64>),
    String,
>)
    ensures
        step_member(
            match def {
                Some(def) => Some(*def),
                None => None,
            },
            step@,
        ) == (match r {
            Ok((m, discr)) => Ok((*m, discr)),
            Err(reason) => Err(reason@),
        }),
{
    match (step, def) {
        (Step::Member(name), Some(TypeDef::Struct(s))) => {
            match find_member(s.members.as_slice(), name.as_str()) {
                Some(i) => Ok((&s.members[i], None)),
                None => Err(quoted("no member `", name.as_str())),
            }
        },
        (Step::Member(name), Some(TypeDef::Union(s))) => {
            match find_member(s.members.as_slice(), name.as_str()) {
                Some(i) => Ok((&s.members[i], None)),
                None => Err(quoted("no member `", name.as_str())),
            }
        },
        (Step::Variant(name), Some(TypeDef::Struct(s))) => match &s.variant_part {
            Some(part) => match find_variant(part.variants.as_slice(), name.as_str()) {
                Some(i) => Ok((&part.variants[i].member, part.variants[i].discr_value)),
                None => Err(quoted("no variant `", name.as_str())),
            },
            None => Err(quoted("no variant `", name.as_str())),
        },
        (Step::Discriminant, Some(TypeDef::Struct(s))) => match &s.variant_part {
            Some(part) => match &part.discriminant {
                Some(d) => Ok((d, None)),
                None => Err("not a tagged enum".to_owned()),
            },
            None => Err("not a tagged enum".to_owned()),
        },
        (Step::Task(_), _) => Err("only a task pool has task slots".to_owned()),
        _ => Err("step does not match the type".to_owned()),
    }
}

/// Take `step` from a value of type `type_id` at `address`.
fn enter(table: &TypeTable, type_id: TypeId, address: u64, step: &Step) -> (r: Result<
    Resolved,
    String,
>)
    ensures
        entered(table@.types, type_id, address, step@) == (match r {
            Ok(at) => Ok(at@),
            Err(reason) => Err(reason@),
        }),
{
    let def: Option<&TypeDef> = table.get(table.get_underlying(type_id));
    if let (Step::Index(i), Some(TypeDef::Array { element, count })) = (step, def) {
        if let Some(n) = count {
            if *i >= *n {
                let mut out: String = "index ".to_owned();
                push_decimal(&mut out, *i);
                out.append(" out of bounds");
                return Err(out);
            }
        }
        let size: u64 = match table.type_size(*element) {
            Some(size) => size,
            None => 0,
        };
        let offset: u64 = match i.checked_mul(size) {
            Some(offset) => offset,
            None => {
                return Err("array offset overflow".to_owned());
            },
        };
        return match address.checked_add(offset) {
            Some(at) => Ok(new_place(label_index(*i), at, *element)),
            None => Err("address overflow".to_owned()),
        };
    }
    match find_step_member(def, step) {
        Err(reason) => Err(reason),
        Ok((m, discr_value)) => match address.checked_add(m.offset) {
            None => Err("address overflow".to_owned()),
            Some(at) => Ok(
                Resolved {
                    label: match step {
                        Step::Discriminant => "<discriminant>".to_owned(),
                        _ => m.name.clone(),
                    },
                    address: at,
                    type_id: m.type_id,
                    bit_offset: m.bit_offset,
                    bit_size: m.bit_size,
                    discr_value,
                },
            ),
        },
    }
}

/// Where `step` leads from the innermost of the first `n` types of a chain
/// that it fits.
pub open spec fn entered_outward(
    types: Seq<TypeDef>,
    chain: Seq<TypeId>,
    n: nat,
    address: u64,
    step: StepView,
) -> Option<ResolvedView>
    decreases n,
{
    if n == 0 {
        None
    } else {
        match entered(types, chain[n - 1], address, step) {
            Ok(at) => Some(at),
            Err(_) => entered_outward(types, chain, (n - 1) as nat, address, step),
        }
    }
}

/// Where `step` leads from a value, innermost wrapper first: that is what the
/// tree hands out. Outer levels match references that step through a wrapper's
/// own members. What the innermost says counts where none fits.
pub open spec fn entered_any(
    types: Seq<TypeDef>,
    type_id: TypeId,
    address: u64,
    step: StepView,
) -> Result<ResolvedView, Seq<char>> {
    let chain = chain_of(types, type_id);
    match entered_outward(types, chain, chain.len(), address, step) {
        Some(at) => Ok(at),
        None => Err(entered(types, chain.last(), address, step)->Err_0),
    }
}

fn enter_any(table: &TypeTable, type_id: TypeId, address: u64, step: &Step) -> (r: Result<
    Resolved,
    String,
>)
    ensures
        entered_any(table@.types, type_id, address, step@) == (match r {
            Ok(at) => Ok(at@),
            Err(reason) => Err(reason@),
        }),
{
    let ghost types = table@.types;
    let chain: Vec<TypeId> = wrapper_chain(table, type_id);
    let ghost all = chain@.len();
    let last: usize = chain.len() - 1;
    match enter(table, chain[last], address, step) {
        Ok(at) => Ok(at),
        Err(reason) => {
            let mut n: usize = last;
            while n > 0
                invariant
                    n <= last < chain@.len(),
                    types == table@.types,
                    all == chain@.len(),
                    chain@ == chain_of(types, type_id),
                    entered_outward(types, chain@, n as nat, address, step@) == entered_outward(
                        types,
                        chain@,
                        all,
                        address,
                        step@,
                    ),
                decreases n,
            {
                if let Ok(at) = enter(table, chain[n - 1], address, step) {
                    return Ok(at);
                }
                n = n - 1;
            }
            Err(reason)
        },
    }
}

/// Where the words that pointers are read from come from.
#[derive(Debug, Copy, Clone)]
pub enum Source<'a> {
    /// Nowhere: every read fails
    Refusing,
    /// Every word is zero
    Zero,
    /// What the target answered to each read in turn
    Answers(&'a [Result<u64, String>]),
}

/// A source by its content.
pub enum SourceView {
    Refusing,
    Zero,
    Answers(Seq<Result<u64, Seq<char>>>),
}

/// The contents of a list of answers.
pub open spec fn answer_views(list: Seq<Result<u64, String>>) -> Seq<Result<u64, Seq<char>>> {
    Seq::new(
        list.len(),
        |i: int|
            match list[i] {
                Ok(word) => Ok(word),
                Err(reason) => Err(reason@),
            },
    )
}

impl View for Source<'_> {
    type V = SourceView;

    open spec fn view(&self) -> SourceView {
        match self {
            Source::Refusing => SourceView::Refusing,
            Source::Zero => SourceView::Zero,
            Source::Answers(list) => SourceView::Answers(answer_views(list@)),
        }
    }
}

impl SourceView {
    /// The next answer after `used` have been used, and how many are used then;
    /// none where it has not been given yet.
    pub open spec fn next(self, used: nat) -> Option<(Result<u64, Seq<char>>, nat)> {
        match self {
            SourceView::Refusing => Some((Err("pointer following requires live memory"@), used)),
            SourceView::Zero => Some((Ok(0u64), used)),
            SourceView::Answers(list) => if used < list.len() {
                Some((list[used as int], used + 1))
            } else {
                None
            },
        }
    }

    /// Whether `used` answers have been given.
    pub open spec fn gave(self, used: nat) -> bool {
        self matches SourceView::Answers(list) ==> used <= list.len()
    }
}

impl Source<'_> {
    pub fn ask(&self, used: usize) -> (r: Option<(Result<u64, String>, usize)>)
        requires
            self@.gave(used as nat),
        ensures
            self@.next(used as nat) == (match r {
                Some((Ok(word), n)) => Some((Ok(word), n as nat)),
                Some((Err(reason), n)) => Some((Err(reason@), n as nat)),
                None => None,
            }),
            r matches Some((_, n)) ==> self@.gave(n as nat),
    {
        match self {
            Source::Refusing => Some(
                (Err("pointer following requires live memory".to_owned()), used),
            ),
            Source::Zero => Some((Ok(0), used)),
            Source::Answers(list) => {
                if used >= list.len() {
                    return None;
                }
                let answer: Result<u64, String> = match &list[used] {
                    Ok(word) => Ok(*word),
                    Err(reason) => Err(reason.clone()),
                };
                Some((answer, used + 1))
            },
        }
    }
}

/// How far a walk has come.
#[derive(Debug)]
pub enum Walk {
    /// It needs the word at this address
    Read { address: u64, size: usize },
    Failed(TreeError),
    /// It stands here, after using so many answers
    At(Resolved, usize),
}

/// A walk by its content.
pub enum WalkView {
    Read { address: u64, size: usize },
    Failed(TreeErrorView),
    At(ResolvedView, nat),
}

impl View for Walk {
    type V = WalkView;

    open spec fn view(&self) -> WalkView {
        match self {
            Walk::Read { address, size } => WalkView::Read { address: *address, size: *size },
            Walk::Failed(e) => WalkView::Failed(e@),
            Walk::At(at, used) => WalkView::At(at@, *used as nat),
        }
    }
}

/// A step that cannot be taken.
pub open spec fn bad_step(at: NodeView, reason: Seq<char>) -> WalkView {
    WalkView::Failed(TreeErrorView::BadStep { at: at.shown(), reason })
}

fn refuse(at: NodeRef, reason: String) -> (r: Walk)
    ensures
        r@ == bad_step(at@, reason@),
{
    Walk::Failed(TreeError::BadStep { at: at.to_text(), reason })
}

/// Slot `slot` of a task pool, typed as the task's storage.
pub open spec fn task_entered(sym: SymbolInfo, walked: NodeView, slot: u64, used: nat) -> WalkView {
    if walked.steps.len() > 0 {
        bad_step(walked, "only a task pool has task slots"@)
    } else {
        match sym.task_storage {
            None => bad_step(walked, "not an embassy task pool with a known task type"@),
            Some(storage) => if slot >= storage.slots {
                bad_step(
                    walked,
                    "task slot "@ + decimal(slot as nat) + " out of bounds; the pool holds "@
                        + decimal(storage.slots as nat),
                )
            } else {
                WalkView::At(
                    place(
                        "[task "@ + decimal(slot as nat) + "]"@,
                        sym.address.wrapping_add(slot.wrapping_mul(storage.size)),
                        storage.type_id,
                    ),
                    used,
                )
            },
        }
    }
}

fn enter_task(sym: &SymbolInfo, walked: NodeRef, slot: u64, used: usize) -> (r: Walk)
    ensures
        r@ == task_entered(*sym, walked@, slot, used as nat),
{
    if walked.steps.len() > 0 {
        return refuse(walked, "only a task pool has task slots".to_owned());
    }
    let storage: TaskStorage = match sym.task_storage {
        Some(storage) => storage,
        None => {
            return refuse(walked, "not an embassy task pool with a known task type".to_owned());
        },
    };
    if slot >= storage.slots {
        let mut out: String = "task slot ".to_owned();
        push_decimal(&mut out, slot);
        out.append(" out of bounds; the pool holds ");
        push_decimal(&mut out, storage.slots);
        return refuse(walked, out);
    }
    let mut label: String = "[task ".to_owned();
    push_decimal(&mut label, slot);
    label.append("]");
    Walk::At(
        new_place(
            label,
            sym.address.wrapping_add(slot.wrapping_mul(storage.size)),
            storage.type_id,
        ),
        used,
    )
}

/// The address of element `i`, or why there is none.
pub open spec fn element_address(pointer: u64, i: u64, stride: u64) -> Result<u64, Seq<char>> {
    if i * stride > u64::MAX {
        Err("slice offset overflow"@)
    } else if pointer + i * stride > u64::MAX {
        Err("slice address overflow"@)
    } else {
        Ok((pointer + i * stride) as u64)
    }
}

pub fn address_of_element(pointer: u64, i: u64, stride: u64) -> (r: Result<u64, String>)
    ensures
        element_address(pointer, i, stride) == (match r {
            Ok(at) => Ok(at),
            Err(reason) => Err(reason@),
        }),
{
    match i.checked_mul(stride) {
        None => Err("slice offset overflow".to_owned()),
        Some(offset) => match pointer.checked_add(offset) {
            None => Err("slice address overflow".to_owned()),
            Some(at) => Ok(at),
        },
    }
}

/// What a walk does with the next word, read at `address`.
pub open spec fn with_word(
    src: SourceView,
    used: nat,
    address: u64,
    size: usize,
    walked: NodeView,
) -> Result<(u64, nat), WalkView> {
    match src.next(used) {
        None => Err(WalkView::Read { address, size }),
        Some((Err(reason), _)) => Err(bad_step(walked, reason)),
        Some((Ok(word), n)) => Ok((word, n)),
    }
}

fn read_word(
    src: &Source<'_>,
    used: usize,
    address: u64,
    size: usize,
    node: &NodeRef,
    k: usize,
) -> (r: Result<(u64, usize), Walk>)
    requires
        src@.gave(used as nat),
        k <= node@.steps.len(),
    ensures
        with_word(src@, used as nat, address, size, node@.above(k as int)) == (match r {
            Ok((word, n)) => Ok((word, n as nat)),
            Err(walk) => Err(walk@),
        }),
        r matches Ok((_, n)) ==> src@.gave(n as nat),
{
    match src.ask(used) {
        None => Err(Walk::Read { address, size }),
        Some((Err(reason), _)) => Err(refuse(node.prefix(k), reason)),
        Some((Ok(word), n)) => Ok((word, n)),
    }
}

/// Element `i` of a borrowed slice.
pub open spec fn slice_entered(
    elf: ElfInfo,
    at: ResolvedView,
    i: u64,
    walked: NodeView,
    src: SourceView,
    used: nat,
    live: bool,
) -> WalkView {
    let types = elf.types@.types;
    let width = elf.spec_pointer_size();
    match sequence_of(types, at.type_id) {
        None => bad_step(walked, "not a slice"@),
        Some(s) => match with_word(
            src,
            used,
            at.address.wrapping_add(s.length_offset),
            width,
            walked,
        ) {
            Err(walk) => walk,
            Ok((length, used)) => if live && i >= length {
                bad_step(walked, "slice index out of bounds"@)
            } else {
                match with_word(
                    src,
                    used,
                    at.address.wrapping_add(s.data_offset),
                    width,
                    walked,
                ) {
                    Err(walk) => walk,
                    Ok((pointer, used)) => if live && pointer == 0 {
                        bad_step(walked, "null slice pointer"@)
                    } else {
                        match size_of_type(types, s.element) {
                            None => bad_step(walked, "unknown element size"@),
                            Some(stride) => match element_address(pointer, i, stride) {
                                Err(reason) => bad_step(walked, reason),
                                Ok(address) => WalkView::At(
                                    place(index_label(i), address, s.element),
                                    used,
                                ),
                            },
                        }
                    },
                }
            },
        },
    }
}

fn enter_slice(
    elf: &ElfInfo,
    at: &Resolved,
    i: u64,
    node: &NodeRef,
    k: usize,
    src: &Source<'_>,
    used: usize,
    live: bool,
) -> (r: Walk)
    requires
        src@.gave(used as nat),
        k <= node@.steps.len(),
    ensures
        r@ == slice_entered(*elf, at@, i, node@.above(k as int), src@, used as nat, live),
        r@ matches WalkView::At(_, n) ==> src@.gave(n),
{
    let width: usize = elf.pointer_size();
    let s: Sequence = match sequence(&elf.types, at.type_id) {
        Some(s) => s,
        None => {
            return refuse(node.prefix(k), "not a slice".to_owned());
        },
    };
    let (length, used) = match read_word(
        src,
        used,
        at.address.wrapping_add(s.length_offset),
        width,
        node,
        k,
    ) {
        Ok(v) => v,
        Err(walk) => {
            return walk;
        },
    };
    if live && i >= length {
        return refuse(node.prefix(k), "slice index out of bounds".to_owned());
    }
    let (pointer, used) = match read_word(
        src,
        used,
        at.address.wrapping_add(s.data_offset),
        width,
        node,
        k,
    ) {
        Ok(v) => v,
        Err(walk) => {
            return walk;
        },
    };
    if live && pointer == 0 {
        return refuse(node.prefix(k), "null slice pointer".to_owned());
    }
    let stride: u64 = match elf.types.type_size(s.element) {
        Some(stride) => stride,
        None => {
            return refuse(node.prefix(k), "unknown element size".to_owned());
        },
    };
    match address_of_element(pointer, i, stride) {
        Err(reason) => refuse(node.prefix(k), reason),
        Ok(address) => Walk::At(new_place(label_index(i), address, s.element), used),
    }
}

/// What a pointer or reference points to.
pub open spec fn target_of(def: Option<TypeDef>) -> Option<TypeId> {
    match def {
        Some(TypeDef::Pointer(inner)) => Some(inner),
        Some(TypeDef::Reference(inner)) => Some(inner),
        _ => None,
    }
}

/// What a pointer points to, as target memory has it now.
pub open spec fn pointer_entered(
    elf: ElfInfo,
    sym: SymbolInfo,
    at: ResolvedView,
    walked: NodeView,
    src: SourceView,
    used: nat,
    live: bool,
) -> WalkView {
    let types = elf.types@.types;
    if !sym.status.spec_is_readable() {
        bad_step(walked, "not readable"@)
    } else {
        match target_of(plain_def(types, peeled(types, at.type_id))) {
            None => bad_step(walked, "not a pointer"@),
            Some(inner) => match with_word(
                src,
                used,
                at.address,
                elf.spec_pointer_size(),
                walked,
            ) {
                Err(walk) => walk,
                Ok((address, used)) => if live && address == 0 {
                    bad_step(walked, "null pointer"@)
                } else {
                    WalkView::At(place("*"@, address, inner), used)
                },
            },
        }
    }
}

fn enter_pointer(
    elf: &ElfInfo,
    sym: &SymbolInfo,
    at: &Resolved,
    node: &NodeRef,
    k: usize,
    src: &Source<'_>,
    used: usize,
    live: bool,
) -> (r: Walk)
    requires
        src@.gave(used as nat),
        k <= node@.steps.len(),
    ensures
        r@ == pointer_entered(*elf, *sym, at@, node@.above(k as int), src@, used as nat, live),
        r@ matches WalkView::At(_, n) ==> src@.gave(n),
{
    if !sym.is_readable() {
        return refuse(node.prefix(k), "not readable".to_owned());
    }
    let inner: TypeId = match elf.types.get(
        elf.types.get_underlying(peel(&elf.types, at.type_id)),
    ) {
        Some(TypeDef::Pointer(inner)) => *inner,
        Some(TypeDef::Reference(inner)) => *inner,
        _ => {
            return refuse(node.prefix(k), "not a pointer".to_owned());
        },
    };
    let (address, used) = match read_word(src, used, at.address, elf.pointer_size(), node, k) {
        Ok(v) => v,
        Err(walk) => {
            return walk;
        },
    };
    if live && address == 0 {
        return refuse(node.prefix(k), "null pointer".to_owned());
    }
    Walk::At(new_place("*".to_owned(), address, inner), used)
}

/// The variants of a value's type, if it is a tagged enum.
pub open spec fn variants_of(types: Seq<TypeDef>, type_id: TypeId) -> Option<VariantPart> {
    match plain_def(types, peeled(types, type_id)) {
        Some(TypeDef::Struct(s)) => s.variant_part,
        _ => None,
    }
}

/// The bytes of a tag.
pub open spec fn tag_size(types: Seq<TypeDef>, d: MemberDef) -> usize {
    (match size_of_type(types, d.type_id) {
        Some(size) => size,
        None => 0,
    }) as usize
}

/// Whether the variant `name` is the one whose payload the value holds now;
/// where it is, how many answers that took to know.
pub open spec fn variant_checked(
    elf: ElfInfo,
    at: ResolvedView,
    name: Seq<char>,
    walked: NodeView,
    src: SourceView,
    used: nat,
) -> Result<nat, WalkView> {
    let types = elf.types@.types;
    match variants_of(types, at.type_id) {
        None => Ok(used),
        Some(part) => {
            let tag = match part.discriminant {
                None => Ok((0u64, used)),
                Some(d) => with_word(
                    src,
                    used,
                    at.address.wrapping_add(d.offset),
                    tag_size(types, d),
                    walked,
                ),
            };
            match tag {
                Err(walk) => Err(walk),
                Ok((tag, used)) => match part.spec_select(tag) {
                    None => Err(bad_step(walked, "inactive variant"@)),
                    Some(i) => if part.variants@[i].member.name@ != name {
                        Err(bad_step(walked, "inactive variant"@))
                    } else {
                        Ok(used)
                    },
                },
            }
        },
    }
}

fn check_variant(
    elf: &ElfInfo,
    at: &Resolved,
    name: &str,
    node: &NodeRef,
    k: usize,
    src: &Source<'_>,
    used: usize,
) -> (r: Result<usize, Walk>)
    requires
        src@.gave(used as nat),
        k <= node@.steps.len(),
    ensures
        variant_checked(*elf, at@, name@, node@.above(k as int), src@, used as nat) == (match r {
            Ok(n) => Ok(n as nat),
            Err(walk) => Err(walk@),
        }),
        r matches Ok(n) ==> src@.gave(n as nat),
{
    let table: &TypeTable = &elf.types;
    let part: &VariantPart = match table.get(table.get_underlying(peel(table, at.type_id))) {
        Some(TypeDef::Struct(s)) => match &s.variant_part {
            Some(part) => part,
            None => {
                return Ok(used);
            },
        },
        _ => {
            return Ok(used);
        },
    };
    let (tag, used): (u64, usize) = match &part.discriminant {
        None => (0, used),
        Some(d) => {
            let size: usize = (match table.type_size(d.type_id) {
                Some(size) => size,
                None => 0,
            }) as usize;
            match read_word(src, used, at.address.wrapping_add(d.offset), size, node, k) {
                Ok(v) => v,
                Err(walk) => {
                    return Err(walk);
                },
            }
        },
    };
    match part.select(tag) {
        Some(v) => if same_text(v.member.name.as_str(), name) {
            Ok(used)
        } else {
            Err(refuse(node.prefix(k), "inactive variant".to_owned()))
        },
        None => Err(refuse(node.prefix(k), "inactive variant".to_owned())),
    }
}

/// Where step `k` of a reference leads from `at`.
pub open spec fn stepped(
    elf: ElfInfo,
    sym: SymbolInfo,
    node: NodeView,
    k: int,
    at: ResolvedView,
    used: nat,
    src: SourceView,
    live: bool,
) -> WalkView {
    let walked = node.above(k);
    match node.steps[k] {
        StepView::Task(slot) => task_entered(sym, walked, slot, used),
        StepView::SliceIndex(i) => slice_entered(elf, at, i, walked, src, used, live),
        StepView::Deref => pointer_entered(elf, sym, at, walked, src, used, live),
        step => {
            let checked = if live {
                match step {
                    StepView::Variant(name) => variant_checked(elf, at, name, walked, src, used),
                    _ => Ok(used),
                }
            } else {
                Ok(used)
            };
            match checked {
                Err(walk) => walk,
                Ok(used) => match entered_any(elf.types@.types, at.type_id, at.address, step) {
                    Err(reason) => bad_step(walked, reason),
                    Ok(next) => WalkView::At(next, used),
                },
            }
        },
    }
}

fn take_step(
    elf: &ElfInfo,
    sym: &SymbolInfo,
    node: &NodeRef,
    k: usize,
    at: &Resolved,
    used: usize,
    src: &Source<'_>,
    live: bool,
) -> (r: Walk)
    requires
        k < node@.steps.len(),
        src@.gave(used as nat),
    ensures
        r@ == stepped(*elf, *sym, node@, k as int, at@, used as nat, src@, live),
        r@ matches WalkView::At(_, n) ==> src@.gave(n),
{
    let step: &Step = &node.steps[k];
    assert(node@.steps[k as int] == step@);
    match step {
        Step::Task(slot) => {
            return enter_task(sym, node.prefix(k), *slot, used);
        },
        Step::SliceIndex(i) => {
            return enter_slice(elf, at, *i, node, k, src, used, live);
        },
        Step::Deref => {
            return enter_pointer(elf, sym, at, node, k, src, used, live);
        },
        _ => {},
    }
    let mut used: usize = used;
    if live {
        if let Step::Variant(name) = step {
            match check_variant(elf, at, name.as_str(), node, k, src, used) {
                Ok(n) => {
                    used = n;
                },
                Err(walk) => {
                    return walk;
                },
            }
        }
    }
    match enter_any(&elf.types, at.type_id, at.address, step) {
        Err(reason) => refuse(node.prefix(k), reason),
        Ok(next) => Walk::At(next, used),
    }
}

/// Where the first `n` steps of a reference lead from its symbol.
pub open spec fn walked(
    elf: ElfInfo,
    sym: SymbolInfo,
    type_id: TypeId,
    node: NodeView,
    n: nat,
    src: SourceView,
    live: bool,
) -> WalkView
    decreases n,
{
    if n == 0 {
        WalkView::At(place(sym.display_name@, sym.address, type_id), 0)
    } else {
        match walked(elf, sym, type_id, node, (n - 1) as nat, src, live) {
            WalkView::At(at, used) => stepped(elf, sym, node, n - 1, at, used, src, live),
            other => other,
        }
    }
}

/// Picks the steps that read a pointer.
pub open spec fn pointer_steps() -> spec_fn(StepView) -> bool {
    |s: StepView| s.follows_pointer()
}

/// Where a reference leads.
pub open spec fn resolution(elf: ElfInfo, node: NodeView, src: SourceView, live: bool) -> WalkView {
    if count(node.steps, pointer_steps()) > MAX_POINTERS {
        bad_step(node, "pointer depth limit (8) reached"@)
    } else {
        match first(elf.symbols@, symbol_named(node.symbol)) {
            None => WalkView::Failed(TreeErrorView::SymbolNotFound(node.symbol)),
            Some(i) => {
                let sym = elf.symbols@[i];
                if live && !sym.status.spec_is_readable() {
                    bad_step(node, "not readable"@)
                } else {
                    match sym.type_id {
                        None => WalkView::Failed(TreeErrorView::Untyped { symbol: node.symbol }),
                        Some(type_id) => walked(
                            elf,
                            sym,
                            type_id,
                            node,
                            node.steps.len(),
                            src,
                            live,
                        ),
                    }
                }
            },
        }
    }
}

fn count_pointers(node: &NodeRef) -> (r: usize)
    ensures
        r == count(node@.steps, pointer_steps()),
{
    let ghost steps = node@.steps;
    let mut n: usize = 0;
    let mut i: usize = 0;
    assert(steps.take(0) =~= Seq::<StepView>::empty());
    while i < node.steps.len()
        invariant
            i <= node.steps@.len(),
            steps == node@.steps,
            n == count(steps.take(i as int), pointer_steps()),
            n <= i,
        decreases node.steps@.len() - i,
    {
        proof {
            assert(steps.take(i + 1).drop_last() =~= steps.take(i as int));
            assert(steps.take(i + 1).last() == node.steps@[i as int]@);
        }
        match &node.steps[i] {
            Step::Deref | Step::SliceIndex(_) => {
                n = n + 1;
            },
            _ => {},
        }
        i = i + 1;
    }
    assert(steps.take(steps.len() as int) =~= steps);
    n
}

/// Where a reference leads, as far as the given answers tell; with the symbol
/// it begins at.
pub fn resolve_with_memory<'e>(
    elf: &'e ElfInfo,
    node: &NodeRef,
    src: &Source<'_>,
    live: bool,
) -> (r: (Walk, Option<&'e SymbolInfo>))
    ensures
        r.0@ == resolution(*elf, node@, src@, live),
        r.0@ matches WalkView::At(_, n) ==> {
            &&& src@.gave(n)
            &&& first(elf.symbols@, symbol_named(node@.symbol)) matches Some(i) && r.1 == Some(
                &elf.symbols@[i],
            )
        },
{
    if count_pointers(node) > MAX_POINTERS {
        return (refuse(node.copy(), "pointer depth limit (8) reached".to_owned()), None);
    }
    let sym: &SymbolInfo = match elf.find_symbol(node.symbol.as_str()) {
        Some(sym) => sym,
        None => {
            return (Walk::Failed(TreeError::SymbolNotFound(node.symbol.clone())), None);
        },
    };
    if live && !sym.is_readable() {
        return (refuse(node.copy(), "not readable".to_owned()), None);
    }
    let type_id: TypeId = match sym.type_id {
        Some(id) => id,
        None => {
            return (Walk::Failed(TreeError::Untyped { symbol: node.symbol.clone() }), None);
        },
    };
    let mut at: Resolved = new_place(sym.display_name.clone(), sym.address, type_id);
    let mut used: usize = 0;
    let mut k: usize = 0;
    let ghost total = node@.steps.len();
    while k < node.steps.len()
        invariant
            k <= total == node@.steps.len() == node.steps@.len(),
            src@.gave(used as nat),
            walked(*elf, *sym, type_id, node@, k as nat, src@, live) == WalkView::At(
                at@,
                used as nat,
            ),
            sym.type_id == Some(type_id),
            count(node@.steps, pointer_steps()) <= MAX_POINTERS,
            first(elf.symbols@, symbol_named(node@.symbol)) matches Some(i) && *sym
                == elf.symbols@[i],
            live ==> sym.status.spec_is_readable(),
        decreases total - k,
    {
        match take_step(elf, sym, node, k, &at, used, src, live) {
            Walk::At(next, n) => {
                at = next;
                used = n;
            },
            other => {
                proof {
                    lemma_walk_stops(*elf, *sym, type_id, node@, (k + 1) as nat, total, src@, live);
                }
                return (other, None);
            },
        }
        k = k + 1;
    }
    (Walk::At(at, used), Some(sym))
}

/// A walk that stopped early stays where it stopped.
proof fn lemma_walk_stops(
    elf: ElfInfo,
    sym: SymbolInfo,
    type_id: TypeId,
    node: NodeView,
    n: nat,
    total: nat,
    src: SourceView,
    live: bool,
)
    requires
        n <= total,
        walked(elf, sym, type_id, node, n, src, live) !is At,
    ensures
        walked(elf, sym, type_id, node, total, src, live) == walked(
            elf,
            sym,
            type_id,
            node,
            n,
            src,
            live,
        ),
    decreases total - n,
{
    if n < total {
        lemma_walk_stops(elf, sym, type_id, node, n, (total - 1) as nat, src, live);
    }
}

/// Following stops after eight pointers: a reference with more is refused,
/// whatever memory holds.
pub proof fn lemma_following_stops(elf: ElfInfo, node: NodeView, src: SourceView, live: bool)
    requires
        count(node.steps, pointer_steps()) > MAX_POINTERS,
    ensures
        resolution(elf, node, src, live) == bad_step(node, "pointer depth limit (8) reached"@),
{
}

/// A live walk that arrives has checked every step on the way: no pointer that it
/// followed was null, every slice index was below the length that memory held,
/// and every payload that it entered was the active one.
pub proof fn lemma_live_steps_are_checked(
    elf: ElfInfo,
    node: NodeView,
    src: SourceView,
    at: ResolvedView,
    used: nat,
    k: int,
)
    requires
        resolution(elf, node, src, true) == WalkView::At(at, used),
        0 <= k < node.steps.len(),
    ensures
        ({
            let types = elf.types@.types;
            let sym = elf.symbols@[first(elf.symbols@, symbol_named(node.symbol))->0];
            let above = walked(elf, sym, sym.type_id->0, node, k as nat, src, true);
            let below = walked(elf, sym, sym.type_id->0, node, (k + 1) as nat, src, true);
            &&& above matches WalkView::At(p, before)
            &&& below matches WalkView::At(q, _)
            &&& node.steps[k] is Deref ==> q.address != 0
            &&& node.steps[k] matches StepView::SliceIndex(i) ==> {
                &&& sequence_of(types, p.type_id) matches Some(s)
                &&& src.next(before) matches Some((Ok(length), _))
                &&& i < length
            }
            &&& node.steps[k] matches StepView::Variant(name) ==> (variants_of(types, p.type_id)
                matches Some(part) ==> {
                let tag = match (part.discriminant, src.next(before)) {
                    (None, _) => Some(0u64),
                    (_, Some((Ok(word), _))) => Some(word),
                    _ => None,
                };
                &&& tag is Some
                &&& part.spec_select(tag->0) matches Some(j)
                &&& part.variants@[j].member.name@ == name
            })
        }),
{
    let sym = elf.symbols@[first(elf.symbols@, symbol_named(node.symbol))->0];
    let type_id = sym.type_id->0;
    let total = node.steps.len();
    if walked(elf, sym, type_id, node, (k + 1) as nat, src, true) !is At {
        lemma_walk_stops(elf, sym, type_id, node, (k + 1) as nat, total, src, true);
    }
    if walked(elf, sym, type_id, node, k as nat, src, true) !is At {
        lemma_walk_stops(elf, sym, type_id, node, k as nat, total, src, true);
    }
}

} // verus!
