//! Global type table for DWARF type resolution.
//!
//! Types are stored by index ([`TypeId`]), and all type references are such
//! indices. That makes forward declarations easy to resolve (only the target
//! changes), lets template instantiations share what they refer to, and keeps
//! definitions flat.

use vstd::prelude::*;
use vstd::string::*;
use std::collections::HashMap;
use std::collections::HashSet;
use crate::key_map::KeyMap;
#[allow(unused_imports)]
use crate::search::count;
use crate::text::{push_decimal, same_text};
#[allow(unused_imports)]
use crate::text::decimal;
use crate::type_def::{DwarfTypeKey, ForwardDeclKind, MemberDef, StructDef, TypeDef, TypeId};
#[allow(unused_imports)]
use crate::type_def::name_or_anonymous;
use crate::variable_type::VariableType;

verus! {

broadcast use vstd::std_specs::hash::group_hash_axioms;

/// Deepest nesting that naming, expanding and unwrapping follow.
pub const MAX_DEPTH: usize = 20;

/// What a type table holds.
#[verifier::ext_equal]
pub struct TableView {
    /// All type definitions, indexed by TypeId
    pub types: Seq<TypeDef>,
    /// Maps DWARF DIE location to TypeId for deduplication
    pub keys: Map<DwarfTypeKey, TypeId>,
    /// Every named definition, in the order they were made
    pub names: Seq<(Seq<char>, TypeId)>,
    /// Forward declarations that need resolution
    pub pending: Seq<TypeId>,
    /// Types declared in Rust compile units; named with Rust syntax
    pub rust: Set<u32>,
    /// Compiler-provided names that the structural name cannot reproduce
    pub source_names: Map<u32, Seq<char>>,
}

/// The definition with this id.
pub open spec fn def_in(types: Seq<TypeDef>, id: TypeId) -> Option<TypeDef> {
    if id.spec_is_valid() && id.0 < types.len() {
        Some(types[id.0 as int])
    } else {
        None
    }
}

/// Where the forward declaration with this id leads, if it is a resolved one.
pub open spec fn next_in(types: Seq<TypeDef>, id: TypeId) -> Option<TypeId> {
    match def_in(types, id) {
        Some(TypeDef::ForwardDecl { target, .. }) => target,
        _ => None,
    }
}

/// The id after following at most `n` resolved forward declarations.
pub open spec fn resolved_in(types: Seq<TypeDef>, id: TypeId, n: nat) -> TypeId
    decreases n,
{
    if n == 0 {
        id
    } else {
        match next_in(types, id) {
            Some(target) => resolved_in(types, target, (n - 1) as nat),
            None => id,
        }
    }
}

/// The id that forward declarations lead to. A chain that never ends is left
/// after as many steps as there are types.
pub open spec fn resolved(types: Seq<TypeDef>, id: TypeId) -> TypeId {
    resolved_in(types, id, types.len())
}

/// The size of a type, through at most `n` more layers.
pub open spec fn size_in(types: Seq<TypeDef>, id: TypeId, n: nat) -> Option<u64>
    decreases n,
{
    match def_in(types, resolved(types, id)) {
        None => None,
        Some(def) => match def {
            TypeDef::Primitive(p) => Some(p.spec_size()),
            TypeDef::Pointer(_) => Some(4),
            TypeDef::Reference(_) => Some(4),
            TypeDef::Array { element, count } => if n == 0 {
                None
            } else {
                match size_in(types, element, (n - 1) as nat) {
                    None => None,
                    Some(size) => Some(
                        size.wrapping_mul(
                            match count {
                                Some(count) => count,
                                None => 0,
                            },
                        ),
                    ),
                }
            },
            TypeDef::Struct(s) => Some(s.size),
            TypeDef::Union(s) => Some(s.size),
            TypeDef::Enum(e) => Some(e.size),
            TypeDef::Subroutine { .. } => Some(4),
            TypeDef::Void => Some(0),
            TypeDef::Unknown { size } => Some(size),
            _ => match layer(def) {
                Some(inner) => if n == 0 {
                    None
                } else {
                    size_in(types, inner, (n - 1) as nat)
                },
                None => None,
            },
        },
    }
}

/// What a typedef, a qualifier or a resolved forward declaration stands for.
pub open spec fn layer(def: TypeDef) -> Option<TypeId> {
    match def {
        TypeDef::Typedef { underlying, .. } => Some(underlying),
        TypeDef::Const(inner) => Some(inner),
        TypeDef::Volatile(inner) => Some(inner),
        TypeDef::Restrict(inner) => Some(inner),
        TypeDef::ForwardDecl { target, .. } => target,
        _ => None,
    }
}

/// The size of a type in bytes. A product past 64 bits wraps; a type that
/// contains itself has none.
pub open spec fn size_of_type(types: Seq<TypeDef>, id: TypeId) -> Option<u64> {
    size_in(types, id, types.len())
}

/// Whether a type can be watched, through at most `n` more layers.
pub open spec fn addable_in(types: Seq<TypeDef>, id: TypeId, n: nat) -> bool
    decreases n,
{
    match def_in(types, resolved(types, id)) {
        None => false,
        Some(def) => match def {
            TypeDef::Primitive(_) => true,
            TypeDef::Enum(_) => true,
            TypeDef::Pointer(_) => true,
            TypeDef::Reference(_) => true,
            TypeDef::Struct(_) => true,
            TypeDef::Union(_) => true,
            TypeDef::Array { .. } => true,
            TypeDef::Unknown { size } => size > 0,
            TypeDef::ForwardDecl { .. } => false,
            _ => match layer(def) {
                Some(inner) => n > 0 && addable_in(types, inner, (n - 1) as nat),
                None => false,
            },
        },
    }
}

/// How a value of a type is read, through at most `n` more layers.
pub open spec fn variable_type_in(types: Seq<TypeDef>, id: TypeId, n: nat) -> VariableType
    decreases n,
{
    match def_in(types, resolved(types, id)) {
        None => VariableType::Raw(0),
        Some(def) => match def {
            TypeDef::Primitive(p) => p.spec_variable_type(),
            TypeDef::Pointer(_) => VariableType::U32,
            TypeDef::Reference(_) => VariableType::U32,
            TypeDef::Enum(e) => if e.size == 1 {
                VariableType::U8
            } else if e.size == 2 {
                VariableType::U16
            } else if e.size == 4 {
                VariableType::U32
            } else if e.size == 8 {
                VariableType::U64
            } else {
                VariableType::Raw(e.size as usize)
            },
            TypeDef::Struct(s) => VariableType::Raw(s.size as usize),
            TypeDef::Union(s) => VariableType::Raw(s.size as usize),
            TypeDef::Array { element, count } => VariableType::Raw(
                (match size_of_type(types, element) {
                    Some(size) => size,
                    None => 0,
                }).wrapping_mul(
                    match count {
                        Some(count) => count,
                        None => 1,
                    },
                ) as usize,
            ),
            TypeDef::Subroutine { .. } => VariableType::U32,
            TypeDef::Unknown { size } => VariableType::Raw(size as usize),
            TypeDef::ForwardDecl { .. } => VariableType::Raw(0),
            _ => match layer(def) {
                Some(inner) => if n > 0 {
                    variable_type_in(types, inner, (n - 1) as nat)
                } else {
                    VariableType::Raw(0)
                },
                None => VariableType::Raw(0),
            },
        },
    }
}

/// Whether a type has members to show, from this depth on.
pub open spec fn expandable_at(types: Seq<TypeDef>, id: TypeId, depth: nat) -> bool
    decreases MAX_DEPTH + 1 - depth,
{
    if depth > MAX_DEPTH {
        false
    } else {
        match def_in(types, resolved(types, id)) {
            None => false,
            Some(def) => match def {
                TypeDef::Struct(s) => has_children(s),
                TypeDef::Union(s) => has_children(s),
                TypeDef::Array { count, .. } => count matches Some(n) && n > 0,
                TypeDef::Pointer(inner) => expandable_at(types, inner, depth + 1),
                TypeDef::Reference(inner) => expandable_at(types, inner, depth + 1),
                _ => match layer(def) {
                    Some(inner) => expandable_at(types, inner, depth + 1),
                    None => false,
                },
            },
        }
    }
}

/// Whether a struct or union has members or variants.
pub open spec fn has_children(s: StructDef) -> bool {
    s.members@.len() > 0 || (s.variant_part matches Some(part) && part.variants@.len() > 0)
}

/// The struct or union whose members a type has, from this depth on.
pub open spec fn record_at(types: Seq<TypeDef>, id: TypeId, depth: nat) -> Option<StructDef>
    decreases MAX_DEPTH + 1 - depth,
{
    if depth > MAX_DEPTH {
        None
    } else {
        match def_in(types, resolved(types, id)) {
            None => None,
            Some(def) => match def {
                TypeDef::Struct(s) => Some(s),
                TypeDef::Union(s) => Some(s),
                _ => match layer(def) {
                    Some(inner) => record_at(types, inner, depth + 1),
                    None => None,
                },
            },
        }
    }
}

/// The type behind typedefs and qualifiers, from this depth on.
pub open spec fn underlying_at(types: Seq<TypeDef>, id: TypeId, depth: nat) -> TypeId
    decreases MAX_DEPTH + 1 - depth,
{
    if depth > MAX_DEPTH {
        id
    } else {
        match def_in(types, resolved(types, id)) {
            Some(TypeDef::Typedef { underlying, .. }) => underlying_at(types, underlying, depth + 1),
            Some(TypeDef::Const(inner)) => underlying_at(types, inner, depth + 1),
            Some(TypeDef::Volatile(inner)) => underlying_at(types, inner, depth + 1),
            Some(TypeDef::Restrict(inner)) => underlying_at(types, inner, depth + 1),
            _ => resolved(types, id),
        }
    }
}

/// How a forward declaration's kind is spelled.
pub open spec fn shown_kind(kind: ForwardDeclKind) -> Seq<char> {
    match kind {
        ForwardDeclKind::Struct => "struct"@,
        ForwardDeclKind::Class => "class"@,
        ForwardDeclKind::Union => "union"@,
        ForwardDeclKind::Enum => "enum"@,
    }
}

impl TableView {
    /// The name of a type, from this depth on: the compiler's own spelling
    /// where there is one, Rust's where the type is Rust's, else C's.
    pub open spec fn name_at(self, id: TypeId, depth: nat) -> Seq<char>
        decreases MAX_DEPTH + 1 - depth, 1nat,
    {
        if depth > MAX_DEPTH {
            "<recursive>"@
        } else {
            let at = resolved(self.types, id);
            if self.source_names.contains_key(at.0) {
                self.source_names[at.0]
            } else if self.rust.contains(at.0) && self.rust_name_at(at, depth) is Some {
                self.rust_name_at(at, depth)->0
            } else {
                match def_in(self.types, at) {
                    None => "<invalid:"@ + decimal(id.0 as nat) + ">"@,
                    Some(def) => match def {
                        TypeDef::Primitive(p) => p.spec_name(),
                        TypeDef::Pointer(inner) => self.name_at(inner, depth + 1) + "*"@,
                        TypeDef::Reference(inner) => self.name_at(inner, depth + 1) + "&"@,
                        TypeDef::Array { element, count } => match count {
                            Some(n) => self.name_at(element, depth + 1) + "["@ + decimal(n as nat)
                                + "]"@,
                            None => self.name_at(element, depth + 1) + "[]"@,
                        },
                        TypeDef::Struct(s) => s.spec_display_name(),
                        TypeDef::Union(s) => "union "@ + s.spec_display_name(),
                        TypeDef::Enum(e) => match e.name {
                            Some(name) => name@,
                            None => "<anonymous enum>"@,
                        },
                        TypeDef::Typedef { name, .. } => name@,
                        TypeDef::Const(inner) => "const "@ + self.name_at(inner, depth + 1),
                        TypeDef::Volatile(inner) => "volatile "@ + self.name_at(inner, depth + 1),
                        TypeDef::Restrict(inner) => "restrict "@ + self.name_at(inner, depth + 1),
                        TypeDef::Subroutine { return_type, .. } => (match return_type {
                            Some(r) => self.name_at(r, depth + 1),
                            None => "void"@,
                        }) + "()"@,
                        TypeDef::Void => "void"@,
                        TypeDef::Unknown { size } => "unknown["@ + decimal(size as nat) + "]"@,
                        TypeDef::ForwardDecl { name, kind, target } => match target {
                            Some(target) => self.name_at(target, depth + 1),
                            None => shown_kind(kind) + " "@ + name@ + " (forward)"@,
                        },
                        TypeDef::Placeholder => "<placeholder>"@,
                    },
                }
            }
        }
    }

    /// Rust spellings for the structural types that differ from C.
    pub open spec fn rust_name_at(self, id: TypeId, depth: nat) -> Option<Seq<char>>
        decreases MAX_DEPTH + 1 - depth, 0nat,
    {
        if depth > MAX_DEPTH {
            None
        } else {
            match def_in(self.types, id) {
                Some(TypeDef::Array { element, count }) => Some(
                    match count {
                        Some(n) => "["@ + self.name_at(element, depth + 1) + "; "@ + decimal(
                            n as nat,
                        ) + "]"@,
                        None => "["@ + self.name_at(element, depth + 1) + "]"@,
                    },
                ),
                Some(TypeDef::Pointer(inner)) => Some("*const "@ + self.name_at(inner, depth + 1)),
                Some(TypeDef::Struct(s)) => Some(name_or_anonymous(s.name)),
                Some(TypeDef::Union(s)) => Some(name_or_anonymous(s.name)),
                Some(TypeDef::Void) => Some("()"@),
                _ => None,
            }
        }
    }
}

/// The ids of the definitions with this name, in the order they were made.
pub open spec fn ids_named(names: Seq<(Seq<char>, TypeId)>, name: Seq<char>) -> Seq<TypeId>
    decreases names.len(),
{
    if names.len() == 0 {
        Seq::empty()
    } else if names.last().0 == name {
        ids_named(names.drop_last(), name).push(names.last().1)
    } else {
        ids_named(names.drop_last(), name)
    }
}

/// How many members a definition has, if it can complete a forward declaration
/// of this kind.
pub open spec fn completes(def: TypeDef, kind: ForwardDeclKind) -> Option<nat> {
    match (kind, def) {
        (ForwardDeclKind::Struct, TypeDef::Struct(s)) => Some(s.members@.len()),
        (ForwardDeclKind::Class, TypeDef::Struct(s)) => Some(s.members@.len()),
        (ForwardDeclKind::Union, TypeDef::Union(s)) => Some(s.members@.len()),
        (ForwardDeclKind::Enum, TypeDef::Enum(e)) => Some(e.variants@.len()),
        _ => None,
    }
}

/// The candidate that completes a forward declaration with the most members,
/// the first such on a tie.
pub open spec fn best_of(types: Seq<TypeDef>, ids: Seq<TypeId>, kind: ForwardDeclKind) -> Option<
    (TypeId, nat),
>
    decreases ids.len(),
{
    if ids.len() == 0 {
        None
    } else {
        let before = best_of(types, ids.drop_last(), kind);
        match def_in(types, ids.last()) {
            None => before,
            Some(def) => match completes(def, kind) {
                None => before,
                Some(n) => match before {
                    Some((_, m)) => if n > m {
                        Some((ids.last(), n))
                    } else {
                        before
                    },
                    None => Some((ids.last(), n)),
                },
            },
        }
    }
}

impl TableView {
    /// The best definition for a forward declaration of this name and kind.
    pub open spec fn best(self, name: Seq<char>, kind: ForwardDeclKind) -> Option<TypeId> {
        match best_of(self.types, ids_named(self.names, name), kind) {
            Some((id, _)) => Some(id),
            None => None,
        }
    }

    /// The table with one more definition at `id`.
    pub open spec fn defining(self, id: TypeId, def: TypeDef) -> TableView {
        TableView {
            types: self.types.update(id.0 as int, def),
            pending: if def is ForwardDecl {
                self.pending.push(id)
            } else {
                self.pending
            },
            names: if def !is ForwardDecl && def.spec_name() is Some {
                self.names.push((def.spec_name()->0, id))
            } else {
                self.names
            },
            ..self
        }
    }

    /// The id the next type gets.
    pub open spec fn next_id(self) -> TypeId {
        TypeId(self.types.len() as u32)
    }

    /// The table with one more type, not defined yet.
    pub open spec fn allocating(self) -> TableView {
        TableView { types: self.types.push(TypeDef::Placeholder), ..self }
    }

    /// The table in which `key` has a type, and that type.
    pub open spec fn keyed(self, key: DwarfTypeKey) -> (TableView, TypeId) {
        if self.keys.contains_key(key) {
            (self, self.keys[key])
        } else {
            (
                TableView { keys: self.keys.insert(key, self.next_id()), ..self.allocating() },
                self.next_id(),
            )
        }
    }

    /// The table with the forward declaration at `id` pointed at the best
    /// definition, if it is unresolved and there is one.
    pub open spec fn resolving(self, id: TypeId) -> TableView {
        match def_in(self.types, id) {
            Some(TypeDef::ForwardDecl { name, kind, target }) => match (
                target,
                self.best(name@, kind),
            ) {
                (None, Some(best)) => if best != id {
                    TableView {
                        types: self.types.update(
                            id.0 as int,
                            TypeDef::ForwardDecl { name, kind, target: Some(best) },
                        ),
                        ..self
                    }
                } else {
                    self
                },
                _ => self,
            },
            _ => self,
        }
    }

    /// The table after resolving each of these ids in turn.
    pub open spec fn resolving_all(self, ids: Seq<TypeId>) -> TableView
        decreases ids.len(),
    {
        if ids.len() == 0 {
            self
        } else {
            self.resolving_all(ids.drop_last()).resolving(ids.last())
        }
    }
}

spec fn viewed_names(names: Seq<(String, TypeId)>) -> Seq<(Seq<char>, TypeId)> {
    Seq::new(names.len(), |i: int| (names[i].0@, names[i].1))
}

/// The global type table
#[derive(Debug)]
pub struct TypeTable {
    types: Vec<TypeDef>,
    keys: KeyMap,
    names: Vec<(String, TypeId)>,
    pending: Vec<TypeId>,
    rust: HashSet<u32>,
    source_names: HashMap<u32, String>,
}

impl View for TypeTable {
    type V = TableView;

    closed spec fn view(&self) -> TableView {
        TableView {
            types: self.types@,
            keys: self.keys@,
            names: viewed_names(self.names@),
            pending: self.pending@,
            rust: self.rust@,
            source_names: self.source_names@.map_values(|s: String| s@),
        }
    }
}

/// A table without types.
pub open spec fn empty_table() -> TableView {
    TableView {
        types: Seq::empty(),
        keys: Map::empty(),
        names: Seq::empty(),
        pending: Seq::empty(),
        rust: Set::empty(),
        source_names: Map::empty(),
    }
}

impl Default for TypeTable {
    fn default() -> (r: Self)
        ensures
            r@ == empty_table(),
    {
        Self::new()
    }
}

impl TypeTable {
    /// Create a new empty type table
    pub fn new() -> (r: Self)
        ensures
            r@ == empty_table(),
    {
        let r = TypeTable {
            types: Vec::new(),
            keys: KeyMap::new(),
            names: Vec::new(),
            pending: Vec::new(),
            rust: HashSet::new(),
            source_names: HashMap::new(),
        };
        assert(r@ =~= empty_table());
        r
    }

    /// Mark a type as coming from a Rust compile unit
    pub fn mark_rust(&mut self, id: TypeId)
        ensures
            final(self)@ == (TableView { rust: old(self)@.rust.insert(id.0), ..old(self)@ }),
    {
        self.rust.insert(id.0);
    }

    /// Whether a type was declared in a Rust compile unit
    pub fn is_rust(&self, id: TypeId) -> (r: bool)
        ensures
            r == self@.rust.contains(id.0),
    {
        self.rust.contains(&id.0)
    }

    /// Record the compiler's own spelling of a type name
    pub fn set_source_name(&mut self, id: TypeId, name: String)
        ensures
            final(self)@ == (TableView {
                source_names: old(self)@.source_names.insert(id.0, name@),
                ..old(self)@
            }),
    {
        self.source_names.insert(id.0, name);
        assert(self@.source_names =~= old(self)@.source_names.insert(id.0, name@));
    }

    /// Get the number of types in the table
    pub fn len(&self) -> (r: usize)
        ensures
            r == self@.types.len(),
    {
        self.types.len()
    }

    /// Check if the table is empty
    pub fn is_empty(&self) -> (r: bool)
        ensures
            r == (self@.types.len() == 0),
    {
        self.types.len() == 0
    }

    /// Allocate a new type ID without setting its definition
    pub fn allocate(&mut self) -> (r: TypeId)
        ensures
            r == old(self)@.next_id(),
            final(self)@ == old(self)@.allocating(),
            r.0 < final(self)@.types.len(),
    {
        let len: usize = self.types.len();
        let id = TypeId(len as u32);
        assert(len as u32 <= len) by (bit_vector);
        self.types.push(TypeDef::Placeholder);
        id
    }

    /// Get or create a TypeId for a DWARF key
    pub fn get_or_allocate(&mut self, key: DwarfTypeKey) -> (r: TypeId)
        ensures
            (final(self)@, r) == old(self)@.keyed(key),
            !old(self)@.keys.contains_key(key) ==> r.0 < final(self)@.types.len(),
    {
        if let Some(id) = self.keys.get(key) {
            return id;
        }
        let id = self.allocate();
        self.keys.insert(key, id);
        id
    }

    /// Get the TypeId for a DWARF key if it exists
    pub fn get_by_dwarf_key(&self, key: DwarfTypeKey) -> (r: Option<TypeId>)
        ensures
            r == (if self@.keys.contains_key(key) {
                Some(self@.keys[key])
            } else {
                None
            }),
    {
        self.keys.get(key)
    }

    /// Register an existing TypeId under an additional key, unless the key has
    /// one. This is used to register the same type under both its unit-local
    /// key and its global .debug_info offset, so that DebugInfoRef lookups work.
    pub fn register_alias(&mut self, key: DwarfTypeKey, id: TypeId)
        ensures
            final(self)@ == (if old(self)@.keys.contains_key(key) {
                old(self)@
            } else {
                TableView { keys: old(self)@.keys.insert(key, id), ..old(self)@ }
            }),
    {
        if self.keys.get(key).is_none() {
            self.keys.insert(key, id);
        }
    }

    /// Define a type at the given TypeId
    pub fn define(&mut self, id: TypeId, def: TypeDef)
        requires
            id.0 < old(self)@.types.len(),
        ensures
            final(self)@ == old(self)@.defining(id, def),
    {
        if def.is_forward_decl() {
            self.pending.push(id);
        } else if let Some(name) = def.name() {
            let text: String = name.to_owned();
            self.names.push((text, id));
            assert(self@.names =~= old(self)@.names.push((def.spec_name()->0, id)));
        }
        self.types.set(id.0 as usize, def);
        assert(self@ =~= old(self)@.defining(id, def));
    }

    /// Insert a new type and return its TypeId
    pub fn insert(&mut self, def: TypeDef) -> (r: TypeId)
        ensures
            r == old(self)@.next_id(),
            final(self)@ == old(self)@.allocating().defining(r, def),
    {
        let id = self.allocate();
        self.define(id, def);
        id
    }

    /// Insert a type for a DWARF key
    pub fn insert_for_key(&mut self, key: DwarfTypeKey, def: TypeDef) -> (r: TypeId)
        requires
            old(self)@.keys.contains_key(key) ==> old(self)@.keys[key].0 < old(self)@.types.len(),
        ensures
            r == old(self)@.keyed(key).1,
            final(self)@ == old(self)@.keyed(key).0.defining(r, def),
    {
        let id = self.get_or_allocate(key);
        self.define(id, def);
        id
    }

    /// Get a type definition by TypeId
    pub fn get(&self, id: TypeId) -> (r: Option<&TypeDef>)
        ensures
            match def_in(self@.types, id) {
                Some(def) => r == Some(&def),
                None => r is None,
            },
    {
        if !id.is_valid() || id.0 as usize >= self.types.len() {
            return None;
        }
        Some(&self.types[id.0 as usize])
    }

    /// Get a mutable reference to a type definition
    pub fn get_mut(&mut self, id: TypeId) -> (r: Option<&mut TypeDef>)
        ensures
            match r {
                Some(def) => {
                    &&& def_in(old(self)@.types, id) == Some(*def)
                    &&& final(self)@ == (TableView {
                        types: old(self)@.types.update(id.0 as int, *final(def)),
                        ..old(self)@
                    })
                },
                None => def_in(old(self)@.types, id) is None && final(self)@ == old(self)@,
            },
    {
        if !id.is_valid() || id.0 as usize >= self.types.len() {
            return None;
        }
        Some(&mut self.types[id.0 as usize])
    }

    /// Resolve a TypeId, following forward declarations to their targets
    pub fn resolve(&self, id: TypeId) -> (r: TypeId)
        ensures
            r == resolved(self@.types, id),
    {
        let mut at: TypeId = id;
        let mut left: usize = self.types.len();
        while left > 0
            invariant
                left <= self@.types.len(),
                resolved_in(self@.types, at, left as nat) == resolved(self@.types, id),
            decreases left,
        {
            match self.get(at) {
                Some(TypeDef::ForwardDecl { target, .. }) => match target {
                    Some(target) => {
                        at = *target;
                    },
                    None => {
                        return at;
                    },
                },
                _ => {
                    return at;
                },
            }
            left = left - 1;
        }
        at
    }

    /// Get the resolved type definition
    pub fn get_resolved(&self, id: TypeId) -> (r: Option<&TypeDef>)
        ensures
            match def_in(self@.types, resolved(self@.types, id)) {
                Some(def) => r == Some(&def),
                None => r is None,
            },
    {
        self.get(self.resolve(id))
    }

    /// Find all TypeIds for types with the given name
    pub fn find_by_name(&self, name: &str) -> (r: Vec<TypeId>)
        ensures
            r@ == ids_named(self@.names, name@),
    {
        let mut out: Vec<TypeId> = Vec::new();
        let mut i: usize = 0;
        let ghost names = self@.names;
        assert(names.take(0) =~= Seq::<(Seq<char>, TypeId)>::empty());
        while i < self.names.len()
            invariant
                i <= self.names@.len(),
                names == self@.names,
                out@ == ids_named(names.take(i as int), name@),
            decreases self.names@.len() - i,
        {
            if same_text(self.names[i].0.as_str(), name) {
                out.push(self.names[i].1);
            }
            i = i + 1;
            proof {
                assert(names.take(i as int).drop_last() =~= names.take(i - 1));
                assert(names.take(i as int).last() == names[i - 1]);
            }
        }
        assert(names.take(names.len() as int) =~= names);
        out
    }

    /// Find the best definition for a type name
    pub fn find_best_definition(&self, name: &str, kind: ForwardDeclKind) -> (r: Option<TypeId>)
        ensures
            r == self@.best(name@, kind),
    {
        let candidates: Vec<TypeId> = self.find_by_name(name);
        let ghost ids = candidates@;
        let mut best: Option<(TypeId, usize)> = None;
        let mut i: usize = 0;
        assert(ids.take(0) =~= Seq::<TypeId>::empty());
        while i < candidates.len()
            invariant
                i <= candidates@.len(),
                ids == candidates@,
                best_of(self@.types, ids.take(i as int), kind) == (match best {
                    Some((id, n)) => Some((id, n as nat)),
                    None => None,
                }),
            decreases candidates@.len() - i,
        {
            let id: TypeId = candidates[i];
            i = i + 1;
            proof {
                assert(ids.take(i as int).drop_last() =~= ids.take(i - 1));
                assert(ids.take(i as int).last() == id);
            }
            if let Some(def) = self.get(id) {
                let members: Option<usize> = match (kind, def) {
                    (ForwardDeclKind::Struct, TypeDef::Struct(s)) => Some(s.members.len()),
                    (ForwardDeclKind::Class, TypeDef::Struct(s)) => Some(s.members.len()),
                    (ForwardDeclKind::Union, TypeDef::Union(s)) => Some(s.members.len()),
                    (ForwardDeclKind::Enum, TypeDef::Enum(e)) => Some(e.variants.len()),
                    _ => None,
                };
                if let Some(n) = members {
                    let better: bool = match best {
                        Some((_, m)) => n > m,
                        None => true,
                    };
                    if better {
                        best = Some((id, n));
                    }
                }
            }
        }
        assert(ids.take(ids.len() as int) =~= ids);
        match best {
            Some((id, _)) => Some(id),
            None => None,
        }
    }

    fn resolve_one(&mut self, id: TypeId)
        ensures
            final(self)@ == old(self)@.resolving(id),
    {
        if let Some(TypeDef::ForwardDecl { name, kind, target }) = self.get(id) {
            if target.is_none() {
                let kind: ForwardDeclKind = *kind;
                if let Some(best) = self.find_best_definition(name.as_str(), kind) {
                    if best != id {
                        let name: String = name.clone();
                        let def = TypeDef::ForwardDecl { name, kind, target: Some(best) };
                        self.types.set(id.0 as usize, def);
                        assert(self@ =~= old(self)@.resolving(id));
                    }
                }
            }
        }
    }

    /// Resolve all pending forward declarations
    pub fn resolve_forward_declarations(&mut self)
        ensures
            final(self)@ == (TableView {
                pending: Seq::empty(),
                ..old(self)@.resolving_all(old(self)@.pending)
            }),
    {
        let mut pending: Vec<TypeId> = Vec::new();
        std::mem::swap(&mut pending, &mut self.pending);
        let ghost start = TableView { pending: Seq::empty(), ..old(self)@ };
        let ghost ids = pending@;
        let mut i: usize = 0;
        assert(self@ =~= start);
        assert(ids.take(0) =~= Seq::<TypeId>::empty());
        while i < pending.len()
            invariant
                i <= pending@.len(),
                ids == pending@,
                self@ == start.resolving_all(ids.take(i as int)),
            decreases pending@.len() - i,
        {
            self.resolve_one(pending[i]);
            i = i + 1;
            proof {
                assert(ids.take(i as int).drop_last() =~= ids.take(i - 1));
                assert(ids.take(i as int).last() == ids[i - 1]);
            }
        }
        proof {
            assert(ids.take(ids.len() as int) =~= ids);
            lemma_resolving_ignores_pending(old(self)@, ids, Seq::empty());
        }
    }

    /// Get all type IDs in the table
    pub fn all_type_ids(&self) -> (r: Vec<TypeId>)
        ensures
            r@ == Seq::new(self@.types.len() as u32 as nat, |i: int| TypeId(i as u32)),
    {
        let n: u32 = self.types.len() as u32;
        let mut out: Vec<TypeId> = Vec::new();
        let mut i: u32 = 0;
        while i < n
            invariant
                i <= n,
                out@ == Seq::new(i as nat, |k: int| TypeId(k as u32)),
            decreases n - i,
        {
            out.push(TypeId(i));
            i = i + 1;
            assert(out@ =~= Seq::new(i as nat, |k: int| TypeId(k as u32)));
        }
        out
    }

    /// Get the size of a type in bytes
    pub fn type_size(&self, id: TypeId) -> (r: Option<u64>)
        ensures
            r == size_of_type(self@.types, id),
    {
        self.size_within(id, self.types.len())
    }

    fn size_within(&self, id: TypeId, n: usize) -> (r: Option<u64>)
        ensures
            r == size_in(self@.types, id, n as nat),
        decreases n,
    {
        match self.get(self.resolve(id)) {
            None => None,
            Some(def) => match def {
                TypeDef::Primitive(p) => Some(p.size()),
                TypeDef::Pointer(_) | TypeDef::Reference(_) => Some(4),
                TypeDef::Array { element, count } => {
                    if n == 0 {
                        return None;
                    }
                    match self.size_within(*element, n - 1) {
                        None => None,
                        Some(size) => {
                            let count: u64 = match count {
                                Some(count) => *count,
                                None => 0,
                            };
                            Some(size.wrapping_mul(count))
                        },
                    }
                },
                TypeDef::Struct(s) => Some(s.size),
                TypeDef::Union(s) => Some(s.size),
                TypeDef::Enum(e) => Some(e.size),
                TypeDef::Subroutine { .. } => Some(4),
                TypeDef::Void => Some(0),
                TypeDef::Unknown { size } => Some(*size),
                _ => match layer_of(def) {
                    Some(inner) => if n == 0 {
                        None
                    } else {
                        self.size_within(inner, n - 1)
                    },
                    None => None,
                },
            },
        }
    }

    /// Check if a type can be added as a watchable variable
    pub fn is_addable(&self, id: TypeId) -> (r: bool)
        ensures
            r == addable_in(self@.types, id, self@.types.len()),
    {
        self.addable_within(id, self.types.len())
    }

    fn addable_within(&self, id: TypeId, n: usize) -> (r: bool)
        ensures
            r == addable_in(self@.types, id, n as nat),
        decreases n,
    {
        match self.get(self.resolve(id)) {
            None => false,
            Some(def) => match def {
                TypeDef::Primitive(_) | TypeDef::Enum(_) => true,
                TypeDef::Pointer(_) | TypeDef::Reference(_) => true,
                TypeDef::Struct(_) | TypeDef::Union(_) | TypeDef::Array { .. } => true,
                TypeDef::Unknown { size } => *size > 0,
                TypeDef::ForwardDecl { .. } => false,
                _ => match layer_of(def) {
                    Some(inner) => n > 0 && self.addable_within(inner, n - 1),
                    None => false,
                },
            },
        }
    }

    /// Convert a TypeId to VariableType
    pub fn to_variable_type(&self, id: TypeId) -> (r: VariableType)
        ensures
            r == variable_type_in(self@.types, id, self@.types.len()),
    {
        self.variable_type_within(id, self.types.len())
    }

    fn variable_type_within(&self, id: TypeId, n: usize) -> (r: VariableType)
        ensures
            r == variable_type_in(self@.types, id, n as nat),
        decreases n,
    {
        match self.get(self.resolve(id)) {
            None => VariableType::Raw(0),
            Some(def) => match def {
                TypeDef::Primitive(p) => p.to_variable_type(),
                TypeDef::Pointer(_) | TypeDef::Reference(_) => VariableType::U32,
                TypeDef::Enum(e) => match e.size {
                    1 => VariableType::U8,
                    2 => VariableType::U16,
                    4 => VariableType::U32,
                    8 => VariableType::U64,
                    _ => VariableType::Raw(e.size as usize),
                },
                TypeDef::Struct(s) => VariableType::Raw(s.size as usize),
                TypeDef::Union(s) => VariableType::Raw(s.size as usize),
                TypeDef::Array { element, count } => {
                    let size: u64 = match self.type_size(*element) {
                        Some(size) => size,
                        None => 0,
                    };
                    let count: u64 = match count {
                        Some(count) => *count,
                        None => 1,
                    };
                    VariableType::Raw(size.wrapping_mul(count) as usize)
                },
                TypeDef::Subroutine { .. } => VariableType::U32,
                TypeDef::Unknown { size } => VariableType::Raw(*size as usize),
                TypeDef::ForwardDecl { .. } => VariableType::Raw(0),
                _ => match layer_of(def) {
                    Some(inner) => if n > 0 {
                        self.variable_type_within(inner, n - 1)
                    } else {
                        VariableType::Raw(0)
                    },
                    None => VariableType::Raw(0),
                },
            },
        }
    }

    /// Check if a type is expandable (has members that can be displayed)
    pub fn is_expandable(&self, id: TypeId) -> (r: bool)
        ensures
            r == expandable_at(self@.types, id, 0),
    {
        self.is_expandable_with_depth(id, 0)
    }

    fn is_expandable_with_depth(&self, id: TypeId, depth: usize) -> (r: bool)
        requires
            depth <= MAX_DEPTH + 1,
        ensures
            r == expandable_at(self@.types, id, depth as nat),
        decreases MAX_DEPTH + 1 - depth,
    {
        if depth > MAX_DEPTH {
            return false;
        }
        match self.get(self.resolve(id)) {
            None => false,
            Some(def) => match def {
                TypeDef::Struct(s) => children_in(s),
                TypeDef::Union(s) => children_in(s),
                // Arrays are expandable if they have a known count > 0
                TypeDef::Array { count, .. } => match count {
                    Some(n) => *n > 0,
                    None => false,
                },
                // Pointers/references are expandable if they point to an expandable type
                TypeDef::Pointer(inner) => self.is_expandable_with_depth(*inner, depth + 1),
                TypeDef::Reference(inner) => self.is_expandable_with_depth(*inner, depth + 1),
                _ => match layer_of(def) {
                    Some(inner) => self.is_expandable_with_depth(inner, depth + 1),
                    None => false,
                },
            },
        }
    }

    /// The struct or union whose members a type has.
    pub fn get_record(&self, id: TypeId) -> (r: Option<&StructDef>)
        ensures
            match record_at(self@.types, id, 0) {
                Some(s) => r == Some(&s),
                None => r is None,
            },
    {
        self.get_record_with_depth(id, 0)
    }

    fn get_record_with_depth(&self, id: TypeId, depth: usize) -> (r: Option<&StructDef>)
        requires
            depth <= MAX_DEPTH + 1,
        ensures
            match record_at(self@.types, id, depth as nat) {
                Some(s) => r == Some(&s),
                None => r is None,
            },
        decreases MAX_DEPTH + 1 - depth,
    {
        if depth > MAX_DEPTH {
            return None;
        }
        match self.get(self.resolve(id)) {
            None => None,
            Some(def) => match def {
                TypeDef::Struct(s) => Some(s),
                TypeDef::Union(s) => Some(s),
                _ => match layer_of(def) {
                    Some(inner) => self.get_record_with_depth(inner, depth + 1),
                    None => None,
                },
            },
        }
    }

    /// Get the members of a type (if it's a struct/union)
    pub fn get_members(&self, id: TypeId) -> (r: Option<&[MemberDef]>)
        ensures
            match record_at(self@.types, id, 0) {
                Some(s) => r is Some && r->0@ == s.members@,
                None => r is None,
            },
    {
        match self.get_record(id) {
            Some(s) => Some(s.members.as_slice()),
            None => None,
        }
    }

    /// Get the underlying type for typedefs, const, volatile, etc.
    pub fn get_underlying(&self, id: TypeId) -> (r: TypeId)
        ensures
            r == underlying_at(self@.types, id, 0),
    {
        self.get_underlying_with_depth(id, 0)
    }

    fn get_underlying_with_depth(&self, id: TypeId, depth: usize) -> (r: TypeId)
        requires
            depth <= MAX_DEPTH + 1,
        ensures
            r == underlying_at(self@.types, id, depth as nat),
        decreases MAX_DEPTH + 1 - depth,
    {
        if depth > MAX_DEPTH {
            return id;
        }
        let at: TypeId = self.resolve(id);
        match self.get(at) {
            Some(TypeDef::Typedef { underlying, .. }) => self.get_underlying_with_depth(
                *underlying,
                depth + 1,
            ),
            Some(TypeDef::Const(inner)) => self.get_underlying_with_depth(*inner, depth + 1),
            Some(TypeDef::Volatile(inner)) => self.get_underlying_with_depth(*inner, depth + 1),
            Some(TypeDef::Restrict(inner)) => self.get_underlying_with_depth(*inner, depth + 1),
            _ => at,
        }
    }

    /// Get the number of DWARF key mappings (including global offset aliases)
    pub fn dwarf_key_count(&self) -> (r: usize)
        ensures
            self@.keys.dom().finite(),
            r == self@.keys.dom().len(),
    {
        self.keys.len()
    }

    /// Get the display name of a type
    pub fn type_display_name(&self, id: TypeId) -> (r: String)
        ensures
            r@ == self@.name_at(id, 0),
    {
        self.display_name_with_depth(id, 0)
    }

    fn display_name_with_depth(&self, id: TypeId, depth: usize) -> (r: String)
        requires
            depth <= MAX_DEPTH + 1,
        ensures
            r@ == self@.name_at(id, depth as nat),
        decreases MAX_DEPTH + 1 - depth, 1nat,
    {
        if depth > MAX_DEPTH {
            return "<recursive>".to_owned();
        }
        let at: TypeId = self.resolve(id);
        if let Some(name) = self.source_names.get(&at.0) {
            return name.clone();
        }
        if self.is_rust(at) {
            if let Some(name) = self.rust_display_name(at, depth) {
                return name;
            }
        }
        match self.get(at) {
            None => {
                let mut out: String = "<invalid:".to_owned();
                push_decimal(&mut out, id.0 as u64);
                out.append(">");
                out
            },
            Some(def) => match def {
                TypeDef::Primitive(p) => p.name().to_owned(),
                TypeDef::Pointer(inner) => {
                    let mut out: String = self.display_name_with_depth(*inner, depth + 1);
                    out.append("*");
                    out
                },
                TypeDef::Reference(inner) => {
                    let mut out: String = self.display_name_with_depth(*inner, depth + 1);
                    out.append("&");
                    out
                },
                TypeDef::Array { element, count } => {
                    let mut out: String = self.display_name_with_depth(*element, depth + 1);
                    match count {
                        Some(n) => {
                            out.append("[");
                            push_decimal(&mut out, *n);
                            out.append("]");
                        },
                        None => {
                            out.append("[]");
                        },
                    }
                    out
                },
                TypeDef::Struct(s) => s.display_name(),
                TypeDef::Union(s) => prefixed("union ", s.display_name()),
                TypeDef::Enum(e) => match &e.name {
                    Some(name) => name.clone(),
                    None => "<anonymous enum>".to_owned(),
                },
                TypeDef::Typedef { name, .. } => name.clone(),
                TypeDef::Const(inner) => prefixed(
                    "const ",
                    self.display_name_with_depth(*inner, depth + 1),
                ),
                TypeDef::Volatile(inner) => prefixed(
                    "volatile ",
                    self.display_name_with_depth(*inner, depth + 1),
                ),
                TypeDef::Restrict(inner) => prefixed(
                    "restrict ",
                    self.display_name_with_depth(*inner, depth + 1),
                ),
                TypeDef::Subroutine { return_type, .. } => {
                    let mut out: String = match return_type {
                        Some(r) => self.display_name_with_depth(*r, depth + 1),
                        None => "void".to_owned(),
                    };
                    out.append("()");
                    out
                },
                TypeDef::Void => "void".to_owned(),
                TypeDef::Unknown { size } => {
                    let mut out: String = "unknown[".to_owned();
                    push_decimal(&mut out, *size);
                    out.append("]");
                    out
                },
                TypeDef::ForwardDecl { name, kind, target } => match target {
                    Some(target) => self.display_name_with_depth(*target, depth + 1),
                    None => {
                        let mut out: String = match kind {
                            ForwardDeclKind::Struct => "struct".to_owned(),
                            ForwardDeclKind::Class => "class".to_owned(),
                            ForwardDeclKind::Union => "union".to_owned(),
                            ForwardDeclKind::Enum => "enum".to_owned(),
                        };
                        out.append(" ");
                        out.append(name.as_str());
                        out.append(" (forward)");
                        out
                    },
                },
                TypeDef::Placeholder => "<placeholder>".to_owned(),
            },
        }
    }

    /// Rust spellings for the structural types that differ from C
    fn rust_display_name(&self, id: TypeId, depth: usize) -> (r: Option<String>)
        requires
            depth <= MAX_DEPTH,
        ensures
            self@.rust_name_at(id, depth as nat) == (match r {
                Some(name) => Some(name@),
                None => None,
            }),
        decreases MAX_DEPTH + 1 - depth, 0nat,
    {
        match self.get(id) {
            Some(TypeDef::Array { element, count }) => {
                let mut out: String = prefixed("[", self.display_name_with_depth(*element, depth + 1));
                if let Some(n) = count {
                    out.append("; ");
                    push_decimal(&mut out, *n);
                }
                out.append("]");
                Some(out)
            },
            Some(TypeDef::Pointer(inner)) => Some(
                prefixed("*const ", self.display_name_with_depth(*inner, depth + 1)),
            ),
            // rustc spells concrete arguments into the name; template params are
            // inherited by variant payload structs and would print `Some<T>`
            Some(TypeDef::Struct(s)) => Some(s.display_name_without_params()),
            Some(TypeDef::Union(s)) => Some(s.display_name_without_params()),
            Some(TypeDef::Void) => Some("()".to_owned()),
            _ => None,
        }
    }

    /// Every type with its id
    pub fn iter(&self) -> (r: Vec<(TypeId, &TypeDef)>)
        ensures
            r@.len() == self@.types.len(),
            forall|i: int|
                0 <= i < r@.len() ==> (#[trigger] r@[i]).0 == TypeId(i as u32) && *r@[i].1
                    == self@.types[i],
    {
        let mut out: Vec<(TypeId, &TypeDef)> = Vec::new();
        while out.len() < self.types.len()
            invariant
                out@.len() <= self@.types.len(),
                self@.types.len() == self.types@.len(),
                forall|i: int|
                    0 <= i < out@.len() ==> (#[trigger] out@[i]).0 == TypeId(i as u32)
                        && *out@[i].1 == self@.types[i],
            decreases self.types@.len() - out@.len(),
        {
            let i: usize = out.len();
            out.push((TypeId(i as u32), &self.types[i]));
        }
        out
    }

    /// Get statistics about the type table
    pub fn stats(&self) -> (r: TypeTableStats)
        ensures
            r.counts(self@.types),
    {
        let mut stats = TypeTableStats {
            total_types: self.types.len(),
            primitives: 0,
            pointers: 0,
            references: 0,
            arrays: 0,
            structs: 0,
            unions: 0,
            enums: 0,
            typedefs: 0,
            qualifiers: 0,
            subroutines: 0,
            voids: 0,
            unknowns: 0,
            forward_decls: 0,
            unresolved_forward_decls: 0,
            placeholders: 0,
        };
        let ghost types = self@.types;
        let mut i: usize = 0;
        assert(types.take(0) =~= Seq::<TypeDef>::empty());
        while i < self.types.len()
            invariant
                i <= self.types@.len(),
                types == self@.types,
                stats.total_types == types.len(),
                stats.counts_within(types.take(i as int)),
                stats.at_most(i as nat),
            decreases self.types@.len() - i,
        {
            proof {
                assert(types.take(i + 1).drop_last() =~= types.take(i as int));
                assert(types.take(i + 1).last() == types[i as int]);
            }
            match &self.types[i] {
                TypeDef::Primitive(_) => {
                    stats.primitives = stats.primitives + 1;
                },
                TypeDef::Pointer(_) => {
                    stats.pointers = stats.pointers + 1;
                },
                TypeDef::Reference(_) => {
                    stats.references = stats.references + 1;
                },
                TypeDef::Array { .. } => {
                    stats.arrays = stats.arrays + 1;
                },
                TypeDef::Struct(_) => {
                    stats.structs = stats.structs + 1;
                },
                TypeDef::Union(_) => {
                    stats.unions = stats.unions + 1;
                },
                TypeDef::Enum(_) => {
                    stats.enums = stats.enums + 1;
                },
                TypeDef::Typedef { .. } => {
                    stats.typedefs = stats.typedefs + 1;
                },
                TypeDef::Const(_) | TypeDef::Volatile(_) | TypeDef::Restrict(_) => {
                    stats.qualifiers = stats.qualifiers + 1;
                },
                TypeDef::Subroutine { .. } => {
                    stats.subroutines = stats.subroutines + 1;
                },
                TypeDef::Void => {
                    stats.voids = stats.voids + 1;
                },
                TypeDef::Unknown { .. } => {
                    stats.unknowns = stats.unknowns + 1;
                },
                TypeDef::ForwardDecl { target, .. } => {
                    stats.forward_decls = stats.forward_decls + 1;
                    if target.is_none() {
                        stats.unresolved_forward_decls = stats.unresolved_forward_decls + 1;
                    }
                },
                TypeDef::Placeholder => {
                    stats.placeholders = stats.placeholders + 1;
                },
            }
            i = i + 1;
        }
        assert(types.take(types.len() as int) =~= types);
        stats
    }
}

/// `text` with `prefix` before it.
fn prefixed(prefix: &str, text: String) -> (r: String)
    ensures
        r@ == prefix@ + text@,
{
    let mut out: String = prefix.to_owned();
    out.append(text.as_str());
    out
}

/// The categories that [`TypeTableStats`] counts.
#[derive(Copy, Clone, Debug, PartialEq, Eq, Structural)]
pub enum Category {
    Primitive,
    Pointer,
    Reference,
    Array,
    Struct,
    Union,
    Enum,
    Typedef,
    Qualifier,
    Subroutine,
    Void,
    Unknown,
    ForwardDecl,
    Placeholder,
}

/// The category of a definition.
pub open spec fn category(def: TypeDef) -> Category {
    match def {
        TypeDef::Primitive(_) => Category::Primitive,
        TypeDef::Pointer(_) => Category::Pointer,
        TypeDef::Reference(_) => Category::Reference,
        TypeDef::Array { .. } => Category::Array,
        TypeDef::Struct(_) => Category::Struct,
        TypeDef::Union(_) => Category::Union,
        TypeDef::Enum(_) => Category::Enum,
        TypeDef::Typedef { .. } => Category::Typedef,
        TypeDef::Const(_) => Category::Qualifier,
        TypeDef::Volatile(_) => Category::Qualifier,
        TypeDef::Restrict(_) => Category::Qualifier,
        TypeDef::Subroutine { .. } => Category::Subroutine,
        TypeDef::Void => Category::Void,
        TypeDef::Unknown { .. } => Category::Unknown,
        TypeDef::ForwardDecl { .. } => Category::ForwardDecl,
        TypeDef::Placeholder => Category::Placeholder,
    }
}

/// Picks the definitions of a category.
pub open spec fn in_category(c: Category) -> spec_fn(TypeDef) -> bool {
    |def: TypeDef| category(def) == c
}

/// Picks the forward declarations without a target.
pub open spec fn unresolved() -> spec_fn(TypeDef) -> bool {
    |def: TypeDef| def matches TypeDef::ForwardDecl { target, .. } && target is None
}

/// Statistics about a type table
#[derive(Debug)]
pub struct TypeTableStats {
    pub total_types: usize,
    pub primitives: usize,
    pub pointers: usize,
    pub references: usize,
    pub arrays: usize,
    pub structs: usize,
    pub unions: usize,
    pub enums: usize,
    pub typedefs: usize,
    pub qualifiers: usize,
    pub subroutines: usize,
    pub voids: usize,
    pub unknowns: usize,
    pub forward_decls: usize,
    pub unresolved_forward_decls: usize,
    pub placeholders: usize,
}

impl TypeTableStats {
    /// Whether each count is the number of definitions of its category.
    pub open spec fn counts_within(self, types: Seq<TypeDef>) -> bool {
        &&& self.primitives == count(types, in_category(Category::Primitive))
        &&& self.pointers == count(types, in_category(Category::Pointer))
        &&& self.references == count(types, in_category(Category::Reference))
        &&& self.arrays == count(types, in_category(Category::Array))
        &&& self.structs == count(types, in_category(Category::Struct))
        &&& self.unions == count(types, in_category(Category::Union))
        &&& self.enums == count(types, in_category(Category::Enum))
        &&& self.typedefs == count(types, in_category(Category::Typedef))
        &&& self.qualifiers == count(types, in_category(Category::Qualifier))
        &&& self.subroutines == count(types, in_category(Category::Subroutine))
        &&& self.voids == count(types, in_category(Category::Void))
        &&& self.unknowns == count(types, in_category(Category::Unknown))
        &&& self.forward_decls == count(types, in_category(Category::ForwardDecl))
        &&& self.unresolved_forward_decls == count(types, unresolved())
        &&& self.placeholders == count(types, in_category(Category::Placeholder))
    }

    /// Whether these are the statistics of a table with these types.
    pub open spec fn counts(self, types: Seq<TypeDef>) -> bool {
        self.total_types == types.len() && self.counts_within(types)
    }

    spec fn at_most(self, n: nat) -> bool {
        &&& self.primitives <= n
        &&& self.pointers <= n
        &&& self.references <= n
        &&& self.arrays <= n
        &&& self.structs <= n
        &&& self.unions <= n
        &&& self.enums <= n
        &&& self.typedefs <= n
        &&& self.qualifiers <= n
        &&& self.subroutines <= n
        &&& self.voids <= n
        &&& self.unknowns <= n
        &&& self.forward_decls <= n
        &&& self.unresolved_forward_decls <= n
        &&& self.placeholders <= n
    }
}

/// What a typedef, a qualifier or a resolved forward declaration stands for.
fn layer_of(def: &TypeDef) -> (r: Option<TypeId>)
    ensures
        r == layer(*def),
{
    match def {
        TypeDef::Typedef { underlying, .. } => Some(*underlying),
        TypeDef::Const(inner) => Some(*inner),
        TypeDef::Volatile(inner) => Some(*inner),
        TypeDef::Restrict(inner) => Some(*inner),
        TypeDef::ForwardDecl { target, .. } => *target,
        _ => None,
    }
}

fn children_in(s: &StructDef) -> (r: bool)
    ensures
        r == has_children(*s),
{
    if s.members.len() > 0 {
        return true;
    }
    match &s.variant_part {
        Some(part) => part.variants.len() > 0,
        None => false,
    }
}

/// Resolving does not look at what is pending.
proof fn lemma_resolving_ignores_pending(t: TableView, ids: Seq<TypeId>, pending: Seq<TypeId>)
    ensures
        (TableView { pending, ..t }).resolving_all(ids) == (TableView {
            pending,
            ..t.resolving_all(ids)
        }),
    decreases ids.len(),
{
    if ids.len() > 0 {
        lemma_resolving_ignores_pending(t, ids.drop_last(), pending);
    }
}

/// A type just inserted is found under the id it got.
pub proof fn lemma_insert_then_get(t: TableView, def: TypeDef)
    requires
        t.types.len() < u32::MAX,
    ensures
        def_in(t.allocating().defining(t.next_id(), def).types, t.next_id()) == Some(def),
        forall|id: TypeId|
            id.0 < t.types.len() ==> def_in(t.allocating().defining(t.next_id(), def).types, id)
                == #[trigger] def_in(t.types, id),
{
}

/// A key keeps the type it got: asking again gives the same id and changes
/// nothing.
pub proof fn lemma_keys_are_stable(t: TableView, key: DwarfTypeKey)
    ensures
        t.keyed(key).0.keyed(key) == t.keyed(key),
{
}

/// How many members the type with this id has, if it can complete a forward
/// declaration of this kind.
pub open spec fn members_for(types: Seq<TypeDef>, id: TypeId, kind: ForwardDeclKind) -> Option<nat> {
    match def_in(types, id) {
        Some(def) => completes(def, kind),
        None => None,
    }
}

/// What [`best_of`] picks is a candidate that can complete the declaration, and
/// none has more members.
pub proof fn lemma_best(types: Seq<TypeDef>, ids: Seq<TypeId>, kind: ForwardDeclKind)
    ensures
        best_of(types, ids, kind) matches Some((id, n)) ==> {
            &&& ids.contains(id)
            &&& members_for(types, id, kind) == Some(n)
        },
        forall|i: int|
            0 <= i < ids.len() && (#[trigger] members_for(types, ids[i], kind)) is Some ==> (
            best_of(types, ids, kind) matches Some((_, n)) && members_for(types, ids[i], kind)->0
                <= n),
    decreases ids.len(),
{
    if ids.len() > 0 {
        let rest = ids.drop_last();
        lemma_best(types, rest, kind);
        if best_of(types, rest, kind) is Some {
            let (id, _) = best_of(types, rest, kind)->0;
            let i = choose|i: int| 0 <= i < rest.len() && rest[i] == id;
            assert(ids[i] == id);
        }
        assert(ids[ids.len() - 1] == ids.last());
        assert forall|i: int|
            0 <= i < ids.len() && (#[trigger] members_for(types, ids[i], kind)) is Some implies (
        best_of(types, ids, kind) matches Some((_, n)) && members_for(types, ids[i], kind)->0
            <= n) by {
            if i < rest.len() {
                assert(rest[i] == ids[i]);
                assert(members_for(types, rest[i], kind) is Some);
            }
        }
    }
}

/// Resolving an unresolved forward declaration for which a definition exists
/// makes it lead there: to a definition of the same kind, which is no forward
/// declaration itself. Every other definition stays as it is.
pub proof fn lemma_resolving_leads_to_a_definition(t: TableView, id: TypeId)
    requires
        def_in(t.types, id) matches Some(TypeDef::ForwardDecl { name, kind, target }) && target
            is None && t.best(name@, kind) is Some,
    ensures
        def_in(t.types, id) matches Some(TypeDef::ForwardDecl { name, kind, .. }) ==> {
            let best = t.best(name@, kind)->0;
            &&& resolved(t.resolving(id).types, id) == best
            &&& def_in(t.resolving(id).types, best) == def_in(t.types, best)
            &&& completes(def_in(t.types, best)->0, kind) is Some
        },
        forall|other: TypeId|
            other != id ==> def_in(t.resolving(id).types, other) == #[trigger] def_in(
                t.types,
                other,
            ),
{
    if let Some(TypeDef::ForwardDecl { name, kind, target }) = def_in(t.types, id) {
        let ids = ids_named(t.names, name@);
        lemma_best(t.types, ids, kind);
        let best = t.best(name@, kind)->0;
        let after = t.resolving(id).types;
        assert(best != id);
        assert(next_in(after, id) == Some(best));
        assert(next_in(after, best) is None);
        assert(resolved_in(after, best, (after.len() - 1) as nat) == best);
    }
}

/// Where every resolved forward declaration leads to a lower rank, resolving
/// never ends in a resolved forward declaration.
pub proof fn lemma_resolve_ends(types: Seq<TypeDef>, id: TypeId, rank: spec_fn(TypeId) -> nat)
    requires
        forall|a: TypeId|
            (#[trigger] next_in(types, a)) is Some ==> rank(next_in(types, a)->0) < rank(a),
        rank(id) <= types.len(),
    ensures
        next_in(types, resolved(types, id)) is None,
{
    lemma_resolve_ends_within(types, id, rank, types.len());
}

proof fn lemma_resolve_ends_within(
    types: Seq<TypeDef>,
    id: TypeId,
    rank: spec_fn(TypeId) -> nat,
    n: nat,
)
    requires
        forall|a: TypeId|
            (#[trigger] next_in(types, a)) is Some ==> rank(next_in(types, a)->0) < rank(a),
        rank(id) <= n,
    ensures
        next_in(types, resolved_in(types, id, n)) is None,
    decreases n,
{
    if n > 0 && next_in(types, id) is Some {
        lemma_resolve_ends_within(types, next_in(types, id)->0, rank, (n - 1) as nat);
    }
}

/// Resolving what was resolved changes nothing, where the chain of forward
/// declarations from a type ends.
pub proof fn lemma_resolve_is_idempotent(types: Seq<TypeDef>, id: TypeId)
    requires
        next_in(types, resolved(types, id)) is None,
    ensures
        resolved(types, resolved(types, id)) == resolved(types, id),
{
}

/// What a typedef or a qualifier with this id stands for.
pub open spec fn qualified(types: Seq<TypeDef>, id: TypeId) -> Option<TypeId> {
    match def_in(types, id) {
        Some(TypeDef::Typedef { underlying, .. }) => Some(underlying),
        Some(TypeDef::Const(inner)) => Some(inner),
        Some(TypeDef::Volatile(inner)) => Some(inner),
        Some(TypeDef::Restrict(inner)) => Some(inner),
        _ => None,
    }
}

/// Whether the typedefs and qualifiers of a type, from this depth on, end within
/// [`MAX_DEPTH`], and with them every chain of forward declarations on the way.
pub open spec fn strips(types: Seq<TypeDef>, id: TypeId, depth: nat) -> bool
    decreases MAX_DEPTH + 1 - depth,
{
    if depth > MAX_DEPTH {
        false
    } else {
        &&& next_in(types, resolved(types, id)) is None
        &&& match qualified(types, resolved(types, id)) {
            Some(inner) => strips(types, inner, depth + 1),
            None => true,
        }
    }
}

/// Whether every type that a type is made of, as what it stands for or as an
/// array's element, has a lower rank: no type contains itself.
pub open spec fn nests(types: Seq<TypeDef>, rank: spec_fn(TypeId) -> nat) -> bool {
    forall|a: TypeId|
        #![trigger rank(a)]
        match def_in(types, resolved(types, a)) {
            Some(TypeDef::Array { element, .. }) => rank(element) < rank(a),
            Some(def) => layer(def) matches Some(inner) ==> rank(inner) < rank(a),
            None => true,
        }
}

/// From less deep the same type is behind typedefs and qualifiers.
proof fn lemma_strips_from(types: Seq<TypeDef>, id: TypeId, a: nat, b: nat)
    requires
        a <= b,
        strips(types, id, b),
    ensures
        strips(types, id, a),
        underlying_at(types, id, a) == underlying_at(types, id, b),
    decreases MAX_DEPTH + 1 - b,
{
    if let Some(inner) = qualified(types, resolved(types, id)) {
        lemma_strips_from(types, inner, a + 1, b + 1);
    }
}

/// Layers enough are as good as more.
proof fn lemma_size_fuel(
    types: Seq<TypeDef>,
    id: TypeId,
    rank: spec_fn(TypeId) -> nat,
    n: nat,
    m: nat,
)
    requires
        nests(types, rank),
        rank(id) <= n,
        rank(id) <= m,
    ensures
        size_in(types, id, n) == size_in(types, id, m),
    decreases rank(id),
{
    match def_in(types, resolved(types, id)) {
        Some(TypeDef::Array { element, .. }) => {
            assert(rank(element) < rank(id));
            lemma_size_fuel(types, element, rank, (n - 1) as nat, (m - 1) as nat);
        },
        Some(def) => {
            if let Some(inner) = layer(def) {
                assert(rank(inner) < rank(id));
                lemma_size_fuel(types, inner, rank, (n - 1) as nat, (m - 1) as nat);
            }
        },
        None => {},
    }
}

/// The typedefs and qualifiers of a type, from this depth on.
spec fn trail(types: Seq<TypeDef>, id: TypeId, depth: nat) -> Seq<TypeId>
    decreases MAX_DEPTH + 1 - depth,
{
    if depth > MAX_DEPTH {
        Seq::empty()
    } else {
        match qualified(types, resolved(types, id)) {
            Some(inner) => seq![resolved(types, id)] + trail(types, inner, depth + 1),
            None => Seq::empty(),
        }
    }
}

/// What is behind a type does not depend on how deep it stands.
proof fn lemma_same_trail(types: Seq<TypeDef>, a: TypeId, b: TypeId, m: nat, n: nat)
    requires
        strips(types, a, m),
        strips(types, b, n),
        resolved(types, a) == resolved(types, b),
    ensures
        trail(types, a, m) == trail(types, b, n),
    decreases MAX_DEPTH + 1 - m,
{
    if let Some(inner) = qualified(types, resolved(types, a)) {
        lemma_same_trail(types, inner, inner, m + 1, n + 1);
    }
}

/// A type on the way has the rest of the way before it.
proof fn lemma_trail_from(types: Seq<TypeDef>, id: TypeId, depth: nat, j: int) -> (w: TypeId)
    requires
        strips(types, id, depth),
        0 <= j < trail(types, id, depth).len(),
    ensures
        strips(types, w, (depth + j) as nat),
        resolved(types, w) == trail(types, id, depth)[j],
        trail(types, w, (depth + j) as nat) == trail(types, id, depth).skip(j),
        def_in(types, trail(types, id, depth)[j]) is Some,
    decreases j,
{
    let all = trail(types, id, depth);
    let inner = qualified(types, resolved(types, id))->0;
    let rest = trail(types, inner, depth + 1);
    if j == 0 {
        assert(all.skip(0) =~= all);
        id
    } else {
        assert(all.skip(1) =~= rest);
        assert(all.skip(j) =~= rest.skip(j - 1));
        lemma_trail_from(types, inner, depth + 1, j - 1)
    }
}

/// No way through typedefs and qualifiers is longer than there are types.
proof fn lemma_trail_is_short(types: Seq<TypeDef>, id: TypeId)
    requires
        strips(types, id, 0),
    ensures
        trail(types, id, 0).len() <= types.len(),
{
    let all = trail(types, id, 0);
    let places = Seq::new(all.len(), |i: int| all[i].0 as int);
    assert forall|i: int, j: int| 0 <= i < j < places.len() implies places[i] != places[j] by {
        let v = lemma_trail_from(types, id, 0, i);
        let w = lemma_trail_from(types, id, 0, j);
        if places[i] == places[j] {
            assert(all[i] == all[j]);
            lemma_same_trail(types, v, w, i as nat, j as nat);
            assert(all.skip(i).len() == all.skip(j).len());
        }
    }
    assert(places.no_duplicates());
    places.unique_seq_to_set();
    let range = vstd::set_lib::set_int_range(0, types.len() as int);
    vstd::set_lib::lemma_int_range(0, types.len() as int);
    assert(places.to_set().subset_of(range)) by {
        assert forall|x: int| places.to_set().contains(x) implies range.contains(x) by {
            let i = choose|i: int| 0 <= i < places.len() && places[i] == x;
            let _ = lemma_trail_from(types, id, 0, i);
        }
    }
    vstd::set_lib::lemma_len_subset(places.to_set(), range);
}

/// Behind its typedefs and qualifiers a type has the same size, members and kind of
/// value.
proof fn lemma_behind_the_trail(types: Seq<TypeDef>, id: TypeId, depth: nat, n: nat, m: nat)
    requires
        strips(types, id, depth),
        n >= trail(types, id, depth).len(),
    ensures
        ({
            let plain = underlying_at(types, id, depth);
            &&& resolved(types, plain) == plain
            &&& qualified(types, plain) is None
            &&& next_in(types, plain) is None
            &&& record_at(types, id, depth) == record_at(types, plain, 0)
            &&& variable_type_in(types, id, n) == variable_type_in(types, plain, m)
            &&& size_in(types, id, n) == size_in(
                types,
                plain,
                (n - trail(types, id, depth).len()) as nat,
            )
        }),
    decreases MAX_DEPTH + 1 - depth,
{
    lemma_resolve_is_idempotent(types, id);
    if let Some(inner) = qualified(types, resolved(types, id)) {
        lemma_behind_the_trail(types, inner, depth + 1, (n - 1) as nat, m);
    }
}

/// A size stays with more layers to look through.
proof fn lemma_size_stays(types: Seq<TypeDef>, id: TypeId, n: nat, m: nat)
    requires
        n <= m,
        size_in(types, id, n) is Some,
    ensures
        size_in(types, id, m) == size_in(types, id, n),
    decreases n,
{
    match def_in(types, resolved(types, id)) {
        Some(TypeDef::Array { element, .. }) => {
            lemma_size_stays(types, element, (n - 1) as nat, (m - 1) as nat);
        },
        Some(def) => {
            if let Some(inner) = layer(def) {
                lemma_size_stays(types, inner, (n - 1) as nat, (m - 1) as nat);
            }
        },
        None => {},
    }
}

/// Taking typedefs and qualifiers off twice is taking them off once, and a type
/// keeps its members and the size it has without them, where there are no more of
/// them than are followed.
pub proof fn lemma_underlying_is_plain(types: Seq<TypeDef>, id: TypeId)
    requires
        strips(types, id, 0),
    ensures
        ({
            let plain = underlying_at(types, id, 0);
            &&& underlying_at(types, plain, 0) == plain
            &&& record_at(types, plain, 0) == record_at(types, id, 0)
            &&& size_of_type(types, id) is Some ==> size_of_type(types, plain) == size_of_type(
                types,
                id,
            )
        }),
{
    let n = types.len();
    let plain = underlying_at(types, id, 0);
    lemma_trail_is_short(types, id);
    lemma_behind_the_trail(types, id, 0, n, n);
    if size_of_type(types, id) is Some {
        lemma_size_stays(types, plain, (n - trail(types, id, 0).len()) as nat, n);
    }
}

/// Typedefs and qualifiers neither give nor take a size, of types that do not
/// contain themselves.
pub proof fn lemma_qualifiers_keep_the_size(
    types: Seq<TypeDef>,
    id: TypeId,
    rank: spec_fn(TypeId) -> nat,
)
    requires
        strips(types, id, 0),
        nests(types, rank),
        rank(id) <= types.len(),
    ensures
        size_of_type(types, underlying_at(types, id, 0)) == size_of_type(types, id),
{
    lemma_stripped_size(types, id, rank, 0);
}

proof fn lemma_stripped_size(
    types: Seq<TypeDef>,
    id: TypeId,
    rank: spec_fn(TypeId) -> nat,
    depth: nat,
)
    requires
        strips(types, id, depth),
        nests(types, rank),
        rank(id) <= types.len(),
    ensures
        size_of_type(types, underlying_at(types, id, depth)) == size_of_type(types, id),
    decreases MAX_DEPTH + 1 - depth,
{
    lemma_resolve_is_idempotent(types, id);
    if let Some(inner) = qualified(types, resolved(types, id)) {
        assert(rank(inner) < rank(id));
        lemma_stripped_size(types, inner, rank, depth + 1);
        lemma_size_fuel(types, inner, rank, types.len(), (types.len() - 1) as nat);
    }
}

/// How a value is read does not depend on typedefs and qualifiers, where there are
/// no more of them than are followed.
pub proof fn lemma_qualifiers_keep_the_value(types: Seq<TypeDef>, id: TypeId)
    requires
        strips(types, id, 0),
    ensures
        variable_type_in(types, underlying_at(types, id, 0), types.len()) == variable_type_in(
            types,
            id,
            types.len(),
        ),
{
    lemma_trail_is_short(types, id);
    lemma_behind_the_trail(types, id, 0, types.len(), types.len());
}

/// How a value is read goes by what is behind typedefs and qualifiers: a number by
/// its type, a pointer, reference or function as a word, an enum as an unsigned
/// number of its size, and anything else that has a size as that many bytes. A
/// type that is not there, not known or without a value has none. An array is of
/// known length and has a size, and there are no more typedefs and qualifiers than
/// are followed.
pub proof fn lemma_values_are_read_by_kind(types: Seq<TypeDef>, id: TypeId)
    requires
        strips(types, id, 0),
        def_in(types, underlying_at(types, id, 0)) matches Some(TypeDef::Array { count, .. })
            ==> count is Some && size_of_type(types, id) is Some,
    ensures
        ({
            let value = variable_type_in(types, id, types.len());
            match def_in(types, underlying_at(types, id, 0)) {
                Some(TypeDef::Primitive(p)) => value == p.spec_variable_type(),
                Some(TypeDef::Pointer(_)) => value == VariableType::U32,
                Some(TypeDef::Reference(_)) => value == VariableType::U32,
                Some(TypeDef::Subroutine { .. }) => value == VariableType::U32,
                Some(TypeDef::Enum(e)) => value == (if e.size == 1 {
                    VariableType::U8
                } else if e.size == 2 {
                    VariableType::U16
                } else if e.size == 4 {
                    VariableType::U32
                } else if e.size == 8 {
                    VariableType::U64
                } else {
                    VariableType::Raw(e.size as usize)
                }),
                Some(TypeDef::Struct(_)) => size_of_type(types, id) matches Some(size) && value
                    == VariableType::Raw(size as usize),
                Some(TypeDef::Union(_)) => size_of_type(types, id) matches Some(size) && value
                    == VariableType::Raw(size as usize),
                Some(TypeDef::Unknown { .. }) => size_of_type(types, id) matches Some(size) && value
                    == VariableType::Raw(size as usize),
                Some(TypeDef::Array { .. }) => size_of_type(types, id) matches Some(size) && value
                    == VariableType::Raw(size as usize),
                _ => value == VariableType::Raw(0),
            }
        }),
{
    let n = types.len();
    lemma_trail_is_short(types, id);
    lemma_behind_the_trail(types, id, 0, n, n);
    let plain = underlying_at(types, id, 0);
    let left = (n - trail(types, id, 0).len()) as nat;
    if let Some(TypeDef::Array { element, .. }) = def_in(types, plain) {
        assert(size_in(types, plain, left) is Some);
        lemma_size_stays(types, element, (left - 1) as nat, n);
    }
}

/// A qualifier in front of a type leaves what is behind it.
pub proof fn lemma_qualifier_is_looked_through(types: Seq<TypeDef>, id: TypeId, inner: TypeId)
    requires
        strips(types, id, 0),
        qualified(types, resolved(types, id)) == Some(inner),
    ensures
        underlying_at(types, id, 0) == underlying_at(types, inner, 0),
{
    lemma_strips_from(types, inner, 0, 1);
}

/// Whether two tables hold the same definitions, but for where their forward
/// declarations lead.
pub open spec fn same_definitions(a: Seq<TypeDef>, b: Seq<TypeDef>) -> bool {
    &&& a.len() == b.len()
    &&& forall|i: int|
        0 <= i < a.len() ==> #[trigger] a[i] == b[i] || (a[i] is ForwardDecl && b[i] is ForwardDecl)
}

/// A definition is picked whatever forward declarations lead to.
proof fn lemma_same_best(a: Seq<TypeDef>, b: Seq<TypeDef>, ids: Seq<TypeId>, kind: ForwardDeclKind)
    requires
        same_definitions(a, b),
    ensures
        best_of(a, ids, kind) == best_of(b, ids, kind),
    decreases ids.len(),
{
    if ids.len() > 0 {
        lemma_same_best(a, b, ids.drop_last(), kind);
        let id = ids.last();
        if id.0 < a.len() {
            assert(a[id.0 as int] == b[id.0 as int] || (a[id.0 as int] is ForwardDecl
                && b[id.0 as int] is ForwardDecl));
        }
    }
}

/// The definition with this id once the forward declarations among `ids` are
/// resolved: an unresolved one of them leads to the best definition, where there
/// is one.
pub open spec fn led(t: TableView, ids: Seq<TypeId>, id: TypeId) -> Option<TypeDef> {
    match def_in(t.types, id) {
        Some(TypeDef::ForwardDecl { name, kind, target: None }) => match t.best(name@, kind) {
            Some(best) => if ids.contains(id) {
                Some(TypeDef::ForwardDecl { name, kind, target: Some(best) })
            } else {
                def_in(t.types, id)
            },
            None => def_in(t.types, id),
        },
        def => def,
    }
}

/// Every forward declaration that is asked for and has a definition leads to the
/// best one of its kind; nothing else changes.
pub proof fn lemma_declarations_are_resolved(t: TableView, ids: Seq<TypeId>)
    ensures
        ({
            let after = t.resolving_all(ids);
            &&& after == (TableView { types: after.types, ..t })
            &&& after.types.len() == t.types.len()
            &&& forall|id: TypeId| #[trigger] def_in(after.types, id) == led(t, ids, id)
        }),
        same_definitions(t.types, t.resolving_all(ids).types),
    decreases ids.len(),
{
    let after = t.resolving_all(ids);
    if ids.len() > 0 {
        let rest = ids.drop_last();
        let last = ids.last();
        let before = t.resolving_all(rest);
        lemma_declarations_are_resolved(t, rest);
        assert(def_in(before.types, last) == led(t, rest, last));
        if let Some(TypeDef::ForwardDecl { name, kind, target }) = def_in(t.types, last) {
            lemma_same_best(t.types, before.types, ids_named(t.names, name@), kind);
            assert(before.best(name@, kind) == t.best(name@, kind));
            lemma_best(t.types, ids_named(t.names, name@), kind);
            assert(t.best(name@, kind) != Some(last));
        }
        assert forall|id: TypeId| #[trigger] def_in(after.types, id) == led(t, ids, id) by {
            assert(def_in(before.types, id) == led(t, rest, id));
            assert(ids.contains(id) <==> rest.contains(id) || id == last) by {
                if rest.contains(id) {
                    let k = choose|k: int| 0 <= k < rest.len() && rest[k] == id;
                    assert(ids[k] == id);
                }
                if ids.contains(id) {
                    let k = choose|k: int| 0 <= k < ids.len() && ids[k] == id;
                    if k < rest.len() {
                        assert(rest[k] == id);
                    }
                }
                assert(ids[ids.len() - 1] == last);
            }
        }
        assert forall|i: int| 0 <= i < t.types.len() implies #[trigger] t.types[i] == after.types[i]
            || (t.types[i] is ForwardDecl && after.types[i] is ForwardDecl) by {
            assert(t.types[i] == before.types[i] || (t.types[i] is ForwardDecl
                && before.types[i] is ForwardDecl));
        }
    } else {
        assert forall|id: TypeId| #[trigger] def_in(after.types, id) == led(t, ids, id) by {}
    }
}

/// Once the pending forward declarations are resolved, each that was unresolved
/// and has a definition leads to the best one of its kind, which is no forward
/// declaration.
pub proof fn lemma_pending_declarations_lead_to_definitions(t: TableView, id: TypeId)
    requires
        t.pending.contains(id),
        def_in(t.types, id) matches Some(TypeDef::ForwardDecl { name, kind, target }) && target
            is None && t.best(name@, kind) is Some,
    ensures
        def_in(t.types, id) matches Some(TypeDef::ForwardDecl { name, kind, .. }) ==> {
            let after = t.resolving_all(t.pending).types;
            let best = t.best(name@, kind)->0;
            &&& resolved(after, id) == best
            &&& def_in(after, best) == def_in(t.types, best)
            &&& completes(def_in(t.types, best)->0, kind) is Some
        },
{
    lemma_declarations_are_resolved(t, t.pending);
    if let Some(TypeDef::ForwardDecl { name, kind, target }) = def_in(t.types, id) {
        let after = t.resolving_all(t.pending).types;
        let best = t.best(name@, kind)->0;
        lemma_best(t.types, ids_named(t.names, name@), kind);
        assert(def_in(after, id) == led(t, t.pending, id));
        assert(def_in(after, best) == led(t, t.pending, best));
        assert(next_in(after, id) == Some(best));
        assert(next_in(after, best) is None);
        assert(resolved_in(after, best, (after.len() - 1) as nat) == best);
    }
}

/// Resolving forward declarations again changes nothing.
pub proof fn lemma_resolving_declarations_is_idempotent(t: TableView, ids: Seq<TypeId>)
    ensures
        t.resolving_all(ids).resolving_all(ids) == t.resolving_all(ids),
{
    let after = t.resolving_all(ids);
    lemma_declarations_are_resolved(t, ids);
    assert forall|k: int| 0 <= k < ids.len() implies after.resolving(#[trigger] ids[k]) == after by {
        let id = ids[k];
        assert(ids.contains(id));
        assert(def_in(after.types, id) == led(t, ids, id));
        if let Some(TypeDef::ForwardDecl { name, kind, target }) = def_in(t.types, id) {
            lemma_same_best(t.types, after.types, ids_named(t.names, name@), kind);
        }
    }
    lemma_resolving_nothing(after, ids);
}

proof fn lemma_resolving_nothing(t: TableView, ids: Seq<TypeId>)
    requires
        forall|k: int| 0 <= k < ids.len() ==> t.resolving(#[trigger] ids[k]) == t,
    ensures
        t.resolving_all(ids) == t,
    decreases ids.len(),
{
    if ids.len() > 0 {
        let rest = ids.drop_last();
        assert forall|k: int| 0 <= k < rest.len() implies t.resolving(#[trigger] rest[k]) == t by {
            assert(rest[k] == ids[k]);
        }
        lemma_resolving_nothing(t, rest);
        assert(ids[ids.len() - 1] == ids.last());
    }
}

} // verus!
