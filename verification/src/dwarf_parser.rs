//! Reads debug information into a type table and a list of variables.
//!
//! Units are read in one pass with deferred resolution: entries get types as
//! they are met, references are by type id, and once all units are read,
//! variables take what the entries they complete say, forward declarations
//! find their definitions and derived classes the members of their bases.

use vstd::prelude::*;
use vstd::string::*;
use std::collections::{HashMap, HashSet};
#[allow(unused_imports)]
use crate::def_view::{
    defs_of, followed, lemma_followed, lemma_record_of, model_of, record_of, text_of, view_in,
    DefView, MemberView,
};
#[allow(unused_imports)]
use crate::die::{
    TAG_POINTER_TYPE, TAG_BASE_TYPE, TAG_VARIABLE, AT_DECLARATION, AT_EXTERNAL, UnitInfo,
    UnitView,
};
#[allow(unused_imports)]
use crate::dwarf_model::{
    number_or, type_defined, InfoView, PendingView, DeferredView, ParserView, with_symbol,
    info_of, nothing_read, units_read, settled,
};
use crate::dwarf_types::{parse_type, tag_defines_type};
use crate::type_def::{BaseClassDef, DwarfTypeKey, GlobalTypeKey, MemberDef, TypeDef, TypeId};
#[allow(unused_imports)]
use crate::type_table::{size_of_type, TableView, TypeTable};
use crate::variable_status::{DwarfDiagnostics, StatusView, VariableStatus};
#[allow(unused_imports)]
use crate::variable_status::{lemma_record_counts_once, no_diagnostics};

verus! {

broadcast use vstd::std_specs::hash::group_hash_axioms;

/// Members as they stand in a class that inherits them at `offset`.
pub open spec fn moved(members: Seq<MemberView>, offset: u64) -> Seq<MemberView> {
    members.map_values(
        |m: MemberView| MemberView { offset: m.offset.wrapping_add(offset), ..m },
    )
}

/// The table and the types seen once the first `k` bases of a class have their
/// own inherited members, and what the class inherits from them. No more than
/// `n` further levels of bases are followed.
pub open spec fn bases_done(
    types: Seq<DefView>,
    bases: Seq<BaseClassDef>,
    seen: Set<u32>,
    k: nat,
    n: nat,
) -> (Seq<DefView>, Set<u32>, Seq<MemberView>)
    decreases n, 0nat, k,
{
    if k == 0 || k > bases.len() {
        (types, seen, Seq::empty())
    } else {
        let (types, seen, members) = bases_done(types, bases, seen, (k - 1) as nat, n);
        let base = bases[k - 1];
        let id = followed(types, base.type_id, types.len());
        let (types, seen) = if n == 0 {
            (types, seen)
        } else {
            inherited(types, id, seen, (n - 1) as nat)
        };
        (
            types,
            seen,
            match record_of(types, id, 0) {
                Some(rec) => members + moved(rec.members, base.offset),
                None => members,
            },
        )
    }
}

/// The table in which the class `id` starts with the members of its bases,
/// each base completed first, and the types seen. A type already seen is left.
pub open spec fn inherited(types: Seq<DefView>, id: TypeId, seen: Set<u32>, n: nat) -> (
    Seq<DefView>,
    Set<u32>,
)
    decreases n, 1nat, 0nat,
{
    if seen.contains(id.0) {
        (types, seen)
    } else {
        let seen = seen.insert(id.0);
        match view_in(types, id) {
            Some(def) => match def.record() {
                Some(rec) => {
                    let (types, seen, members) = bases_done(
                        types,
                        rec.base_classes,
                        seen,
                        rec.base_classes.len(),
                        n,
                    );
                    (
                        if members.len() == 0 {
                            types
                        } else {
                            prepended(types, id, members)
                        },
                        seen,
                    )
                },
                None => (types, seen),
            },
            None => (types, seen),
        }
    }
}

/// The table with these members in front of the class's own.
pub open spec fn prepended(types: Seq<DefView>, id: TypeId, members: Seq<MemberView>) -> Seq<
    DefView,
> {
    match view_in(types, id) {
        Some(def) => match def.record() {
            Some(rec) => types.update(id.0 as int, def.with_members(members + rec.members)),
            None => types,
        },
        None => types,
    }
}

/// The table after each of these classes inherited in turn, each from a fresh
/// start.
pub open spec fn inherited_all(types: Seq<DefView>, ids: Seq<TypeId>) -> Seq<DefView>
    decreases ids.len(),
{
    if ids.len() == 0 {
        types
    } else {
        let before = inherited_all(types, ids.drop_last());
        inherited(before, ids.last(), Set::empty(), before.len()).0
    }
}

/// The structs and unions among the first `n` types.
pub open spec fn records_upto(types: Seq<DefView>, n: nat) -> Seq<TypeId>
    decreases n,
{
    if n == 0 {
        Seq::empty()
    } else {
        let before = records_upto(types, (n - 1) as nat);
        let id = TypeId((n - 1) as u32);
        match view_in(types, id) {
            Some(def) => if def.record() is Some {
                before.push(id)
            } else {
                before
            },
            None => before,
        }
    }
}

/// The members of a list, as they stand in a class that inherits them.
fn append_moved(out: &mut Vec<MemberDef>, members: &[MemberDef], offset: u64)
    ensures
        final(out)@.map_values(|m: MemberDef| m@) == old(out)@.map_values(|m: MemberDef| m@)
            + moved(members@.map_values(|m: MemberDef| m@), offset),
{
    let ghost shown = |m: MemberDef| m@;
    let ghost start = out@.map_values(shown);
    let ghost all = moved(members@.map_values(shown), offset);
    let mut i: usize = 0;
    assert(out@.map_values(shown) =~= start + all.take(0));
    while i < members.len()
        invariant
            i <= members@.len(),
            shown == (|m: MemberDef| m@),
            all == moved(members@.map_values(shown), offset),
            out@.map_values(shown) == start + all.take(i as int),
        decreases members@.len() - i,
    {
        let m = &members[i];
        let member = MemberDef {
            name: m.name.clone(),
            offset: m.offset.wrapping_add(offset),
            type_id: m.type_id,
            bit_offset: m.bit_offset,
            bit_size: m.bit_size,
        };
        let ghost before = out@;
        out.push(member);
        i = i + 1;
        assert(all[i - 1] == member@);
        assert(out@.map_values(shown) =~= before.map_values(shown).push(member@));
        assert(out@.map_values(shown) =~= start + all.take(i as int));
    }
    assert(all.take(all.len() as int) =~= all);
}

/// What an entry says of a variable.
#[derive(Debug)]
struct VariableInfo {
    name: Option<String>,
    linkage_name: Option<String>,
    type_key: Option<DwarfTypeKey>,
    size: u64,
    is_global: bool,
}

impl View for VariableInfo {
    type V = InfoView;

    closed spec fn view(&self) -> InfoView {
        InfoView {
            name: text_of(self.name),
            linkage_name: text_of(self.linkage_name),
            type_key: self.type_key,
            size: self.size,
            is_global: self.is_global,
        }
    }
}

fn copied(s: &Option<String>) -> (r: Option<String>)
    ensures
        r == *s,
{
    match s {
        Some(s) => Some(s.clone()),
        None => None,
    }
}

impl VariableInfo {
    fn copy(&self) -> (r: VariableInfo)
        ensures
            r == *self,
    {
        VariableInfo {
            name: copied(&self.name),
            linkage_name: copied(&self.linkage_name),
            type_key: self.type_key,
            size: self.size,
            is_global: self.is_global,
        }
    }

    /// Inherit missing fields from what another entry says
    fn inherit_from(&mut self, other: &VariableInfo)
        ensures
            final(self)@ == old(self)@.inheriting(other@),
    {
        if self.name.is_none() {
            self.name = copied(&other.name);
        }
        if self.linkage_name.is_none() {
            self.linkage_name = copied(&other.linkage_name);
        }
        if self.type_key.is_none() {
            self.type_key = other.type_key;
        }
        if self.size == 0 {
            self.size = other.size;
        }
        if !self.is_global {
            self.is_global = other.is_global;
        }
    }
}

/// A variable that waits for the entry it completes.
#[derive(Debug)]
struct DeferredVariable {
    info: VariableInfo,
    status: VariableStatus,
    target_offset: usize,
}

impl View for DeferredVariable {
    type V = DeferredView;

    closed spec fn view(&self) -> DeferredView {
        DeferredView {
            info: self.info@,
            status: self.status@,
            target_offset: self.target_offset,
        }
    }
}

/// A variable that waits for its type.
#[derive(Debug)]
struct PendingSymbol {
    name: String,
    mangled_name: Option<String>,
    size: u64,
    type_key: DwarfTypeKey,
    is_global: bool,
    status: VariableStatus,
}

impl View for PendingSymbol {
    type V = PendingView;

    closed spec fn view(&self) -> PendingView {
        PendingView {
            name: self.name@,
            mangled_name: text_of(self.mangled_name),
            size: self.size,
            type_key: self.type_key,
            is_global: self.is_global,
            status: self.status@,
        }
    }
}

/// Reads units into a type table
#[derive(Debug)]
pub struct DwarfParser {
    type_table: TypeTable,
    /// Variables that wait for their types
    pending_symbols: Vec<PendingSymbol>,
    /// Variables with a type, by their place in `.debug_info`
    variable_cache: HashMap<usize, VariableInfo>,
    /// Variables that wait for the entry they complete
    deferred_variables: Vec<DeferredVariable>,
}

impl View for DwarfParser {
    type V = ParserView;

    closed spec fn view(&self) -> ParserView {
        ParserView {
            table: model_of(self.type_table@),
            pending: self.pending_symbols@.map_values(|p: PendingSymbol| p@),
            cache: self.variable_cache@.map_values(|i: VariableInfo| i@),
            deferred: self.deferred_variables@.map_values(|d: DeferredVariable| d@),
        }
    }
}

impl DwarfParser {
    /// The types read so far.
    pub closed spec fn table(self) -> TableView {
        self.type_table@
    }

    /// A parser that has read nothing.
    pub fn new() -> (r: Self)
        ensures
            r@ == nothing_read(),
            r@.table.closed_keys(),
    {
        let r = DwarfParser {
            type_table: TypeTable::new(),
            pending_symbols: Vec::new(),
            variable_cache: HashMap::new(),
            deferred_variables: Vec::new(),
        };
        assert(r@ =~= nothing_read());
        r
    }

    /// Adds a variable, unless it has no name or no type
    fn try_add_pending_symbol(&mut self, info: VariableInfo, status: VariableStatus)
        ensures
            final(self)@ == (ParserView {
                pending: with_symbol(old(self)@.pending, info@, status@),
                ..old(self)@
            }),
            final(self).type_table == old(self).type_table,
    {
        let name: String = match &info.linkage_name {
            Some(name) => name.clone(),
            None => match &info.name {
                Some(name) => name.clone(),
                None => {
                    return;
                },
            },
        };
        if name.as_str().unicode_len() == 0 {
            return;
        }
        let type_key = match info.type_key {
            Some(type_key) => type_key,
            None => {
                return;
            },
        };
        let symbol = PendingSymbol {
            name: match info.name {
                Some(own) => own,
                None => name,
            },
            // The linkage name is the one the variable is added under
            mangled_name: None,
            size: info.size,
            type_key,
            is_global: info.is_global,
            status,
        };
        let ghost before = self.pending_symbols@;
        self.pending_symbols.push(symbol);
        assert(self@.pending =~= old(self)@.pending.push(symbol@));
        assert(self@ =~= ParserView {
            pending: with_symbol(old(self)@.pending, info@, status@),
            ..old(self)@
        });
    }

    /// Parse DW_TAG_variable
    fn parse_variable(&mut self, unit: &UnitInfo, unit_index: usize, i: usize)
        requires
            i < unit.dies@.len(),
        ensures
            final(self)@ == old(self)@.variable_entered(unit@, unit_index, i as int),
    {
        assert(unit@.dies[i as int] == unit.dies@[i as int]@);
        let die = &unit.dies[i];
        let at: usize = unit.offset.wrapping_add(die.offset);
        let mut info = VariableInfo {
            name: die.get_name(),
            linkage_name: die.get_linkage_name(),
            type_key: match die.get_type_ref_key(unit_index) {
                Some(key) => Some(key.to_dwarf_key()),
                None => None,
            },
            size: match die.get_byte_size() {
                Some(size) => size,
                None => 0,
            },
            is_global: die.flag(AT_EXTERNAL),
        };
        assert(info@ =~= info_of(die@, unit_index));
        if info.type_key.is_some() {
            self.variable_cache.insert(at, info.copy());
            assert(self@.cache =~= old(self)@.cache.insert(at, info@));
        }
        let ghost cached = *self;
        assert(cached@ =~= ParserView {
            cache: if info@.type_key is Some {
                old(self)@.cache.insert(at, info@)
            } else {
                old(self)@.cache
            },
            ..old(self)@
        });
        // A declaration is no variable by itself; its definition refers to it
        if die.flag(AT_DECLARATION) {
            return;
        }
        let status = die.get_variable_status();
        if let Some(target_offset) = die.get_reference_offset(unit.offset) {
            match self.variable_cache.get(&target_offset) {
                Some(target) => {
                    info.inherit_from(target);
                },
                None => {
                    let deferred = DeferredVariable { info, status, target_offset };
                    self.deferred_variables.push(deferred);
                    assert(self@.deferred =~= cached@.deferred.push(deferred@));
                    assert(self@ =~= old(self)@.variable_entered(unit@, unit_index, i as int));
                    return;
                },
            }
        }
        self.try_add_pending_symbol(info, status);
    }

    /// Register a type under its place in `.debug_info` too, so that references
    /// into that section find it.
    fn register_global_alias(&mut self, key: DwarfTypeKey, at: usize)
        requires
            old(self)@.table.closed_keys(),
        ensures
            final(self)@ == (ParserView {
                table: old(self)@.table.aliasing(GlobalTypeKey::Global(at).dwarf_key(), key),
                ..old(self)@
            }),
            final(self)@.table.closed_keys(),
    {
        if let Some(id) = self.type_table.get_by_dwarf_key(key) {
            assert(old(self)@.table.keys.contains_key(key));
            self.type_table.register_alias(GlobalTypeKey::global(at).to_dwarf_key(), id);
        }
        assert(self@ =~= ParserView {
            table: old(self)@.table.aliasing(GlobalTypeKey::Global(at).dwarf_key(), key),
            ..old(self)@
        });
        assert(self@.table.closed_keys()) by {
            assert forall|k: DwarfTypeKey| #[trigger]
                self@.table.keys.contains_key(k) implies self@.table.keys[k].0
                < self@.table.types.len() by {
                if old(self)@.table.keys.contains_key(k) {
                }
            }
        }
    }

    /// Parse a single entry
    fn parse_entry(&mut self, unit: &UnitInfo, unit_index: usize, i: usize)
        requires
            old(self)@.table.closed_keys(),
            i < unit.dies@.len(),
        ensures
            final(self)@ == old(self)@.entered(unit@, unit_index, i as int),
            final(self)@.table.closed_keys(),
    {
        assert(unit@.dies[i as int] == unit.dies@[i as int]@);
        let die = &unit.dies[i];
        if die.tag == TAG_VARIABLE {
            self.parse_variable(unit, unit_index, i);
            return;
        }
        if !tag_defines_type(die.tag) {
            return;
        }
        let key = DwarfTypeKey::new(unit_index, die.offset);
        parse_type(&mut self.type_table, &unit.dies, unit_index, i);
        assert(self@ =~= ParserView {
            table: type_defined(old(self)@.table, unit@.dies, unit_index, i as int),
            ..old(self)@
        });
        self.register_global_alias(key, unit.offset.wrapping_add(die.offset));
        let ghost aliased = self@;
        if unit.is_rust {
            if let Some(id) = self.type_table.get_by_dwarf_key(key) {
                self.type_table.mark_rust(id);
                // rustc names base and pointer types (`u16`, `&mut T`, `fn() -> !`)
                if die.tag == TAG_BASE_TYPE || die.tag == TAG_POINTER_TYPE {
                    if let Some(name) = die.get_name() {
                        self.type_table.set_source_name(id, name);
                    }
                }
            }
        }
        assert(self@ =~= old(self)@.entered(unit@, unit_index, i as int));
        assert(self@.table.closed_keys()) by {
            assert(self@.table.keys == aliased.table.keys);
            assert(self@.table.types == aliased.table.types);
        }
    }

    /// Parse a single compilation unit
    pub fn parse_unit(&mut self, unit: &UnitInfo, unit_index: usize)
        requires
            old(self)@.table.closed_keys(),
        ensures
            final(self)@ == old(self)@.unit_entered(
                unit@,
                unit_index,
                unit@.dies.len() as int,
            ),
            final(self)@.table.closed_keys(),
    {
        let mut i: usize = 0;
        while i < unit.dies.len()
            invariant
                i <= unit.dies@.len(),
                self@.table.closed_keys(),
                self@ == old(self)@.unit_entered(unit@, unit_index, i as int),
            decreases unit.dies@.len() - i,
        {
            self.parse_entry(unit, unit_index, i);
            i = i + 1;
        }
    }

    /// Resolve the variables whose targets came after them
    fn resolve_pending_specifications(&mut self)
        ensures
            final(self)@ == (ParserView {
                pending: settled(old(self)@.pending, old(self)@.cache, old(self)@.deferred),
                deferred: Seq::empty(),
                ..old(self)@
            }),
            final(self).type_table == old(self).type_table,
    {
        let mut deferred: Vec<DeferredVariable> = Vec::new();
        std::mem::swap(&mut deferred, &mut self.deferred_variables);
        let ghost all = deferred@.map_values(|d: DeferredVariable| d@);
        assert(all == old(self)@.deferred);
        assert(self@.deferred =~= Seq::<DeferredView>::empty());
        assert(self@ =~= ParserView { deferred: Seq::empty(), ..old(self)@ });
        let mut i: usize = 0;
        assert(all.take(0) =~= Seq::<DeferredView>::empty());
        while i < deferred.len()
            invariant
                i <= deferred@.len(),
                all == deferred@.map_values(|d: DeferredVariable| d@),
                self.type_table == old(self).type_table,
                self@ == (ParserView {
                    pending: settled(old(self)@.pending, old(self)@.cache, all.take(i as int)),
                    deferred: Seq::empty(),
                    ..old(self)@
                }),
            decreases deferred@.len() - i,
        {
            let var = &deferred[i];
            let mut info = var.info.copy();
            if let Some(target) = self.variable_cache.get(&var.target_offset) {
                info.inherit_from(target);
            }
            proof {
                let upto = all.take(i + 1);
                assert(upto.drop_last() =~= all.take(i as int));
                assert(upto.last() == deferred@[i as int]@);
            }
            self.try_add_pending_symbol(info, var.status.clone());
            i = i + 1;
        }
        assert(all.take(all.len() as int) =~= all);
    }
}

/// Only the definitions of a table changed.
pub open spec fn only_types_changed(before: TableView, after: TableView) -> bool {
    &&& after.types.len() == before.types.len()
    &&& after.keys == before.keys
    &&& after.names == before.names
    &&& after.pending == before.pending
    &&& after.rust == before.rust
    &&& after.source_names == before.source_names
}

/// Puts these members in front of the class's own.
fn prepend_members(t: &mut TypeTable, id: TypeId, members: Vec<MemberDef>)
    ensures
        defs_of(final(t)@.types) == prepended(
            defs_of(old(t)@.types),
            id,
            members@.map_values(|m: MemberDef| m@),
        ),
        only_types_changed(old(t)@, final(t)@),
{
    let ghost shown = |m: MemberDef| m@;
    let ghost before = defs_of(t@.types);
    let mut members: Vec<MemberDef> = members;
    let ghost first = members@;
    match t.get_mut(id) {
        Some(TypeDef::Struct(s)) => {
            let ghost own = s.members@;
            members.append(&mut s.members);
            assert(members@.map_values(shown) =~= first.map_values(shown) + own.map_values(shown));
            s.members = members;
        },
        Some(TypeDef::Union(s)) => {
            let ghost own = s.members@;
            members.append(&mut s.members);
            assert(members@.map_values(shown) =~= first.map_values(shown) + own.map_values(shown));
            s.members = members;
        },
        _ => {},
    }
    assert(defs_of(t@.types) =~= prepended(before, id, first.map_values(shown)));
}

/// The bases of a struct or union.
fn bases_of(t: &TypeTable, id: TypeId) -> (r: Option<Vec<BaseClassDef>>)
    ensures
        match view_in(defs_of(t@.types), id) {
            Some(def) => match def.record() {
                Some(rec) => r matches Some(bases) && bases@ == rec.base_classes,
                None => r is None,
            },
            None => r is None,
        },
{
    match t.get(id) {
        Some(TypeDef::Struct(s)) => Some(copied_bases(&s.base_classes)),
        Some(TypeDef::Union(s)) => Some(copied_bases(&s.base_classes)),
        _ => None,
    }
}

fn copied_bases(bases: &Vec<BaseClassDef>) -> (r: Vec<BaseClassDef>)
    ensures
        r@ == bases@,
{
    let mut out: Vec<BaseClassDef> = Vec::new();
    while out.len() < bases.len()
        invariant
            out@.len() <= bases@.len(),
            out@ == bases@.take(out@.len() as int),
        decreases bases@.len() - out@.len(),
    {
        let i: usize = out.len();
        out.push(bases[i]);
        assert(out@ =~= bases@.take(out@.len() as int));
    }
    assert(out@ =~= bases@);
    out
}

/// Gives the class `id` the members of its bases.
fn resolve_inherited_members_for(
    t: &mut TypeTable,
    id: TypeId,
    visited: &mut HashSet<u32>,
    n: usize,
)
    ensures
        (defs_of(final(t)@.types), final(visited)@) == inherited(
            defs_of(old(t)@.types),
            id,
            old(visited)@,
            n as nat,
        ),
        only_types_changed(old(t)@, final(t)@),
    decreases n,
{
    if visited.contains(&id.0) {
        return;
    }
    visited.insert(id.0);
    let bases: Vec<BaseClassDef> = match bases_of(t, id) {
        Some(bases) => bases,
        None => {
            return;
        },
    };
    let ghost shown = |m: MemberDef| m@;
    let ghost start = defs_of(t@.types);
    let ghost seen = visited@;
    let mut members: Vec<MemberDef> = Vec::new();
    let mut k: usize = 0;
    assert(members@.map_values(shown) =~= Seq::<MemberView>::empty());
    while k < bases.len()
        invariant
            k <= bases@.len(),
            shown == (|m: MemberDef| m@),
            only_types_changed(old(t)@, t@),
            (defs_of(t@.types), visited@, members@.map_values(shown)) == bases_done(
                start,
                bases@,
                seen,
                k as nat,
                n as nat,
            ),
        decreases bases@.len() - k,
    {
        let base = &bases[k];
        proof {
            lemma_followed(t@.types, base.type_id, t@.types.len());
        }
        let base_id = t.resolve(base.type_id);
        if n > 0 {
            resolve_inherited_members_for(t, base_id, visited, n - 1);
        }
        proof {
            lemma_record_of(t@.types, base_id, 0);
        }
        if let Some(inner) = t.get_members(base_id) {
            append_moved(&mut members, inner, base.offset);
        }
        k = k + 1;
    }
    if members.len() > 0 {
        prepend_members(t, id, members);
    }
}

/// Gives every class the members of its bases.
fn resolve_inherited_members(t: &mut TypeTable)
    ensures
        defs_of(final(t)@.types) == inherited_all(
            defs_of(old(t)@.types),
            records_upto(defs_of(old(t)@.types), old(t)@.types.len() as u32 as nat),
        ),
        only_types_changed(old(t)@, final(t)@),
{
    let ghost start = defs_of(t@.types);
    let all: Vec<TypeId> = t.all_type_ids();
    let mut ids: Vec<TypeId> = Vec::new();
    let mut i: usize = 0;
    while i < all.len()
        invariant
            i <= all@.len(),
            t@ == old(t)@,
            start == defs_of(t@.types),
            all@ == Seq::new(t@.types.len() as u32 as nat, |k: int| TypeId(k as u32)),
            ids@ == records_upto(start, i as nat),
        decreases all@.len() - i,
    {
        match t.get(all[i]) {
            Some(TypeDef::Struct(_)) => {
                ids.push(all[i]);
            },
            Some(TypeDef::Union(_)) => {
                ids.push(all[i]);
            },
            _ => {},
        }
        i = i + 1;
    }
    let mut k: usize = 0;
    assert(ids@.take(0) =~= Seq::<TypeId>::empty());
    while k < ids.len()
        invariant
            k <= ids@.len(),
            only_types_changed(old(t)@, t@),
            defs_of(t@.types) == inherited_all(start, ids@.take(k as int)),
        decreases ids@.len() - k,
    {
        let mut visited: HashSet<u32> = HashSet::new();
        let depth: usize = t.len();
        proof {
            assert(ids@.take(k + 1).drop_last() =~= ids@.take(k as int));
            assert(visited@ =~= Set::<u32>::empty());
        }
        resolve_inherited_members_for(t, ids[k], &mut visited, depth);
        k = k + 1;
    }
    assert(ids@.take(ids@.len() as int) =~= ids@);
}

/// A parsed symbol with type information
#[derive(Debug)]
pub struct ParsedSymbol {
    pub name: String,
    pub mangled_name: Option<String>,
    pub address: u64,
    pub size: u64,
    pub type_id: TypeId,
    pub is_global: bool,
    /// Status indicating why a variable can or cannot be read
    pub status: VariableStatus,
}

/// What a parsed symbol says.
#[verifier::ext_equal]
pub struct SymbolView {
    pub name: Seq<char>,
    pub mangled_name: Option<Seq<char>>,
    pub address: u64,
    pub size: u64,
    pub type_id: TypeId,
    pub is_global: bool,
    pub status: StatusView,
}

impl View for ParsedSymbol {
    type V = SymbolView;

    open spec fn view(&self) -> SymbolView {
        SymbolView {
            name: self.name@,
            mangled_name: text_of(self.mangled_name),
            address: self.address,
            size: self.size,
            type_id: self.type_id,
            is_global: self.is_global,
            status: self.status@,
        }
    }
}

/// Result of parsing DWARF info
#[derive(Debug)]
pub struct DwarfParseResult {
    pub type_table: TypeTable,
    pub symbols: Vec<ParsedSymbol>,
    /// The types of variables by name, those without addresses too. A later
    /// entry takes the place of an earlier one with the same name.
    pub name_to_type: Vec<(String, TypeId)>,
    /// Diagnostic statistics about variable parsing
    pub diagnostics: DwarfDiagnostics,
}

/// The type of a waiting variable, invalid where its entry defined none.
pub open spec fn type_of_pending(t: TableView, p: PendingView) -> TypeId {
    if t.keys.contains_key(p.type_key) {
        t.keys[p.type_key]
    } else {
        TypeId(u32::MAX)
    }
}

/// The symbol for a waiting variable. Without a size of its own it has its
/// type's.
pub open spec fn symbol_for(t: TableView, p: PendingView) -> SymbolView {
    let type_id = type_of_pending(t, p);
    SymbolView {
        name: p.name,
        mangled_name: p.mangled_name,
        address: number_or(p.status.address(), 0),
        size: if p.size > 0 {
            p.size
        } else {
            number_or(size_of_type(t.types, type_id), 0)
        },
        type_id,
        is_global: p.is_global,
        status: p.status,
    }
}

/// The symbols for the waiting variables whose types are known.
pub open spec fn symbols_for(t: TableView, pending: Seq<PendingView>) -> Seq<SymbolView>
    decreases pending.len(),
{
    if pending.len() == 0 {
        Seq::empty()
    } else {
        let before = symbols_for(t, pending.drop_last());
        if type_of_pending(t, pending.last()).spec_is_valid() {
            before.push(symbol_for(t, pending.last()))
        } else {
            before
        }
    }
}

/// The names of the waiting variables whose types are known, with those types.
pub open spec fn names_for(t: TableView, pending: Seq<PendingView>) -> Seq<(Seq<char>, TypeId)>
    decreases pending.len(),
{
    if pending.len() == 0 {
        Seq::empty()
    } else {
        let before = names_for(t, pending.drop_last());
        let last = pending.last();
        let id = type_of_pending(t, last);
        if id.spec_is_valid() {
            match last.mangled_name {
                Some(mangled) => before.push((last.name, id)).push((mangled, id)),
                None => before.push((last.name, id)),
            }
        } else {
            before
        }
    }
}

/// What a waiting variable is counted as: one whose type is not there under that
/// alone.
pub open spec fn counted_as(t: TableView, p: PendingView) -> StatusView {
    if type_of_pending(t, p).spec_is_valid() {
        p.status
    } else {
        StatusView::UnresolvedType { name: None }
    }
}

/// The statistics of the waiting variables.
pub open spec fn statistics_of(t: TableView, pending: Seq<PendingView>) -> DwarfDiagnostics
    decreases pending.len(),
{
    if pending.len() == 0 {
        no_diagnostics()
    } else {
        statistics_of(t, pending.drop_last()).recording(counted_as(t, pending.last()))
    }
}

/// What is left of a parse once every unit was read into the table `t` and the
/// variables `pending`: the declarations in `t` are resolved, then its classes
/// inherit, and then the variables get their types.
pub open spec fn finished(t: TableView, pending: Seq<PendingView>, r: DwarfParseResult) -> bool {
    let declared = t.resolving_all(t.pending);
    let table = r.type_table@;
    &&& table.pending.len() == 0
    &&& only_types_changed(TableView { pending: Seq::empty(), ..declared }, table)
    &&& defs_of(table.types) == inherited_all(
        defs_of(declared.types),
        records_upto(defs_of(declared.types), declared.types.len() as u32 as nat),
    )
    &&& r.symbols@.map_values(|s: ParsedSymbol| s@) == symbols_for(table, pending)
    &&& r.name_to_type@.map_values(|n: (String, TypeId)| (n.0@, n.1)) == names_for(table, pending)
    &&& r.diagnostics == statistics_of(table, pending)
}

/// What the units say, once all of them were read.
pub open spec fn parsed(units: Seq<UnitView>, r: DwarfParseResult) -> bool {
    let read = units_read(units);
    exists|t: TableView| #[trigger]
        model_of(t) == read.table && finished(
            t,
            settled(read.pending, read.cache, read.deferred),
            r,
        )
}

impl DwarfParseResult {
    /// The type of the variable with this name.
    pub open spec fn spec_type_of(names: Seq<(String, TypeId)>, name: Seq<char>) -> Option<TypeId>
        decreases names.len(),
    {
        if names.len() == 0 {
            None
        } else if names.last().0@ == name {
            Some(names.last().1)
        } else {
            Self::spec_type_of(names.drop_last(), name)
        }
    }

    /// The type of the variable with this name.
    pub fn type_of(&self, name: &str) -> (r: Option<TypeId>)
        ensures
            r == Self::spec_type_of(self.name_to_type@, name@),
    {
        let ghost names = self.name_to_type@;
        let mut i: usize = self.name_to_type.len();
        assert(names.take(i as int) =~= names);
        while i > 0
            invariant
                i <= names.len(),
                names == self.name_to_type@,
                Self::spec_type_of(names, name@) == Self::spec_type_of(names.take(i as int), name@),
            decreases i,
        {
            proof {
                assert(names.take(i as int).drop_last() =~= names.take(i - 1));
                assert(names.take(i as int).last() == names[i - 1]);
            }
            i = i - 1;
            if crate::text::same_text(self.name_to_type[i].0.as_str(), name) {
                return Some(self.name_to_type[i].1);
            }
        }
        None
    }
}

/// Every count is within the number of variables, and together the categories
/// make up the total.
proof fn lemma_statistics(t: TableView, pending: Seq<PendingView>)
    requires
        pending.len() <= usize::MAX,
    ensures
        statistics_of(t, pending).at_most(pending.len() as int),
        statistics_of(t, pending).total_variables == pending.len(),
        statistics_of(t, pending).by_status() == pending.len(),
    decreases pending.len(),
{
    if pending.len() > 0 {
        let rest = pending.drop_last();
        lemma_statistics(t, rest);
        lemma_record_counts_once(statistics_of(t, rest), counted_as(t, pending.last()));
    }
}

/// Every variable of a parse is counted in one category: the categories add up to
/// the total.
pub proof fn lemma_categories_make_the_total(
    t: TableView,
    pending: Seq<PendingView>,
    r: DwarfParseResult,
)
    requires
        finished(t, pending, r),
        pending.len() <= usize::MAX,
    ensures
        r.diagnostics.total_variables == pending.len(),
        r.diagnostics.by_status() == r.diagnostics.total_variables,
{
    lemma_statistics(r.type_table@, pending);
}

/// The categories of a parse of any units add up to no more than the variables
/// counted, also where a variable's type never entered the type table.
pub proof fn lemma_parsed_categories(units: Seq<UnitView>, r: DwarfParseResult)
    requires
        parsed(units, r),
        settled(
            units_read(units).pending,
            units_read(units).cache,
            units_read(units).deferred,
        ).len() <= usize::MAX,
    ensures
        ({
            let d = r.diagnostics;
            d.with_valid_address + d.optimized_out + d.local_variables + d.extern_declarations
                + d.compile_time_constants + d.no_location + d.unresolved_types + d.address_zero
                + d.register_only + d.implicit_value + d.implicit_pointer + d.multi_piece
                + d.artificial <= d.total_variables
        }),
{
    let read = units_read(units);
    let pending = settled(read.pending, read.cache, read.deferred);
    let t = choose|t: TableView| #[trigger]
        model_of(t) == read.table && finished(t, pending, r);
    lemma_categories_make_the_total(t, pending, r);
}

/// What the symbols for some waiting variables are.
#[derive(Debug)]
struct Collected {
    symbols: Vec<ParsedSymbol>,
    names: Vec<(String, TypeId)>,
    diagnostics: DwarfDiagnostics,
}

impl Collected {
    spec fn holds(self, t: TableView, pending: Seq<PendingView>) -> bool {
        &&& self.symbols@.map_values(|s: ParsedSymbol| s@) == symbols_for(t, pending)
        &&& self.names@.map_values(|n: (String, TypeId)| (n.0@, n.1)) == names_for(t, pending)
        &&& self.diagnostics == statistics_of(t, pending)
    }

    /// Adds one more waiting variable.
    fn collect(&mut self, t: &TypeTable, p: &PendingSymbol, Ghost(before): Ghost<Seq<PendingView>>)
        requires
            old(self).holds(t@, before),
            before.len() < usize::MAX,
        ensures
            final(self).holds(t@, before.push(p@)),
    {
        let ghost all = before.push(p@);
        proof {
            assert(all.drop_last() =~= before);
            lemma_statistics(t@, before);
        }
        let type_id = match t.get_by_dwarf_key(p.type_key) {
            Some(id) => id,
            None => TypeId::invalid(),
        };
        if !type_id.is_valid() {
            self.diagnostics.record(&VariableStatus::UnresolvedType { name: None });
            return;
        }
        self.diagnostics.record(&p.status);
        let ghost names = self.names@;
        let ghost shown = |n: (String, TypeId)| (n.0@, n.1);
        self.names.push((p.name.clone(), type_id));
        if let Some(mangled) = &p.mangled_name {
            self.names.push((mangled.clone(), type_id));
            assert(self.names@.map_values(shown) =~= names.map_values(shown).push(
                (p.name@, type_id),
            ).push((mangled@, type_id)));
        } else {
            assert(self.names@.map_values(shown) =~= names.map_values(shown).push(
                (p.name@, type_id),
            ));
        }
        let address: u64 = match p.status.address() {
            Some(address) => address,
            None => 0,
        };
        let size: u64 = if p.size > 0 {
            p.size
        } else {
            match t.type_size(type_id) {
                Some(size) => size,
                None => 0,
            }
        };
        let symbol = ParsedSymbol {
            name: p.name.clone(),
            mangled_name: copied(&p.mangled_name),
            address,
            size,
            type_id,
            is_global: p.is_global,
            status: p.status.clone(),
        };
        let ghost symbols = self.symbols@;
        self.symbols.push(symbol);
        assert(symbol@ =~= symbol_for(t@, p@));
        assert(self.symbols@.map_values(|s: ParsedSymbol| s@) =~= symbols.map_values(
            |s: ParsedSymbol| s@,
        ).push(symbol@));
    }
}

impl DwarfParser {
    /// Finish parsing and return the result
    pub fn finish(self) -> (r: DwarfParseResult)
        ensures
            finished(
                self.table(),
                settled(self@.pending, self@.cache, self@.deferred),
                r,
            ),
            r.diagnostics.by_status() == r.diagnostics.total_variables,
    {
        let mut this = self;
        this.resolve_pending_specifications();
        this.type_table.resolve_forward_declarations();
        resolve_inherited_members(&mut this.type_table);
        let DwarfParser { type_table, pending_symbols, .. } = this;
        let ghost pending = pending_symbols@.map_values(|p: PendingSymbol| p@);
        let mut found = Collected {
            symbols: Vec::new(),
            names: Vec::new(),
            diagnostics: DwarfDiagnostics::default(),
        };
        let mut i: usize = 0;
        proof {
            assert(pending.take(0) =~= Seq::<PendingView>::empty());
            assert(found.symbols@.map_values(|s: ParsedSymbol| s@) =~= Seq::<SymbolView>::empty());
            assert(found.names@.map_values(|n: (String, TypeId)| (n.0@, n.1)) =~= Seq::<
                (Seq<char>, TypeId),
            >::empty());
        }
        while i < pending_symbols.len()
            invariant
                i <= pending_symbols@.len(),
                pending == pending_symbols@.map_values(|p: PendingSymbol| p@),
                found.holds(type_table@, pending.take(i as int)),
            decreases pending_symbols@.len() - i,
        {
            let ghost before = pending.take(i as int);
            found.collect(&type_table, &pending_symbols[i], Ghost(before));
            proof {
                assert(pending.take(i + 1) =~= before.push(pending[i as int]));
                assert(before.push(pending[i as int]).drop_last() =~= before);
            }
            i = i + 1;
        }
        assert(pending.take(pending.len() as int) =~= pending);
        proof {
            lemma_statistics(type_table@, pending);
        }
        DwarfParseResult {
            type_table,
            symbols: found.symbols,
            name_to_type: found.names,
            diagnostics: found.diagnostics,
        }
    }

    /// Parse units whose entries have been read
    pub fn parse_units(units: &Vec<UnitInfo>) -> (r: DwarfParseResult)
        ensures
            parsed(units@.map_values(|u: UnitInfo| u@), r),
            r.diagnostics.by_status() == r.diagnostics.total_variables,
    {
        let ghost all = units@.map_values(|u: UnitInfo| u@);
        let mut parser = DwarfParser::new();
        let mut i: usize = 0;
        assert(all.take(0) =~= Seq::<UnitView>::empty());
        while i < units.len()
            invariant
                i <= units@.len(),
                all == units@.map_values(|u: UnitInfo| u@),
                parser@.table.closed_keys(),
                parser@ == units_read(all.take(i as int)),
            decreases units@.len() - i,
        {
            proof {
                assert(all.take(i + 1).drop_last() =~= all.take(i as int));
                assert(all.take(i + 1).last() == units@[i as int]@);
            }
            parser.parse_unit(&units[i], i);
            i = i + 1;
        }
        assert(all.take(all.len() as int) =~= all);
        let ghost t = parser.type_table@;
        let r = parser.finish();
        assert(model_of(t) == units_read(all).table);
        r
    }
}

} // verus!
