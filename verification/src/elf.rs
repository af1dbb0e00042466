//! An ELF file as the tools see it: its symbols with their types.

use vstd::prelude::*;
use vstd::string::*;
use std::sync::Arc;
use crate::search::{first, lemma_first_is, lemma_first_none};
#[allow(unused_imports)]
use crate::search::count;
use crate::text::same_text;
use crate::type_def::TypeId;
use crate::type_handle::TypeHandle;
use crate::type_table::TypeTable;
use crate::variable_status::{DwarfDiagnostics, VariableStatus};

verus! {

/// The type of a task pool's slots.
#[derive(Copy, Clone, Debug)]
pub struct TaskStorage {
    pub type_id: TypeId,
    /// Bytes of one slot
    pub size: u64,
    pub slots: u64,
}

/// A symbol with what debug info says of it.
#[derive(Debug)]
pub struct SymbolInfo {
    /// Full path
    pub demangled_name: String,
    /// Last segment of the path
    pub display_name: String,
    pub address: u64,
    pub size: u64,
    pub is_function: bool,
    pub section: String,
    /// In an allocated, writable section
    pub writable: bool,
    pub type_id: Option<TypeId>,
    /// Why the symbol can or cannot be read
    pub status: VariableStatus,
    /// For a task pool whose task type is known: its slots
    pub task_storage: Option<TaskStorage>,
}

impl SymbolInfo {
    pub fn is_readable(&self) -> (r: bool)
        ensures
            r == self.status.spec_is_readable(),
    {
        self.status.is_readable()
    }

    /// Why the symbol cannot be read, when it cannot.
    pub open spec fn spec_unreadable_reason(self) -> Option<Seq<char>> {
        if self.status.spec_is_readable() {
            None
        } else {
            Some(self.status.spec_reason())
        }
    }

    /// Why the symbol cannot be read, when it cannot.
    pub fn unreadable_reason(&self) -> (r: Option<String>)
        ensures
            self.spec_unreadable_reason() == (match r {
                Some(reason) => Some(reason@),
                None => None,
            }),
    {
        if self.status.is_readable() {
            None
        } else {
            Some(self.status.reason().to_owned())
        }
    }

    /// The symbol's type in this table, when it has one.
    pub fn type_handle(&self, table: &Arc<TypeTable>) -> (r: Option<TypeHandle>)
        ensures
            r == (match self.type_id {
                Some(id) => Some(TypeHandle { table: *table, id }),
                None => None,
            }),
    {
        match self.type_id {
            Some(id) => Some(TypeHandle::new(table.clone(), id)),
            None => None,
        }
    }
}

#[derive(Debug)]
pub struct ElfInfo {
    pub path: String,
    pub machine: String,
    pub is_64bit: bool,
    pub is_little_endian: bool,
    pub entry_point: u64,
    pub symbols: Vec<SymbolInfo>,
    pub types: Arc<TypeTable>,
    pub diagnostics: DwarfDiagnostics,
}

/// Picks the symbol with this path.
pub open spec fn symbol_named(name: Seq<char>) -> spec_fn(SymbolInfo) -> bool {
    |s: SymbolInfo| s.demangled_name@ == name
}

/// Picks the functions.
pub open spec fn functions() -> spec_fn(SymbolInfo) -> bool {
    |s: SymbolInfo| s.is_function
}

/// Picks the variables.
pub open spec fn variables() -> spec_fn(SymbolInfo) -> bool {
    |s: SymbolInfo| !s.is_function
}

impl ElfInfo {
    pub fn type_table(&self) -> (r: &Arc<TypeTable>)
        ensures
            *r == self.types,
    {
        &self.types
    }

    pub fn get_diagnostics(&self) -> (r: &DwarfDiagnostics)
        ensures
            *r == self.diagnostics,
    {
        &self.diagnostics
    }

    /// Bytes of a pointer.
    pub open spec fn spec_pointer_size(self) -> usize {
        if self.is_64bit {
            8
        } else {
            4
        }
    }

    /// Bytes of a pointer.
    pub fn pointer_size(&self) -> (r: usize)
        ensures
            r == self.spec_pointer_size(),
    {
        if self.is_64bit {
            8
        } else {
            4
        }
    }

    /// The first symbol with this path.
    pub fn find_symbol(&self, name: &str) -> (r: Option<&SymbolInfo>)
        ensures
            match first(self.symbols@, symbol_named(name@)) {
                Some(i) => r == Some(&self.symbols@[i]),
                None => r is None,
            },
    {
        let mut i: usize = 0;
        while i < self.symbols.len()
            invariant
                i <= self.symbols@.len(),
                forall|k: int| 0 <= k < i ==> !symbol_named(name@)(#[trigger] self.symbols@[k]),
            decreases self.symbols@.len() - i,
        {
            if same_text(self.symbols[i].demangled_name.as_str(), name) {
                proof {
                    lemma_first_is(self.symbols@, symbol_named(name@), i as int);
                }
                return Some(&self.symbols[i]);
            }
            i = i + 1;
        }
        proof {
            lemma_first_none(self.symbols@, symbol_named(name@));
        }
        None
    }

    pub fn function_count(&self) -> (r: usize)
        ensures
            r == count(self.symbols@, functions()),
    {
        let mut n: usize = 0;
        let mut i: usize = 0;
        let ghost all = self.symbols@;
        assert(all.take(0) =~= Seq::<SymbolInfo>::empty());
        while i < self.symbols.len()
            invariant
                i <= self.symbols@.len(),
                all == self.symbols@,
                n == count(all.take(i as int), functions()),
                n <= i,
            decreases self.symbols@.len() - i,
        {
            if self.symbols[i].is_function {
                n = n + 1;
            }
            i = i + 1;
            proof {
                assert(all.take(i as int).drop_last() =~= all.take(i - 1));
                assert(all.take(i as int).last() == all[i - 1]);
            }
        }
        assert(all.take(all.len() as int) =~= all);
        n
    }

    pub fn variable_count(&self) -> (r: usize)
        ensures
            r == count(self.symbols@, variables()),
    {
        let mut n: usize = 0;
        let mut i: usize = 0;
        let ghost all = self.symbols@;
        assert(all.take(0) =~= Seq::<SymbolInfo>::empty());
        while i < self.symbols.len()
            invariant
                i <= self.symbols@.len(),
                all == self.symbols@,
                n == count(all.take(i as int), variables()),
                n <= i,
            decreases self.symbols@.len() - i,
        {
            if !self.symbols[i].is_function {
                n = n + 1;
            }
            i = i + 1;
            proof {
                assert(all.take(i as int).drop_last() =~= all.take(i - 1));
                assert(all.take(i as int).last() == all[i - 1]);
            }
        }
        assert(all.take(all.len() as int) =~= all);
        n
    }
}

} // verus!
