//! Types with the table they belong to.

use vstd::prelude::*;
use std::sync::Arc;
use crate::type_def::{MemberDef, TypeDef, TypeId};
use crate::type_table::TypeTable;
#[allow(unused_imports)]
use crate::type_table::{
    addable_in, def_in, expandable_at, lemma_qualifier_is_looked_through, qualified, record_at,
    resolved, size_of_type, strips, underlying_at, variable_type_in,
};
use crate::variable_type::VariableType;

verus! {

/// A handle to a type that wraps `Arc<TypeTable>` + TypeId.
/// This provides zero-overhead cloning and direct method access.
#[derive(Debug)]
pub struct TypeHandle {
    pub table: Arc<TypeTable>,
    pub id: TypeId,
}

impl Clone for TypeHandle {
    fn clone(&self) -> (r: Self)
        ensures
            r == *self,
    {
        TypeHandle { table: self.table.clone(), id: self.id }
    }
}

/// The definition behind a type's typedefs, qualifiers and forward declarations.
pub open spec fn underlying_def_in(types: Seq<TypeDef>, id: TypeId) -> Option<TypeDef> {
    def_in(types, underlying_at(types, id, 0))
}

/// What a type points to, if it is a pointer or reference.
pub open spec fn pointee_in(types: Seq<TypeDef>, id: TypeId) -> Option<TypeId> {
    match underlying_def_in(types, id) {
        Some(TypeDef::Pointer(inner)) => Some(inner),
        Some(TypeDef::Reference(inner)) => Some(inner),
        _ => None,
    }
}

/// Whether a type is a struct or union.
pub open spec fn struct_or_union_in(types: Seq<TypeDef>, id: TypeId) -> bool {
    underlying_def_in(types, id) matches Some(def) && (def is Struct || def is Union)
}

/// Whether a type is an array.
pub open spec fn array_in(types: Seq<TypeDef>, id: TypeId) -> bool {
    underlying_def_in(types, id) matches Some(def) && def is Array
}

/// Whether a type points to a struct, union or array.
pub open spec fn pointer_expandable_in(types: Seq<TypeDef>, id: TypeId) -> bool {
    pointee_in(types, id) matches Some(inner) && {
        let target = underlying_at(types, inner, 0);
        struct_or_union_in(types, target) || array_in(types, target)
    }
}

/// Whether a pointer can be expanded does not depend on the typedefs and
/// qualifiers in front of it, as far as they are followed.
pub proof fn lemma_qualifiers_keep_pointers_expandable(
    types: Seq<TypeDef>,
    id: TypeId,
    inner: TypeId,
)
    requires
        strips(types, id, 0),
        qualified(types, resolved(types, id)) == Some(inner),
    ensures
        pointer_expandable_in(types, id) == pointer_expandable_in(types, inner),
{
    lemma_qualifier_is_looked_through(types, id, inner);
}

impl TypeHandle {
    /// The definitions of the handle's table.
    pub open spec fn types(self) -> Seq<TypeDef> {
        self.table@.types
    }

    /// The handle for another type of the same table.
    pub open spec fn to(self, id: TypeId) -> TypeHandle {
        TypeHandle { table: self.table, id }
    }

    /// Create a new TypeHandle
    pub fn new(table: Arc<TypeTable>, id: TypeId) -> (r: Self)
        ensures
            r == (TypeHandle { table, id }),
    {
        TypeHandle { table, id }
    }

    /// Create an invalid TypeHandle
    pub fn invalid(table: Arc<TypeTable>) -> (r: Self)
        ensures
            r == (TypeHandle { table, id: TypeId(u32::MAX) }),
    {
        TypeHandle { table, id: TypeId::invalid() }
    }

    /// Get the TypeId
    pub fn id(&self) -> (r: TypeId)
        ensures
            r == self.id,
    {
        self.id
    }

    /// Check if this is a valid type
    pub fn is_valid(&self) -> (r: bool)
        ensures
            r == (def_in(self.types(), self.id) is Some),
    {
        self.id.is_valid() && self.table.get(self.id).is_some()
    }

    /// Get the type definition
    pub fn def(&self) -> (r: Option<&TypeDef>)
        ensures
            match def_in(self.types(), self.id) {
                Some(def) => r == Some(&def),
                None => r is None,
            },
    {
        self.table.get(self.id)
    }

    /// Get the resolved type definition (follows forward declarations)
    pub fn resolved_def(&self) -> (r: Option<&TypeDef>)
        ensures
            match def_in(self.types(), resolved(self.types(), self.id)) {
                Some(def) => r == Some(&def),
                None => r is None,
            },
    {
        self.table.get_resolved(self.id)
    }

    /// Get the resolved TypeHandle
    pub fn resolved(&self) -> (r: TypeHandle)
        ensures
            r == self.to(resolved(self.types(), self.id)),
    {
        TypeHandle::new(self.table.clone(), self.table.resolve(self.id))
    }

    /// Get the type name
    pub fn type_display_name(&self) -> (r: String)
        ensures
            r@ == self.table@.name_at(self.id, 0),
    {
        self.table.type_display_name(self.id)
    }

    /// Get the type size in bytes
    pub fn size(&self) -> (r: Option<u64>)
        ensures
            r == size_of_type(self.types(), self.id),
    {
        self.table.type_size(self.id)
    }

    /// Check if this type is expandable
    pub fn is_expandable(&self) -> (r: bool)
        ensures
            r == expandable_at(self.types(), self.id, 0),
    {
        self.table.is_expandable(self.id)
    }

    /// Check if this type can be added as a variable
    pub fn is_addable(&self) -> (r: bool)
        ensures
            r == addable_in(self.types(), self.id, self.types().len()),
    {
        self.table.is_addable(self.id)
    }

    /// Get the members of this type (if struct/union)
    pub fn members(&self) -> (r: Option<&[MemberDef]>)
        ensures
            match record_at(self.types(), self.id, 0) {
                Some(s) => r is Some && r->0@ == s.members@,
                None => r is None,
            },
    {
        self.table.get_members(self.id)
    }

    /// Get the underlying type (strips typedefs, qualifiers)
    pub fn underlying(&self) -> (r: TypeHandle)
        ensures
            r == self.to(underlying_at(self.types(), self.id, 0)),
    {
        TypeHandle::new(self.table.clone(), self.table.get_underlying(self.id))
    }

    /// Convert to VariableType
    pub fn to_variable_type(&self) -> (r: VariableType)
        ensures
            r == variable_type_in(self.types(), self.id, self.types().len()),
    {
        self.table.to_variable_type(self.id)
    }

    /// Get a handle to a member's type
    pub fn member_type(&self, member: &MemberDef) -> (r: TypeHandle)
        ensures
            r == self.to(member.type_id),
    {
        TypeHandle::new(self.table.clone(), member.type_id)
    }

    /// Get a reference to the underlying type table
    pub fn table(&self) -> (r: &Arc<TypeTable>)
        ensures
            *r == self.table,
    {
        &self.table
    }

    /// Definition after stripping typedefs, qualifiers and forward declarations.
    /// Kind checks use this so `volatile Foo` and `typedef Foo *Bar` classify
    /// the same as `Foo` and `Foo *`.
    pub fn underlying_def(&self) -> (r: Option<&TypeDef>)
        ensures
            match underlying_def_in(self.types(), self.id) {
                Some(def) => r == Some(&def),
                None => r is None,
            },
    {
        self.table.get(self.table.get_underlying(self.id))
    }

    /// Check if this is a struct or union
    pub fn is_struct_or_union(&self) -> (r: bool)
        ensures
            r == struct_or_union_in(self.types(), self.id),
    {
        match self.underlying_def() {
            Some(TypeDef::Struct(_)) | Some(TypeDef::Union(_)) => true,
            _ => false,
        }
    }

    /// Check if this is a pointer or reference
    pub fn is_pointer_or_reference(&self) -> (r: bool)
        ensures
            r == (pointee_in(self.types(), self.id) is Some),
    {
        match self.underlying_def() {
            Some(TypeDef::Pointer(_)) | Some(TypeDef::Reference(_)) => true,
            _ => false,
        }
    }

    /// Check if this is a primitive type
    pub fn is_primitive(&self) -> (r: bool)
        ensures
            r == (underlying_def_in(self.types(), self.id) matches Some(def) && def is Primitive),
    {
        match self.underlying_def() {
            Some(TypeDef::Primitive(_)) => true,
            _ => false,
        }
    }

    /// Get the pointee type if this is a pointer/reference
    pub fn pointee(&self) -> (r: Option<TypeHandle>)
        ensures
            r == (match pointee_in(self.types(), self.id) {
                Some(inner) => Some(self.to(inner)),
                None => None,
            }),
    {
        match self.underlying_def() {
            Some(TypeDef::Pointer(inner)) => Some(TypeHandle::new(self.table.clone(), *inner)),
            Some(TypeDef::Reference(inner)) => Some(TypeHandle::new(self.table.clone(), *inner)),
            _ => None,
        }
    }

    /// Get the array element type if this is an array
    pub fn element_type(&self) -> (r: Option<TypeHandle>)
        ensures
            r == (match underlying_def_in(self.types(), self.id) {
                Some(TypeDef::Array { element, .. }) => Some(self.to(element)),
                _ => None,
            }),
    {
        match self.underlying_def() {
            Some(TypeDef::Array { element, .. }) => Some(
                TypeHandle::new(self.table.clone(), *element),
            ),
            _ => None,
        }
    }

    /// Get the array count if this is an array
    pub fn array_count(&self) -> (r: Option<u64>)
        ensures
            r == (match underlying_def_in(self.types(), self.id) {
                Some(TypeDef::Array { count, .. }) => count,
                _ => None,
            }),
    {
        match self.underlying_def() {
            Some(TypeDef::Array { count, .. }) => *count,
            _ => None,
        }
    }

    /// Check if this type is an array
    pub fn is_array(&self) -> (r: bool)
        ensures
            r == array_in(self.types(), self.id),
    {
        match self.underlying_def() {
            Some(TypeDef::Array { .. }) => true,
            _ => false,
        }
    }

    /// Get the element size if this is an array
    pub fn element_size(&self) -> (r: Option<u64>)
        ensures
            r == (match underlying_def_in(self.types(), self.id) {
                Some(TypeDef::Array { element, .. }) => size_of_type(self.types(), element),
                _ => None,
            }),
    {
        match self.underlying_def() {
            Some(TypeDef::Array { element, .. }) => self.table.type_size(*element),
            _ => None,
        }
    }

    /// Check if this is a pointer type that can be expanded to show its pointee type
    /// Returns true if this is a pointer/reference to a struct, union, or array
    pub fn is_pointer_expandable(&self) -> (r: bool)
        ensures
            r == pointer_expandable_in(self.types(), self.id),
    {
        match self.pointee() {
            Some(pointee) => {
                let target = pointee.underlying();
                target.is_struct_or_union() || target.is_array()
            },
            None => false,
        }
    }

    /// Get the pointee's underlying type handle for pointer expansion
    /// This allows accessing the struct/union members that the pointer points to
    pub fn pointee_underlying(&self) -> (r: Option<TypeHandle>)
        ensures
            r == (match pointee_in(self.types(), self.id) {
                Some(inner) => Some(self.to(underlying_at(self.types(), inner, 0))),
                None => None,
            }),
    {
        match self.pointee() {
            Some(pointee) => Some(pointee.underlying()),
            None => None,
        }
    }
}

/// Shared type table wrapped in Arc for zero-cost cloning
pub type SharedTypeTable = Arc<TypeTable>;

/// Create a shared type table from a TypeTable
pub fn share_type_table(table: TypeTable) -> (r: SharedTypeTable)
    ensures
        *r == table,
{
    Arc::new(table)
}

} // verus!
