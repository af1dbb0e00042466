//! Where a firmware's table keeps its fields, from DWARF.

use vstd::prelude::*;
use vstd::string::*;
use crate::carriers::{CarrierError, CarrierErrorView};
use crate::elf::{ElfInfo, SymbolInfo};
use crate::search::{first, lemma_first_is, lemma_first_none};
use crate::text::{ends_with, push_decimal, push_hex8, same_text};
#[allow(unused_imports)]
use crate::text::{decimal, ends_in, hex8};
use crate::type_def::TypeId;
use crate::type_handle::TypeHandle;
#[allow(unused_imports)]
use crate::type_handle::pointee_in;
#[allow(unused_imports)]
use crate::type_table::{record_at, size_of_type, underlying_at, TableView};
use crate::wrappers::find_member;
#[allow(unused_imports)]
use crate::wrappers::member_named;

verus! {

/// Why a catalog cannot be had.
#[derive(Debug)]
pub enum CatalogError {
    Layout(String),
    Invalid { address: u64, reason: String },
    Memory(CarrierError),
}

/// What a catalog's error says.
#[verifier::ext_equal]
pub enum CatalogErrorView {
    Layout(Seq<char>),
    Invalid { address: u64, reason: Seq<char> },
    Memory(CarrierErrorView),
}

impl View for CatalogError {
    type V = CatalogErrorView;

    open spec fn view(&self) -> CatalogErrorView {
        match self {
            CatalogError::Layout(s) => CatalogErrorView::Layout(s@),
            CatalogError::Invalid { address, reason } => CatalogErrorView::Invalid {
                address: *address,
                reason: reason@,
            },
            CatalogError::Memory(e) => CatalogErrorView::Memory(e@),
        }
    }
}

impl CatalogErrorView {
    /// The error as a message.
    pub open spec fn shown(self) -> Seq<char> {
        match self {
            CatalogErrorView::Layout(s) => "the tuning table's type is not what this version reads: "@
                + s,
            CatalogErrorView::Invalid { address, reason } => "the tuning table at "@ + hex8(
                address as nat,
            ) + " is not valid: "@ + reason,
            CatalogErrorView::Memory(e) => e.shown(),
        }
    }
}

impl CatalogError {
    /// The error as a message.
    pub fn to_text(&self) -> (r: String)
        ensures
            r@ == self@.shown(),
    {
        match self {
            CatalogError::Layout(s) => {
                let mut out: String = "the tuning table's type is not what this version reads: "
                    .to_owned();
                out.append(s.as_str());
                out
            },
            CatalogError::Invalid { address, reason } => {
                let mut out: String = "the tuning table at ".to_owned();
                push_hex8(&mut out, *address);
                out.append(" is not valid: ");
                out.append(reason.as_str());
                out
            },
            CatalogError::Memory(e) => e.to_text(),
        }
    }
}

/// A field of a struct.
#[derive(Debug, Clone, Copy)]
pub struct Field {
    pub offset: u64,
    pub size: u64,
}

/// Where the table's and its entries' fields sit.
#[derive(Debug, Clone, Copy)]
pub struct Fields {
    pub magic: Field,
    pub version: Field,
    pub entries_ptr: Field,
    pub entries_len: Field,
    /// Bytes of a pointer to an entry
    pub pointer: u64,
    pub id: Field,
    pub kind: Field,
    pub access: Field,
    pub name_ptr: Field,
    pub name_len: Field,
    pub unit_ptr: Field,
    pub unit_len: Field,
    pub default: Field,
    pub min: Field,
    pub max: Field,
    pub max_step: Field,
    pub requested: Field,
    pub applied: Field,
}

/// Where the table's fields sit, from DWARF.
#[derive(Debug)]
pub struct TableLayout {
    pub address: u64,
    pub symbol: String,
    pub fields: Fields,
}

/// The field of a struct with this name, and its type; or what is missing.
pub open spec fn field_in(t: TableView, ty: TypeId, name: Seq<char>) -> Result<
    (Field, TypeId),
    Seq<char>,
> {
    let at = underlying_at(t.types, ty, 0);
    let absent = t.name_at(at, 0) + " has no field `"@ + name + "`"@;
    match record_at(t.types, at, 0) {
        Some(rec) => match first(rec.members@, member_named(name)) {
            Some(i) => match size_of_type(t.types, rec.members@[i].type_id) {
                Some(size) => Ok(
                    (Field { offset: rec.members@[i].offset, size }, rec.members@[i].type_id),
                ),
                None => Err("`"@ + name + "` has no size"@),
            },
            None => Err(absent),
        },
        None => Err(absent),
    }
}

/// The field of a struct with this name and size.
pub open spec fn scalar_in(t: TableView, ty: TypeId, name: Seq<char>, size: u64) -> Result<
    Field,
    Seq<char>,
> {
    match field_in(t, ty, name) {
        Ok((field, _)) => if field.size == size {
            Ok(field)
        } else {
            Err(
                "`"@ + name + "` is "@ + decimal(field.size as nat) + " bytes, expected "@
                    + decimal(size as nat),
            )
        },
        Err(text) => Err(text),
    }
}

/// The field further inside its parent.
pub open spec fn shifted(f: Field, by: u64) -> Field {
    Field { offset: by.wrapping_add(f.offset), size: f.size }
}

/// A `&str` or `&[T]` field: its pointer and length within the parent, and the
/// pointer's type.
pub open spec fn fat_in(t: TableView, ty: TypeId, name: Seq<char>) -> Result<
    (Field, Field, TypeId),
    Seq<char>,
> {
    match field_in(t, ty, name) {
        Err(text) => Err(text),
        Ok((outer, inner)) => match field_in(t, inner, "data_ptr"@) {
            Err(text) => Err(text),
            Ok((ptr, ptr_ty)) => match field_in(t, inner, "length"@) {
                Err(text) => Err(text),
                Ok((len, _)) => Ok(
                    (shifted(ptr, outer.offset), shifted(len, outer.offset), ptr_ty),
                ),
            },
        },
    }
}

/// The field of a struct with this name, and its type.
fn member(ty: &TypeHandle, name: &str) -> (r: Result<(Field, TypeHandle), CatalogError>)
    ensures
        match field_in(ty.table@, ty.id, name@) {
            Ok((field, id)) => r == Ok::<(Field, TypeHandle), CatalogError>((field, ty.to(id))),
            Err(text) => r matches Err(e) && e@ == CatalogErrorView::Layout(text),
        },
{
    let at = ty.underlying();
    let found = match at.members() {
        Some(members) => match find_member(members, name) {
            Some(i) => Some(&members[i]),
            None => None,
        },
        None => None,
    };
    match found {
        Some(m) => {
            let member_ty = at.member_type(m);
            match member_ty.size() {
                Some(size) => Ok((Field { offset: m.offset, size }, member_ty)),
                None => {
                    let mut out: String = "`".to_owned();
                    out.append(name);
                    out.append("` has no size");
                    Err(CatalogError::Layout(out))
                },
            }
        },
        None => {
            let mut out: String = at.type_display_name();
            out.append(" has no field `");
            out.append(name);
            out.append("`");
            Err(CatalogError::Layout(out))
        },
    }
}

/// The field of a struct with this name and size.
fn scalar(ty: &TypeHandle, name: &str, size: u64) -> (r: Result<Field, CatalogError>)
    ensures
        match scalar_in(ty.table@, ty.id, name@, size) {
            Ok(field) => r == Ok::<Field, CatalogError>(field),
            Err(text) => r matches Err(e) && e@ == CatalogErrorView::Layout(text),
        },
{
    let field = match member(ty, name) {
        Ok((field, _)) => field,
        Err(e) => {
            return Err(e);
        },
    };
    if field.size != size {
        let mut out: String = "`".to_owned();
        out.append(name);
        out.append("` is ");
        push_decimal(&mut out, field.size);
        out.append(" bytes, expected ");
        push_decimal(&mut out, size);
        return Err(CatalogError::Layout(out));
    }
    Ok(field)
}

/// A `&str` or `&[T]` field.
fn fat(ty: &TypeHandle, name: &str) -> (r: Result<(Field, Field, TypeHandle), CatalogError>)
    ensures
        match fat_in(ty.table@, ty.id, name@) {
            Ok((ptr, len, id)) => r == Ok::<(Field, Field, TypeHandle), CatalogError>(
                (ptr, len, ty.to(id)),
            ),
            Err(text) => r matches Err(e) && e@ == CatalogErrorView::Layout(text),
        },
{
    let (outer, inner): (Field, TypeHandle) = match member(ty, name) {
        Ok(found) => found,
        Err(e) => {
            return Err(e);
        },
    };
    let (ptr, ptr_ty): (Field, TypeHandle) = match member(&inner, "data_ptr") {
        Ok(found) => found,
        Err(e) => {
            return Err(e);
        },
    };
    let len: Field = match member(&inner, "length") {
        Ok((len, _)) => len,
        Err(e) => {
            return Err(e);
        },
    };
    let ptr = Field { offset: outer.offset.wrapping_add(ptr.offset), size: ptr.size };
    let len = Field { offset: outer.offset.wrapping_add(len.offset), size: len.size };
    Ok((ptr, len, ptr_ty))
}

/// Whether a type's name says it is a table, by its last path segment.
pub open spec fn table_name(name: Seq<char>) -> bool {
    name == "Table"@ || ends_in(name, "::Table"@)
}

/// Whether a type is a table: a struct with the three fields, of that name.
pub open spec fn is_table(t: TableView, ty: TypeId) -> bool {
    &&& record_at(t.types, ty, 0) matches Some(rec) && {
        &&& first(rec.members@, member_named("magic"@)) is Some
        &&& first(rec.members@, member_named("version"@)) is Some
        &&& first(rec.members@, member_named("entries"@)) is Some
    }
    &&& table_name(t.name_at(ty, 0))
}

/// Picks the variable that is a table.
pub open spec fn table_symbol(t: TableView) -> spec_fn(SymbolInfo) -> bool {
    |s: SymbolInfo|
        !s.is_function && s.type_id is Some && is_table(t, underlying_at(t.types, s.type_id->0, 0))
}

fn type_is_table(ty: &TypeHandle) -> (r: bool)
    ensures
        r == is_table(ty.table@, ty.id),
{
    let fields: bool = match ty.members() {
        Some(members) => find_member(members, "magic").is_some() && find_member(
            members,
            "version",
        ).is_some() && find_member(members, "entries").is_some(),
        None => false,
    };
    if !fields {
        return false;
    }
    let name: String = ty.type_display_name();
    same_text(name.as_str(), "Table") || ends_with(name.as_str(), "::Table")
}

/// The type of the entries that a slice of references refers to, and the size
/// of such a reference.
pub open spec fn entry_type(t: TableView, element: TypeId) -> Result<(TypeId, u64), Seq<char>> {
    match pointee_in(t.types, element) {
        None => Err("entries is not a slice"@),
        Some(reference) => match pointee_in(t.types, reference) {
            None => Err("entries do not hold references"@),
            Some(entry) => Ok(
                (
                    underlying_at(t.types, entry, 0),
                    match size_of_type(t.types, reference) {
                        Some(size) => size,
                        None => 4,
                    },
                ),
            ),
        },
    }
}

/// The error of the first that is one.
pub open spec fn first_error(fields: Seq<Result<Field, Seq<char>>>) -> Option<Seq<char>>
    decreases fields.len(),
{
    if fields.len() == 0 {
        None
    } else {
        let before = first_error(fields.drop_last());
        if before is Some {
            before
        } else {
            match fields.last() {
                Ok(_) => None,
                Err(text) => Some(text),
            }
        }
    }
}

/// Where the fields of a table of this type sit, or the first that is not as
/// expected.
pub open spec fn fields_in(t: TableView, ty: TypeId) -> Result<Fields, Seq<char>> {
    match fat_in(t, ty, "entries"@) {
        Err(text) => Err(text),
        Ok((entries_ptr, entries_len, element)) => match entry_type(t, element) {
            Err(text) => Err(text),
            Ok((entry, pointer)) => match (
                fat_in(t, entry, "name"@),
                fat_in(t, entry, "unit"@),
            ) {
                (Err(text), _) => Err(text),
                (_, Err(text)) => Err(text),
                (Ok((name_ptr, name_len, _)), Ok((unit_ptr, unit_len, _))) => {
                    let s = scalars_in(t, ty, entry);
                    match first_error(s) {
                        Some(text) => Err(text),
                        None => Ok(
                            Fields {
                                magic: s[0]->Ok_0,
                                version: s[1]->Ok_0,
                                entries_ptr,
                                entries_len,
                                pointer,
                                id: s[2]->Ok_0,
                                kind: s[3]->Ok_0,
                                access: s[4]->Ok_0,
                                name_ptr,
                                name_len,
                                unit_ptr,
                                unit_len,
                                default: s[5]->Ok_0,
                                min: s[6]->Ok_0,
                                max: s[7]->Ok_0,
                                max_step: s[8]->Ok_0,
                                requested: s[9]->Ok_0,
                                applied: s[10]->Ok_0,
                            },
                        ),
                    }
                },
            },
        },
    }
}

/// The fields of a table and its entries that are plain numbers.
pub open spec fn scalars_in(t: TableView, ty: TypeId, entry: TypeId) -> Seq<
    Result<Field, Seq<char>>,
> {
    seq![
        scalar_in(t, ty, "magic"@, 4),
        scalar_in(t, ty, "version"@, 4),
        scalar_in(t, entry, "id"@, 4),
        scalar_in(t, entry, "kind"@, 1),
        scalar_in(t, entry, "access"@, 1),
        scalar_in(t, entry, "default"@, 4),
        scalar_in(t, entry, "min"@, 4),
        scalar_in(t, entry, "max"@, 4),
        scalar_in(t, entry, "max_step"@, 4),
        scalar_in(t, entry, "requested"@, 4),
        scalar_in(t, entry, "applied"@, 4),
    ]
}

/// The first that is an error gives the error.
proof fn lemma_first_error(fields: Seq<Result<Field, Seq<char>>>, i: int)
    requires
        0 <= i <= fields.len(),
        forall|k: int| 0 <= k < i ==> (#[trigger] fields[k]) is Ok,
    ensures
        i < fields.len() && fields[i] is Err ==> first_error(fields) == Some(fields[i]->Err_0),
        i == fields.len() ==> first_error(fields) is None,
    decreases fields.len(),
{
    if fields.len() > 0 {
        if i < fields.len() {
            lemma_first_error(fields.drop_last(), if i < fields.len() - 1 {
                i
            } else {
                fields.len() - 1
            });
        } else {
            lemma_first_error(fields.drop_last(), i - 1);
        }
    }
}

/// Where the fields of a table of this type sit.
fn fields_of(ty: &TypeHandle) -> (r: Result<Fields, CatalogError>)
    ensures
        match fields_in(ty.table@, ty.id) {
            Ok(fields) => r == Ok::<Fields, CatalogError>(fields),
            Err(text) => r matches Err(e) && e@ == CatalogErrorView::Layout(text),
        },
{
    let (entries_ptr, entries_len, element): (Field, Field, TypeHandle) = match fat(ty, "entries") {
        Ok(found) => found,
        Err(e) => {
            return Err(e);
        },
    };
    // A slice of references: its pointer leads to a reference, which leads to an entry
    let reference: TypeHandle = match element.pointee() {
        Some(reference) => reference,
        None => {
            return Err(CatalogError::Layout("entries is not a slice".to_owned()));
        },
    };
    let pointer: u64 = match reference.size() {
        Some(size) => size,
        None => 4,
    };
    let entry: TypeHandle = match reference.pointee() {
        Some(entry) => entry.underlying(),
        None => {
            return Err(CatalogError::Layout("entries do not hold references".to_owned()));
        },
    };
    let (name_ptr, name_len): (Field, Field) = match fat(&entry, "name") {
        Ok((ptr, len, _)) => (ptr, len),
        Err(e) => {
            return Err(e);
        },
    };
    let (unit_ptr, unit_len): (Field, Field) = match fat(&entry, "unit") {
        Ok((ptr, len, _)) => (ptr, len),
        Err(e) => {
            return Err(e);
        },
    };
    let ghost s = scalars_in(ty.table@, ty.id, entry.id);
    let magic: Field = match scalar(ty, "magic", 4) {
        Ok(field) => field,
        Err(e) => {
            proof {
                lemma_first_error(s, 0);
            }
            return Err(e);
        },
    };
    let version: Field = match scalar(ty, "version", 4) {
        Ok(field) => field,
        Err(e) => {
            proof {
                lemma_first_error(s, 1);
            }
            return Err(e);
        },
    };
    let id: Field = match scalar(&entry, "id", 4) {
        Ok(field) => field,
        Err(e) => {
            proof {
                lemma_first_error(s, 2);
            }
            return Err(e);
        },
    };
    let kind: Field = match scalar(&entry, "kind", 1) {
        Ok(field) => field,
        Err(e) => {
            proof {
                lemma_first_error(s, 3);
            }
            return Err(e);
        },
    };
    let access: Field = match scalar(&entry, "access", 1) {
        Ok(field) => field,
        Err(e) => {
            proof {
                lemma_first_error(s, 4);
            }
            return Err(e);
        },
    };
    let default: Field = match scalar(&entry, "default", 4) {
        Ok(field) => field,
        Err(e) => {
            proof {
                lemma_first_error(s, 5);
            }
            return Err(e);
        },
    };
    let min: Field = match scalar(&entry, "min", 4) {
        Ok(field) => field,
        Err(e) => {
            proof {
                lemma_first_error(s, 6);
            }
            return Err(e);
        },
    };
    let max: Field = match scalar(&entry, "max", 4) {
        Ok(field) => field,
        Err(e) => {
            proof {
                lemma_first_error(s, 7);
            }
            return Err(e);
        },
    };
    let max_step: Field = match scalar(&entry, "max_step", 4) {
        Ok(field) => field,
        Err(e) => {
            proof {
                lemma_first_error(s, 8);
            }
            return Err(e);
        },
    };
    let requested: Field = match scalar(&entry, "requested", 4) {
        Ok(field) => field,
        Err(e) => {
            proof {
                lemma_first_error(s, 9);
            }
            return Err(e);
        },
    };
    let applied: Field = match scalar(&entry, "applied", 4) {
        Ok(field) => field,
        Err(e) => {
            proof {
                lemma_first_error(s, 10);
            }
            return Err(e);
        },
    };
    proof {
        lemma_first_error(s, 11);
    }
    Ok(
        Fields {
            magic,
            version,
            entries_ptr,
            entries_len,
            pointer,
            id,
            kind,
            access,
            name_ptr,
            name_len,
            unit_ptr,
            unit_len,
            default,
            min,
            max,
            max_step,
            requested,
            applied,
        },
    )
}

impl TableLayout {
    /// The first variable that is a table.
    fn find_symbol(elf: &ElfInfo) -> (r: Option<(usize, TypeHandle)>)
        ensures
            match first(elf.symbols@, table_symbol(elf.types@)) {
                Some(i) => r matches Some((k, ty)) && k == i && k < elf.symbols@.len() && ty == (
                TypeHandle {
                    table: elf.types,
                    id: underlying_at(elf.types@.types, elf.symbols@[i].type_id->0, 0),
                }),
                None => r is None,
            },
    {
        let ghost p = table_symbol(elf.types@);
        let mut i: usize = 0;
        while i < elf.symbols.len()
            invariant
                i <= elf.symbols@.len(),
                p == table_symbol(elf.types@),
                forall|k: int| 0 <= k < i ==> !p(#[trigger] elf.symbols@[k]),
            decreases elf.symbols@.len() - i,
        {
            let symbol = &elf.symbols[i];
            if !symbol.is_function {
                if let Some(handle) = symbol.type_handle(elf.type_table()) {
                    let ty = handle.underlying();
                    if type_is_table(&ty) {
                        proof {
                            lemma_first_is(elf.symbols@, p, i as int);
                        }
                        return Some((i, ty));
                    }
                }
            }
            i = i + 1;
        }
        proof {
            lemma_first_none(elf.symbols@, p);
        }
        None
    }

    /// The firmware's table, or `None` when the build declares none.
    pub fn find(elf: &ElfInfo) -> (r: Result<Option<Self>, CatalogError>)
        ensures
            match first(elf.symbols@, table_symbol(elf.types@)) {
                None => r matches Ok(none) && none is None,
                Some(i) => {
                    let symbol = elf.symbols@[i];
                    let ty = underlying_at(elf.types@.types, symbol.type_id->0, 0);
                    match fields_in(elf.types@, ty) {
                        Err(text) => r matches Err(e) && e@ == CatalogErrorView::Layout(text),
                        Ok(fields) => r matches Ok(Some(layout)) && layout.address == symbol.address
                            && layout.symbol@ == symbol.demangled_name@ && layout.fields == fields,
                    }
                },
            },
    {
        let (i, ty): (usize, TypeHandle) = match Self::find_symbol(elf) {
            Some(found) => found,
            None => {
                return Ok(None);
            },
        };
        let symbol = &elf.symbols[i];
        match fields_of(&ty) {
            Ok(fields) => Ok(
                Some(
                    TableLayout {
                        address: symbol.address,
                        symbol: symbol.demangled_name.clone(),
                        fields,
                    },
                ),
            ),
            Err(e) => Err(e),
        }
    }
}

} // verus!
