use std::sync::Arc;
use tuning_studio::type_def::{
    DwarfTypeKey, EnumDef, EnumVariant, ForwardDeclKind, GlobalTypeKey, MemberDef, PrimitiveDef,
    SourceLocation, StructDef, TemplateParam, TypeDef, TypeId, VariantDef, VariantPart,
};
use tuning_studio::type_handle::{share_type_table, SharedTypeTable, TypeHandle};
use tuning_studio::type_table::TypeTable;
use tuning_studio::variable_type::VariableType;

#[test]
fn test_type_id() {
    let id = TypeId(42);
    assert!(id.is_valid());
    assert!(!TypeId::invalid().is_valid());
    assert_eq!(id.to_text(), "TypeId(42)");
    assert_eq!(TypeId::invalid().to_text(), "TypeId(INVALID)");
}

#[test]
fn test_primitive_def() {
    assert_eq!(PrimitiveDef::Int.size(), 4);
    assert_eq!(PrimitiveDef::LongLong.size(), 8);
    assert!(PrimitiveDef::Int.is_signed());
    assert!(!PrimitiveDef::UnsignedInt.is_signed());
    assert!(PrimitiveDef::Float.is_float());
    assert!(!PrimitiveDef::Int.is_float());
}

#[test]
fn test_type_table_basics() {
    let mut table = TypeTable::new();
    assert!(table.is_empty());

    let int_id = table.insert(TypeDef::Primitive(PrimitiveDef::Int));
    assert_eq!(table.len(), 1);
    assert!(!table.is_empty());

    let def = table.get(int_id).unwrap();
    assert!(matches!(def, TypeDef::Primitive(PrimitiveDef::Int)));
    assert_eq!(table.type_size(int_id), Some(4));
    assert_eq!(table.type_display_name(int_id), "int");
}

#[test]
fn test_dwarf_key_mapping() {
    let mut table = TypeTable::new();
    let key = DwarfTypeKey::new(0, 100);

    let id1 = table.get_or_allocate(key);
    let id2 = table.get_or_allocate(key);
    assert_eq!(id1, id2);

    table.define(id1, TypeDef::Primitive(PrimitiveDef::Float));
    assert_eq!(table.type_display_name(id1), "float");
}

#[test]
fn test_pointer_type() {
    let mut table = TypeTable::new();
    let int_id = table.insert(TypeDef::Primitive(PrimitiveDef::Int));
    let ptr_id = table.insert(TypeDef::Pointer(int_id));

    assert_eq!(table.type_display_name(ptr_id), "int*");
    assert_eq!(table.type_size(ptr_id), Some(4));
}

#[test]
fn test_struct_type() {
    let mut table = TypeTable::new();
    let int_id = table.insert(TypeDef::Primitive(PrimitiveDef::Int));

    let mut struct_def = StructDef::new(Some("Point".to_string()), 8, false);
    struct_def
        .members
        .push(MemberDef::new("x".to_string(), 0, int_id));
    struct_def
        .members
        .push(MemberDef::new("y".to_string(), 4, int_id));

    let struct_id = table.insert(TypeDef::Struct(struct_def));

    assert_eq!(table.type_display_name(struct_id), "Point");
    assert!(table.is_expandable(struct_id));

    let members = table.get_members(struct_id).unwrap();
    assert_eq!(members.len(), 2);
    assert_eq!(members[0].name, "x");
    assert_eq!(members[1].name, "y");
}

#[test]
fn test_forward_declaration_resolution() {
    let mut table = TypeTable::new();
    let int_id = table.insert(TypeDef::Primitive(PrimitiveDef::Int));

    let fwd_id = table.insert(TypeDef::ForwardDecl {
        name: "Point".to_string(),
        kind: ForwardDeclKind::Struct,
        target: None,
    });

    let mut struct_def = StructDef::new(Some("Point".to_string()), 8, false);
    struct_def
        .members
        .push(MemberDef::new("x".to_string(), 0, int_id));
    let def_id = table.insert(TypeDef::Struct(struct_def));

    assert!(table.get(fwd_id).unwrap().is_unresolved_forward_decl());

    table.resolve_forward_declarations();

    let resolved = table.resolve(fwd_id);
    assert_eq!(resolved, def_id);
    assert!(table.is_expandable(fwd_id));
}

#[test]
fn test_typedef() {
    let mut table = TypeTable::new();
    let int_id = table.insert(TypeDef::Primitive(PrimitiveDef::Int));
    let typedef_id = table.insert(TypeDef::Typedef {
        name: "int32_t".to_string(),
        underlying: int_id,
    });

    assert_eq!(table.type_display_name(typedef_id), "int32_t");
    assert_eq!(table.get_underlying(typedef_id), int_id);
    assert_eq!(table.type_size(typedef_id), Some(4));
}

#[test]
fn test_array_type() {
    let mut table = TypeTable::new();
    let int_id = table.insert(TypeDef::Primitive(PrimitiveDef::Int));
    let array_id = table.insert(TypeDef::Array {
        element: int_id,
        count: Some(10),
    });

    assert_eq!(table.type_display_name(array_id), "int[10]");
    assert_eq!(table.type_size(array_id), Some(40));
}

#[test]
fn test_template_struct() {
    let mut table = TypeTable::new();
    let int_id = table.insert(TypeDef::Primitive(PrimitiveDef::Int));

    let mut struct_def = StructDef::new(Some("vector".to_string()), 12, true);
    struct_def.template_params.push(TemplateParam::Type {
        name: "int".to_string(),
        type_id: int_id,
    });
    struct_def
        .members
        .push(MemberDef::new("data".to_string(), 0, int_id));

    let struct_id = table.insert(TypeDef::Struct(struct_def));

    assert_eq!(table.type_display_name(struct_id), "vector<int>");
}

#[test]
fn test_type_handle() {
    let mut table = TypeTable::new();
    let int_id = table.insert(TypeDef::Primitive(PrimitiveDef::Int));

    let mut struct_def = StructDef::new(Some("Point".to_string()), 8, false);
    struct_def
        .members
        .push(MemberDef::new("x".to_string(), 0, int_id));
    struct_def
        .members
        .push(MemberDef::new("y".to_string(), 4, int_id));
    let struct_id = table.insert(TypeDef::Struct(struct_def));

    let shared = Arc::new(table);
    let handle = TypeHandle::new(shared.clone(), struct_id);

    assert!(handle.is_valid());
    assert_eq!(handle.type_display_name(), "Point");
    assert!(handle.is_expandable());
    assert!(handle.is_struct_or_union());

    let members = handle.members().unwrap();
    assert_eq!(members.len(), 2);

    let x_type = handle.member_type(&members[0]);
    assert!(x_type.is_primitive());
    assert_eq!(x_type.type_display_name(), "int");
}

#[test]
fn test_type_handle_pointer() {
    let mut table = TypeTable::new();
    let int_id = table.insert(TypeDef::Primitive(PrimitiveDef::Int));
    let ptr_id = table.insert(TypeDef::Pointer(int_id));

    let shared = Arc::new(table);
    let handle = TypeHandle::new(shared, ptr_id);

    assert!(handle.is_pointer_or_reference());
    let pointee = handle.pointee().unwrap();
    assert!(pointee.is_primitive());
    assert_eq!(pointee.type_display_name(), "int");
}

#[test]
fn test_stats() {
    let mut table = TypeTable::new();
    table.insert(TypeDef::Primitive(PrimitiveDef::Int));
    table.insert(TypeDef::Primitive(PrimitiveDef::Float));
    table.insert(TypeDef::Void);
    table.insert(TypeDef::ForwardDecl {
        name: "Foo".to_string(),
        kind: ForwardDeclKind::Struct,
        target: None,
    });

    let stats = table.stats();
    assert_eq!(stats.total_types, 4);
    assert_eq!(stats.primitives, 2);
    assert_eq!(stats.voids, 1);
    assert_eq!(stats.forward_decls, 1);
    assert_eq!(stats.unresolved_forward_decls, 1);
}

#[test]
fn test_typedef_chain_resolution() {
    let mut table = TypeTable::new();

    // Create a chain: typedef -> typedef -> primitive
    let int_id = table.insert(TypeDef::Primitive(PrimitiveDef::Int));
    let int32_id = table.insert(TypeDef::Typedef {
        name: "int32_t".to_string(),
        underlying: int_id,
    });
    let myint_id = table.insert(TypeDef::Typedef {
        name: "MyInt".to_string(),
        underlying: int32_id,
    });

    // Should resolve through the chain
    let final_type = table.get_underlying(myint_id);
    assert_eq!(final_type, int_id);
    assert_eq!(table.type_size(myint_id), Some(4));
}

#[test]
fn test_recursive_struct_detection() {
    let mut table = TypeTable::new();
    let int_id = table.insert(TypeDef::Primitive(PrimitiveDef::Int));

    // Create a struct with a pointer to itself (linked list node)
    let node_fwd = table.insert(TypeDef::ForwardDecl {
        name: "Node".to_string(),
        kind: ForwardDeclKind::Struct,
        target: None,
    });

    let node_ptr_id = table.insert(TypeDef::Pointer(node_fwd));

    let mut node_def = StructDef::new(Some("Node".to_string()), 12, false);
    node_def
        .members
        .push(MemberDef::new("data".to_string(), 0, int_id));
    node_def
        .members
        .push(MemberDef::new("next".to_string(), 4, node_ptr_id));
    let node_id = table.insert(TypeDef::Struct(node_def));

    // Resolve forward declarations
    table.resolve_forward_declarations();

    // Should be able to navigate the structure without infinite loops
    assert_eq!(table.type_display_name(node_id), "Node");
    assert!(table.is_expandable(node_id));

    let members = table.get_members(node_id).unwrap();
    assert_eq!(members.len(), 2);
    assert_eq!(members[1].name, "next");
}

#[test]
fn test_template_parameter_handling() {
    let mut table = TypeTable::new();
    let int_id = table.insert(TypeDef::Primitive(PrimitiveDef::Int));
    let float_id = table.insert(TypeDef::Primitive(PrimitiveDef::Float));

    // Create a templated struct with both type and value parameters
    let mut struct_def = StructDef::new(Some("Container".to_string()), 16, true);
    struct_def.template_params.push(TemplateParam::Type {
        name: "int".to_string(),
        type_id: int_id,
    });
    struct_def.template_params.push(TemplateParam::Value {
        name: "10".to_string(),
        value: 10,
    });
    struct_def
        .members
        .push(MemberDef::new("data".to_string(), 0, float_id));

    let struct_id = table.insert(TypeDef::Struct(struct_def));

    // Check name includes all template parameters
    let name = table.type_display_name(struct_id);
    assert!(name.contains("Container"));
    assert!(name.contains("int"));
    assert!(name.contains("10"));
}

#[test]
fn test_enum_type() {
    let mut table = TypeTable::new();

    let mut enum_def = EnumDef::new(Some("Color".to_string()), 4, false);
    enum_def.variants.push(EnumVariant {
        name: "Red".to_string(),
        value: 0,
    });
    enum_def.variants.push(EnumVariant {
        name: "Green".to_string(),
        value: 1,
    });
    enum_def.variants.push(EnumVariant {
        name: "Blue".to_string(),
        value: 2,
    });

    let enum_id = table.insert(TypeDef::Enum(enum_def));

    assert_eq!(table.type_display_name(enum_id), "Color");
    assert_eq!(table.type_size(enum_id), Some(4));
    // Enums may not be marked as expandable in the same way as structs
    // Just check the type exists
    assert!(table.get(enum_id).is_some());
}

#[test]
fn test_union_type() {
    let mut table = TypeTable::new();
    let int_id = table.insert(TypeDef::Primitive(PrimitiveDef::Int));
    let float_id = table.insert(TypeDef::Primitive(PrimitiveDef::Float));

    let mut union_def = StructDef::new(Some("Value".to_string()), 4, false);
    union_def
        .members
        .push(MemberDef::new("as_int".to_string(), 0, int_id));
    union_def
        .members
        .push(MemberDef::new("as_float".to_string(), 0, float_id));

    let union_id = table.insert(TypeDef::Union(union_def));

    // Union name includes "union" prefix
    assert!(table.type_display_name(union_id).contains("Value"));
    assert_eq!(table.type_size(union_id), Some(4));
    assert!(table.is_expandable(union_id));

    let members = table.get_members(union_id).unwrap();
    assert_eq!(members.len(), 2);
    // Both members should be at offset 0
    assert_eq!(members[0].offset, 0);
    assert_eq!(members[1].offset, 0);
}

#[test]
fn test_void_pointer() {
    let mut table = TypeTable::new();
    let void_id = table.insert(TypeDef::Void);
    let void_ptr_id = table.insert(TypeDef::Pointer(void_id));

    assert_eq!(table.type_display_name(void_ptr_id), "void*");
    assert_eq!(table.type_size(void_ptr_id), Some(4));
}

#[test]
fn test_double_pointer() {
    let mut table = TypeTable::new();
    let int_id = table.insert(TypeDef::Primitive(PrimitiveDef::Int));
    let ptr1_id = table.insert(TypeDef::Pointer(int_id));
    let ptr2_id = table.insert(TypeDef::Pointer(ptr1_id));

    assert_eq!(table.type_display_name(ptr2_id), "int**");
    assert_eq!(table.type_size(ptr2_id), Some(4));
}

#[test]
fn test_array_of_structs() {
    let mut table = TypeTable::new();
    let int_id = table.insert(TypeDef::Primitive(PrimitiveDef::Int));

    let mut struct_def = StructDef::new(Some("Point".to_string()), 8, false);
    struct_def
        .members
        .push(MemberDef::new("x".to_string(), 0, int_id));
    struct_def
        .members
        .push(MemberDef::new("y".to_string(), 4, int_id));
    let struct_id = table.insert(TypeDef::Struct(struct_def));

    let array_id = table.insert(TypeDef::Array {
        element: struct_id,
        count: Some(5),
    });

    assert_eq!(table.type_display_name(array_id), "Point[5]");
    assert_eq!(table.type_size(array_id), Some(40)); // 5 * 8 bytes
}

#[test]
fn test_variable_length_array() {
    let mut table = TypeTable::new();
    let int_id = table.insert(TypeDef::Primitive(PrimitiveDef::Int));

    let array_id = table.insert(TypeDef::Array {
        element: int_id,
        count: None, // Unknown size
    });

    assert_eq!(table.type_display_name(array_id), "int[]");
    // Arrays without count have size 0, not None
    let size = table.type_size(array_id);
    assert!(size == Some(0) || size.is_none());
}

#[test]
fn test_reference_type() {
    let mut table = TypeTable::new();
    let int_id = table.insert(TypeDef::Primitive(PrimitiveDef::Int));
    let ref_id = table.insert(TypeDef::Reference(int_id));

    assert_eq!(table.type_display_name(ref_id), "int&");
    assert_eq!(table.type_size(ref_id), Some(4));
}

#[test]
fn test_nested_structs() {
    let mut table = TypeTable::new();
    let int_id = table.insert(TypeDef::Primitive(PrimitiveDef::Int));

    // Inner struct
    let mut inner = StructDef::new(Some("Inner".to_string()), 8, false);
    inner
        .members
        .push(MemberDef::new("a".to_string(), 0, int_id));
    inner
        .members
        .push(MemberDef::new("b".to_string(), 4, int_id));
    let inner_id = table.insert(TypeDef::Struct(inner));

    // Outer struct containing inner struct
    let mut outer = StructDef::new(Some("Outer".to_string()), 12, false);
    outer
        .members
        .push(MemberDef::new("inner".to_string(), 0, inner_id));
    outer
        .members
        .push(MemberDef::new("x".to_string(), 8, int_id));
    let outer_id = table.insert(TypeDef::Struct(outer));

    assert_eq!(table.type_size(outer_id), Some(12));

    let members = table.get_members(outer_id).unwrap();
    assert_eq!(members.len(), 2);
    assert_eq!(members[0].name, "inner");
    assert_eq!(members[0].type_id, inner_id);
}

#[test]
fn test_const_volatile_qualifiers() {
    let mut table = TypeTable::new();
    let int_id = table.insert(TypeDef::Primitive(PrimitiveDef::Int));
    let const_id = table.insert(TypeDef::Const(int_id));
    let volatile_id = table.insert(TypeDef::Volatile(int_id));

    // Qualifiers should be transparent for size
    assert_eq!(table.type_size(const_id), Some(4));
    assert_eq!(table.type_size(volatile_id), Some(4));

    // Names should reflect qualifiers
    assert!(table.type_display_name(const_id).contains("const"));
    assert!(table.type_display_name(volatile_id).contains("volatile"));
}

#[test]
fn test_shared_type_table() {
    let mut table = TypeTable::new();
    let int_id = table.insert(TypeDef::Primitive(PrimitiveDef::Int));

    let shared = SharedTypeTable::new(table);

    // Should be able to clone and share
    let shared2 = shared.clone();

    assert_eq!(shared.type_display_name(int_id), "int");
    assert_eq!(shared2.type_display_name(int_id), "int");
}

#[test]
fn keys_of_units_and_of_the_whole_file_stay_apart() {
    let local = GlobalTypeKey::unit_local(3, 100);
    let global = GlobalTypeKey::global(100);
    assert_eq!(local.to_dwarf_key(), DwarfTypeKey::new(3, 100));
    assert_ne!(local.to_dwarf_key(), global.to_dwarf_key());
    let mut table = TypeTable::new();
    let id = table.insert_for_key(local.to_dwarf_key(), TypeDef::Void);
    assert_eq!(table.get_by_dwarf_key(local.to_dwarf_key()), Some(id));
    assert_eq!(table.get_by_dwarf_key(global.to_dwarf_key()), None);
    table.register_alias(global.to_dwarf_key(), id);
    assert_eq!(table.get_by_dwarf_key(global.to_dwarf_key()), Some(id));
    assert_eq!(table.dwarf_key_count(), 2);
    assert_eq!(table.all_type_ids(), vec![id]);
}

#[test]
fn a_variant_is_selected_by_its_tag_or_is_the_default() {
    let variant = |name: &str, discr: Option<u64>| VariantDef {
        discr_value: discr,
        member: MemberDef::new(name.to_string(), 0, TypeId(0)),
        location: None,
    };
    let part = VariantPart {
        discriminant: Some(MemberDef::new("tag".to_string(), 0, TypeId(0))),
        variants: vec![variant("None", Some(0)), variant("Some", None)],
    };
    assert_eq!(part.select(0).unwrap().member.name, "None");
    assert_eq!(part.select(7).unwrap().member.name, "Some");
    assert_eq!(part.select_index(7), Some(1));
}

#[test]
fn enums_name_their_values() {
    let mut e = EnumDef::new(None, 1, true);
    e.variants.push(EnumVariant {
        name: "On".to_string(),
        value: 1,
    });
    assert_eq!(e.find_variant(1).unwrap().name, "On");
    assert!(e.find_variant(2).is_none());
    assert_eq!(e.value_to_string(1), "On");
    assert_eq!(e.value_to_string(-2), "-2");
}

#[test]
fn handles_describe_arrays_and_what_is_sampled() {
    let mut table = TypeTable::new();
    let u16_id = table.insert(TypeDef::Primitive(PrimitiveDef::UnsignedShort));
    let array = table.insert(TypeDef::Array {
        element: u16_id,
        count: Some(3),
    });
    assert_eq!(table.to_variable_type(u16_id), VariableType::U16);
    assert!(table.is_addable(u16_id));
    let shared = share_type_table(table);
    let handle = TypeHandle::new(shared.clone(), array);
    assert!(handle.is_array());
    assert_eq!(handle.array_count(), Some(3));
    assert_eq!(handle.element_size(), Some(2));
    assert_eq!(handle.element_type().unwrap().id(), u16_id);
    assert!(!TypeHandle::invalid(shared).is_valid());
}

#[test]
fn a_source_name_is_a_place() {
    let at = SourceLocation {
        file: "main.rs".to_string(),
        line: 7,
    };
    assert_eq!((at.file.as_str(), at.line), ("main.rs", 7));
}

#[test]
fn resolving_and_stripping_again_change_nothing() {
    let mut table = TypeTable::new();
    let int = table.insert(TypeDef::Primitive(PrimitiveDef::Int));
    let fwd = table.insert(TypeDef::ForwardDecl {
        name: "Point".to_string(),
        kind: ForwardDeclKind::Struct,
        target: None,
    });
    let unknown = table.insert(TypeDef::ForwardDecl {
        name: "Hidden".to_string(),
        kind: ForwardDeclKind::Struct,
        target: None,
    });
    let mut point = StructDef::new(Some("Point".to_string()), 8, false);
    point.members.push(MemberDef::new("x".to_string(), 0, int));
    let point = table.insert(TypeDef::Struct(point));
    table.resolve_forward_declarations();
    table.resolve_forward_declarations();
    assert_eq!(table.resolve(fwd), point);
    assert_eq!(table.resolve(table.resolve(fwd)), point);
    assert_eq!(table.resolve(unknown), unknown);

    let named = table.insert(TypeDef::Typedef {
        name: "point_t".to_string(),
        underlying: fwd,
    });
    let constant = table.insert(TypeDef::Const(named));
    let plain = table.get_underlying(constant);
    assert_eq!(plain, point);
    assert_eq!(table.get_underlying(plain), plain);
    assert_eq!(table.type_size(plain), table.type_size(constant));
    assert_eq!(table.get_members(plain).unwrap().len(), table.get_members(constant).unwrap().len());
    assert_eq!(table.to_variable_type(plain), table.to_variable_type(constant));

    let pointer = table.insert(TypeDef::Pointer(constant));
    let fixed = table.insert(TypeDef::Volatile(pointer));
    let table = share_type_table(table);
    assert!(TypeHandle::new(table.clone(), pointer).is_pointer_expandable());
    assert!(TypeHandle::new(table, fixed).is_pointer_expandable());
}

#[test]
fn a_value_is_read_by_its_kind_behind_qualifiers() {
    let mut table = TypeTable::new();
    let short = table.insert(TypeDef::Primitive(PrimitiveDef::Short));
    let kinds = [
        (TypeDef::Primitive(PrimitiveDef::Double), VariableType::F64),
        (TypeDef::Pointer(short), VariableType::U32),
        (TypeDef::Reference(short), VariableType::U32),
        (TypeDef::Subroutine { return_type: None, params: Vec::new() }, VariableType::U32),
        (TypeDef::Enum(EnumDef::new(None, 1, false)), VariableType::U8),
        (TypeDef::Enum(EnumDef::new(None, 2, false)), VariableType::U16),
        (TypeDef::Enum(EnumDef::new(None, 4, false)), VariableType::U32),
        (TypeDef::Enum(EnumDef::new(None, 8, false)), VariableType::U64),
        (TypeDef::Enum(EnumDef::new(None, 3, false)), VariableType::Raw(3)),
        (TypeDef::Struct(StructDef::new(None, 12, false)), VariableType::Raw(12)),
        (TypeDef::Union(StructDef::new(None, 6, false)), VariableType::Raw(6)),
        (TypeDef::Unknown { size: 5 }, VariableType::Raw(5)),
        (TypeDef::Array { element: short, count: Some(7) }, VariableType::Raw(14)),
        (TypeDef::Void, VariableType::Raw(0)),
    ];
    for (def, expected) in kinds {
        let plain = table.insert(def);
        let restrict = table.insert(TypeDef::Restrict(plain));
        let named = table.insert(TypeDef::Typedef {
            name: "t".to_string(),
            underlying: restrict,
        });
        let qualified = table.insert(TypeDef::Volatile(named));
        assert_eq!(table.to_variable_type(plain), expected);
        assert_eq!(table.to_variable_type(qualified), expected);
    }
    assert_eq!(table.to_variable_type(TypeId::invalid()), VariableType::Raw(0));
}
