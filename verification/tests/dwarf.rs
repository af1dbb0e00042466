use gimli::constants as dw;
use gimli::write::{
    Address, AttributeValue, DwarfUnit, EndianVec, Expression, FileId, LineProgram, LineString,
    Location, LocationList, Sections, UnitEntryId,
};
use gimli::{Encoding, Format, LineEncoding, LittleEndian, Register};
use object::write::Object;
use object::{Architecture, BinaryFormat, Endianness, SectionKind};
use tuning_studio::die;
use tuning_studio::dwarf_load::{join_path, load_sections, load_units, text_at};
use tuning_studio::dwarf_parser::{DwarfParseResult, DwarfParser, ParsedSymbol};
use tuning_studio::type_def::{DwarfTypeKey, TypeDef};
use tuning_studio::variable_status::VariableStatus;

/// Debug info that is put together by hand.
struct Source {
    dwarf: DwarfUnit,
}

impl Source {
    fn new(version: u16) -> Self {
        let encoding = Encoding {
            format: Format::Dwarf32,
            version,
            address_size: 4,
        };
        let mut dwarf = DwarfUnit::new(encoding);
        let root = dwarf.unit.root();
        dwarf.unit.get_mut(root).set(
            dw::DW_AT_name,
            AttributeValue::String(b"main.c".to_vec()),
        );
        Self { dwarf }
    }

    fn root(&self) -> UnitEntryId {
        self.dwarf.unit.root()
    }

    fn add(&mut self, parent: UnitEntryId, tag: gimli::DwTag, name: &str) -> UnitEntryId {
        let id = self.dwarf.unit.add(parent, tag);
        if !name.is_empty() {
            let text = self.dwarf.strings.add(name.as_bytes());
            self.set(id, dw::DW_AT_name, AttributeValue::StringRef(text));
        }
        id
    }

    fn set(&mut self, id: UnitEntryId, name: gimli::DwAt, value: AttributeValue) {
        self.dwarf.unit.get_mut(id).set(name, value);
    }

    fn size(&mut self, id: UnitEntryId, size: u8) {
        self.set(id, dw::DW_AT_byte_size, AttributeValue::Data1(size));
    }

    fn typed(&mut self, id: UnitEntryId, of: UnitEntryId) {
        self.set(id, dw::DW_AT_type, AttributeValue::UnitRef(of));
    }

    fn base(&mut self, name: &str, size: u8, encoding: gimli::DwAte) -> UnitEntryId {
        let root = self.root();
        let id = self.add(root, dw::DW_TAG_base_type, name);
        self.size(id, size);
        self.set(id, dw::DW_AT_encoding, AttributeValue::Encoding(encoding));
        id
    }

    fn derived(&mut self, tag: gimli::DwTag, of: UnitEntryId) -> UnitEntryId {
        let root = self.root();
        let id = self.add(root, tag, "");
        self.typed(id, of);
        id
    }

    fn record(&mut self, tag: gimli::DwTag, name: &str, size: u8) -> UnitEntryId {
        let root = self.root();
        let id = self.add(root, tag, name);
        self.size(id, size);
        id
    }

    fn member(&mut self, record: UnitEntryId, name: &str, at: u64, of: UnitEntryId) -> UnitEntryId {
        let id = self.add(record, dw::DW_TAG_member, name);
        self.typed(id, of);
        self.set(
            id,
            dw::DW_AT_data_member_location,
            AttributeValue::Udata(at),
        );
        id
    }

    fn array(&mut self, of: UnitEntryId, count: u64) -> UnitEntryId {
        let id = self.derived(dw::DW_TAG_array_type, of);
        let range = self.add(id, dw::DW_TAG_subrange_type, "");
        self.set(range, dw::DW_AT_count, AttributeValue::Udata(count));
        id
    }

    fn variable(&mut self, parent: UnitEntryId, name: &str, of: UnitEntryId, at: u64) -> UnitEntryId {
        let id = self.add(parent, dw::DW_TAG_variable, name);
        self.typed(id, of);
        self.set(id, dw::DW_AT_external, AttributeValue::Flag(true));
        let mut place = Expression::new();
        place.op_addr(Address::Constant(at));
        self.set(id, dw::DW_AT_location, AttributeValue::Exprloc(place));
        id
    }

    fn global(&mut self, name: &str, of: UnitEntryId, at: u64) -> UnitEntryId {
        let root = self.root();
        self.variable(root, name, of, at)
    }

    fn located(&mut self, name: &str, of: UnitEntryId, place: Expression) -> UnitEntryId {
        let root = self.root();
        let id = self.add(root, dw::DW_TAG_variable, name);
        self.typed(id, of);
        self.set(id, dw::DW_AT_location, AttributeValue::Exprloc(place));
        id
    }

    fn elf(mut self) -> Vec<u8> {
        let mut sections = Sections::new(EndianVec::new(LittleEndian));
        self.dwarf.write(&mut sections).unwrap();
        let mut file = Object::new(BinaryFormat::Elf, Architecture::Arm, Endianness::Little);
        let mut add = |id: gimli::SectionId, data: &EndianVec<LittleEndian>| -> gimli::Result<()> {
            if !data.slice().is_empty() {
                let section =
                    file.add_section(Vec::new(), id.name().as_bytes().to_vec(), SectionKind::Debug);
                file.set_section_data(section, data.slice().to_vec(), 1);
            }
            Ok(())
        };
        sections.for_each(&mut add).unwrap();
        file.write().unwrap()
    }

    fn parse(self) -> DwarfParseResult {
        DwarfParser::parse_bytes(&self.elf()).expect("Failed to parse ELF")
    }
}

fn find<'a>(result: &'a DwarfParseResult, name: &str) -> Option<&'a ParsedSymbol> {
    result.symbols.iter().find(|s| s.name == name)
}

/// `volatile uint32_t global_counter; volatile float sensor_data; enum State current_state;`
fn test_arm(version: u16) -> Source {
    let mut s = Source::new(version);
    let root = s.root();
    let unsigned = s.base("unsigned int", 4, dw::DW_ATE_unsigned);
    let float = s.base("float", 4, dw::DW_ATE_float);
    let uint32 = s.add(root, dw::DW_TAG_typedef, "uint32_t");
    s.typed(uint32, unsigned);
    let counter = s.derived(dw::DW_TAG_volatile_type, uint32);
    let sensor = s.derived(dw::DW_TAG_volatile_type, float);
    let state = s.record(dw::DW_TAG_enumeration_type, "State", 1);
    for (name, value) in [("IDLE", 0), ("RUNNING", 1)] {
        let e = s.add(state, dw::DW_TAG_enumerator, name);
        s.set(e, dw::DW_AT_const_value, AttributeValue::Data1(value));
    }
    s.global("global_counter", counter, 0x2000_0004);
    s.global("sensor_data", sensor, 0x2000_0008);
    s.global("current_state", state, 0x2000_000c);
    s
}

fn test_struct() -> Source {
    let mut s = Source::new(4);
    let unsigned = s.base("unsigned int", 4, dw::DW_ATE_unsigned);
    let signed = s.base("int", 4, dw::DW_ATE_signed);
    let float = s.base("float", 4, dw::DW_ATE_float);
    let byte = s.base("unsigned char", 1, dw::DW_ATE_unsigned_char);
    let sensor = s.record(dw::DW_TAG_structure_type, "SensorData", 12);
    s.member(sensor, "x", 0, signed);
    s.member(sensor, "y", 4, signed);
    s.member(sensor, "value", 8, float);
    let config = s.record(dw::DW_TAG_structure_type, "DeviceConfig", 20);
    s.member(config, "id", 0, unsigned);
    s.member(config, "sensor", 4, sensor);
    s.member(config, "enabled", 16, byte);
    let buffer = s.array(byte, 16);
    s.global("sensor_struct", sensor, 0x2000_0000);
    s.global("device_config", config, 0x2000_0010);
    s.global("buffer", buffer, 0x2000_0030);
    s
}

fn test_pointer() -> Source {
    let mut s = Source::new(5);
    let unsigned = s.base("unsigned int", 4, dw::DW_ATE_unsigned);
    let float = s.base("float", 4, dw::DW_ATE_float);
    let to_uint = s.derived(dw::DW_TAG_pointer_type, unsigned);
    let to_float = s.derived(dw::DW_TAG_pointer_type, float);
    let to_pointer = s.derived(dw::DW_TAG_pointer_type, to_uint);
    s.global("target_value", unsigned, 0x2000_0000);
    s.global("data_ptr", to_uint, 0x2000_0004);
    s.global("float_ptr", to_float, 0x2000_0008);
    s.global("double_ptr", to_pointer, 0x2000_000c);
    s.global("null_ptr", to_uint, 0x2000_0010);
    s
}

fn test_complex_c() -> Source {
    let mut s = Source::new(4);
    let unsigned = s.base("unsigned int", 4, dw::DW_ATE_unsigned);
    let byte = s.base("unsigned char", 1, dw::DW_ATE_unsigned_char);
    let packed = s.record(dw::DW_TAG_structure_type, "Packed", 5);
    s.member(packed, "a", 0, byte);
    s.member(packed, "b", 1, unsigned);
    let bits = s.record(dw::DW_TAG_structure_type, "Bits", 4);
    let low = s.member(bits, "low", 0, unsigned);
    s.set(low, dw::DW_AT_bit_size, AttributeValue::Data1(3));
    s.set(low, dw::DW_AT_data_bit_offset, AttributeValue::Data1(0));
    let high = s.member(bits, "high", 0, unsigned);
    s.set(high, dw::DW_AT_bit_size, AttributeValue::Data1(5));
    s.set(high, dw::DW_AT_data_bit_offset, AttributeValue::Data1(3));
    let union = s.record(dw::DW_TAG_union_type, "Data", 4);
    s.member(union, "word", 0, unsigned);
    s.member(union, "byte", 0, byte);
    let inner = s.record(dw::DW_TAG_structure_type, "Inner", 5);
    s.member(inner, "packed", 0, packed);
    let outer = s.record(dw::DW_TAG_structure_type, "Outer", 8);
    s.member(outer, "inner", 0, inner);
    s.global("packed_data", packed, 0x2000_0000);
    s.global("bitfield_data", bits, 0x2000_0008);
    s.global("data_union", union, 0x2000_000c);
    s.global("nested", outer, 0x2000_0010);
    s
}

fn test_cpp() -> Source {
    let mut s = Source::new(4);
    let root = s.root();
    let int = s.base("int", 4, dw::DW_ATE_signed);
    let float = s.base("float", 4, dw::DW_ATE_float);
    let base = s.record(dw::DW_TAG_class_type, "Base", 4);
    s.member(base, "id", 0, int);
    let space = s.add(root, dw::DW_TAG_namespace, "sensors");
    let sensor = s.add(space, dw::DW_TAG_class_type, "Sensor");
    s.size(sensor, 8);
    let inherits = s.add(sensor, dw::DW_TAG_inheritance, "");
    s.typed(inherits, base);
    s.set(
        inherits,
        dw::DW_AT_data_member_location,
        AttributeValue::Udata(0),
    );
    s.member(sensor, "value", 4, float);
    let temp = s.variable(space, "temp_sensor", sensor, 0x2000_0000);
    s.set(
        temp,
        dw::DW_AT_linkage_name,
        AttributeValue::String(b"_ZN7sensors11temp_sensorE".to_vec()),
    );
    let count = s.variable(space, "", int, 0x2000_0008);
    s.set(
        count,
        dw::DW_AT_linkage_name,
        AttributeValue::String(b"_ZN7sensors5countE".to_vec()),
    );
    for (name, variable, of, at) in [
        ("Container<int>", "int_container", int, 0x2000_0010),
        ("Container<float>", "float_container", float, 0x2000_0020),
    ] {
        let container = s.record(dw::DW_TAG_class_type, name, 4);
        let param = s.add(container, dw::DW_TAG_template_type_parameter, "T");
        s.typed(param, of);
        s.member(container, "item", 0, of);
        s.global(variable, container, at);
    }
    s
}

#[test]
fn test_dwarf_type_key() {
    let key1 = DwarfTypeKey::new(0, 100);
    let key2 = DwarfTypeKey::new(0, 100);
    let key3 = DwarfTypeKey::new(1, 100);

    assert_eq!(key1, key2);
    assert_ne!(key1, key3);
}

#[test]
fn test_variable_status_methods() {
    // Test VariableStatus utility methods
    let valid_status = VariableStatus::Valid {
        address: 0x20000000,
    };
    assert!(valid_status.is_readable());
    assert_eq!(valid_status.address(), Some(0x20000000));
    assert_eq!(valid_status.reason(), "Valid address");

    let optimized_status = VariableStatus::OptimizedOut;
    assert!(!optimized_status.is_readable());
    assert_eq!(optimized_status.address(), None);
    assert_eq!(optimized_status.reason(), "Optimized out by compiler");

    let zero_status = VariableStatus::AddressZero;
    assert!(zero_status.is_readable());
    assert_eq!(zero_status.address(), Some(0));
}

#[test]
fn test_parse_simple_variables() {
    for version in [2, 3, 4, 5] {
        let result = test_arm(version).parse();

        // Check we found some variables
        assert!(!result.symbols.is_empty(), "Should find variables");

        let var = find(&result, "global_counter").unwrap();
        assert!(var.status.is_readable(), "global_counter should be readable");
        assert_eq!(var.address, 0x2000_0004);
        assert_eq!(var.size, 4);
        assert!(var.is_global);
        assert_eq!(
            result.type_table.type_display_name(var.type_id),
            "volatile uint32_t"
        );

        let sensor_data = find(&result, "sensor_data").unwrap();
        assert_eq!(sensor_data.address, 0x2000_0008);
        assert_eq!(
            result.type_table.type_display_name(sensor_data.type_id),
            "volatile float"
        );
    }
}

#[test]
fn test_parse_enum_types() {
    let result = test_arm(4).parse();

    let current_state = find(&result, "current_state");
    assert!(
        current_state.is_some(),
        "Should find current_state enum variable"
    );

    // Check that we parsed enum types
    let stats = result.type_table.stats();
    assert!(stats.enums > 0, "Should have parsed enum types");
    match result.type_table.get_resolved(current_state.unwrap().type_id) {
        Some(TypeDef::Enum(e)) => {
            let variants: Vec<(&str, i64)> =
                e.variants.iter().map(|v| (v.name.as_str(), v.value)).collect();
            assert_eq!(variants, [("IDLE", 0), ("RUNNING", 1)]);
        }
        other => panic!("no enum: {other:?}"),
    }
}

#[test]
fn test_parse_struct_types() {
    let result = test_struct().parse();

    let sensor_struct = find(&result, "sensor_struct").unwrap();
    let stats = result.type_table.stats();
    assert!(stats.structs > 0, "Should have parsed struct types");

    let members = result.type_table.get_members(sensor_struct.type_id).unwrap();
    assert!(
        members.len() >= 3,
        "SensorData should have at least 3 fields (x, y, value)"
    );
    let places: Vec<(&str, u64)> = members.iter().map(|m| (m.name.as_str(), m.offset)).collect();
    assert_eq!(places, [("x", 0), ("y", 4), ("value", 8)]);
}

#[test]
fn test_parse_nested_structs() {
    let result = test_struct().parse();

    let var = find(&result, "device_config").unwrap();
    let members = result.type_table.get_members(var.type_id).unwrap();
    // Should have id, sensor (nested struct), enabled
    assert!(
        members.len() >= 3,
        "DeviceConfig should have at least 3 fields"
    );
    assert_eq!(result.type_table.type_display_name(members[1].type_id), "SensorData");
}

#[test]
fn test_parse_array_types() {
    let result = test_struct().parse();

    let buffer = find(&result, "buffer");
    assert!(buffer.is_some(), "Should find buffer array");

    let stats = result.type_table.stats();
    assert!(stats.arrays > 0, "Should have parsed array types");
    assert_eq!(buffer.unwrap().size, 16);
}

#[test]
fn test_parse_pointer_types() {
    let result = test_pointer().parse();

    assert!(find(&result, "data_ptr").is_some(), "Should find data_ptr variable");
    assert!(find(&result, "float_ptr").is_some(), "Should find float_ptr variable");
    let double_ptr = find(&result, "double_ptr");
    assert!(double_ptr.is_some(), "Should find double_ptr variable");
    assert_eq!(
        result.type_table.type_display_name(double_ptr.unwrap().type_id),
        "unsigned int**"
    );

    let stats = result.type_table.stats();
    assert!(stats.pointers > 0, "Should have parsed pointer types");
}

#[test]
fn test_parse_null_pointer() {
    let result = test_pointer().parse();
    assert!(find(&result, "null_ptr").is_some(), "Should find null_ptr variable");
}

#[test]
fn test_parse_complex_c_types() {
    let result = test_complex_c().parse();

    assert!(find(&result, "packed_data").is_some(), "Should find packed_data");
    let bits = find(&result, "bitfield_data").expect("Should find bitfield_data");
    assert!(find(&result, "data_union").is_some(), "Should find data_union");

    let stats = result.type_table.stats();
    assert!(stats.unions > 0, "Should have parsed union types");
    let members = result.type_table.get_members(bits.type_id).unwrap();
    assert!(members[1].is_bitfield());
    assert_eq!((members[1].bit_offset, members[1].bit_size), (Some(3), Some(5)));
}

#[test]
fn test_parse_nested_structs_complex() {
    let result = test_complex_c().parse();
    assert!(find(&result, "nested").is_some(), "Should find nested struct variable");
}

#[test]
fn test_parse_cpp_namespaces() {
    let result = test_cpp().parse();

    assert!(!result.symbols.is_empty(), "Should find C++ variables");
    let temp_sensor = result
        .symbols
        .iter()
        .find(|s| s.name.contains("temp_sensor") || s.name == "temp_sensor");
    assert!(temp_sensor.is_some(), "Should find temp_sensor variable");
    assert_eq!(temp_sensor.unwrap().name, "temp_sensor");
    assert!(find(&result, "_ZN7sensors5countE").is_some(), "a linkage name will do");
}

#[test]
fn test_parse_cpp_classes() {
    let result = test_cpp().parse();

    let stats = result.type_table.stats();
    assert!(stats.structs > 0, "Should have parsed C++ class types");
    let temp = result.symbols.iter().find(|s| s.name.contains("temp_sensor")).unwrap();
    let members = result.type_table.get_members(temp.type_id).unwrap();
    let names: Vec<&str> = members.iter().map(|m| m.name.as_str()).collect();
    assert_eq!(names, ["id", "value"], "what a base class holds comes first");
}

#[test]
fn test_parse_cpp_templates() {
    let result = test_cpp().parse();

    let int_container = result.symbols.iter().find(|s| s.name.contains("int_container"));
    assert!(
        int_container.is_some(),
        "Should find int_container template instantiation"
    );
    let float_container = result.symbols.iter().find(|s| s.name.contains("float_container"));
    assert!(
        float_container.is_some(),
        "Should find float_container template instantiation"
    );
}

#[test]
fn test_variable_status_classification() {
    let result = test_arm(4).parse();

    let readable_count = result.symbols.iter().filter(|s| s.status.is_readable()).count();
    assert!(
        readable_count > 0,
        "Should have at least some readable variables"
    );
    assert!(
        result.diagnostics.total_variables > 0,
        "Should have found variables"
    );
    assert!(
        result.diagnostics.with_valid_address > 0,
        "Should have variables with valid addresses"
    );
}

#[test]
fn test_type_table_completeness() {
    let result = test_struct().parse();
    let stats = result.type_table.stats();

    assert!(stats.primitives > 0, "Should have primitive types");
    assert!(stats.total_types > 0, "Should have total types");
    assert!(!result.type_table.is_empty(), "Type table should not be empty");
}

#[test]
fn test_variable_addresses_are_valid() {
    let result = test_arm(4).parse();

    for symbol in &result.symbols {
        if symbol.status.is_readable() {
            if let Some(addr) = symbol.status.address() {
                assert!(
                    addr >= 0x08000000 || addr == 0,
                    "Address should be in valid memory range: {:x}",
                    addr
                );
            }
        }
    }
}

#[test]
fn test_name_to_type_mapping() {
    let result = test_arm(4).parse();

    assert!(
        !result.name_to_type.is_empty(),
        "Should have name-to-type mappings"
    );
    for symbol in &result.symbols {
        assert!(
            result.type_of(&symbol.name).is_some()
                || symbol
                    .mangled_name
                    .as_ref()
                    .is_some_and(|n| result.type_of(n).is_some()),
            "Symbol {} should have type mapping",
            symbol.name
        );
    }
}

#[test]
fn test_diagnostics_accuracy() {
    let result = test_arm(4).parse();
    let diag = &result.diagnostics;

    let categorized = diag.with_valid_address
        + diag.optimized_out
        + diag.local_variables
        + diag.extern_declarations
        + diag.compile_time_constants
        + diag.no_location
        + diag.unresolved_types
        + diag.address_zero
        + diag.register_only
        + diag.implicit_value
        + diag.implicit_pointer
        + diag.multi_piece
        + diag.artificial;
    assert!(
        categorized <= diag.total_variables,
        "Categorized count should not exceed total"
    );
    assert!(
        diag.total_variables > 0,
        "Should have processed some variables"
    );
}

#[test]
fn test_parse_all_fixtures_without_panic() {
    for source in [test_arm(5), test_struct(), test_pointer(), test_complex_c(), test_cpp()] {
        let result = DwarfParser::parse_bytes(&source.elf());
        assert!(result.is_ok(), "Failed to parse: {:?}", result.err());
    }
}

#[test]
fn what_is_no_object_file_is_refused() {
    assert!(DwarfParser::parse_bytes(b"nothing of the kind").is_err());
    assert!(DwarfParser::parse_bytes(&[]).is_err());
}

#[test]
fn each_place_has_a_status() {
    let mut s = Source::new(4);
    let int = s.base("int", 4, dw::DW_ATE_signed);
    let root = s.root();

    let mut reg = Expression::new();
    reg.op_reg(Register(5));
    s.located("in_register", int, reg);

    let mut frame = Expression::new();
    frame.op_fbreg(-8);
    s.located("on_stack", int, frame);

    let mut value = Expression::new();
    value.op_constu(7);
    value.op(dw::DW_OP_stack_value);
    s.located("computed", int, value);

    let mut pieces = Expression::new();
    pieces.op_addr(Address::Constant(0x2000_0100));
    pieces.op_piece(2);
    pieces.op_reg(Register(1));
    pieces.op_piece(2);
    s.located("split", int, pieces);

    let mut plus = Expression::new();
    plus.op_addr(Address::Constant(0x2000_0000));
    plus.op_plus_uconst(0x10);
    s.located("offset", int, plus);

    let mut zero = Expression::new();
    zero.op_addr(Address::Constant(0));
    s.located("at_zero", int, zero);

    let gone = s.add(root, dw::DW_TAG_variable, "gone");
    s.typed(gone, int);

    let declared = s.add(root, dw::DW_TAG_variable, "elsewhere");
    s.typed(declared, int);
    s.set(declared, dw::DW_AT_external, AttributeValue::Flag(true));
    s.set(declared, dw::DW_AT_declaration, AttributeValue::Flag(true));

    let early = s.add(root, dw::DW_TAG_variable, "defined");
    s.typed(early, int);
    s.set(early, dw::DW_AT_declaration, AttributeValue::Flag(true));
    let mut place = Expression::new();
    place.op_addr(Address::Constant(0x2000_0080));
    let late = s.add(root, dw::DW_TAG_variable, "");
    s.set(late, dw::DW_AT_specification, AttributeValue::UnitRef(early));
    s.set(late, dw::DW_AT_location, AttributeValue::Exprloc(place));

    let constant = s.add(root, dw::DW_TAG_variable, "constant");
    s.typed(constant, int);
    s.set(constant, dw::DW_AT_const_value, AttributeValue::Sdata(-3));

    let result = s.parse();
    let status = |name: &str| -> &VariableStatus { &find(&result, name).expect(name).status };
    assert!(matches!(status("in_register"), VariableStatus::RegisterOnly { register: 5 }));
    assert!(matches!(status("on_stack"), VariableStatus::LocalVariable { .. }));
    assert!(matches!(status("computed"), VariableStatus::ImplicitValue));
    assert!(matches!(status("split"), VariableStatus::MultiPiece { has_address: true }));
    assert!(matches!(status("offset"), VariableStatus::Valid { address: 0x2000_0010 }));
    assert!(matches!(status("at_zero"), VariableStatus::AddressZero));
    assert!(matches!(status("gone"), VariableStatus::OptimizedOut));
    assert!(find(&result, "elsewhere").is_none(), "a declaration is no symbol");
    let defined = find(&result, "defined").unwrap();
    assert_eq!((defined.address, defined.size), (0x2000_0080, 4));
    assert!(matches!(status("constant"), VariableStatus::CompileTimeConstant { value: Some(-3) }));
    assert_eq!(result.diagnostics.register_only, 1);
    assert_eq!(result.diagnostics.multi_piece, 1);
}

#[test]
fn a_location_list_gives_its_first_address() {
    for version in [4, 5] {
        let mut s = Source::new(version);
        let int = s.base("int", 4, dw::DW_ATE_signed);
        let root = s.root();
        let mut place = Expression::new();
        place.op_addr(Address::Constant(0x2000_0040));
        let list = s.dwarf.unit.locations.add(LocationList(vec![Location::StartEnd {
            begin: Address::Constant(0x100),
            end: Address::Constant(0x200),
            data: place,
        }]));
        let id = s.add(root, dw::DW_TAG_variable, "moving");
        s.typed(id, int);
        s.set(id, dw::DW_AT_location, AttributeValue::LocationListRef(list));
        let result = s.parse();
        let moving = find(&result, "moving").unwrap();
        assert!(
            matches!(moving.status, VariableStatus::Valid { address: 0x2000_0040 }),
            "{:?}",
            moving.status
        );
    }
}

#[test]
fn a_rust_enum_has_variants_and_their_places() {
    let mut s = Source::new(4);
    let root = s.root();
    s.set(root, dw::DW_AT_language, AttributeValue::Language(dw::DW_LANG_Rust));
    s.set(root, dw::DW_AT_comp_dir, AttributeValue::String(b"/build".to_vec()));
    let line = LineEncoding::default();
    let encoding = s.dwarf.unit.encoding();
    let mut program = LineProgram::new(
        encoding,
        line,
        LineString::String(b"/build".to_vec()),
        None,
        LineString::String(b"main.rs".to_vec()),
        None,
    );
    let dir = program.default_directory();
    let file: FileId = program.add_file(LineString::String(b"lib.rs".to_vec()), dir, None);
    s.dwarf.unit.line_program = program;
    let u32_id = s.base("u32", 4, dw::DW_ATE_unsigned);
    let f32_id = s.base("f32", 4, dw::DW_ATE_float);
    let command = s.record(dw::DW_TAG_structure_type, "Command", 8);
    let part = s.add(command, dw::DW_TAG_variant_part, "");
    let tag = s.member(part, "", 0, u32_id);
    s.set(tag, dw::DW_AT_artificial, AttributeValue::Flag(true));
    s.set(part, dw::DW_AT_discr, AttributeValue::UnitRef(tag));
    for (name, value) in [("Stop", 0u8), ("Velocity", 1)] {
        let payload = s.record(dw::DW_TAG_structure_type, name, 8);
        s.member(payload, "__0", 4, f32_id);
        let variant = s.add(part, dw::DW_TAG_variant, "");
        s.set(variant, dw::DW_AT_discr_value, AttributeValue::Data1(value));
        let member = s.member(variant, name, 0, payload);
        s.set(member, dw::DW_AT_decl_file, AttributeValue::FileIndex(Some(file)));
        s.set(member, dw::DW_AT_decl_line, AttributeValue::Udata(12));
    }
    s.global("COMMAND", command, 0x2000_0000);
    let result = s.parse();
    let symbol = find(&result, "COMMAND").unwrap();
    assert!(result.type_table.is_rust(symbol.type_id));
    match result.type_table.get_resolved(symbol.type_id) {
        Some(TypeDef::Struct(d)) => {
            let part = d.variant_part.as_ref().expect("variants");
            assert_eq!(part.discriminant.as_ref().unwrap().type_id, result.type_table.get_underlying(part.discriminant.as_ref().unwrap().type_id));
            let names: Vec<(&str, Option<u64>)> = part
                .variants
                .iter()
                .map(|v| (v.member.name.as_str(), v.discr_value))
                .collect();
            assert_eq!(names, [("Stop", Some(0)), ("Velocity", Some(1))]);
            let at = part.variants[1].location.as_ref().expect("a place");
            assert_eq!(at.line, 12);
            assert!(at.file.ends_with("lib.rs"), "{}", at.file);
        }
        other => panic!("no enum: {other:?}"),
    }
}

#[test]
fn a_member_offset_may_be_an_expression() {
    let mut s = Source::new(2);
    let int = s.base("int", 4, dw::DW_ATE_signed);
    let record = s.record(dw::DW_TAG_structure_type, "R", 12);
    let member = s.add(record, dw::DW_TAG_member, "late");
    s.typed(member, int);
    let mut offset = Expression::new();
    offset.op_plus_uconst(8);
    s.set(
        member,
        dw::DW_AT_data_member_location,
        AttributeValue::Exprloc(offset),
    );
    s.global("r", record, 0x2000_0000);
    let result = s.parse();
    let members = result.type_table.get_members(find(&result, "r").unwrap().type_id).unwrap();
    assert_eq!(members[0].offset, 8);
}

#[test]
fn a_declaration_is_completed_by_the_definition() {
    let mut s = Source::new(4);
    let root = s.root();
    let int = s.base("int", 4, dw::DW_ATE_signed);
    let fwd = s.add(root, dw::DW_TAG_structure_type, "Node");
    s.set(fwd, dw::DW_AT_declaration, AttributeValue::Flag(true));
    let pointer = s.derived(dw::DW_TAG_pointer_type, fwd);
    let node = s.record(dw::DW_TAG_structure_type, "Node", 8);
    s.member(node, "data", 0, int);
    s.member(node, "next", 4, pointer);
    s.global("head", pointer, 0x2000_0000);
    let result = s.parse();
    let stats = result.type_table.stats();
    assert_eq!(stats.unresolved_forward_decls, 0);
    let head = find(&result, "head").unwrap();
    match result.type_table.get_resolved(head.type_id) {
        Some(TypeDef::Pointer(to)) => {
            assert_eq!(result.type_table.get_members(*to).unwrap().len(), 2);
        }
        other => panic!("no pointer: {other:?}"),
    }
}

#[test]
fn constants_are_those_of_the_format() {
    assert_eq!(die::AT_LOW_PC, dw::DW_AT_low_pc.0);
    assert_eq!(die::AT_COMP_DIR, dw::DW_AT_comp_dir.0);
    assert_eq!(die::TAG_ARRAY_TYPE, dw::DW_TAG_array_type.0);
    assert_eq!(die::TAG_CLASS_TYPE, dw::DW_TAG_class_type.0);
    assert_eq!(die::TAG_ENUMERATION_TYPE, dw::DW_TAG_enumeration_type.0);
    assert_eq!(die::TAG_MEMBER, dw::DW_TAG_member.0);
    assert_eq!(die::TAG_POINTER_TYPE, dw::DW_TAG_pointer_type.0);
    assert_eq!(die::TAG_REFERENCE_TYPE, dw::DW_TAG_reference_type.0);
    assert_eq!(die::TAG_STRUCTURE_TYPE, dw::DW_TAG_structure_type.0);
    assert_eq!(die::TAG_SUBROUTINE_TYPE, dw::DW_TAG_subroutine_type.0);
    assert_eq!(die::TAG_TYPEDEF, dw::DW_TAG_typedef.0);
    assert_eq!(die::TAG_UNION_TYPE, dw::DW_TAG_union_type.0);
    assert_eq!(die::TAG_VARIANT, dw::DW_TAG_variant.0);
    assert_eq!(die::TAG_INHERITANCE, dw::DW_TAG_inheritance.0);
    assert_eq!(die::TAG_SUBRANGE_TYPE, dw::DW_TAG_subrange_type.0);
    assert_eq!(die::TAG_BASE_TYPE, dw::DW_TAG_base_type.0);
    assert_eq!(die::TAG_CONST_TYPE, dw::DW_TAG_const_type.0);
    assert_eq!(die::TAG_ENUMERATOR, dw::DW_TAG_enumerator.0);
    assert_eq!(die::TAG_TEMPLATE_TYPE_PARAMETER, dw::DW_TAG_template_type_parameter.0);
    assert_eq!(die::TAG_TEMPLATE_VALUE_PARAMETER, dw::DW_TAG_template_value_parameter.0);
    assert_eq!(die::TAG_VARIANT_PART, dw::DW_TAG_variant_part.0);
    assert_eq!(die::TAG_VARIABLE, dw::DW_TAG_variable.0);
    assert_eq!(die::TAG_VOLATILE_TYPE, dw::DW_TAG_volatile_type.0);
    assert_eq!(die::TAG_RESTRICT_TYPE, dw::DW_TAG_restrict_type.0);
    assert_eq!(die::TAG_UNSPECIFIED_TYPE, dw::DW_TAG_unspecified_type.0);
    assert_eq!(die::TAG_RVALUE_REFERENCE_TYPE, dw::DW_TAG_rvalue_reference_type.0);
    assert_eq!(die::AT_LOCATION, dw::DW_AT_location.0);
    assert_eq!(die::AT_NAME, dw::DW_AT_name.0);
    assert_eq!(die::AT_BYTE_SIZE, dw::DW_AT_byte_size.0);
    assert_eq!(die::AT_BIT_OFFSET, dw::DW_AT_bit_offset.0);
    assert_eq!(die::AT_BIT_SIZE, dw::DW_AT_bit_size.0);
    assert_eq!(die::AT_DISCR, dw::DW_AT_discr.0);
    assert_eq!(die::AT_DISCR_VALUE, dw::DW_AT_discr_value.0);
    assert_eq!(die::AT_CONST_VALUE, dw::DW_AT_const_value.0);
    assert_eq!(die::AT_UPPER_BOUND, dw::DW_AT_upper_bound.0);
    assert_eq!(die::AT_ABSTRACT_ORIGIN, dw::DW_AT_abstract_origin.0);
    assert_eq!(die::AT_ARTIFICIAL, dw::DW_AT_artificial.0);
    assert_eq!(die::AT_COUNT, dw::DW_AT_count.0);
    assert_eq!(die::AT_DATA_MEMBER_LOCATION, dw::DW_AT_data_member_location.0);
    assert_eq!(die::AT_DECL_FILE, dw::DW_AT_decl_file.0);
    assert_eq!(die::AT_DECL_LINE, dw::DW_AT_decl_line.0);
    assert_eq!(die::AT_DECLARATION, dw::DW_AT_declaration.0);
    assert_eq!(die::AT_ENCODING, dw::DW_AT_encoding.0);
    assert_eq!(die::AT_EXTERNAL, dw::DW_AT_external.0);
    assert_eq!(die::AT_SPECIFICATION, dw::DW_AT_specification.0);
    assert_eq!(die::AT_TYPE, dw::DW_AT_type.0);
    assert_eq!(die::AT_VIRTUALITY, dw::DW_AT_virtuality.0);
    assert_eq!(die::AT_DATA_BIT_OFFSET, dw::DW_AT_data_bit_offset.0);
    assert_eq!(die::AT_ENUM_CLASS, dw::DW_AT_enum_class.0);
    assert_eq!(die::AT_LINKAGE_NAME, dw::DW_AT_linkage_name.0);
    assert_eq!(die::AT_MIPS_LINKAGE_NAME, dw::DW_AT_MIPS_linkage_name.0);
    assert_eq!(die::ENCODING_BOOLEAN, dw::DW_ATE_boolean.0);
    assert_eq!(die::ENCODING_FLOAT, dw::DW_ATE_float.0);
    assert_eq!(die::ENCODING_SIGNED, dw::DW_ATE_signed.0);
    assert_eq!(die::ENCODING_SIGNED_CHAR, dw::DW_ATE_signed_char.0);
    assert_eq!(die::ENCODING_UNSIGNED, dw::DW_ATE_unsigned.0);
    assert_eq!(die::ENCODING_UNSIGNED_CHAR, dw::DW_ATE_unsigned_char.0);
    assert_eq!(die::ENCODING_UTF, dw::DW_ATE_UTF.0);
    assert_eq!(die::LANGUAGE_RUST, dw::DW_LANG_Rust.0);
}

#[test]
fn texts_end_at_a_zero_byte_and_paths_join() {
    assert_eq!(text_at(b"abc\0def\0", 4).as_deref(), Some("def"));
    assert_eq!(text_at(b"abc", 1), None);
    assert_eq!(text_at(b"abc\0", 9), None);
    assert_eq!(join_path("lib.rs", Some("src")), "src/lib.rs");
    assert_eq!(join_path("/abs/lib.rs", Some("src")), "/abs/lib.rs");
    assert_eq!(join_path("lib.rs", None), "lib.rs");
}

#[test]
fn a_variable_whose_type_is_not_there_is_counted_once() {
    let mut s = test_arm(4);
    let root = s.root();
    let no_type = s.add(root, dw::DW_TAG_label, "label");
    let id = s.add(root, dw::DW_TAG_variable, "untyped");
    s.typed(id, no_type);
    let mut place = Expression::new();
    place.op_addr(Address::Constant(0x2000_0200));
    s.set(id, dw::DW_AT_location, AttributeValue::Exprloc(place));
    let diag = s.parse().diagnostics;
    let categorized = diag.with_valid_address
        + diag.optimized_out
        + diag.local_variables
        + diag.extern_declarations
        + diag.compile_time_constants
        + diag.no_location
        + diag.unresolved_types
        + diag.address_zero
        + diag.register_only
        + diag.implicit_value
        + diag.implicit_pointer
        + diag.multi_piece
        + diag.artificial;
    assert_eq!(categorized, diag.total_variables);
    assert_eq!(diag.unresolved_types, 1);
}

#[test]
fn units_are_read_one_after_the_other() {
    let bytes = test_arm(5).elf();
    let whole = DwarfParser::parse_bytes(&bytes).unwrap();
    let sections = load_sections(&bytes, true);
    let units = load_units(&sections).unwrap();
    let mut parser = DwarfParser::new();
    for (i, unit) in units.iter().enumerate() {
        parser.parse_unit(unit, i);
    }
    let result = parser.finish();
    let shown = |r: &DwarfParseResult| -> Vec<(String, u64, u64)> {
        r.symbols.iter().map(|s| (s.name.clone(), s.address, s.size)).collect()
    };
    assert_eq!(shown(&result), shown(&whole));
    assert_eq!(result.diagnostics.total_variables, whole.diagnostics.total_variables);
    assert!(result.diagnostics.with_valid_address <= result.diagnostics.total_variables);
    let nothing = DwarfParser::new().finish();
    assert!(nothing.symbols.is_empty());
    assert_eq!(nothing.diagnostics.total_variables, 0);
}
