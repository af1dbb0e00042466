use std::sync::Arc;
use tuning_studio::browse::{
    children, children_page, metadata_node, node, node_with_memory, roots, summary, Children,
    Progress,
};
use tuning_studio::elf::{ElfInfo, SymbolInfo, TaskStorage};
use tuning_studio::leaves::{read_item, scalar_len, watchable_leaves};
use tuning_studio::node_ref::{NodeRef, Step, TreeError};
use tuning_studio::preview::{preview, word};
use tuning_studio::tree::{NodeKind, Source};
use tuning_studio::type_def::{
    EnumDef, EnumVariant, MemberDef, PrimitiveDef, StructDef, TypeDef, TypeId, VariantDef,
    VariantPart,
};
use tuning_studio::type_table::TypeTable;
use tuning_studio::variable_status::{DwarfDiagnostics, VariableStatus};
use tuning_studio::variable_type::VariableType;
use tuning_studio::wrappers::{is_internal, split_path};

const GIMBAL: &str = "rust_fixture::control::GIMBAL";
const SAMPLES: &str = "rust_fixture::telemetry::SAMPLES";

struct Build {
    types: TypeTable,
    symbols: Vec<SymbolInfo>,
}

impl Build {
    fn new() -> Self {
        Build {
            types: TypeTable::new(),
            symbols: Vec::new(),
        }
    }

    fn primitive(&mut self, def: PrimitiveDef, name: &str) -> TypeId {
        let id = self.types.insert(TypeDef::Primitive(def));
        self.types.set_source_name(id, name.to_string());
        id
    }

    fn record(&mut self, name: &str, size: u64, members: &[(&str, u64, TypeId)]) -> TypeId {
        let mut s = StructDef::new(Some(name.to_string()), size, false);
        for (name, at, ty) in members {
            s.members.push(MemberDef::new(name.to_string(), *at, *ty));
        }
        self.types.insert(TypeDef::Struct(s))
    }

    fn tagged(
        &mut self,
        name: &str,
        size: u64,
        tag: TypeId,
        variants: &[(&str, Option<u64>, TypeId)],
    ) -> TypeId {
        let mut s = StructDef::new(Some(name.to_string()), size, false);
        s.variant_part = Some(VariantPart {
            discriminant: Some(MemberDef::new(String::new(), 0, tag)),
            variants: variants
                .iter()
                .map(|(name, discr, ty)| VariantDef {
                    discr_value: *discr,
                    member: MemberDef::new(name.to_string(), 0, *ty),
                    location: None,
                })
                .collect(),
        });
        self.types.insert(TypeDef::Struct(s))
    }

    fn array(&mut self, element: TypeId, count: u64) -> TypeId {
        self.types.insert(TypeDef::Array {
            element,
            count: Some(count),
        })
    }

    fn symbol(&mut self, path: &str, address: u64, section: &str, type_id: Option<TypeId>) {
        self.symbols.push(SymbolInfo {
            demangled_name: path.to_string(),
            display_name: path.rsplit("::").next().unwrap().to_string(),
            address,
            size: type_id
                .and_then(|id| self.types.type_size(id))
                .unwrap_or(0),
            is_function: false,
            section: section.to_string(),
            writable: section == ".bss" || section == ".data",
            type_id,
            status: VariableStatus::Valid { address },
            task_storage: None,
        });
    }

    fn elf(self) -> ElfInfo {
        ElfInfo {
            path: "fixture.elf".to_string(),
            machine: "ARM".to_string(),
            is_64bit: false,
            is_little_endian: true,
            entry_point: 0x0800_0000,
            symbols: self.symbols,
            types: Arc::new(self.types),
            diagnostics: DwarfDiagnostics::default(),
        }
    }
}

/// `GIMBAL` is `Shared<Gimbal<4>>`, a newtype over `UnsafeCell`
fn rust() -> ElfInfo {
    let mut b = Build::new();
    let f32_id = b.primitive(PrimitiveDef::Float, "f32");
    let u32_id = b.primitive(PrimitiveDef::UnsignedInt, "u32");
    let u16_id = b.primitive(PrimitiveDef::UnsignedShort, "u16");
    let void = b.types.insert(TypeDef::Void);
    let axis = b.record("Axis", 12, &[("angle", 0, f32_id), ("rate", 4, f32_id), ("kp", 8, f32_id)]);
    let mut mode = EnumDef::new(Some("Mode".to_string()), 1, true);
    for (i, name) in ["Idle", "Track"].iter().enumerate() {
        mode.variants.push(EnumVariant {
            name: name.to_string(),
            value: i as i64,
        });
    }
    let mode = b.types.insert(TypeDef::Enum(mode));
    let stop = b.record("Stop", 8, &[]);
    let velocity = b.record("Velocity", 8, &[("__0", 4, f32_id)]);
    let position = b.record("Position", 8, &[("target", 4, f32_id)]);
    let command = b.tagged(
        "Command",
        8,
        u32_id,
        &[
            ("Stop", Some(0), stop),
            ("Velocity", Some(1), velocity),
            ("Position", Some(2), position),
        ],
    );
    let history = b.array(f32_id, 4);
    let pair = b.record("(f32, f32)", 8, &[("__0", 0, f32_id), ("__1", 4, f32_id)]);
    let gimbal = b.record(
        "Gimbal<4>",
        72,
        &[
            ("command", 0, command),
            ("pitch", 8, axis),
            ("yaw", 20, axis),
            ("history", 32, history),
            ("offset", 48, pair),
            ("last_fault", 56, u32_id),
            ("mode", 60, mode),
        ],
    );
    let cell = b.record("UnsafeCell<Gimbal<4>>", 72, &[("value", 0, gimbal)]);
    let shared = b.record("Shared<Gimbal<4>>", 72, &[("__0", 0, cell)]);
    let u32_cell = b.record("UnsafeCell<u32>", 4, &[("value", 0, u32_id)]);
    let atomic = b.record("Atomic<u32>", 4, &[("v", 0, u32_cell)]);
    let samples = b.array(u16_id, 8);
    let pointer = b.types.insert(TypeDef::Pointer(void));
    b.symbol(GIMBAL, 0x2000_0000, ".bss", Some(shared));
    b.symbol(SAMPLES, 0x2000_0100, ".bss", Some(samples));
    b.symbol("rust_fixture::telemetry::TX_FRAMES", 0x2000_0110, ".bss", Some(atomic));
    b.symbol("rust_fixture::RESET_VECTOR", 0x0800_0004, ".vector_table", Some(pointer));
    b.elf()
}

fn gimbal_value() -> NodeRef {
    NodeRef::root(GIMBAL)
}

fn member(name: &str) -> Step {
    Step::Member(name.to_string())
}

fn labels(c: &Children) -> Vec<&str> {
    c.nodes.iter().map(|n| n.label.as_str()).collect()
}

#[test]
fn split_path_respects_generics_and_qualified_paths() {
    assert_eq!(split_path("a::b::C"), ["a", "b", "C"]);
    assert_eq!(split_path("C_COUNTER"), ["C_COUNTER"]);
    assert_eq!(
        split_path("<embassy_stm32::usart::UART5 as embassy_stm32::usart::SealedInstance>::state::STATE"),
        [
            "<embassy_stm32::usart::UART5 as embassy_stm32::usart::SealedInstance>",
            "state",
            "STATE"
        ]
    );
    assert_eq!(
        split_path("m::f::<u8, [u8; 2]>::X"),
        ["m", "f", "<u8, [u8; 2]>", "X"]
    );
}

#[test]
fn segments_make_the_path() {
    for path in ["a::b::C", "m::f::<u8, [u8; 2]>::X", "", "a", ":::", "a::"] {
        assert_eq!(split_path(path).join("::"), path);
    }
}

#[test]
fn roots_list_typed_statics_with_segments() {
    let elf = rust();
    let roots = roots(&elf);
    let samples = roots
        .iter()
        .find(|r| r.node.path == "rust_fixture::telemetry::SAMPLES")
        .unwrap();
    assert_eq!(samples.segments, ["rust_fixture", "telemetry", "SAMPLES"]);
    assert_eq!(samples.node.label, "SAMPLES");
    assert_eq!(samples.node.kind, NodeKind::Array);
    assert_eq!(samples.node.child_count, Some(8));
    assert!(!samples.read_only);

    let reset = roots
        .iter()
        .find(|r| r.node.label == "RESET_VECTOR")
        .unwrap();
    assert!(reset.read_only, "section {}", reset.section);
    assert_eq!(reset.node.kind, NodeKind::Pointer);
}

#[test]
fn walk_struct_members_down_to_scalars() {
    let elf = rust();
    let sym_addr = elf.find_symbol(GIMBAL).unwrap().address;
    let fields = children(&elf, &gimbal_value(), None).unwrap();
    let mut sorted = labels(&fields);
    sorted.sort();
    assert_eq!(
        sorted,
        [
            "command",
            "history",
            "last_fault",
            "mode",
            "offset",
            "pitch",
            "yaw"
        ]
    );

    let kp_ref = gimbal_value().child(member("yaw")).child(member("kp"));
    let kp = node(&elf, &kp_ref).unwrap();
    assert_eq!(kp.path, "rust_fixture::control::GIMBAL.yaw.kp");
    assert_eq!(kp.kind, NodeKind::Scalar);
    assert_eq!(kp.scalar, Some(VariableType::F32));
    assert_eq!(kp.address, sym_addr + 28);
    assert!(!kp.expandable);

    let mode = node(&elf, &gimbal_value().child(member("mode"))).unwrap();
    assert_eq!(mode.kind, NodeKind::Enum);
    assert_eq!(mode.scalar, Some(VariableType::U8));
}

#[test]
fn arrays_index_and_truncate() {
    let elf = rust();
    let samples = NodeRef::root("rust_fixture::telemetry::SAMPLES");
    let base = elf.find_symbol(&samples.symbol).unwrap().address;

    let all = children(&elf, &samples, None).unwrap();
    assert_eq!(all.total, 8);
    assert_eq!(all.nodes[3].path, "rust_fixture::telemetry::SAMPLES[3]");
    assert_eq!(all.nodes[3].address, base + 6);
    assert_eq!(all.nodes[3].type_text, "u16");

    let some = children(&elf, &samples, Some(2)).unwrap();
    assert_eq!((some.nodes.len(), some.total), (2, 8));

    let out = node(&elf, &samples.child(Step::Index(8)));
    assert!(matches!(out, Err(TreeError::BadStep { .. })), "{out:?}");
}

#[test]
fn tagged_enum_children_are_discriminant_then_variants() {
    let elf = rust();
    let command = gimbal_value().child(member("command"));
    let text = command.to_text();
    let c = node(&elf, &command).unwrap();
    assert_eq!(c.kind, NodeKind::TaggedEnum);
    assert_eq!(c.child_count, Some(4));

    let kids = children(&elf, &command, None).unwrap();
    assert_eq!(
        labels(&kids),
        ["<discriminant>", "Stop", "Velocity", "Position"]
    );
    assert_eq!(kids.nodes[0].scalar, Some(VariableType::U32));
    assert_eq!(kids.nodes[0].path, format!("{text}#<discriminant>"));
    assert_eq!(kids.nodes[3].discr_value, Some(2));

    let target = command
        .child(Step::Variant("Position".into()))
        .child(member("target"));
    let t = node(&elf, &target).unwrap();
    assert_eq!(t.path, format!("{text}#Position.target"));
    assert_eq!(t.address, c.address + 4);
    assert_eq!(t.scalar, Some(VariableType::F32));
}

#[test]
fn bad_references_are_errors() {
    let elf = rust();
    assert!(matches!(
        node(&elf, &NodeRef::root("nope")).unwrap_err(),
        TreeError::SymbolNotFound(name) if name == "nope"
    ));
    let err = node(&elf, &gimbal_value().child(member("roll"))).unwrap_err();
    assert_eq!(
        err.to_text(),
        "cannot step into rust_fixture::control::GIMBAL: no member `roll`"
    );
}

#[test]
fn wrappers_are_shown_through() {
    let elf = rust();
    let roots = roots(&elf);
    let root = |path: &str| roots.iter().find(|r| r.node.path == path).unwrap();

    let frames = root("rust_fixture::telemetry::TX_FRAMES");
    assert_eq!(frames.node.kind, NodeKind::Scalar);
    assert_eq!(frames.node.scalar, Some(VariableType::U32));
    assert_eq!(frames.node.type_text, "u32");
    assert!(frames.node.wrapper.as_deref().unwrap().contains("Atomic"));
    assert!(!frames.node.expandable);

    let gimbal = root(GIMBAL);
    assert_eq!(gimbal.node.type_text, "Gimbal<4>");
    assert!(gimbal
        .node
        .wrapper
        .as_deref()
        .unwrap()
        .starts_with("Shared<"));

    // A plain struct has no wrapper
    let yaw = node(&elf, &gimbal_value().child(member("yaw"))).unwrap();
    assert_eq!(yaw.wrapper, None);
}

#[test]
fn references_through_a_wrapper_still_resolve() {
    let elf = rust();
    let kp = gimbal_value().child(member("yaw")).child(member("kp"));
    let spelled_out = NodeRef::root(GIMBAL)
        .child(member("__0"))
        .child(member("value"))
        .child(member("yaw"))
        .child(member("kp"));
    let short = node(&elf, &kp).unwrap();
    let long = node(&elf, &spelled_out).unwrap();
    assert_eq!((long.address, long.scalar), (short.address, short.scalar));

    // Stopping on a wrapper member gives the value inside it
    let cell = node(&elf, &NodeRef::root(GIMBAL).child(member("__0"))).unwrap();
    assert_eq!(cell.type_text, "Gimbal<4>");
}

#[test]
fn runtime_statics_are_internal() {
    assert!(is_internal(
        "sentry::led_task::POOL",
        ".bss",
        "TaskPoolHolder<104, 8>"
    ));
    assert!(is_internal(
        "app::CAN3_BUFFERS",
        ".bss",
        "StaticCell<bsp::FdCanBuffers>"
    ));
    assert!(is_internal(
        "_SEGGER_RTT",
        ".rtt",
        "MaybeUninit<RttControlBlock>"
    ));
    assert!(is_internal(
        "hal::rtt::init::_RTT_CHANNEL_BUFFER",
        ".rtt",
        "MaybeUninit<[u8; 512]>"
    ));
    assert!(is_internal("embassy_stm32::dma::STATE", ".bss", "State"));
    assert!(is_internal(
        "<embassy_stm32::_generated::peripherals::UART5 as embassy_stm32::usart::SealedInstance>::state::STATE",
        ".bss",
        "State"
    ));
    assert!(!is_internal(
        "app::transport::DR16_ERRORS",
        ".bss",
        "Atomic<u32>"
    ));
    assert!(!is_internal(
        "app::TELEMETRY",
        ".bss",
        "Signal<CriticalSectionRawMutex, Telemetry>"
    ));

    let elf = rust();
    assert!(roots(&elf).iter().all(|r| !r.internal));
}

#[test]
fn c_structs_browse_the_same_way() {
    let mut b = Build::new();
    let uint = b.primitive(PrimitiveDef::UnsignedInt, "unsigned int");
    let int = b.primitive(PrimitiveDef::Int, "int");
    let float = b.primitive(PrimitiveDef::Float, "float");
    let byte = b.primitive(PrimitiveDef::UnsignedChar, "unsigned char");
    let sensor = b.record("SensorData", 12, &[("x", 0, int), ("y", 4, int), ("value", 8, float)]);
    let config = b.record(
        "DeviceConfig",
        20,
        &[("id", 0, uint), ("sensor", 4, sensor), ("enabled", 16, byte)],
    );
    b.symbol("device_config", 0x2000_0010, ".data", Some(config));
    let elf = b.elf();
    let cfg = NodeRef::root("device_config");
    let kids = children(&elf, &cfg, None).unwrap();
    assert_eq!(labels(&kids), ["id", "sensor", "enabled"]);
    let value = node(&elf, &cfg.child(member("sensor")).child(member("value"))).unwrap();
    assert_eq!(value.scalar, Some(VariableType::F32));
    assert_eq!(
        value.address,
        elf.find_symbol("device_config").unwrap().address + 12
    );
}

/// Pointers, a slice, a string and a task pool.
fn live() -> ElfInfo {
    let mut b = Build::new();
    let u32_id = b.primitive(PrimitiveDef::UnsignedInt, "u32");
    let u8_id = b.primitive(PrimitiveDef::UnsignedChar, "u8");
    let chr = b.primitive(PrimitiveDef::UnicodeChar { size: 4 }, "char");
    let to_u32 = b.types.insert(TypeDef::Pointer(u32_id));
    let to_ptr = b.types.insert(TypeDef::Pointer(to_u32));
    let to_u8 = b.types.insert(TypeDef::Pointer(u8_id));
    let slice = b.record("&[u32]", 8, &[("data_ptr", 0, to_u32), ("length", 4, u32_id)]);
    let text = b.record("&str", 8, &[("data_ptr", 0, to_u8), ("length", 4, u32_id)]);
    b.types.mark_rust(slice);
    b.types.mark_rust(text);
    let some = b.record("Some", 8, &[("__0", 4, u32_id)]);
    let none = b.record("None", 8, &[]);
    let option = b.tagged("Option<u32>", 8, u32_id, &[("None", Some(0), none), ("Some", Some(1), some)]);
    let slot = b.record("TaskStorage", 16, &[("state", 0, u32_id), ("count", 8, u32_id)]);
    let pool = b.array(u8_id, 32);
    b.symbol("target_value", 0x2000_0000, ".bss", Some(u32_id));
    b.symbol("data_ptr", 0x2000_0004, ".bss", Some(to_u32));
    b.symbol("double_ptr", 0x2000_0008, ".bss", Some(to_ptr));
    b.symbol("LIST", 0x2000_0010, ".bss", Some(slice));
    b.symbol("NAME", 0x2000_0018, ".bss", Some(text));
    b.symbol("MAYBE", 0x2000_0020, ".bss", Some(option));
    b.symbol("LETTER", 0x2000_0028, ".bss", Some(chr));
    b.symbol("POOL", 0x2000_0100, ".bss", Some(pool));
    b.symbol("UNTYPED", 0x2000_0200, ".bss", None);
    let last = b.symbols.len() - 2;
    b.symbols[last].task_storage = Some(TaskStorage {
        type_id: slot,
        size: 16,
        slots: 2,
    });
    b.elf()
}

#[test]
fn pointers_are_followed_with_the_words_that_were_read() {
    let elf = live();
    let at = NodeRef::root("double_ptr").child(Step::Deref).child(Step::Deref);
    assert!(node(&elf, &at).is_err(), "not without live memory");
    assert!(matches!(
        node_with_memory(&elf, &at, &[]),
        Progress::Read { address: 0x2000_0008, size: 4 }
    ));
    assert!(matches!(
        node_with_memory(&elf, &at, &[Ok(0x2000_0004)]),
        Progress::Read { address: 0x2000_0004, size: 4 }
    ));
    match node_with_memory(&elf, &at, &[Ok(0x2000_0004), Ok(0x2000_0000)]) {
        Progress::Done(Ok(n)) => assert_eq!((n.address, n.path.as_str()), (0x2000_0000, "double_ptr.*.*")),
        other => panic!("{other:?}"),
    }
    match node_with_memory(&elf, &at, &[Ok(0)]) {
        Progress::Done(Err(e)) => assert!(e.to_text().contains("null pointer")),
        other => panic!("{other:?}"),
    }
    let mut deep = NodeRef::root("double_ptr");
    for _ in 0..9 {
        deep = deep.child(Step::Deref);
    }
    assert!(children(&elf, &deep, None)
        .unwrap_err()
        .to_text()
        .contains("depth limit"));
}

#[test]
fn slices_are_paged() {
    let elf = live();
    let list = NodeRef::root("LIST");
    let words = [Ok(3), Ok(0x2000_1000)];
    let page = children_page(&elf, &list, 1, 5, &Source::Answers(&words), true);
    match page {
        Progress::Done(Ok(c)) => {
            assert_eq!(c.total, 3);
            assert_eq!(labels(&c), ["[1]", "[2]"]);
            assert_eq!(c.nodes[0].address, 0x2000_1004);
        }
        other => panic!("{other:?}"),
    }
    let out = node_with_memory(&elf, &list.child(Step::SliceIndex(3)), &words);
    assert!(matches!(out, Progress::Done(Err(_))), "{out:?}");
}

#[test]
fn task_slots_are_read_as_the_task() {
    let elf = live();
    let slot = NodeRef::root("POOL").child(Step::Task(1));
    let n = node(&elf, &slot.child(member("count"))).unwrap();
    assert_eq!(n.address, 0x2000_0100 + 16 + 8);
    assert!(node(&elf, &NodeRef::root("POOL").child(Step::Task(2))).is_err());
    assert!(matches!(
        node(&elf, &NodeRef::root("UNTYPED")).unwrap_err(),
        TreeError::Untyped { .. }
    ));
    assert_eq!(metadata_node(&elf, &NodeRef::root("data_ptr")).unwrap().kind, NodeKind::Pointer);
}

fn text_of(p: Progress<Result<Option<tuning_studio::preview::Preview>, String>>) -> String {
    match p {
        Progress::Done(Ok(Some(p))) => p.text,
        other => format!("{other:?}"),
    }
}

#[test]
fn previews_show_strings_variants_and_letters() {
    let elf = live();
    let name = NodeRef::root("NAME");
    let bytes = [
        Ok(5u32.to_le_bytes().to_vec()),
        Ok(0x2000_1000u32.to_le_bytes().to_vec()),
        Ok(b"say\"x".to_vec()),
    ];
    assert!(text_of(preview(&elf, &name, &bytes)).contains("\"say\\\"x\""));
    let maybe = NodeRef::root("MAYBE");
    match preview(&elf, &maybe, &[Ok(1u32.to_le_bytes().to_vec())]) {
        Progress::Done(Ok(Some(p))) => {
            assert_eq!(p.active_variant.as_deref(), Some("Some"));
            assert_eq!(p.text, "Some");
        }
        other => panic!("{other:?}"),
    }
    let letter = NodeRef::root("LETTER");
    assert_eq!(
        text_of(preview(&elf, &letter, &[Ok(0x41u32.to_le_bytes().to_vec())])),
        "'A' (U+0041)"
    );
    match preview(&elf, &letter, &[Ok(0xd800u32.to_le_bytes().to_vec())]) {
        Progress::Done(Err(e)) => assert_eq!(e, "invalid character"),
        other => panic!("{other:?}"),
    }
    assert_eq!(word(true, &[1, 2]), Ok(0x0201));
    assert_eq!(word(false, &[1, 2]), Ok(0x0102));
    assert_eq!(word(true, &[]).unwrap_err(), "unsupported word size");
}

#[test]
fn the_summary_counts() {
    let s = summary(&rust());
    assert_eq!((s.variables, s.functions), (4, 0));
    assert_eq!((s.machine.as_str(), s.little_endian, s.is_64bit), ("ARM", true, false));
}

#[test]
fn leaves_are_the_numbers_below() {
    let elf = rust();
    let found = watchable_leaves(&elf, &gimbal_value()).unwrap();
    let paths: Vec<&str> = found
        .iter()
        .map(|n| n.path.strip_prefix("rust_fixture::control::GIMBAL").unwrap())
        .collect();
    assert_eq!(
        paths,
        [
            "#<discriminant>",
            ".pitch.angle",
            ".pitch.rate",
            ".pitch.kp",
            ".yaw.angle",
            ".yaw.rate",
            ".yaw.kp",
            ".history[0]",
            ".history[1]",
            ".history[2]",
            ".history[3]",
            ".offset.__0",
            ".offset.__1",
            ".last_fault",
            ".mode"
        ]
        .iter()
        .map(|p| if *p == "#<discriminant>" { ".command#<discriminant>" } else { p })
        .collect::<Vec<_>>()
    );
    assert_eq!(scalar_len(VariableType::U16), Some(2));
    assert_eq!(scalar_len(VariableType::Raw(3)), None);
    let whole = node(&elf, &gimbal_value()).unwrap();
    assert_eq!(read_item(whole).unwrap_err(), "Gimbal<4> is not a single number");
}

fn children_lead_to_themselves(elf: &ElfInfo, at: &NodeRef, depth: usize) -> usize {
    let mut seen = 0;
    for child in children(elf, at, None).unwrap().nodes {
        if matches!(child.node.steps.last(), Some(Step::Deref)) {
            continue;
        }
        let found = node(elf, &child.node).unwrap();
        assert_eq!(found.address, child.address, "{}", child.path);
        assert_eq!(found.path, child.path);
        assert_eq!(found.kind, child.kind);
        assert_eq!(found.type_text, child.type_text);
        assert_eq!(found.discr_value, child.discr_value);
        seen += 1;
        if depth > 0 {
            seen += children_lead_to_themselves(elf, &child.node, depth - 1);
        }
    }
    seen
}

#[test]
fn the_reference_of_a_child_leads_to_it() {
    let elf = rust();
    assert!(children_lead_to_themselves(&elf, &gimbal_value(), 4) > 10);
    assert_eq!(children_lead_to_themselves(&elf, &NodeRef::root(SAMPLES), 0), 8);
    assert!(children_lead_to_themselves(&live(), &NodeRef::root("MAYBE"), 1) >= 3);
}

#[test]
fn live_steps_are_checked() {
    let elf = live();
    let refused = |at: &NodeRef, words: &[Result<u64, String>], why: &str| {
        match node_with_memory(&elf, at, words) {
            Progress::Done(Err(e)) => assert!(e.to_text().contains(why), "{}", e.to_text()),
            other => panic!("{other:?}"),
        }
    };
    let list = NodeRef::root("LIST").child(Step::SliceIndex(3));
    refused(&list, &[Ok(3)], "slice index out of bounds");
    refused(&list, &[Ok(4), Ok(0)], "null slice pointer");
    match node_with_memory(&elf, &list, &[Ok(4), Ok(0x2000_1000)]) {
        Progress::Done(Ok(n)) => assert_eq!(n.address, 0x2000_100c),
        other => panic!("{other:?}"),
    }
    let some = NodeRef::root("MAYBE").child(Step::Variant("Some".to_string()));
    refused(&some, &[Ok(0)], "inactive variant");
    match node_with_memory(&elf, &some, &[Ok(1)]) {
        Progress::Done(Ok(n)) => assert_eq!(n.discr_value, Some(1)),
        other => panic!("{other:?}"),
    }
}

#[test]
fn string_previews_are_cut_off() {
    let elf = live();
    let name = NodeRef::root("NAME");
    let mut answers = vec![
        Ok(1000u32.to_le_bytes().to_vec()),
        Ok(0x2000_1000u32.to_le_bytes().to_vec()),
    ];
    assert!(matches!(
        preview(&elf, &name, &answers),
        Progress::Read { address: 0x2000_1000, size: 256 }
    ));
    answers.push(Ok(vec![b'a'; 256]));
    let text = text_of(preview(&elf, &name, &answers));
    assert!(text.ends_with("\"… (truncated)"), "{text}");
}

#[test]
fn pointers_to_nothing_that_can_be_shown_have_no_children() {
    let mut b = Build::new();
    let u32_id = b.primitive(PrimitiveDef::UnsignedInt, "u32");
    let void = b.types.insert(TypeDef::Void);
    let function = b.types.insert(TypeDef::Subroutine {
        return_type: None,
        params: Vec::new(),
    });
    let to_void = b.types.insert(TypeDef::Pointer(void));
    let to_function = b.types.insert(TypeDef::Pointer(function));
    let to_number = b.types.insert(TypeDef::Pointer(u32_id));
    b.symbol("CONTEXT", 0x2000_0000, ".bss", Some(to_void));
    b.symbol("CALLBACK", 0x2000_0004, ".bss", Some(to_function));
    b.symbol("NUMBER", 0x2000_0008, ".bss", Some(to_number));
    let elf = b.elf();
    for name in ["CONTEXT", "CALLBACK"] {
        let n = node(&elf, &NodeRef::root(name)).unwrap();
        assert_eq!(n.kind, NodeKind::Pointer);
        assert_eq!((n.child_count, n.expandable), (None, false), "{name}");
        let kids = children(&elf, &NodeRef::root(name), None).unwrap();
        assert_eq!((kids.nodes.len(), kids.total), (0, 0), "{name}");
    }
    let n = node(&elf, &NodeRef::root("NUMBER")).unwrap();
    assert_eq!((n.child_count, n.expandable), (Some(1), true));
    assert_eq!(children(&elf, &NodeRef::root("NUMBER"), None).unwrap().total, 1);
}

#[test]
fn children_are_counted_and_limited() {
    let mut b = Build::new();
    let u8_id = b.primitive(PrimitiveDef::UnsignedChar, "u8");
    let long = b.array(u8_id, 5000);
    b.symbol("LONG", 0x2000_0000, ".bss", Some(long));
    let elf = b.elf();
    let at = NodeRef::root("LONG");
    assert_eq!(node(&elf, &at).unwrap().child_count, Some(5000));
    for (limit, shown) in [(10, 10), (4096, 4096), (4097, 4096), (usize::MAX, 4096)] {
        let kids = children(&elf, &at, Some(limit)).unwrap();
        assert_eq!((kids.nodes.len(), kids.total), (shown, 5000));
        assert_eq!(kids.nodes[9].label, "[9]");
    }
}

#[test]
fn a_path_is_cut_outside_brackets_only() {
    assert_eq!(split_path("a::b<c::d>::e"), ["a", "b<c::d>", "e"]);
    assert_eq!(split_path("<x::Y as z::W>::f::{closure}"), ["<x::Y as z::W>", "f", "{closure}"]);
    assert_eq!(split_path("f(a::b)::[c::d; 2]"), ["f(a::b)", "[c::d; 2]"]);
    assert_eq!(split_path(""), [""]);
    assert_eq!(split_path("::"), ["", ""]);
}
