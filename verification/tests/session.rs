use std::sync::Arc;
use tuning_studio::app::{StudioApp, TaskStatus};
use tuning_studio::catalog::{Access, Catalog, CatalogEntry, CellKind, ReadItem};
use tuning_studio::connect::{
    counters_outcome, deal, plan_connect, read_outcome, request_outcome, task_regions,
    tunable_names, Carrier, Changes, ConnectPlan, ConnectRequest, Probe, Reply, Watches,
};
use tuning_studio::elf::{ElfInfo, SymbolInfo};
use tuning_studio::node_ref::{NodeRef, Step};
use tuning_studio::session::{
    exact_integer, plan_watches, search_chips, short_name, watch_meta, WatchRequest,
};
use tuning_studio::type_def::{
    MemberDef, PrimitiveDef, StructDef, TypeDef, VariantDef, VariantPart,
};
use tuning_studio::type_table::TypeTable;
use tuning_studio::values::{lone_value, pointer_from, span_bytes, ValueReads, ValueRead};
use tuning_studio::variable_status::{DwarfDiagnostics, VariableStatus};
use tuning_studio::variable_type::VariableType;

#[test]
fn integer_text_preserves_all_64_bits() {
    let mut item = ReadItem {
        id: 0,
        address: 0,
        scalar: VariableType::U64,
        bit_offset: None,
        bit_size: None,
    };
    assert_eq!(
        exact_integer(&item, &u64::MAX.to_le_bytes()).as_deref(),
        Some("18446744073709551615")
    );
    item.scalar = VariableType::I64;
    assert_eq!(
        exact_integer(&item, &i64::MIN.to_le_bytes()).as_deref(),
        Some("-9223372036854775808")
    );
    assert_eq!(exact_integer(&item, &[]), None);
}

fn symbol(name: &str, address: u64, type_id: tuning_studio::type_def::TypeId) -> SymbolInfo {
    SymbolInfo {
        demangled_name: name.to_string(),
        display_name: name.to_string(),
        address,
        size: 4,
        is_function: false,
        section: ".bss".to_string(),
        writable: true,
        type_id: Some(type_id),
        status: VariableStatus::Valid { address },
        task_storage: None,
    }
}

fn elf() -> ElfInfo {
    let mut t = TypeTable::new();
    let uint = t.insert(TypeDef::Primitive(PrimitiveDef::UnsignedInt));
    let float = t.insert(TypeDef::Primitive(PrimitiveDef::Float));
    let pointer = t.insert(TypeDef::Pointer(uint));
    let double = t.insert(TypeDef::Pointer(pointer));
    ElfInfo {
        path: "fw.elf".to_string(),
        machine: "ARM".to_string(),
        is_64bit: false,
        is_little_endian: true,
        entry_point: 0,
        symbols: vec![
            symbol("global_counter", 0x2000_0004, uint),
            symbol("sensor_data", 0x2000_0008, float),
            symbol("target_value", 0x2000_0020, uint),
            symbol("data_ptr", 0x2000_0024, pointer),
            symbol("double_ptr", 0x2000_0028, double),
            symbol("null_ptr", 0x2000_002c, pointer),
            symbol("_SEGGER_RTT", 0x2000_0400, uint),
        ],
        types: Arc::new(t),
        diagnostics: DwarfDiagnostics::default(),
    }
}

/// Target memory, and every read of it.
struct Target {
    blocks: Vec<(u64, Vec<u8>)>,
    reads: Vec<(u64, usize)>,
}

impl Target {
    fn new() -> Self {
        Target {
            blocks: Vec::new(),
            reads: Vec::new(),
        }
    }

    fn poke(&mut self, address: u64, value: u32) {
        self.blocks.retain(|(at, _)| *at != address);
        self.blocks.push((address, value.to_le_bytes().to_vec()));
    }

    fn read(&mut self, regions: &[(u64, usize)]) -> Result<Vec<Vec<u8>>, String> {
        let mut out = Vec::new();
        for (address, len) in regions {
            self.reads.push((*address, *len));
            let mut bytes = Vec::new();
            for i in 0..*len as u64 {
                let at = address + i;
                let found = self
                    .blocks
                    .iter()
                    .find(|(from, data)| *from <= at && at < from + data.len() as u64);
                match found {
                    Some((from, data)) => bytes.push(data[(at - from) as usize]),
                    None => return Err(format!("unmapped test address {at:#x}")),
                }
            }
            out.push(bytes);
        }
        Ok(out)
    }
}

/// Neighbouring values share a read.
fn plan(spans: &[(u64, u64)]) -> Vec<(u64, usize)> {
    let mut sorted = spans.to_vec();
    sorted.sort();
    let mut out: Vec<(u64, u64)> = Vec::new();
    for (at, len) in sorted {
        match out.last_mut() {
            Some((from, n)) if at <= *from + *n + 4 => *n = (*n).max(at + len - *from),
            _ => out.push((at, len)),
        }
    }
    out.into_iter().map(|(at, len)| (at, len as usize)).collect()
}

fn read_values(
    elf: &ElfInfo,
    target: &mut Target,
    nodes: Vec<NodeRef>,
) -> Result<Vec<ValueRead>, String> {
    let mut reads = ValueReads::begin(nodes)?;
    while let Some((address, len)) = reads.next(elf) {
        let answer = target.read(&[(address, len)]);
        reads.answer(elf.is_little_endian, address, len, answer);
    }
    let spans: Vec<Option<(u64, u64)>> = reads
        .items
        .iter()
        .map(|item| item.as_ref().ok().map(|item| (item.address, 4)))
        .collect();
    let regions = plan(&spans.iter().flatten().copied().collect::<Vec<_>>());
    match target.read(&regions) {
        Ok(blocks) => Ok(reads.values(&spans, &regions.iter().map(|r| r.0).collect(), &blocks)),
        Err(_) if reads.retries() => Ok(reads
            .items
            .iter()
            .zip(&spans)
            .map(|(item, span)| {
                let answer = match span {
                    Some((at, len)) => target.read(&[(*at, *len as usize)]),
                    None => Ok(Vec::new()),
                };
                lone_value(item, *span, answer)
            })
            .collect()),
        Err(e) => Err(e),
    }
}

fn number(v: &ValueRead) -> u32 {
    let (_, bytes) = v.value.as_ref().expect("a value");
    u32::from_le_bytes(bytes.as_slice().try_into().unwrap())
}

#[test]
fn inspector_coalesces_preserves_order_and_does_not_need_plots() {
    let elf = elf();
    let mut target = Target::new();
    target.poke(0x2000_0004, 42);
    target.poke(0x2000_0008, 1.5f32.to_bits());
    let nodes = || {
        vec![
            NodeRef::root("sensor_data"),
            NodeRef::root("missing"),
            NodeRef::root("global_counter"),
            NodeRef::root("sensor_data"),
        ]
    };
    let values = read_values(&elf, &mut target, nodes()).unwrap();
    assert_eq!(f32::from_bits(number(&values[0])), 1.5);
    assert!(values[1].error.is_some());
    assert_eq!(number(&values[2]), 42);
    assert_eq!(f32::from_bits(number(&values[3])), 1.5);
    assert_eq!(
        target.reads,
        vec![(0x2000_0004, 8)],
        "neighbours and duplicate requests share one memory read"
    );
    target.poke(0x2000_0004, 99);
    assert_eq!(number(&read_values(&elf, &mut target, nodes()).unwrap()[2]), 99);
    let many = (0..257).map(|_| NodeRef::root("global_counter")).collect();
    assert!(ValueReads::begin(many).err().unwrap().contains("at most"));
    target.blocks.clear();
    assert!(read_values(&elf, &mut target, nodes()).is_err());
}

#[test]
fn pointers_follow_changes_share_reads_and_report_nulls() {
    let elf = elf();
    let address = |name: &str| elf.find_symbol(name).unwrap().address;
    let mut memory = Target::new();
    memory.poke(address("data_ptr"), address("target_value") as u32);
    memory.poke(address("double_ptr"), address("data_ptr") as u32);
    memory.poke(address("null_ptr"), 0);
    memory.poke(address("target_value"), 42);
    let nodes = || {
        vec![
            NodeRef::root("data_ptr").child(Step::Deref),
            NodeRef::root("double_ptr").child(Step::Deref).child(Step::Deref),
            NodeRef::root("null_ptr").child(Step::Deref),
        ]
    };
    let values = read_values(&elf, &mut memory, nodes()).unwrap();
    assert_eq!(number(&values[0]), 42);
    assert_eq!(number(&values[1]), 42);
    assert!(values[2].error.as_ref().unwrap().contains("null pointer"));
    assert_eq!(
        memory
            .reads
            .iter()
            .filter(|(a, n)| *a == address("data_ptr") && *n == 4)
            .count(),
        1,
        "shared pointer read once per poll"
    );
    memory.poke(0x2000_1000, 99);
    memory.poke(address("data_ptr"), 0x2000_1000);
    let values = read_values(&elf, &mut memory, nodes()).unwrap();
    assert_eq!(number(&values[0]), 99);
    assert_eq!(number(&values[1]), 99);
    memory.poke(address("data_ptr"), 0);
    let values = read_values(&elf, &mut memory, nodes()).unwrap();
    assert!(values[0].error.as_ref().unwrap().contains("null pointer"));
    assert!(values[1].error.as_ref().unwrap().contains("null pointer"));
    memory.poke(address("data_ptr"), 0xffff_ff00);
    let values = read_values(
        &elf,
        &mut memory,
        vec![
            NodeRef::root("data_ptr").child(Step::Deref),
            NodeRef::root("target_value"),
        ],
    )
    .unwrap();
    assert!(values[0].error.as_ref().unwrap().contains("unmapped test address"));
    assert_eq!(number(&values[1]), 42, "a bad pointee must not blank unrelated fields");
}

#[test]
fn pointers_and_spans_are_read_by_their_bytes() {
    assert_eq!(pointer_from(true, 4, Ok(vec![vec![1, 2, 0, 0]])), Ok(0x0201));
    assert_eq!(pointer_from(false, 4, Ok(vec![vec![0, 0, 2, 1]])), Ok(0x0201));
    assert_eq!(pointer_from(true, 4, Ok(vec![vec![1]])).unwrap_err(), "short pointer read");
    assert_eq!(pointer_from(true, 4, Ok(vec![])).unwrap_err(), "short pointer read");
    assert_eq!(pointer_from(true, 4, Err("gone".to_string())).unwrap_err(), "gone");
    let regions = vec![0x100, 0x200];
    let blocks = vec![vec![1, 2], vec![3, 4, 5, 6]];
    assert_eq!(span_bytes(&regions, &blocks, 0x201, 2), Some(vec![4, 5]));
    assert_eq!(span_bytes(&regions, &blocks, 0x101, 2), None);
    assert_eq!(span_bytes(&regions, &blocks, 0xff, 1), None);
    let item = ReadItem {
        id: 0,
        address: 0,
        scalar: VariableType::U64,
        bit_offset: None,
        bit_size: None,
    };
    let read = lone_value(&Ok(item), Some((0, 8)), Ok(vec![u64::MAX.to_le_bytes().to_vec()]));
    assert_eq!(read.text.as_deref(), Some("18446744073709551615"));
    let short = lone_value(&Ok(item), Some((0, 8)), Ok(vec![vec![1]]));
    assert_eq!(short.error.as_deref(), Some("short read"));
    let none = lone_value(&Ok(item), None, Ok(vec![]));
    assert_eq!(none.error.as_deref(), Some("not a single number"));
}

fn request(id: u32) -> WatchRequest {
    WatchRequest {
        id,
        node: None,
        cell: None,
        name: None,
        unit: None,
        path: None,
        type_text: None,
    }
}

fn catalog() -> Catalog {
    Catalog {
        address: 0x1000,
        symbol: "app::TABLE".to_string(),
        entries: vec![CatalogEntry {
            id: 77,
            name: "kp".to_string(),
            unit: "1/s".to_string(),
            kind: CellKind::U32,
            access: Access::Live,
            default: 0,
            min: None,
            max: None,
            max_step: None,
            requested_address: 0x3000,
            applied_address: 0x3004,
        }],
    }
}

#[test]
fn watches_are_resolved_and_answered_one_by_one() {
    let elf = elf();
    let mut node = request(1);
    node.node = Some(NodeRef::root("sensor_data"));
    node.unit = Some("rad".to_string());
    let mut cell = request(2);
    cell.cell = Some(77);
    let mut unknown = request(3);
    unknown.cell = Some(5);
    let watches = vec![node, cell, unknown, request(4)];
    let catalog = catalog();
    let plan = plan_watches(Some(&elf), Some(&catalog), &watches);
    assert_eq!(plan.cells, [(2, 77), (3, 5)]);
    assert_eq!(plan.items.iter().map(|i| (i.id, i.address)).collect::<Vec<_>>(), [(1, 0x2000_0008), (2, 0x3004)]);
    let errors: Vec<Option<&str>> = plan.results.iter().map(|r| r.error.as_deref()).collect();
    assert_eq!(
        errors,
        [
            None,
            None,
            Some("this ELF's tuning table has no such value"),
            Some("nothing to watch")
        ]
    );
    assert_eq!(plan.metas.len(), 2);
    assert_eq!(plan.metas[0].name, "sensor_data");
    assert_eq!(plan.metas[0].unit.as_deref(), Some("rad"));
    assert_eq!(plan.metas[1].path, "cell 77");

    let mut symbol = request(1);
    symbol.node = Some(NodeRef::root("sensor_data"));
    let mut cell = request(2);
    cell.cell = Some(77);
    let blind = plan_watches(None, None, &vec![symbol, cell]);
    assert!(blind.items.is_empty());
    assert_eq!(blind.results[0].error.as_deref(), Some("open the ELF to watch symbols"));
    assert_eq!(blind.results[1].error, None);
}

#[test]
fn a_watch_is_described_by_what_was_sent_first() {
    let mut w = request(1);
    w.path = Some("gimbal::GIMBAL.yaw.angle".to_string());
    w.name = Some("  ".to_string());
    w.unit = Some("\t".to_string());
    let meta = watch_meta(None, &w);
    assert_eq!(meta.name, "GIMBAL.yaw.angle", "a blank name is none");
    assert_eq!(meta.unit, None);
    w.name = Some(" Yaw ".to_string());
    assert_eq!(watch_meta(None, &w).name, " Yaw ");
    assert_eq!(short_name("a::b::c"), "c");
    assert_eq!(short_name("a:::c"), "c");
    assert_eq!(short_name("plain"), "plain");
    assert_eq!(short_name("a::"), "");
}

#[test]
fn only_a_change_of_what_is_sampled_goes_to_the_session() {
    let elf = elf();
    let mut app = StudioApp::new();
    let watch = |unit: &str| {
        let mut w = request(1);
        w.node = Some(NodeRef::root("sensor_data"));
        w.unit = Some(unit.to_string());
        vec![w]
    };
    let (results, changes, metas) = app.set_watches(Some(&elf), None, &watch("rad"));
    assert_eq!(results[0].error, None);
    assert_eq!(metas.len(), 1);
    assert_eq!(changes, Changes { items: true, cells: false });
    let (_, changes, metas) = app.set_watches(Some(&elf), None, &watch("deg"));
    assert_eq!(changes, Changes { items: false, cells: false });
    assert_eq!(metas[0].unit.as_deref(), Some("deg"));
    assert_eq!(app.watches.resent(Carrier::Probe), Changes { items: true, cells: false });
    assert_eq!(app.watches.resent(Carrier::Serial), Changes { items: false, cells: false });
    let mut watches = Watches::new();
    assert_eq!(
        watches.take(Vec::new(), vec![(1, 77)]),
        Changes { items: false, cells: true }
    );
    assert_eq!(watches.resent(Carrier::Serial), Changes { items: false, cells: true });
}

fn connect(carrier: Carrier) -> ConnectRequest {
    ConnectRequest {
        carrier,
        probe: Some(String::new()),
        chip: " STM32F407VGTx ".to_string(),
        speed_khz: Some(4000),
        port: None,
        rate_hz: 100.0f64.to_bits(),
    }
}

#[test]
fn a_connection_needs_what_its_carrier_needs() {
    let elf = elf();
    match plan_connect(connect(Carrier::Probe), Ok(&elf), true).unwrap() {
        ConnectPlan::Probe { selector, chip, speed_khz, rtt_address } => {
            assert_eq!(selector, None);
            assert_eq!(chip, "STM32F407VGTx");
            assert_eq!(speed_khz, Some(4000));
            assert_eq!(rtt_address, Some(0x2000_0400));
        }
        other => panic!("{other:?}"),
    }
    match plan_connect(connect(Carrier::Probe), Ok(&elf), false).unwrap() {
        ConnectPlan::Probe { rtt_address, .. } => assert_eq!(rtt_address, None),
        other => panic!("{other:?}"),
    }
    assert_eq!(
        plan_connect(connect(Carrier::Probe), Err("open an ELF first".to_string()), true).unwrap_err(),
        "open an ELF first"
    );
    let mut blank = connect(Carrier::Probe);
    blank.chip = "  ".to_string();
    assert_eq!(
        plan_connect(blank, Ok(&elf), true).unwrap_err(),
        "choose the target chip first"
    );
    let serial = || Err("no ELF".to_string());
    assert_eq!(
        plan_connect(connect(Carrier::Serial), serial(), true).unwrap_err(),
        "choose the serial port first"
    );
    let mut port = connect(Carrier::Serial);
    port.port = Some("/dev/ttyACM0".to_string());
    match plan_connect(port, serial(), true).unwrap() {
        ConnectPlan::Serial { port } => assert_eq!(port, "/dev/ttyACM0"),
        other => panic!("{other:?}"),
    }
}

#[test]
fn chips_are_found_whatever_the_case() {
    let all: Vec<String> = (0..60).map(|i| format!("STM32F4{i:02}")).collect();
    assert_eq!(search_chips(&all, "stm32f407"), ["STM32F407"]);
    assert_eq!(search_chips(&all, "").len(), 50);
    assert!(search_chips(&all, "nrf").is_empty());
}

#[test]
fn names_and_replies() {
    let names = tunable_names(&catalog());
    assert_eq!(names[0].id, 77);
    assert_eq!((names[0].name.as_str(), names[0].unit.as_deref()), ("kp", Some("1/s")));
    assert_eq!(request_outcome(Reply::NotSent).unwrap_err(), "connect to the target first");
    assert_eq!(
        request_outcome(Reply::Late).unwrap_err(),
        "the target did not take the write in time"
    );
    assert_eq!(request_outcome(Reply::Answered(Ok(()))), Ok(()));
    assert_eq!(read_outcome(Reply::NotSent).unwrap_err(), "connect a debug probe first");
    assert_eq!(read_outcome(Reply::Late).unwrap_err(), "the target did not answer in time");
    assert_eq!(read_outcome(Reply::Answered(Ok(vec![vec![1]]))), Ok(vec![vec![1]]));
}

#[test]
fn every_task_is_dealt_what_it_asked_for() {
    let probes: Vec<Probe> = vec![
        Ok(vec![(0x10, 4), (0x20, 8)]),
        Err("no such task".to_string()),
        Ok(vec![(0x30, 4)]),
    ];
    assert_eq!(
        task_regions(&probes, Some((0x40, 16))),
        [(0x10, 4), (0x20, 8), (0x30, 4), (0x40, 16)]
    );
    assert_eq!(deal(&probes, 4), (vec![(0, 2), (2, 2), (2, 3)], Some(3)));
    assert_eq!(deal(&probes, 1), (vec![(0, 1), (1, 1), (1, 1)], None));
    let read: (Option<u8>, Option<String>) = counters_outcome(Some(Ok(())), None);
    assert_eq!(read, (None, Some("short read".to_string())));
    assert_eq!(counters_outcome(Some(Ok(())), Some(Ok(5))), (Some(5), None));
    let none: (Option<u8>, Option<String>) = counters_outcome(None, None);
    assert_eq!(none, (None, None));
    let bad: (Option<u8>, Option<String>) = counters_outcome(Some(Err("layout".to_string())), None);
    assert_eq!(bad.1.as_deref(), Some("layout"));
    let status: TaskStatus<u8, u8> = TaskStatus::new("t".to_string(), Ok(None), Some(1));
    assert_eq!((status.error.as_deref(), status.counters), (Some("short read"), Some(1)));
}

#[test]
fn a_variant_with_tag_zero_is_read() {
    let mut t = TypeTable::new();
    let uint = t.insert(TypeDef::Primitive(PrimitiveDef::UnsignedInt));
    let mut idle = StructDef::new(Some("Idle".to_string()), 8, false);
    idle.members.push(MemberDef::new("since".to_string(), 4, uint));
    let idle = t.insert(TypeDef::Struct(idle));
    let mut state = StructDef::new(Some("State".to_string()), 8, false);
    state.variant_part = Some(VariantPart {
        discriminant: Some(MemberDef::new(String::new(), 0, uint)),
        variants: [("Idle", 0), ("Busy", 1)]
            .iter()
            .map(|(name, tag)| VariantDef {
                discr_value: Some(*tag),
                member: MemberDef::new(name.to_string(), 0, idle),
                location: None,
            })
            .collect(),
    });
    let state = t.insert(TypeDef::Struct(state));
    let elf = ElfInfo {
        symbols: vec![symbol("STATE", 0x2000_0000, state)],
        types: Arc::new(t),
        ..elf()
    };
    let mut target = Target::new();
    target.poke(0x2000_0000, 0);
    target.poke(0x2000_0004, 7);
    let since = |variant: &str| {
        NodeRef::root("STATE")
            .child(Step::Variant(variant.to_string()))
            .child(Step::Member("since".to_string()))
    };
    let values = read_values(&elf, &mut target, vec![since("Idle"), since("Busy")]).unwrap();
    assert_eq!(number(&values[0]), 7);
    assert!(values[1].error.is_some(), "the other variant is not active");
    assert_eq!(pointer_from(true, 4, Ok(vec![vec![0; 4]])), Ok(0));
}
