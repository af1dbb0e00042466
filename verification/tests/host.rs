use std::sync::Arc;
use tuning_studio::calls::{Call, ReadOnlyMemory};
use tuning_studio::carriers::{CarrierError, MemoryAccess};
use tuning_studio::catalog::{Access, Catalog, CatalogEntry, CellKind};
use tuning_studio::catalog_layout::{CatalogError, TableLayout};
use tuning_studio::catalog_read::Written;
use tuning_studio::cmd;
use tuning_studio::connect::{build_id, hex_text};
use tuning_studio::double_bits;
use tuning_studio::elf::{ElfInfo, SymbolInfo};
use tuning_studio::elf_image::ElfImage;
use tuning_studio::elf_load::load_elf;
use tuning_studio::framing::{decode, encode as encode_message, encode_frame, Arrived, KIND_FRAME, KIND_JSON};
use tuning_studio::host_wire::{encode, slot, status_message, Decoder, Frame, Reader};
use tuning_studio::type_def::{MemberDef, PrimitiveDef, StructDef, TypeDef, TypeId};
use tuning_studio::type_table::TypeTable;
use tuning_studio::variable_status::{DwarfDiagnostics, VariableStatus};
use tuning_studio::variable_type::VariableType;
use tuning_studio::wire::{crc16, MAGIC, REPLY};

#[test]
fn wire_crc_matches_the_mcrf4xx_check_value() {
    assert_eq!(crc16(b"123456789"), 0x6f91);
}

/// The same bytes are asserted by the firmware's codec tests.
#[test]
fn wire_a_hello_request_encodes_to_the_shared_vector() {
    let header = [0xa5, 0x01, 0x01, 0x00, 0x02, 0x01, 0x00, 0x00];
    let crc = crc16(&header).to_le_bytes();
    let mut expected = header.to_vec();
    expected.extend_from_slice(&crc);
    assert_eq!(encode(cmd::HELLO, 0x0102, &[]), expected);
}

#[test]
fn noise_split_frames_and_corruption_are_handled() {
    let good = encode(cmd::READ | REPLY, 7, &[0, 1, 2]);
    let mut bad = encode(cmd::STATS, 8, &[9; 12]);
    bad[10] ^= 0x55;
    let mut stream = vec![0x00, MAGIC, 0x13];
    stream.extend_from_slice(&bad);
    stream.extend_from_slice(&good);
    let mut d = Decoder::default();
    let (head, tail) = stream.split_at(stream.len() - 4);
    let mut got: Vec<Frame> = d.feed(head);
    assert!(got.is_empty());
    got.extend(d.feed(tail));
    assert_eq!(got.len(), 1);
    assert_eq!(got[0].cmd, cmd::READ | REPLY);
    assert_eq!(got[0].seq, 7);
    assert_eq!(got[0].payload, vec![0, 1, 2]);
    assert!(d.bad_frames >= 1);
}

#[test]
fn a_reader_reads_strings_and_stops_at_the_end() {
    let mut r = Reader::new(&[2, b'h', b'i', 5]);
    assert_eq!(r.text().as_deref(), Some("hi"));
    assert_eq!(r.u16(), None);
    assert_eq!(r.u8(), Some(5));
}

#[test]
fn a_text_that_is_not_utf8_is_read_as_far_as_it_goes() {
    let mut r = Reader::new(&[3, b'a', 0xff, b'b']);
    assert_eq!(r.text().as_deref(), Some("a\u{fffd}b"));
    assert_eq!(slot(2, 0x0403_0201), vec![2, 0, 0, 0, 1, 2, 3, 4]);
    assert_eq!(status_message(0), "ok");
    assert_eq!(status_message(3), "the firmware has no value with this id");
    let mut r = Reader::new(&[1, 2, 3, 4, 5, 6, 7, 8, 9, 10, 11, 12]);
    assert_eq!(r.u32(), Some(0x0403_0201));
    assert_eq!(r.u64(), Some(0x0c0b_0a09_0807_0605));
    assert_eq!(r.remaining(), 0);
}

fn bits(v: f64) -> u64 {
    v.to_bits()
}

#[test]
fn cells_encode_what_they_can_hold() {
    assert_eq!(CellKind::F32.encode(bits(1.5)), Ok(1.5f32.to_bits()));
    assert_eq!(CellKind::I32.encode(bits(-2.0)), Ok(0xffff_fffe));
    assert!(CellKind::I32.encode(bits(0.5)).is_err());
    assert!(CellKind::U32.encode(bits(-1.0)).is_err());
    assert_eq!(CellKind::Bool.encode(bits(1.0)), Ok(1));
    assert!(CellKind::Bool.encode(bits(2.0)).is_err());
    assert!(CellKind::F32.encode(bits(f64::NAN)).is_err());
    assert_eq!(f64::from_bits(CellKind::I32.decode(0xffff_fffe, 0)), -2.0);
}

#[test]
fn cells_decode_by_their_kind() {
    assert_eq!(CellKind::F32.decode(0, bits(0.2)), bits(0.2));
    assert_eq!(f64::from_bits(CellKind::U32.decode(u32::MAX, 0)), 4294967295.0);
    assert_eq!(f64::from_bits(CellKind::Bool.decode(7, 0)), 7.0);
    for kind in [CellKind::F32, CellKind::I32, CellKind::U32, CellKind::Bool] {
        assert_eq!(CellKind::from_tag(kind.tag()), Some(kind));
    }
    assert_eq!(CellKind::from_tag(9), None);
}

#[test]
fn doubles_narrow_as_the_float_unit_does() {
    for v in [
        0.0, -0.0, 1.0, 0.1, -3.75, 1.0e-7, 5.0e-46, 1.0e-45, 3.4e38, 3.5e38, -1.0e300, 1.0e30,
        16777217.0, 16777219.0, f64::MIN_POSITIVE, 1.1754943508222875e-38,
    ] {
        assert_eq!(double_bits::narrow(v.to_bits()), (v as f32).to_bits(), "{v}");
    }
    assert_eq!(double_bits::to_integer(bits(-7.0)), Some(-7));
    assert_eq!(double_bits::to_integer(bits(7.5)), None);
    assert_eq!(double_bits::from_integer(-9), bits(-9.0));
    assert!(double_bits::less(bits(1.0), bits(2.0)));
    assert!(!double_bits::less_or_equal(bits(f64::NAN), bits(2.0)));
    assert!(!double_bits::is_finite(bits(f64::INFINITY)));
}

fn entry() -> CatalogEntry {
    CatalogEntry {
        id: 1,
        name: "kp".into(),
        unit: String::new(),
        kind: CellKind::F32,
        access: Access::Live,
        default: bits(1.0),
        min: Some(bits(0.0)),
        max: Some(bits(10.0)),
        max_step: Some(bits(0.1)),
        requested_address: 0x2400_0000,
        applied_address: 0x2400_0004,
    }
}

#[test]
fn requests_are_checked_against_access_and_range() {
    let mut entry = entry();
    assert_eq!(entry.request_bits(bits(2.0)).ok(), Some(2.0f32.to_bits()));
    assert!(entry.request_bits(bits(11.0)).is_err());
    entry.access = Access::ReadOnly;
    assert!(entry.request_bits(bits(2.0)).is_err());
}

#[test]
fn refusals_say_why() {
    let mut e = entry();
    let text = e.request_bits(bits(11.0)).unwrap_err().to_text("11", "0", "10");
    assert_eq!(text, "kp takes 0 to 10");
    e.access = Access::ReadOnly;
    let text = e.request_bits(bits(1.0)).unwrap_err().to_text("1", "0", "10");
    assert!(text.contains("kp"), "{text}");
    let item = entry().applied_item(9);
    assert_eq!((item.id, item.address, item.scalar), (9, 0x2400_0004, VariableType::F32));
    assert_eq!(entry().requested_item(0).address, 0x2400_0000);
    let catalog = Catalog {
        address: 0,
        symbol: "T".to_string(),
        entries: vec![entry()],
    };
    assert_eq!(catalog.entry(1).map(|e| e.name.as_str()), Some("kp"));
    assert!(catalog.entry(2).is_none());
}

/// A firmware's types and the one static of them.
fn table_elf() -> ElfInfo {
    let mut t = TypeTable::new();
    let u32_id = t.insert(TypeDef::Primitive(PrimitiveDef::UnsignedInt));
    let u8_id = t.insert(TypeDef::Primitive(PrimitiveDef::UnsignedChar));
    let byte_ptr = t.insert(TypeDef::Pointer(u8_id));
    let record = |t: &mut TypeTable, name: &str, size: u64, members: &[(&str, u64, TypeId)]| {
        let mut s = StructDef::new(Some(name.to_string()), size, false);
        for (name, at, ty) in members {
            s.members.push(MemberDef::new(name.to_string(), *at, *ty));
        }
        t.insert(TypeDef::Struct(s))
    };
    let text = record(&mut t, "&str", 8, &[("data_ptr", 0, byte_ptr), ("length", 4, u32_id)]);
    let entry = record(
        &mut t,
        "tuning::Entry",
        48,
        &[
            ("id", 0, u32_id),
            ("kind", 4, u8_id),
            ("access", 5, u8_id),
            ("name", 8, text),
            ("unit", 16, text),
            ("default", 24, u32_id),
            ("min", 28, u32_id),
            ("max", 32, u32_id),
            ("max_step", 36, u32_id),
            ("requested", 40, u32_id),
            ("applied", 44, u32_id),
        ],
    );
    let entry_ref = t.insert(TypeDef::Pointer(entry));
    let list_ptr = t.insert(TypeDef::Pointer(entry_ref));
    let list = record(
        &mut t,
        "&[&tuning::Entry]",
        8,
        &[("data_ptr", 0, list_ptr), ("length", 4, u32_id)],
    );
    let table = record(
        &mut t,
        "tuning::Table",
        16,
        &[("magic", 0, u32_id), ("version", 4, u32_id), ("entries", 8, list)],
    );
    ElfInfo {
        path: "fw.elf".to_string(),
        machine: "ARM".to_string(),
        is_64bit: false,
        is_little_endian: true,
        entry_point: 0,
        symbols: vec![SymbolInfo {
            demangled_name: "app::TABLE".to_string(),
            display_name: "TABLE".to_string(),
            address: 0x1000,
            size: 16,
            is_function: false,
            section: ".rodata".to_string(),
            writable: false,
            type_id: Some(table),
            status: VariableStatus::Valid { address: 0x1000 },
            task_storage: None,
        }],
        types: Arc::new(t),
        diagnostics: DwarfDiagnostics::default(),
    }
}

fn words(list: &[u32]) -> Vec<u8> {
    list.iter().flat_map(|w| w.to_le_bytes()).collect()
}

/// One tunable and one watch, as a linker would lay them out.
fn table_memory(second_id: u32) -> Memory {
    let mut m = Memory { blocks: Vec::new() };
    m.blocks.push((0x1000, words(&[0x5454_4d52, 1, 0x1100, 2])));
    m.blocks.push((0x1100, words(&[0x1200, 0x1300])));
    let entry = |id: u32, tags: u32, name: u32, len: u32, range: [f32; 3]| {
        words(&[
            id,
            tags,
            name,
            len,
            0x1500,
            3,
            1.5f32.to_bits(),
            range[0].to_bits(),
            range[1].to_bits(),
            range[2].to_bits(),
            0,
            0,
        ])
    };
    m.blocks.push((0x1200, entry(7, 0x0100, 0x1400, 2, [0.0, 10.0, 0.5])));
    let none = [f32::NEG_INFINITY, f32::INFINITY, f32::INFINITY];
    m.blocks.push((0x1300, entry(second_id, 0x0000, 0x1402, 3, none)));
    m.blocks.push((0x1400, b"kptik".to_vec()));
    m.blocks.push((0x1500, b"1/s".to_vec()));
    m
}

struct Memory {
    blocks: Vec<(u64, Vec<u8>)>,
}

impl MemoryAccess for Memory {
    fn read(&mut self, address: u64, len: usize) -> Result<Vec<u8>, CarrierError> {
        for (at, data) in &self.blocks {
            if *at <= address && address + len as u64 <= at + data.len() as u64 {
                let from = (address - at) as usize;
                return Ok(data[from..from + len].to_vec());
            }
        }
        Err(CarrierError::Read {
            address,
            len,
            reason: "unmapped".to_string(),
        })
    }

    fn write(&mut self, _: u64, _: &[u8]) -> Result<(), CarrierError> {
        Ok(())
    }
}

#[test]
fn a_firmwares_table_is_found_and_read() {
    let elf = table_elf();
    let layout = TableLayout::find(&elf).unwrap().expect("a table");
    assert_eq!((layout.address, layout.symbol.as_str()), (0x1000, "app::TABLE"));
    let mut raw = layout.read(&mut table_memory(8)).unwrap();
    assert_eq!(raw.entries.len(), 2);
    let watch = raw.entries.remove(1);
    assert_eq!((watch.id, watch.name.as_str(), watch.access), (8, "tik", Access::ReadOnly));
    assert_eq!(watch.min, None);
    let kp = raw.entries.remove(0);
    assert_eq!((kp.name.as_str(), kp.unit.as_str()), ("kp", "1/s"));
    assert_eq!(kp.max, Some(10.0f32.to_bits()));
    let entry = kp.into_entry(Written {
        default: bits(1.5),
        min: bits(0.0),
        max: bits(10.0),
        max_step: bits(0.5),
    });
    assert_eq!(entry.default, bits(1.5));
    assert_eq!(entry.max_step, Some(bits(0.5)));
    assert_eq!((entry.requested_address, entry.applied_address), (0x1228, 0x122c));
}

#[test]
fn a_table_that_is_not_whole_is_refused() {
    let layout = TableLayout::find(&table_elf()).unwrap().unwrap();
    let text = |m: &mut Memory| layout.read(m).unwrap_err().to_text();
    let mut wrong = table_memory(8);
    wrong.blocks[0].1[0] = 0;
    assert!(text(&mut wrong).contains("magic is 0x54544d00"), "{}", text(&mut wrong));
    let mut newer = table_memory(8);
    newer.blocks[0].1[4] = 2;
    assert!(text(&mut newer).contains("format version 2, this tool reads 1"));
    let mut twice = table_memory(7);
    assert!(text(&mut twice).contains("`kp` and `tik` share id 0x00000007"));
    let mut kind = table_memory(8);
    kind.blocks[2].1[4] = 9;
    assert!(text(&mut kind).contains("entry 0: kind 9"));
    let mut garbled = table_memory(8);
    garbled.blocks[4].1[0] = 0xff;
    assert!(text(&mut garbled).contains("entry 0: name is not text"));
    let mut gone = table_memory(8);
    gone.blocks.remove(1);
    assert!(matches!(layout.read(&mut gone), Err(CatalogError::Memory(_))));
}

#[test]
fn a_build_without_a_table_has_none() {
    let mut elf = table_elf();
    elf.symbols.clear();
    assert!(TableLayout::find(&elf).unwrap().is_none());
}

/// A 32-bit ELF file with these sections: name, type, flags, address, contents.
fn image(sections: &[(&str, u32, u32, u32, Vec<u8>)]) -> Vec<u8> {
    let mut names = vec![0u8];
    let mut out = vec![0u8; 52];
    let mut headers = words(&[0; 10]);
    let mut offsets = Vec::new();
    for (name, _, _, _, data) in sections {
        offsets.push((names.len() as u32, out.len() as u32));
        names.extend_from_slice(name.as_bytes());
        names.push(0);
        out.extend_from_slice(data);
        while out.len() % 4 != 0 {
            out.push(0);
        }
    }
    for ((_, kind, flags, address, data), (name, at)) in sections.iter().zip(&offsets) {
        headers.extend(words(&[
            *name,
            *kind,
            *flags,
            *address,
            *at,
            data.len() as u32,
            0,
            0,
            4,
            0,
        ]));
    }
    let at = names.len() as u32;
    names.extend_from_slice(b".shstrtab\0");
    let place = out.len() as u32;
    let len = names.len() as u32;
    out.extend_from_slice(&names);
    while out.len() % 4 != 0 {
        out.push(0);
    }
    headers.extend(words(&[at, 3, 0, 0, place, len, 0, 0, 1, 0]));
    let table = out.len() as u32;
    out.extend_from_slice(&headers);
    let count = sections.len() as u16 + 2;
    out[..16].copy_from_slice(&[0x7f, b'E', b'L', b'F', 1, 1, 1, 0, 0, 0, 0, 0, 0, 0, 0, 0]);
    out[16..18].copy_from_slice(&2u16.to_le_bytes());
    out[18..20].copy_from_slice(&40u16.to_le_bytes());
    out[20..24].copy_from_slice(&1u32.to_le_bytes());
    out[32..36].copy_from_slice(&table.to_le_bytes());
    out[40..42].copy_from_slice(&52u16.to_le_bytes());
    out[46..48].copy_from_slice(&40u16.to_le_bytes());
    out[48..50].copy_from_slice(&count.to_le_bytes());
    out[50..52].copy_from_slice(&(count - 1).to_le_bytes());
    out
}

#[test]
fn an_image_holds_what_the_file_initialises() {
    let file = image(&[
        (".data", 1, 3, 0x2000_0000, vec![1, 2, 3, 4]),
        (".debug_info", 1, 0, 0, vec![9; 8]),
        (".text", 1, 6, 0x0800_0000, vec![5, 6]),
    ]);
    let mut image = ElfImage::parse(&file).unwrap();
    let sections = image.sections();
    assert_eq!(sections.len(), 2);
    assert_eq!(image.read(0x2000_0001, 2).unwrap(), vec![2, 3]);
    assert_eq!(image.read(0x0800_0000, 2).unwrap(), vec![5, 6]);
    assert_eq!(
        image.read(0x2000_0003, 2).unwrap_err().to_text(),
        "read of 2 bytes at 0x20000003 failed: not initialised by the ELF"
    );
    assert!(image
        .write(0x2000_0000, &[0])
        .unwrap_err()
        .to_text()
        .contains("the ELF image is read-only"));
    assert!(ElfImage::parse(b"no").is_err());
}

#[test]
fn a_table_read_from_an_image_is_the_one_in_the_file() {
    let layout = TableLayout::find(&table_elf()).unwrap().expect("a table");
    let blocks = table_memory(8).blocks;
    let named: Vec<(&str, u32, u32, u32, Vec<u8>)> = blocks
        .iter()
        .map(|(at, data)| (".rodata", 1, 2, *at as u32, data.clone()))
        .collect();
    let mut held = ElfImage::parse(&image(&named)).unwrap();
    let raw = layout.read(&mut held).unwrap();
    let expected = layout.read(&mut table_memory(8)).unwrap();
    assert_eq!(format!("{raw:?}"), format!("{expected:?}"));
    assert_eq!((raw.entries[0].id, raw.entries[0].name.as_str()), (7, "kp"));
    // Reading changes nothing, so it can be read again
    let again = layout.read(&mut held).unwrap();
    assert_eq!(format!("{again:?}"), format!("{raw:?}"));
    // Without the names the same read fails
    let mut cut = ElfImage::parse(&image(&named[..named.len() - 2])).unwrap();
    assert!(layout.read(&mut cut).is_err());
}

/// Debug info with one `u32` at each of these places.
fn debug_info(variables: &[(&str, u32)]) -> [(&'static str, u32, u32, u32, Vec<u8>); 2] {
    let abbrev = vec![
        1, 0x11, 1, 0, 0, // a unit
        2, 0x24, 0, 0x03, 0x08, 0x0b, 0x0b, 0x3e, 0x0b, 0, 0, // a base type
        3, 0x34, 0, 0x03, 0x08, 0x49, 0x13, 0x02, 0x18, 0, 0, // a variable
        0,
    ];
    let mut dies = vec![1, 2];
    dies.extend(b"u32\0\x04\x07");
    for (name, address) in variables {
        dies.push(3);
        dies.extend(name.as_bytes());
        dies.push(0);
        dies.extend(words(&[13]));
        dies.extend([5, 3]);
        dies.extend(words(&[*address]));
    }
    dies.push(0);
    let mut info = words(&[dies.len() as u32 + 8]);
    info.extend([5, 0, 1, 4, 0, 0, 0, 0]);
    info.extend(dies);
    [
        (".debug_info", 1, 0, 0, info),
        (".debug_abbrev", 1, 0, 0, abbrev),
    ]
}

#[test]
fn an_elf_is_loaded_with_the_sections_of_its_symbols() {
    let [info, abbrev] = debug_info(&[
        ("app::KP", 0x2000_0004),
        ("app::Loop<a::B>::GAIN", 0x0800_0000),
        ("past", 0x2000_0010),
        ("shared", 0x2000_0008),
        ("last", 0xffff_fffc),
    ]);
    let mut file = image(&[
        (".data", 1, 3, 0x2000_0000, vec![0; 16]),
        (".text", 1, 6, 0x0800_0000, vec![0; 4]),
        (".other", 1, 2, 0x2000_0008, vec![0; 8]),
        (".end", 1, 3, 0xffff_fff8, vec![0; 8]),
        info,
        abbrev,
    ]);
    file[24..28].copy_from_slice(&0x0800_0001u32.to_le_bytes());
    let elf = load_elf("fw.elf".to_string(), &file).unwrap();
    assert_eq!((elf.path.as_str(), elf.machine.as_str()), ("fw.elf", "Arm"));
    assert!(!elf.is_64bit && elf.is_little_endian);
    assert_eq!(elf.entry_point, 0x0800_0001);
    let shown: Vec<(&str, &str, u64, &str, bool)> = elf
        .symbols
        .iter()
        .map(|s| {
            (s.demangled_name.as_str(), s.display_name.as_str(), s.address, s.section.as_str(), s.writable)
        })
        .collect();
    assert_eq!(
        shown,
        [
            ("app::KP", "KP", 0x2000_0004, ".data", true),
            ("app::Loop<a::B>::GAIN", "GAIN", 0x0800_0000, ".text", false),
            ("past", "past", 0x2000_0010, "", false),
            ("shared", "shared", 0x2000_0008, ".data", true),
            ("last", "last", 0xffff_fffc, ".end", true),
        ]
    );
    assert!(elf.symbols.iter().all(|s| s.size == 4 && s.type_id.is_some() && !s.is_function));
    assert_eq!(elf.diagnostics.total_variables, 5);
    assert!(load_elf("no".to_string(), b"no").unwrap_err().starts_with("Failed to parse object: "));
}

#[test]
fn a_build_id_is_read_as_hex() {
    let mut note = words(&[4, 4, 3]);
    note.extend_from_slice(b"GNU\0");
    note.extend_from_slice(&[0xde, 0xad, 0x00, 0x0f]);
    let file = image(&[(".note.gnu.build-id", 7, 2, 0x400, note)]);
    assert_eq!(build_id(&file).as_deref(), Some("dead000f"));
    assert_eq!(build_id(&image(&[])), None);
    assert_eq!(build_id(b"no"), None);
    assert_eq!(hex_text(&[0, 0xab]), "00ab");
}

#[test]
fn memory_that_is_only_read_refuses_writes() {
    let mut memory = ReadOnlyMemory::new(table_memory(8));
    assert_eq!(memory.read(0x1400, 2).unwrap(), b"kp");
    let error = memory.write(0x1400, &[1, 2]).unwrap_err();
    assert_eq!(
        error.to_text(),
        "write of 2 bytes at 0x00001400 failed: studio-server runs --read-only"
    );
    assert_eq!(memory.refused, 1);
    assert_eq!(memory.read(0x1400, 2).unwrap(), b"kp");
    assert_eq!(
        memory.read(0x9000, 3).unwrap_err().to_text(),
        "read of 3 bytes at 0x00009000 failed: unmapped"
    );
    assert_eq!(memory.refused, 1, "a read refuses nothing");
}

#[test]
fn quick_calls_answer_in_order() {
    assert!(Call::SymbolChildren.is_quick() && Call::AppState.is_quick());
    assert!(!Call::OpenElf.is_quick() && !Call::SessionConnect.is_quick());
}

#[test]
fn messages_arrive_whole() {
    let message = encode_message(KIND_JSON, b"{}");
    assert_eq!(message, [3, 0, 0, 0, b'J', b'{', b'}']);
    let mut bytes = message.clone();
    bytes.extend_from_slice(&encode_frame(5, b"TTS1"));
    match decode(&bytes) {
        Arrived::Message { kind, payload, used } => {
            assert_eq!((kind, payload.as_slice(), used), (KIND_JSON, b"{}".as_slice(), 7));
        }
        other => panic!("{other:?}"),
    }
    match decode(&bytes[7..]) {
        Arrived::Message { kind, payload, .. } => {
            assert_eq!(kind, KIND_FRAME);
            assert_eq!(payload, [5, 0, 0, 0, 0, 0, 0, 0, b'T', b'T', b'S', b'1']);
        }
        other => panic!("{other:?}"),
    }
    for n in 0..7 {
        assert!(matches!(decode(&message[..n]), Arrived::Part));
    }
    assert!(matches!(decode(&[0, 0, 0, 0]), Arrived::Empty));
}

#[test]
fn a_double_past_the_single_range_does_not_fit() {
    assert!(CellKind::F32.encode(bits(1e300)).is_err());
    assert!(CellKind::F32.encode(bits(-1e300)).is_err());
    assert_eq!(CellKind::F32.encode(bits(f32::MAX as f64)), Ok(f32::MAX.to_bits()));
    assert_eq!(CellKind::F32.encode(bits(1e-300)), Ok(0));
}

#[test]
fn storage_that_fails_and_storage_that_is_not_there_are_told_apart() {
    let failed = status_message(11);
    let unsupported = status_message(12);
    assert_ne!(failed, unsupported);
    assert!(failed.contains("unavailable"), "{failed}");
    assert!(unsupported.contains("not support"), "{unsupported}");
}
