use tuning_studio::store::{
    encode, plan, record_len, Plan, Record, Slot, RECORD_MAGIC, RECORD_VERSION,
};
use tuning_studio::table::{fnv1a, Table, Tunable, WatchF32};
use tuning_studio::wire::{crc16, Overflow};

fn tunable(name: &str, unit: &str, default: f32, min: f32, max: f32, step: f32) -> Tunable {
    Tunable::new(
        name,
        unit,
        default.to_bits(),
        min.to_bits(),
        max.to_bits(),
        step.to_bits(),
    )
}

fn table() -> Table {
    Table::new(vec![
        tunable("st.gain", "", 2.0, 0.0, 10.0, 0.5).into_entry(),
        WatchF32::new("st.angle", "rad").into_entry(),
        tunable("st.limit", "A", 1.0, 0.0, 5.0, 0.1).into_entry(),
    ])
}

// A rebuild: one value dropped, one added, same name kept.
fn rebuilt() -> Table {
    Table::new(vec![
        tunable("st.new", "", 7.0, 0.0, 9.0, 0.5).into_entry(),
        tunable("st.gain", "", 2.0, 0.0, 4.0, 0.5).into_entry(),
    ])
}

fn requested(table: &Table, index: usize) -> f32 {
    f32::from_bits(table.entry(index).requested_bits())
}

#[test]
fn a_record_round_trips_and_ignores_trailing_erased_bytes() {
    let mut table = table();
    table.request(0, 3.5f32.to_bits());
    table.request(2, 0.25f32.to_bits());
    let mut flash = encode(&table, 7, 64).unwrap();
    assert_eq!(flash.len(), record_len(&table));
    flash.resize(64, 0xff);
    let record = Record::decode(&flash).unwrap();
    assert_eq!(record.generation(), 7);
    let items = record.items();
    assert_eq!(items[0], (fnv1a(b"st.gain"), 0, 3.5f32.to_bits()));
    assert_eq!(items[1], (fnv1a(b"st.limit"), 0, 0.25f32.to_bits()));
}

#[test]
fn erased_torn_and_short_records_are_rejected() {
    let table = table();
    assert!(Record::decode(&[0xff; 64]).is_none());
    let mut flash = encode(&table, 1, 64).unwrap();
    let len = flash.len();
    flash.resize(64, 0);
    assert!(Record::decode(&flash[..len - 1]).is_none());
    flash[14] ^= 1;
    assert!(Record::decode(&flash).is_none());
    assert_eq!(encode(&table, 1, 8), Err(Overflow));
}

#[test]
fn restore_matches_by_id_and_skips_out_of_range_values() {
    let mut rebuilt = rebuilt();
    let mut out = [0u8; 64];
    // Saved by the old build: gain 6.0, which the rebuild's range no longer allows.
    out[..4].copy_from_slice(&RECORD_MAGIC.to_le_bytes());
    out[4..6].copy_from_slice(&RECORD_VERSION.to_le_bytes());
    out[6..8].copy_from_slice(&2u16.to_le_bytes());
    out[12..16].copy_from_slice(&fnv1a(b"st.gain").to_le_bytes());
    out[20..24].copy_from_slice(&6.0f32.to_bits().to_le_bytes());
    out[24..28].copy_from_slice(&0xdead_beefu32.to_le_bytes());
    out[32..36].copy_from_slice(&1.0f32.to_bits().to_le_bytes());
    let crc = crc16(&out[..36]);
    out[36..38].copy_from_slice(&crc.to_le_bytes());
    assert_eq!(Record::decode(&out).unwrap().restore(&mut rebuilt), 0);
    assert_eq!(requested(&rebuilt, 1), 2.0);

    out[20..24].copy_from_slice(&3.0f32.to_bits().to_le_bytes());
    let crc = crc16(&out[..36]);
    out[36..38].copy_from_slice(&crc.to_le_bytes());
    assert_eq!(Record::decode(&out).unwrap().restore(&mut rebuilt), 1);
    assert_eq!(requested(&rebuilt, 1), 3.0);
    assert_eq!(requested(&rebuilt, 0), 7.0);
}

#[test]
fn saves_alternate_slots_and_never_overwrite_the_newest() {
    assert_eq!(
        plan(None, None),
        Plan {
            newest: None,
            target: Slot::A,
            next_generation: 1
        }
    );
    assert_eq!(plan(Some(1), None).target, Slot::B);
    assert_eq!(plan(Some(1), Some(2)).newest, Some(Slot::B));
    assert_eq!(plan(Some(1), Some(2)).target, Slot::A);
    assert_eq!(plan(Some(1), Some(2)).next_generation, 3);
    assert_eq!(plan(None, Some(5)).target, Slot::A);
    assert_eq!(plan(Some(9), Some(4)).target, Slot::B);
}

#[test]
fn a_saved_table_reads_back_in_table_order() {
    let mut table = table();
    table.request(2, 4.5f32.to_bits());
    let record = encode(&table, 9, 100).unwrap();
    assert_eq!(record.len(), 14 + 12 * 2);
    let read = Record::decode(&record).unwrap();
    assert_eq!(read.generation(), 9);
    let ids: Vec<u32> = read.items().iter().map(|i| i.0).collect();
    assert_eq!(ids, [fnv1a(b"st.gain"), fnv1a(b"st.limit")], "and no watch");
    assert_eq!(read.items()[1].2, 4.5f32.to_bits());
}
