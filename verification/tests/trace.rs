use tuning_studio::task_trace::{decode, init, record, tick, Trace, BEGIN, CAPACITY, END};

#[test]
fn sequence_rollover_keeps_the_previous_ring_events() {
    let mut bytes = vec![0u8; 20 + 48];
    for (offset, value) in [
        (0, 0x53545452u32),
        (4, 1),
        (8, 2),
        (12, 1000),
        (16, 0),
        (20, u32::MAX),
        (24, 10),
        (32, 42),
        (36, 2),
        (40, u32::MAX),
        (44, 0),
        (48, 20),
        (56, 42),
        (60, 3),
        (64, 0),
    ] {
        bytes[offset..offset + 4].copy_from_slice(&value.to_le_bytes());
    }
    let snapshot = decode(&bytes).unwrap();
    assert_eq!(
        snapshot.events.iter().map(|e| e.seq).collect::<Vec<_>>(),
        [u32::MAX, 0]
    );
    assert_eq!(snapshot.incomplete, 0);
}

#[test]
fn rejects_torn_slots_and_checks_header() {
    let mut b = vec![0u8; 20 + 48];
    let put = |b: &mut Vec<u8>, i: usize, v: u32| b[i..i + 4].copy_from_slice(&v.to_le_bytes());
    for (i, v) in [
        (0, 0x53545452),
        (4, 1),
        (8, 2),
        (12, 64_000_000),
        (16, 2),
        (20, 1),
        (24, 100),
        (32, 42),
        (36, 2),
        (40, 1),
        (44, 2),
        (48, 200),
        (56, 42),
        (60, 3),
        (64, 99),
    ] {
        put(&mut b, i, v);
    }
    let r = decode(&b).unwrap();
    assert_eq!(r.events.len(), 1);
    assert_eq!(r.incomplete, 1);
    assert_eq!(r.events[0].ticks, 100);
    put(&mut b, 8, 9000);
    assert!(decode(&b).is_err());
}

#[test]
fn heartbeat_extends_wrap_and_ring_overwrites_in_sequence() {
    let mut trace = Trace::new();
    init(&mut trace, 64_000_000, u32::MAX - 10);
    tick(&mut trace, u32::MAX - 1);
    tick(&mut trace, 3);
    record(&mut trace, 42, BEGIN, 8);
    assert_eq!(trace.events[0].low, 8);
    assert_eq!(trace.events[0].high, 1);
    assert_eq!(trace.events[0].first, trace.events[0].last);
    for i in 0..CAPACITY as u32 {
        record(&mut trace, 42, END, 9 + i);
    }
    assert_eq!(trace.head, CAPACITY as u32 + 1);
    assert_eq!(trace.events[0].first, CAPACITY as u32 + 1);
    init(&mut trace, 64_000_000, 0);
    assert_eq!(trace.events[0].first, 0);
    assert_eq!(trace.head, 0);
}

#[test]
fn what_is_recorded_is_decoded() {
    let mut trace = Trace::new();
    record(&mut trace, 1, BEGIN, 1);
    assert_eq!(trace.head, 0, "nothing is recorded before a clock is set");
    init(&mut trace, 1_000, 0);
    record(&mut trace, 7, BEGIN, 5);
    record(&mut trace, 7, END, 2);
    let snapshot = decode(&trace.image()).unwrap();
    assert_eq!((snapshot.clock_hz, snapshot.head), (1_000, 2));
    assert_eq!(snapshot.incomplete, 0);
    let events: Vec<(u32, u64, u32, u32)> = snapshot
        .events
        .iter()
        .map(|e| (e.seq, e.ticks, e.task, e.kind))
        .collect();
    assert_eq!(events, [(1, 5, 7, BEGIN), (2, 0x1_0000_0002, 7, END)]);
    assert!(decode(&trace.image()[..19]).is_err());
    assert!(decode(&[0; 64]).is_err());
}
