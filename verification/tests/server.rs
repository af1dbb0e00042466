use tuning_studio::cmd;
use tuning_studio::server::{Context, Server, LEASE_MS, MAX_WATCHES};
use tuning_studio::table::{fnv1a, Access, Kind, Table, Tunable, WatchU32, TABLE_VERSION};
use tuning_studio::wire::{Decoder, Header, Reader, Status, MAGIC, REPLY, VERSION};

const TOKEN: u32 = 0x1234_5678;

fn tunable(name: &str, unit: &str, default: f32, min: f32, max: f32, step: f32) -> Tunable {
    Tunable::new(
        name,
        unit,
        default.to_bits(),
        min.to_bits(),
        max.to_bits(),
        step.to_bits(),
    )
}

fn gain_id() -> u32 {
    fnv1a(b"s.gain")
}

fn limit_id() -> u32 {
    fnv1a(b"s.limit")
}

fn ticks_id() -> u32 {
    fnv1a(b"s.ticks")
}

fn table() -> Table {
    Table::new(vec![
        tunable("s.gain", "1/s", 2.0, 0.0, 10.0, 0.5).into_entry(),
        tunable("s.limit", "A", 1.0, 0.0, 5.0, 0.1)
            .safe_only()
            .into_entry(),
        WatchU32::new("s.ticks", "").into_entry(),
    ])
}

fn d_table() -> Table {
    Table::new(vec![
        tunable("d.gain", "", 2.0, 0.0, 10.0, 0.5).into_entry(),
        tunable("d.limit", "A", 1.0, 0.0, 5.0, 0.1)
            .safe_only()
            .into_entry(),
    ])
}

struct Link {
    table: Table,
    server: Server,
    now_us: u64,
    safe: bool,
    seq: u16,
}

struct Reply {
    cmd: u8,
    seq: u16,
    status: u8,
    body: Vec<u8>,
}

impl Reply {
    fn body(&self) -> Reader<'_> {
        Reader::new(&self.body)
    }
}

impl Link {
    fn new() -> Self {
        Self::with(table())
    }

    fn with(table: Table) -> Self {
        Self {
            table,
            server: Server::new(),
            now_us: 1_000_000,
            safe: false,
            seq: 0,
        }
    }

    fn call(&mut self, code: u8, payload: &[u8]) -> Reply {
        self.seq += 1;
        let ctx = Context {
            now_us: self.now_us,
            safe: self.safe,
            bad_frames: 3,
        };
        let header = Header {
            cmd: code,
            flags: 0,
            seq: self.seq,
        };
        let out = self.server.handle(&mut self.table, ctx, header, payload);
        decode(&out)
    }

    fn requested(&self, index: usize) -> f32 {
        f32::from_bits(self.table.entry(index).requested_bits())
    }
}

fn decode(bytes: &[u8]) -> Reply {
    assert_eq!(bytes[0], MAGIC);
    let mut frames = Decoder::new().feed(bytes);
    assert_eq!(frames.len(), 1, "one valid frame");
    let (h, p) = frames.remove(0);
    Reply {
        cmd: h.cmd,
        seq: h.seq,
        status: p[0],
        body: p[1..].to_vec(),
    }
}

fn write(id: u32, value: f32) -> [u8; 16] {
    let mut p = [0; 16];
    p[..4].copy_from_slice(&TOKEN.to_le_bytes());
    p[4..8].copy_from_slice(&id.to_le_bytes());
    p[8] = Kind::F32.tag();
    p[12..].copy_from_slice(&value.to_bits().to_le_bytes());
    p
}

#[test]
fn hello_describes_the_table() {
    let mut link = Link::new();
    let reply = link.call(cmd::HELLO, &[]);
    assert_eq!(
        (reply.cmd, reply.seq, reply.status),
        (cmd::HELLO | REPLY, 1, 0)
    );
    let mut r = reply.body();
    assert_eq!(r.u8(), Some(VERSION));
    assert_eq!(r.u32(), Some(TABLE_VERSION));
    assert_eq!(r.u16(), Some(3));
    assert_eq!(r.u32(), Some(table().fingerprint()));
    assert_eq!(r.u16(), Some(256));
    assert_eq!(r.u16(), Some(LEASE_MS));
}

#[test]
fn the_catalog_pages_through_every_entry() {
    let mut link = Link::new();
    let reply = link.call(cmd::CATALOG, &[1, 0, 10]);
    let mut r = reply.body();
    assert_eq!((r.u16(), r.u8()), (Some(3), Some(2)));
    assert_eq!(r.u32(), Some(limit_id()));
    assert_eq!(r.u8(), Some(Kind::F32.tag()));
    assert_eq!(r.u8(), Some(Access::SafeOnly.tag()));
    assert_eq!(r.u32(), Some(1.0f32.to_bits()));
    assert_eq!(r.u32().map(f32::from_bits), Some(0.0));
    assert_eq!(r.u32().map(f32::from_bits), Some(5.0));
    assert_eq!(r.u32().map(f32::from_bits), Some(0.1));
    assert_eq!(r.u8(), Some(7));
}

#[test]
fn volatile_server_rejects_save_without_pending_storage_work() {
    let mut link = Link::new();
    link.server = Server::without_storage();
    let token = TOKEN.to_le_bytes();
    assert_eq!(
        link.call(cmd::SAVE, &token).status,
        Status::SessionRequired.code()
    );
    assert_eq!(link.call(cmd::LEASE, &token).status, 0);
    assert_eq!(
        link.call(cmd::SAVE, &token).status,
        Status::SaveUnsupported.code()
    );
    assert!(!link.server.save_pending());
    assert_eq!(link.server.finish_save(Ok(1)).len(), 0);
    assert_eq!(link.call(cmd::HELLO, &[]).status, 0);
    assert_eq!(link.call(cmd::CATALOG, &[0, 0, 10]).status, 0);
}

#[test]
fn save_waits_for_storage_and_answers_with_the_request_seq() {
    let mut link = Link::new();
    let token = TOKEN.to_le_bytes();
    assert_eq!(
        link.call(cmd::SAVE, &token).status,
        Status::SessionRequired.code()
    );
    assert_eq!(link.call(cmd::LEASE, &token).status, 0);
    let ctx = Context {
        now_us: link.now_us,
        safe: false,
        bad_frames: 0,
    };
    let header = Header {
        cmd: cmd::SAVE,
        flags: 0,
        seq: 40,
    };
    assert_eq!(
        link.server
            .handle(&mut link.table, ctx, header, &token)
            .len(),
        0
    );
    assert!(link.server.save_pending());
    assert_eq!(link.call(cmd::SAVE, &token).status, Status::Busy.code());

    let reply = decode(&link.server.finish_save(Ok(9)));
    assert_eq!(
        (reply.cmd, reply.seq, reply.status),
        (cmd::SAVE | REPLY, 40, 0)
    );
    assert_eq!(reply.body().u32(), Some(9));
    assert!(!link.server.save_pending());
    assert_eq!(link.server.finish_save(Ok(10)).len(), 0);

    assert_eq!(
        link.server
            .handle(&mut link.table, ctx, header, &token)
            .len(),
        0
    );
    let out = link.server.finish_save(Err(Status::Storage));
    assert_eq!(decode(&out).status, Status::Storage.code());
}

#[test]
fn writes_need_the_lease() {
    let mut link = Link::new();
    let id = gain_id();
    assert_eq!(
        link.call(cmd::WRITE, &write(id, 3.0)).status,
        Status::SessionRequired.code()
    );
    assert_eq!(link.call(cmd::LEASE, &TOKEN.to_le_bytes()).status, 0);
    let reply = link.call(cmd::WRITE, &write(id, 3.0));
    assert_eq!(reply.status, 0);
    assert_eq!(link.requested(0), 3.0);

    assert_eq!(
        link.call(cmd::LEASE, &7u32.to_le_bytes()).status,
        Status::Busy.code(),
        "another host cannot take a held lease"
    );
    link.now_us += u64::from(LEASE_MS) * 1000;
    assert_eq!(
        link.call(cmd::WRITE, &write(id, 4.0)).status,
        Status::SessionRequired.code()
    );
    assert_eq!(
        link.call(cmd::LEASE, &7u32.to_le_bytes()).status,
        0,
        "a lapsed lease is free"
    );
}

#[test]
fn writes_are_checked_against_the_descriptor() {
    let mut link = Link::new();
    link.call(cmd::LEASE, &TOKEN.to_le_bytes());
    let gain = gain_id();
    assert_eq!(
        link.call(cmd::WRITE, &write(gain, 11.0)).status,
        Status::Range.code()
    );
    assert_eq!(
        link.call(cmd::WRITE, &write(gain, f32::NAN)).status,
        Status::Range.code()
    );
    assert_eq!(
        link.call(cmd::WRITE, &write(7, 1.0)).status,
        Status::UnknownId.code()
    );
    assert_eq!(
        link.call(cmd::WRITE, &write(ticks_id(), 1.0)).status,
        Status::ReadOnly.code()
    );
    let mut wrong = write(gain, 1.0);
    wrong[8] = Kind::U32.tag();
    assert_eq!(
        link.call(cmd::WRITE, &wrong).status,
        Status::WrongKind.code()
    );
    assert_eq!(
        link.call(cmd::WRITE, &write(gain, 1.0)[..12]).status,
        Status::BadFrame.code()
    );
    assert_eq!(link.requested(0), 2.0, "a refused write changes nothing");
}

#[test]
fn safe_only_values_change_only_while_safe() {
    let mut link = Link::with(d_table());
    link.call(cmd::LEASE, &TOKEN.to_le_bytes());
    let limit = fnv1a(b"d.limit");
    assert_eq!(
        link.call(cmd::WRITE, &write(limit, 2.0)).status,
        Status::StateDenied.code()
    );
    assert_eq!(
        link.call(cmd::DISCARD, &TOKEN.to_le_bytes()).status,
        Status::StateDenied.code()
    );
    link.safe = true;
    assert_eq!(link.call(cmd::WRITE, &write(limit, 2.0)).status, 0);
    assert_eq!(link.requested(1), 2.0);
    let reply = link.call(cmd::DISCARD, &TOKEN.to_le_bytes());
    assert_eq!((reply.status, reply.body().u16()), (0, Some(2)));
    assert_eq!(link.requested(1), 1.0);
}

#[test]
fn read_returns_requested_and_applied() {
    let mut link = Link::new();
    link.table.publish(2, 42);
    let mut p = [0; 5];
    p[0] = 1;
    p[1..].copy_from_slice(&ticks_id().to_le_bytes());
    let reply = link.call(cmd::READ, &p);
    let mut r = reply.body();
    assert_eq!(r.u8(), Some(1));
    assert_eq!(r.u32(), Some(ticks_id()));
    assert_eq!(r.u32(), Some(0));
    assert_eq!(r.u32(), Some(42));
}

fn watch(period_ms: u16, ids: &[u32]) -> Vec<u8> {
    let mut p = Vec::new();
    p.extend_from_slice(&period_ms.to_le_bytes());
    p.push(ids.len() as u8);
    for id in ids {
        p.extend_from_slice(&id.to_le_bytes());
    }
    p
}

#[test]
fn a_subscription_produces_samples_on_its_period() {
    let mut link = Link::new();
    let ids = [ticks_id(), gain_id()];
    assert_eq!(link.call(cmd::WATCH, &watch(10, &ids)).status, 0);
    link.table.publish(2, 9);

    let start = link.now_us;
    let out = link.server.sample(&link.table, start);
    let frames = Decoder::new().feed(&out);
    let (h, p) = &frames[0];
    let mut r = Reader::new(p);
    let time = u64::from(r.u32().unwrap()) | (u64::from(r.u32().unwrap()) << 32);
    let got = Some((h.cmd, h.seq, time, r.u8(), r.u32()));
    assert_eq!(got, Some((cmd::SAMPLE, 0, start, Some(2), Some(9))));
    assert_eq!(
        link.server.sample(&link.table, start + 5_000).len(),
        0,
        "not due yet"
    );
    assert_eq!(link.server.next_sample_us(), Some(start + 10_000));

    assert_ne!(link.server.sample(&link.table, start + 35_000).len(), 0);
    assert_eq!(link.server.next_sample_us(), Some(start + 40_000));
    let stats = link.call(cmd::STATS, &[]);
    let mut r = stats.body();
    assert_eq!((r.u32(), r.u32(), r.u32()), (Some(2), Some(2), Some(3)));
}

#[test]
fn a_subscription_over_budget_is_refused() {
    let mut link = Link::new();
    let p = watch(1, &[ticks_id(); MAX_WATCHES + 1]);
    assert_eq!(link.call(cmd::WATCH, &p).status, Status::BadFrame.code());
    let p = watch(1, &[ticks_id(); 20]);
    assert_eq!(link.call(cmd::WATCH, &p).status, Status::Budget.code());
    let p = watch(0, &[]);
    assert_eq!(link.call(cmd::WATCH, &p).status, 0);
    assert_eq!(link.server.next_sample_us(), None);
}

#[test]
fn an_unknown_command_is_answered() {
    let mut link = Link::new();
    let reply = link.call(0x7f, &[]);
    assert_eq!(
        (reply.cmd, reply.status),
        (0xff, Status::UnknownCommand.code())
    );
}

#[test]
fn a_written_value_is_read_back() {
    let mut link = Link::new();
    link.call(cmd::LEASE, &TOKEN.to_le_bytes());
    assert_eq!(link.call(cmd::WRITE, &write(gain_id(), 3.5)).status, 0);
    let mut p = vec![1];
    p.extend_from_slice(&gain_id().to_le_bytes());
    let reply = link.call(cmd::READ, &p);
    let mut r = reply.body();
    assert_eq!((r.u8(), r.u32()), (Some(1), Some(gain_id())));
    assert_eq!(r.u32(), Some(3.5f32.to_bits()));
    assert_eq!(link.call(cmd::RELEASE, &TOKEN.to_le_bytes()).status, 0);
    assert_eq!(
        link.call(cmd::WRITE, &write(gain_id(), 4.0)).status,
        Status::SessionRequired.code()
    );
}

#[test]
fn a_lost_sample_is_counted() {
    let mut link = Link::new();
    assert_eq!(link.call(cmd::WATCH, &watch(10, &[ticks_id()])).status, 0);
    let start = link.now_us;
    assert_ne!(link.server.sample(&link.table, start).len(), 0);
    link.server.sample_dropped();
    let stats = link.call(cmd::STATS, &[]);
    let mut r = stats.body();
    assert_eq!((r.u32(), r.u32(), r.u32()), (Some(0), Some(1), Some(3)));
}

#[test]
fn whatever_is_asked_is_answered() {
    let mut link = Link::new();
    let ctx = Context {
        now_us: 1_000_000,
        safe: true,
        bad_frames: 0,
    };
    for code in 0..=255u8 {
        for payload in [&[][..], &[0; 3], &[0; 4], &[0; 5], &[0xff; 16], &[1; 200]] {
            let header = Header { cmd: code, flags: 7, seq: 9 };
            let sent = link.server.handle(&mut link.table, ctx, header, payload);
            if sent.is_empty() {
                assert!(code == cmd::SAVE && link.server.save_pending());
                continue;
            }
            let mut frames = Decoder::new().feed(&sent);
            assert_eq!(frames.len(), 1);
            let (h, p) = frames.remove(0);
            assert_eq!((h.cmd, h.flags, h.seq), (code | REPLY, 0, 9));
            assert!(p[0] <= Status::SaveUnsupported.code());
            assert!(p[0] == Status::Okay.code() || p.len() == 1);
        }
    }
}
