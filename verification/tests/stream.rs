use std::io::{ErrorKind, Write};
use std::sync::atomic::{AtomicBool, Ordering};
use std::sync::mpsc::{sync_channel, SyncSender, TrySendError};
use tuning_studio::app::StudioApp;
use tuning_studio::connect::TunableName;
use tuning_studio::stream::{
    names_from, publishes, samples_line, Fanout, LineWrite, Losses, Sent, StreamOptions, StreamState, TuneValue,
    WriteStep, Wrote, DEFAULT_PORT, PROTOCOL_VERSION,
};

type Line = Vec<u8>;

fn send(queue: &SyncSender<Line>, line: &[u8]) -> Sent {
    match queue.try_send(line.to_vec()) {
        Ok(()) => Sent::Taken,
        Err(TrySendError::Full(_)) => Sent::Full,
        Err(TrySendError::Disconnected(_)) => Sent::Gone,
    }
}

fn offer(losses: &mut Losses, queue: &SyncSender<Line>, line: &[u8], batch: bool, limit: u64) -> bool {
    if let Some((batches, messages)) = losses.notice() {
        let notice = format!("dropped {batches} {messages}");
        if !losses.notice_offered(send(queue, notice.as_bytes())) {
            return false;
        }
    }
    losses.line_offered(send(queue, line), batch, limit)
}

#[test]
fn a_full_client_loses_batches_is_told_and_is_cut_off_past_the_limit() {
    let (queue, _lines) = sync_channel::<Line>(StreamOptions::new(0, false).queue_len().min(2));
    let mut client = Losses::new();
    let big: Line = vec![b'x'; 4 << 10];
    let mut kept = true;
    let mut offered = 0;
    while kept && offered < 1000 {
        kept = offer(&mut client, &queue, &big, true, 10);
        offered += 1;
    }
    assert!(!kept, "cut off after 10 lost batches in a row");
    assert_eq!(client.pending_batches, 11);
    assert!(client.dropped >= 11);
}

#[test]
fn a_client_is_told_of_each_loss_once() {
    let (queue, lines) = sync_channel::<Line>(2);
    let mut client = Losses::new();
    for i in 0..5u8 {
        assert!(offer(&mut client, &queue, &[i], true, 100));
    }
    assert!(offer(&mut client, &queue, &[9], false, 100));
    assert_eq!(client, Losses { pending_batches: 3, pending_messages: 1, dropped: 3 });
    lines.recv().unwrap();
    lines.recv().unwrap();
    assert!(offer(&mut client, &queue, &[7], true, 100));
    assert_eq!(lines.recv().unwrap(), b"dropped 3 1");
    assert_eq!(lines.recv().unwrap(), [7]);
    assert_eq!(client, Losses { pending_batches: 0, pending_messages: 0, dropped: 3 });
    drop(lines);
    assert!(!offer(&mut client, &queue, &[8], true, 100));
}

fn write_line(out: &mut impl Write, bytes: &[u8], alive: &AtomicBool) -> bool {
    let mut line = LineWrite::new(bytes.len());
    loop {
        match line.next(alive.load(Ordering::Relaxed)) {
            WriteStep::Written => return true,
            WriteStep::Stop => return false,
            WriteStep::Write { from } => {
                let wrote = match out.write(&bytes[from..]) {
                    Ok(n) => Wrote::Bytes(n),
                    Err(e) if e.kind() == ErrorKind::Interrupted => Wrote::Interrupted,
                    Err(e) if e.kind() == ErrorKind::WouldBlock => Wrote::WouldBlock,
                    Err(_) => Wrote::Failed,
                };
                line.wrote(wrote);
            }
        }
    }
}

struct Partial {
    calls: usize,
    received: Vec<u8>,
}

impl Write for Partial {
    fn write(&mut self, bytes: &[u8]) -> std::io::Result<usize> {
        self.calls += 1;
        match self.calls {
            2 => return Err(ErrorKind::WouldBlock.into()),
            4 => return Err(ErrorKind::Interrupted.into()),
            _ => {}
        }
        let n = bytes.len().min(2);
        self.received.extend_from_slice(&bytes[..n]);
        Ok(n)
    }
    fn flush(&mut self) -> std::io::Result<()> {
        panic!("socket writes must not depend on flushing a buffer")
    }
}

#[test]
fn partial_writes_resume_without_repeating_bytes() {
    let mut out = Partial {
        calls: 0,
        received: Vec::new(),
    };
    assert!(write_line(&mut out, b"example\n", &AtomicBool::new(true)));
    assert_eq!(out.received, b"example\n");
}

struct Stalled<'a>(&'a AtomicBool);

impl Write for Stalled<'_> {
    fn write(&mut self, _: &[u8]) -> std::io::Result<usize> {
        self.0.store(false, Ordering::Relaxed);
        Err(ErrorKind::WouldBlock.into())
    }
    fn flush(&mut self) -> std::io::Result<()> {
        unreachable!()
    }
}

#[test]
fn cancelling_a_stalled_write_stops_retrying() {
    let alive = AtomicBool::new(true);
    assert!(!write_line(&mut Stalled(&alive), b"pending", &alive));
}

#[test]
fn a_write_that_takes_nothing_fails() {
    let mut line = LineWrite::new(4);
    assert!(line.wrote(Wrote::WouldBlock));
    assert!(!line.wrote(Wrote::Bytes(0)));
    assert_eq!(line.next(true), WriteStep::Stop);
}

fn numbers(list: &[f64]) -> Vec<Option<String>> {
    list.iter()
        .map(|v| v.is_finite().then(|| ryu::Buffer::new().format_finite(*v).to_string()))
        .collect()
}

#[test]
fn samples_are_columns_by_name_with_null_for_nan() {
    let line = samples_line(
        7,
        &numbers(&[0.5, 0.75]),
        &vec!["a".to_string(), "b".to_string()],
        &numbers(&[1.0, f64::NAN, 2.5, 3.0]),
        2,
    );
    let v: serde_json::Value = serde_json::from_slice(line.as_bytes()).unwrap();
    let expected: serde_json::Value = serde_json::from_str(
        r#"{"type":"samples","seq":7,"t":[0.5,0.75],"values":{"a":[1.0,2.5],"b":[null,3.0]}}"#,
    )
    .unwrap();
    assert_eq!(v, expected);
    assert_eq!(line.as_bytes().last(), Some(&b'\n'));
}

#[test]
fn names_are_escaped_and_an_empty_batch_is_whole() {
    let names = vec!["say \"x\"\n".to_string()];
    let line = samples_line(1, &numbers(&[]), &names, &numbers(&[]), 1);
    assert_eq!(
        line,
        "{\"type\":\"samples\",\"seq\":1,\"t\":[],\"values\":{\"say \\\"x\\\"\\n\":[]}}\n"
    );
    let fewer = samples_line(2, &numbers(&[1.0]), &Vec::new(), &numbers(&[4.0]), 1);
    assert_eq!(fewer, "{\"type\":\"samples\",\"seq\":2,\"t\":[1.0],\"values\":{}}\n");
}

#[test]
fn options_have_their_defaults() {
    let o = StreamOptions::new(DEFAULT_PORT, false);
    assert_eq!((o.port, o.bind_all, o.client_queue, o.drop_limit), (7878, false, 256, 150));
    assert_eq!(o.queue_len(), 256);
    assert_eq!(StreamOptions { client_queue: 0, ..o }.queue_len(), 2);
    assert_eq!(PROTOCOL_VERSION, 1);
}

#[test]
fn the_stream_starts_fails_and_stops() {
    let mut app = StudioApp::new().without_rtt();
    assert!(!app.rtt);
    app.set_recordings_dir("/tmp/r".to_string());
    assert_eq!(app.recordings_dir.as_deref(), Some("/tmp/r"));
    let idle = app.app_state::<u8>(None);
    assert!(!idle.stream.listening && idle.recording.is_none());
    let (started, shown) = app.start_stream(Ok("127.0.0.1:7878".to_string()), true);
    assert_eq!(app.recordings_dir.as_deref(), Some("/tmp/r"));
    let started = started.unwrap();
    assert!(started.listening && started.bind_all && shown.is_none());
    assert_eq!(app.app_state(Some(3)).stream.address.as_deref(), Some("127.0.0.1:7878"));
    let stopped = app.stop_stream();
    assert!(!stopped.listening);
    assert_eq!(stopped.address.as_deref(), Some("127.0.0.1:7878"));
    let (failed, shown) = app.start_stream(Err("in use".to_string()), false);
    assert_eq!(failed.unwrap_err(), "in use");
    assert_eq!(shown.unwrap().error.as_deref(), Some("in use"));
    assert_eq!(StreamState::stopped().clients, 0);
}

fn value(id: u32, applied: f64) -> TuneValue {
    TuneValue {
        id,
        requested: 1.0f64.to_bits(),
        applied: applied.to_bits(),
    }
}

#[test]
fn tuning_values_are_news_when_they_change() {
    let mut f = Fanout::new(Vec::new());
    assert!(f.tune_values(vec![value(1, 2.0)], false));
    assert!(!f.tune_values(vec![value(1, 2.0)], false));
    assert!(f.tune_values(vec![value(1, 2.0)], true));
    assert!(f.tune_values(vec![value(1, 2.5)], false));
    assert!(!f.tune_values(vec![value(1, 2.5)], false));
    assert!(f.tune_values(vec![value(1, 2.5), value(2, 0.0)], false));
    assert!(!f.tune_values(vec![value(1, 2.5), value(2, -0.0)], false), "zeros are equal");
    assert!(f.tune_values(vec![value(1, f64::NAN), value(2, 0.0)], false));
    assert!(f.tune_values(vec![value(1, f64::NAN), value(2, 0.0)], false), "a NaN equals nothing");
    f.session_started(Vec::new());
    assert!(f.tune_values(vec![value(1, 2.5)], false));
}

#[test]
fn batches_are_numbered_and_names_looked_up() {
    let tunables = vec![
        TunableName { id: 1, name: "old".to_string(), unit: None },
        TunableName { id: 1, name: "kp".to_string(), unit: None },
    ];
    let mut f = Fanout::new(names_from(&tunables));
    assert_eq!((f.next_seq(), f.next_seq()), (1, 2));
    assert_eq!(f.name_of(1).map(|s| s.as_str()), Some("kp"), "the later stands");
    assert_eq!(f.name_of(2), None);
    f.set_names(vec![(2, "ki".to_string())]);
    assert_eq!(f.name_of(1), None);
}

#[test]
fn losses_outlive_the_client() {
    let mut f = Fanout::new(Vec::new());
    assert_eq!(f.tap_lost(4), Some(4));
    assert_eq!(f.tap_lost(4), None);
    assert_eq!(f.tap_lost(6), Some(2));
    for _ in 0..3 {
        f.add();
    }
    f.clients[0].dropped = 5;
    f.clients[1].dropped = 7;
    f.clients[2].dropped = 1;
    assert_eq!(f.dropped(), 19);
    let gone = f.reap(vec![false, true, false]);
    assert_eq!(gone, [0, 0], "the last client took the place of the first");
    assert_eq!(f.clients.len(), 1);
    assert_eq!(f.clients[0].dropped, 7);
    assert_eq!(f.dropped_gone, 6);
    assert_eq!(f.dropped(), 19);
}

#[test]
fn a_state_is_published_when_it_changes() {
    let state = |clients: usize| StreamState {
        clients,
        ..StreamState::stopped()
    };
    assert!(publishes(true, false, &state(1), &state(1)));
    assert!(publishes(false, true, &state(2), &state(1)));
    assert!(!publishes(false, true, &state(1), &state(1)));
    assert!(!publishes(false, false, &state(2), &state(1)));
    let mut failed = state(1);
    failed.error = Some("gone".to_string());
    assert!(publishes(false, true, &failed, &state(1)));
}

#[test]
fn a_name_is_a_json_string() {
    let name = "q\" b\\ /\u{8}\t\n\u{c}\r\u{1f}\u{0}\u{7f}\u{e9}\u{1f600}";
    let line = samples_line(1, &numbers(&[0.5]), &vec![name.to_string()], &numbers(&[2.0]), 1);
    let shown = "q\\\" b\\\\ /\\b\\t\\n\\f\\r\\u001f\\u0000\u{7f}\u{e9}\u{1f600}";
    assert_eq!(
        line,
        format!("{{\"type\":\"samples\",\"seq\":1,\"t\":[0.5],\"values\":{{\"{shown}\":[2.0]}}}}\n")
    );
}
