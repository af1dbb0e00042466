use tuning_studio::app::StudioApp;
use tuning_studio::calls::check_can;
use tuning_studio::can::{
    check_configs, check_discover, check_send, check_start, decode, plan_setup, ChannelConfig,
    Device, Frame, Setup, Timing, Transmit,
};
use tuning_studio::capture::{Action, Capture, Request, HISTORY};
use tuning_studio::recording::{csv_header, csv_line, format_for, Format};
use tuning_studio::remote::{late, work, Drain, Remote, Request as Ask, Response, Task};

fn frame(sequence: u64, direction: &str) -> Frame {
    Frame {
        sequence,
        device_timestamp: "0".into(),
        host_timestamp_ns: "0".into(),
        channel: 0,
        id: 1,
        extended: false,
        fd: false,
        brs: false,
        rtr: false,
        esi: false,
        ack: false,
        dlc: 0,
        direction: direction.into(),
        data: vec![],
    }
}

fn config() -> ChannelConfig {
    ChannelConfig {
        channel: 0,
        fd: true,
        arbitration_bitrate: 1000000,
        data_bitrate: 2000000,
        arbitration_sample_point: 0.75f32.to_bits(),
        data_sample_point: 0.75f32.to_bits(),
        arbitration_timing: None,
        data_timing: None,
    }
}

fn transmit(id: u32) -> Transmit {
    Transmit {
        channel: 0,
        id,
        extended: false,
        fd: false,
        brs: false,
        rtr: false,
        data: vec![1],
    }
}

#[test]
fn history_reports_missing_frames() {
    let mut c = Capture::default();
    for sequence in 101..=2200 {
        c.history.push_back(frame(sequence, "rx"));
    }
    c.sequence = 2200;
    let first = c.snapshot(Some(0));
    assert_eq!(first.skipped, 100);
    assert_eq!(first.frames.len(), 2000);
    assert_eq!(first.sequence, 2100);
    let second = c.snapshot(Some(first.sequence));
    assert_eq!(second.skipped, 0);
    assert_eq!(second.frames.len(), 100);
    assert_eq!(second.sequence, 2200);
    let idle = c.snapshot(Some(second.sequence));
    assert!(idle.frames.is_empty());
    assert_eq!(idle.sequence, 2200);
}

#[test]
fn packed_fd_frame_preserves_flags_timestamp_and_payload() {
    let mut b = [0; 80];
    b[..4].copy_from_slice(&(0x123456u32 | (1 << 30) | (1 << 29)).to_le_bytes());
    b[4..12].copy_from_slice(&u64::MAX.to_le_bytes());
    b[12] = 3;
    b[13] = 0xfd;
    for i in 0..64 {
        b[16 + i] = i as u8;
    }
    let f = decode(&b, "0".to_string(), "rx");
    assert_eq!(f.data.len(), 64);
    assert_eq!(f.id, 0x123456);
    assert_eq!(f.device_timestamp, u64::MAX.to_string());
    assert!(f.fd && f.brs && f.ack && f.extended && f.esi);
    assert_eq!(f.channel, 3);
}

#[test]
fn rejects_invalid_transmissions() {
    let mut f = Transmit {
        channel: 0,
        id: 0x800,
        extended: false,
        fd: false,
        brs: false,
        rtr: false,
        data: vec![0; 8],
    };
    assert!(f.validate().is_err());
    f.extended = true;
    assert!(f.validate().is_ok());
    f.fd = true;
    f.data.push(0);
    assert!(f.validate().is_err());
    f.data.resize(12, 0);
    assert!(f.validate().is_ok());
    f.rtr = true;
    assert!(f.validate().is_err());
}

#[test]
fn classic_and_remote_frames_carry_what_they_can() {
    let mut b = [7u8; 80];
    b[..4].copy_from_slice(&0x7ffu32.to_le_bytes());
    b[13] = 0xf0;
    assert_eq!(decode(&b, "1".to_string(), "tx").data.len(), 8);
    b[..4].copy_from_slice(&(0x7ffu32 | (1 << 31)).to_le_bytes());
    let remote = decode(&b, "1".to_string(), "tx");
    assert!(remote.rtr && remote.data.is_empty());
    assert_eq!((remote.dlc, remote.id), (15, 0x7ff));
    assert_eq!((remote.direction.as_str(), remote.host_timestamp_ns.as_str()), ("tx", "1"));
}

#[test]
fn settings_are_checked() {
    assert!(config().validate(1).is_ok());
    let fault = |c: ChannelConfig, channels: u8| c.validate(channels).unwrap_err();
    assert_eq!(fault(config(), 0), "Channel is out of range for this adapter");
    assert_eq!(
        fault(ChannelConfig { arbitration_bitrate: 0, ..config() }, 1),
        "Bitrates must be greater than zero"
    );
    for point in [0.0f32, 1.0, f32::NAN, -0.5] {
        assert_eq!(
            fault(ChannelConfig { data_sample_point: point.to_bits(), ..config() }, 1),
            "Sample points must be between 0 and 1 (exclusive)"
        );
    }
    let timing = Timing { seg1: 13, seg2: 2, sjw: 1, prescaler: 4 };
    assert!(timing.validate().is_ok());
    assert_eq!(
        Timing { sjw: 3, ..timing }.validate().unwrap_err(),
        "Timing values must be nonzero, with SJW \u{2264} segment 2"
    );
    assert_eq!(
        fault(ChannelConfig { arbitration_timing: Some(timing), ..config() }, 1),
        "Advanced CAN FD timing requires data timing too"
    );
    assert_eq!(
        fault(ChannelConfig { data_timing: Some(timing), ..config() }, 1),
        "Data timing requires arbitration timing"
    );
    assert!(check_configs(&vec![config()], 1).is_ok());
    assert!(check_configs(&vec![config(), config()], 1).is_err(), "one setting per channel");
}

#[test]
fn an_adapter_is_found_once_and_started_by_its_index() {
    assert!(check_discover(false, 0).is_ok());
    assert!(check_discover(true, 0).is_err());
    assert!(check_discover(false, 1).is_err());
    let devices = vec![Device::found(3), Device::found(5)];
    assert_eq!(devices[0].model, "Damiao CAN adapter");
    assert_eq!(check_start(false, &devices, 5, 1, &vec![config()]), Ok(1));
    assert_eq!(
        check_start(false, &devices, 4, 1, &vec![config()]).unwrap_err(),
        "Scan and select a CAN adapter first"
    );
    assert_eq!(
        check_start(true, &devices, 5, 1, &vec![config()]).unwrap_err(),
        "Disconnect CAN before changing configuration"
    );
    assert_eq!(
        check_start(false, &devices, 5, 3, &vec![config()]).unwrap_err(),
        "Select an adapter model and at least one channel"
    );
    let plan = plan_setup(&vec![config()]);
    assert_eq!(plan.len(), 2);
    assert!(matches!(plan[0], Setup::Enable { channel: 0 }));
    assert!(matches!(plan[1], Setup::Baudrate { arbitration_bitrate: 1000000, .. }));
    assert_eq!(plan[0].refusal(), "Cannot enable channel 0");
    assert_eq!(plan[1].refusal(), "Adapter rejected timing for channel 0");
}

#[test]
fn frames_go_out_on_enabled_channels() {
    let enabled = vec![ChannelConfig { fd: false, ..config() }];
    assert!(check_send(&transmit(1), true, &enabled).is_ok());
    assert_eq!(
        check_send(&transmit(1), false, &enabled).unwrap_err(),
        "CAN is disconnected"
    );
    let mut other = transmit(1);
    other.channel = 2;
    assert_eq!(
        check_send(&other, true, &enabled).unwrap_err(),
        "Channel is not enabled"
    );
    let mut fd = transmit(1);
    fd.fd = true;
    assert_eq!(
        check_send(&fd, true, &enabled).unwrap_err(),
        "CAN FD is not enabled on this channel"
    );
}

#[test]
fn requests_are_taken_in_turn() {
    let mut c = Capture::default();
    let scan = Request::Scan { library: None };
    let connect = Request::Connect { index: 0, channels: 1, configs: vec![config()] };
    let record = Request::Record { path: "a.csv".to_string() };
    assert_eq!(c.begin(&connect, false).unwrap_err(), "Scan for adapters first");
    assert_eq!(c.begin(&record, false).unwrap_err(), "Connect CAN before recording");
    assert_eq!(
        c.begin(&Request::Send { frame: transmit(1) }, false).unwrap_err(),
        "CAN is disconnected"
    );
    assert_eq!(c.begin(&scan, false), Ok(Action::Scan));
    c.scanned(vec![Device::found(0)]);
    assert_eq!(c.begin(&connect, true), Ok(Action::Start));
    c.started(&vec![config()]);
    assert_eq!(c.begin(&scan, true).unwrap_err(), "Disconnect CAN before scanning");
    assert_eq!(c.begin(&connect, true).unwrap_err(), "CAN is already connected");
    assert_eq!(c.begin(&record, true), Ok(Action::Create));
    c.created("a.csv".to_string());
    assert_eq!(
        c.begin(&record, true).unwrap_err(),
        "Stop the current CAN recording first"
    );
    for direction in ["tx", "rx", "error"] {
        let f = c.count(frame(0, direction));
        assert!(!c.wrote(Ok(f.sequence)));
        c.keep(f);
    }
    let s = c.snapshot(Some(0));
    assert_eq!((s.received, s.transmitted, s.errors), (1, 1, 1));
    assert_eq!(s.frames.iter().map(|f| f.sequence).collect::<Vec<_>>(), [1, 2, 3]);
    assert_eq!(c.begin(&Request::Disconnect, true), Ok(Action::Stop));
    c.stopped(None);
    assert!(!c.snapshot(None).connected);
    assert_eq!(c.begin(&Request::Poll { after: 0 }, false), Ok(Action::Nothing));
    assert_eq!(c.begin(&Request::StopRecording, false), Ok(Action::FinishRecording));
    assert_eq!(c.begin(&connect, false), Ok(Action::LoadAndStart));
}

#[test]
fn the_history_stays_within_its_bound_and_in_a_row() {
    let mut c = Capture::default();
    for _ in 0..HISTORY + 5 {
        let f = c.count(frame(0, "rx"));
        c.keep(f);
    }
    assert_eq!(c.history.len(), HISTORY);
    assert_eq!(c.history[0].sequence, 6);
    assert_eq!(c.snapshot(Some(0)).skipped, 5);
}

#[test]
fn a_recording_is_written_by_its_extension() {
    assert_eq!(format_for("CSV"), Ok(Format::Csv));
    assert_eq!(format_for("mcap"), Ok(Format::Mcap));
    assert_eq!(format_for("txt").unwrap_err(), "Choose a .mcap or .csv capture file");
    assert!(csv_header().starts_with("sequence,host_timestamp_ns"));
    let mut f = frame(7, "rx");
    f.id = 0x1ab;
    f.data = vec![0, 0xff];
    f.dlc = 2;
    assert_eq!(
        csv_line(&f),
        "7,0,0,0,rx,1AB,false,false,false,false,false,false,2,00 FF"
    );
    assert_eq!(csv_header().split(',').count(), csv_line(&f).split(',').count());
}

#[test]
fn can_poll_works_but_mock_server_never_opens_physical_adapters() {
    let app = StudioApp::new();
    let c = Capture::default();
    let poll = app.can_request(Request::Poll { after: 0 });
    assert!(check_can(&poll, true, false).is_ok());
    let snapshot = c.snapshot(Some(0));
    assert!(!snapshot.connected);
    assert!(snapshot.frames.is_empty());
    let error = check_can(&Request::Scan { library: None }, true, false).unwrap_err();
    assert!(error.contains("--mock"));
    assert!(check_can(&Request::Scan { library: None }, false, true).is_ok());
    let error = check_can(&Request::Send { frame: transmit(1) }, false, true).unwrap_err();
    assert!(error.contains("--read-only"));
}

#[test]
fn a_scan_takes_the_library_that_was_set() {
    let mut app = StudioApp::new().with_can_worker_executable("worker".to_string());
    app.set_can_library("dm.so".to_string());
    assert_eq!(app.can_worker.as_deref(), Some("worker"));
    match app.can_request(Request::Scan { library: None }) {
        Request::Scan { library } => assert_eq!(library.as_deref(), Some("dm.so")),
        other => panic!("{other:?}"),
    }
    match app.can_request(Request::Scan { library: Some("own.so".to_string()) }) {
        Request::Scan { library } => assert_eq!(library.as_deref(), Some("own.so")),
        other => panic!("{other:?}"),
    }
}

#[test]
fn a_process_that_fails_is_given_up() {
    let mut r = Remote::new();
    assert!(matches!(r.drain(), Drain::Poll));
    let mut answer = Response::default();
    answer.frames.push(frame(1, "rx"));
    answer.dropped = 4;
    assert_eq!(r.polled(Ok(answer)).len(), 1);
    assert_eq!(r.dropped, 4);
    let refused = Response { error: Some("no".to_string()), ..Response::default() };
    assert_eq!(r.answer(Ok(refused)).unwrap_err(), "no");
    assert!(!r.stopped, "a refusal does not end the process");
    let mut last = Response::default();
    last.frames.push(frame(2, "rx"));
    assert!(r.asks_stop());
    r.stop(Some(Ok(last)));
    assert!(matches!(r.drain(), Drain::Frames(f) if f.len() == 1));
    assert!(matches!(r.drain(), Drain::Frames(f) if f.is_empty()));
    let mut r = Remote::new();
    assert_eq!(r.answer(Err(late())).unwrap_err(), late());
    assert!(r.stopped && r.error.is_some() && !r.asks_stop());
    r.starting();
    assert_eq!(r.error, None);
}

#[test]
fn the_worker_loads_once_and_first() {
    let scan = Ask::Scan { library: None };
    assert_eq!(work(&scan, false), Ok(Task::Load));
    assert_eq!(work(&scan, true).unwrap_err(), "Scan requires a fresh SDK worker");
    assert_eq!(work(&Ask::Send { frame: transmit(1) }, false).unwrap_err(), "Scan first");
    assert_eq!(work(&Ask::Send { frame: transmit(1) }, true), Ok(Task::Send));
    let start = Ask::Start { index: 0, channels: 1, configs: vec![] };
    assert_eq!(work(&start, false).unwrap_err(), "Scan first");
    assert_eq!(work(&start, true), Ok(Task::Start));
    assert_eq!(work(&Ask::Poll, false), Ok(Task::Nothing));
    assert_eq!(work(&Ask::Stop, true), Ok(Task::StopAndDrain));
}
