//! What CAN frames, channel settings and the session promise as a whole.

use vstd::prelude::*;
use vstd::string::*;
use crate::bytes::{u32_at, u64_at};
use crate::can::{
    check_discover, config_for, configs_fault, device_at, length_of, sample_point, send_fault,
    setups, start_fault, unpacked, ChannelConfig, Device, FrameView, Setup, Timing, Transmit,
};
use crate::capture::{newer, Action, CaptureView, Request};
use crate::search::{lemma_first, lemma_first_is, lemma_first_none};
use crate::server_laws::{word32, word64};
use crate::text::decimal;

verus! {

/// How many bytes each length code stands for.
pub open spec fn code_lengths() -> Seq<int> {
    seq![0, 1, 2, 3, 4, 5, 6, 7, 8, 12, 16, 20, 24, 32, 48, 64]
}

pub open spec fn weight(set: bool, of: int) -> int {
    if set {
        of
    } else {
        0
    }
}

/// Each length code stands for the length that CAN FD gives it.
pub proof fn lemma_codes_stand_for_their_lengths(dlc: int)
    requires
        0 <= dlc < 16,
    ensures
        length_of(dlc) == code_lengths()[dlc],
{
}

/// A packed frame is its identifier with three flags above it, the adapter's time,
/// the channel, a byte of flags with the length code above them, and the payload.
pub proof fn lemma_packed_frames_are_unpacked(
    b: Seq<u8>,
    host: Seq<char>,
    direction: Seq<char>,
    f: FrameView,
    time: u64,
    spare: bool,
)
    requires
        b.len() == 80,
        f.id < 0x2000_0000,
        f.dlc < 16,
        word32(b, 0) == f.id + weight(f.esi, 0x2000_0000) + weight(f.extended, 0x4000_0000)
            + weight(f.rtr, 0x8000_0000),
        word64(b, 4) == time,
        b[12] == f.channel,
        b[13] == weight(f.fd, 1) + weight(spare, 2) + weight(f.brs, 4) + weight(f.ack, 8) + 16
            * f.dlc,
    ensures
        ({
            let r = unpacked(b, host, direction);
            let full = code_lengths()[f.dlc as int];
            &&& r.id == f.id
            &&& r.esi == f.esi
            &&& r.extended == f.extended
            &&& r.rtr == f.rtr
            &&& r.fd == f.fd
            &&& r.brs == f.brs
            &&& r.ack == f.ack
            &&& r.dlc == f.dlc
            &&& r.channel == f.channel
            &&& r.device_timestamp == decimal(time as nat)
            &&& r.host_timestamp_ns == host
            &&& r.direction == direction
            &&& r.data.len() == (if f.rtr {
                0
            } else if f.fd || full <= 8 {
                full
            } else {
                8
            })
            &&& forall|i: int| 0 <= i < r.data.len() ==> #[trigger] r.data[i] == b[16 + i]
        }),
{
    assert(u32_at(b, 0) == word32(b, 0));
    assert(u32_at(b, 4) == word32(b, 4));
    assert(u32_at(b, 8) == word32(b, 8));
    assert(u64_at(b, 4) == word64(b, 4));
    lemma_codes_stand_for_their_lengths(f.dlc as int);
    let flags = b[13];
    assert(flags / 16 == f.dlc);
}

/// A sample point is a number above 0 and below 1: among bits, those of a positive
/// number that come before the bits of 1.
pub proof fn lemma_sample_points_lie_between(bits: u32)
    ensures
        sample_point(bits) <==> 0 < bits < 0x3f80_0000,
{
}

/// A frame can be sent where its identifier fits, and where its payload has a length
/// that its kind of frame can carry: none for a remote frame, up to 8 for a classic
/// one, and the lengths with a code for FD.
pub proof fn lemma_frames_that_can_be_sent(f: Transmit)
    ensures
        f.fault() is None <==> {
            &&& f.id <= (if f.extended {
                0x1fff_ffffu32
            } else {
                0x7ffu32
            })
            &&& f.fd ==> !f.rtr && code_lengths().contains(f.data@.len() as int)
            &&& !f.fd ==> !f.brs && f.data@.len() <= 8 && (f.rtr ==> f.data@.len() == 0)
        },
{
    let len = f.data@.len() as int;
    let codes = code_lengths();
    if f.fd {
        if codes.contains(len) {
            let d = choose|d: int| 0 <= d < codes.len() && codes[d] == len;
            lemma_codes_stand_for_their_lengths(d);
            assert(length_of(d) == len);
        }
        if exists|d: int| 0 <= d < 16 && #[trigger] length_of(d) == len {
            let d = choose|d: int| 0 <= d < 16 && #[trigger] length_of(d) == len;
            lemma_codes_stand_for_their_lengths(d);
            assert(codes[d] == len);
        }
    }
}

pub open spec fn fit_timing(t: Timing) -> bool {
    1 <= t.sjw <= t.seg2 && t.seg1 > 0 && t.prescaler > 0
}

/// A channel's settings can be used where the adapter has the channel, the rates are
/// not zero, the sample points are between 0 and 1, and the timings that are given
/// are fit, the one of the data phase only beside the other.
pub proof fn lemma_settings_that_can_be_used(c: ChannelConfig, channels: u8)
    ensures
        c.fault(channels) is None <==> {
            &&& c.channel < channels
            &&& c.arbitration_bitrate > 0
            &&& c.fd ==> c.data_bitrate > 0
            &&& 0 < c.arbitration_sample_point < 0x3f80_0000
            &&& 0 < c.data_sample_point < 0x3f80_0000
            &&& match (c.arbitration_timing, c.data_timing) {
                (None, None) => true,
                (Some(a), None) => fit_timing(a) && !c.fd,
                (Some(a), Some(d)) => fit_timing(a) && fit_timing(d),
                (None, Some(_)) => false,
            }
        },
{
    lemma_sample_points_lie_between(c.arbitration_sample_point);
    lemma_sample_points_lie_between(c.data_sample_point);
}

proof fn lemma_fit_together(configs: Seq<ChannelConfig>, channels: u8)
    requires
        forall|i: int| 0 <= i < configs.len() ==> (#[trigger] configs[i]).fault(channels) is None,
        forall|i: int, j: int|
            0 <= i < j < configs.len() ==> (#[trigger] configs[i]).channel != (
            #[trigger] configs[j]).channel,
    ensures
        configs_fault(configs, channels) is None,
    decreases configs.len(),
{
    if configs.len() > 0 {
        let before = configs.drop_last();
        let p = config_for(configs.last().channel);
        lemma_fit_together(before, channels);
        assert forall|k: int| 0 <= k < before.len() implies !p(#[trigger] before[k]) by {
            assert(before[k] == configs[k]);
        }
        lemma_first_none(before, p);
    }
}

/// An adapter starts where none is in use, where its model has channels, where there
/// are settings that are each fit and each of a channel of its own, and where it was
/// found; the one that starts is the one with the index that was asked for.
pub proof fn lemma_the_adapter_that_was_chosen_starts(
    active: bool,
    devices: Seq<Device>,
    index: i32,
    channels: u8,
    configs: Seq<ChannelConfig>,
)
    ensures
        start_fault(active, devices, index, channels, configs) is None <==> {
            &&& !active
            &&& channels == 1 || channels == 2 || channels == 4
            &&& configs.len() > 0
            &&& forall|i: int|
                0 <= i < configs.len() ==> (#[trigger] configs[i]).fault(channels) is None
            &&& forall|i: int, j: int|
                0 <= i < j < configs.len() ==> (#[trigger] configs[i]).channel != (
                #[trigger] configs[j]).channel
            &&& exists|i: int| 0 <= i < devices.len() && (#[trigger] devices[i]).index == index
        },
        crate::search::first(devices, device_at(index)) matches Some(i) ==> 0 <= i < devices.len()
            && devices[i].index == index,
{
    lemma_first(devices, device_at(index));
    if exists|i: int| 0 <= i < devices.len() && (#[trigger] devices[i]).index == index {
        let i = choose|i: int| 0 <= i < devices.len() && (#[trigger] devices[i]).index == index;
        assert(device_at(index)(devices[i]));
    }
    if configs_fault(configs, channels) is None {
        crate::can::lemma_good_configs(configs, channels);
    } else if forall|i: int|
        0 <= i < configs.len() ==> (#[trigger] configs[i]).fault(channels) is None {
        if forall|i: int, j: int|
            0 <= i < j < configs.len() ==> (#[trigger] configs[i]).channel != (
            #[trigger] configs[j]).channel {
            lemma_fit_together(configs, channels);
        }
    }
}

/// Each channel is enabled and then given its timing, in the order of the settings:
/// by its rates and sample points, or by its timing where one is given, which stands
/// for the data phase too unless that has its own.
pub proof fn lemma_channels_are_set_up_in_order(configs: Seq<ChannelConfig>, i: int)
    requires
        0 <= i < configs.len(),
    ensures
        setups(configs).len() == 2 * configs.len(),
        setups(configs)[2 * i] == (Setup::Enable { channel: configs[i].channel }),
        configs[i].arbitration_timing is None ==> (setups(configs)[2 * i + 1] matches Setup::Baudrate {
            channel,
            fd,
            arbitration_bitrate,
            data_bitrate,
            arbitration_sample_point,
            data_sample_point,
        } && channel == configs[i].channel && fd == configs[i].fd && arbitration_bitrate
            == configs[i].arbitration_bitrate && data_bitrate == configs[i].data_bitrate
            && arbitration_sample_point == configs[i].arbitration_sample_point && data_sample_point
            == configs[i].data_sample_point),
        configs[i].arbitration_timing matches Some(t) ==> (setups(configs)[2 * i
            + 1] matches Setup::Timing { channel, fd, arbitration, data } && channel
            == configs[i].channel && fd == configs[i].fd && arbitration == t && (
        configs[i].data_timing is None ==> data == t) && (configs[i].data_timing matches Some(
            d,
        ) ==> data == d)),
    decreases configs.len(),
{
    let before = configs.drop_last();
    if i < before.len() {
        lemma_channels_are_set_up_in_order(before, i);
        assert(before[i] == configs[i]);
    } else if before.len() > 0 {
        lemma_channels_are_set_up_in_order(before, 0);
    } else {
        assert(setups(before).len() == 0);
    }
}

/// What a user hears of a refused setup names the channel that was set up.
pub proof fn lemma_refused_setups_name_their_channel(c: ChannelConfig)
    ensures
        (Setup::Enable { channel: c.channel }).refused() == "Cannot enable channel "@ + decimal(
            c.channel as nat,
        ),
        c.spec_timing_setup().refused() == "Adapter rejected timing for channel "@ + decimal(
            c.channel as nat,
        ),
{
}

/// A fit frame goes out where an adapter is in use and its channel is enabled, on
/// which FD is enabled if the frame needs it; it is the frame's own channel that counts.
pub proof fn lemma_frames_go_out_on_their_channel(
    f: Transmit,
    active: bool,
    enabled: Seq<ChannelConfig>,
    i: int,
)
    requires
        f.fault() is None,
        forall|j: int, k: int|
            0 <= j < k < enabled.len() ==> (#[trigger] enabled[j]).channel != (
            #[trigger] enabled[k]).channel,
    ensures
        !active ==> send_fault(f, active, enabled) == Some("CAN is disconnected"@),
        active && (forall|k: int|
            0 <= k < enabled.len() ==> (#[trigger] enabled[k]).channel != f.channel)
            ==> send_fault(f, active, enabled) == Some("Channel is not enabled"@),
        active && 0 <= i < enabled.len() && enabled[i].channel == f.channel ==> (if f.fd
            && !enabled[i].fd {
            send_fault(f, active, enabled) == Some("CAN FD is not enabled on this channel"@)
        } else {
            send_fault(f, active, enabled) is None
        }),
{
    let p = config_for(f.channel);
    if forall|k: int| 0 <= k < enabled.len() ==> (#[trigger] enabled[k]).channel != f.channel {
        lemma_first_none(enabled, p);
    }
    if 0 <= i < enabled.len() && enabled[i].channel == f.channel {
        lemma_first_is(enabled, p, i);
    }
}

/// A frame that cannot be sent goes out nowhere, and is answered with what is wrong
/// with it.
pub proof fn lemma_unfit_frames_stay(f: Transmit, active: bool, enabled: Seq<ChannelConfig>)
    requires
        f.fault() is Some,
    ensures
        send_fault(f, active, enabled) == f.fault(),
        f.id > 0x1fff_ffff ==> f.fault() == Some("CAN identifier is out of range"@),
        !f.extended && f.id > 0x7ff ==> f.fault() == Some("CAN identifier is out of range"@),
        f.id <= 0x7ff && f.data@.len() > 64 ==> f.fault() == Some(
            "Payload exceeds frame capacity"@,
        ),
        f.id <= 0x7ff && !f.fd && f.data@.len() > 8 ==> f.fault() == Some(
            "Payload exceeds frame capacity"@,
        ),
        f.id <= 0x7ff && f.data@.len() <= 8 ==> f.fault() == Some(
            "BRS requires FD; remote frames require classic CAN and an empty payload"@,
        ),
        f.id <= 0x7ff && f.fd && f.data@.len() <= 64 && !code_lengths().contains(
            f.data@.len() as int,
        ) ==> f.fault() == Some(
            "CAN FD payload must use a valid DLC length (0–8, 12, 16, 20, 24, 32, 48, 64)"@,
        ),
{
    let len = f.data@.len() as int;
    let codes = code_lengths();
    if len <= 8 {
        assert(length_of(len) == len);
    }
    if exists|d: int| 0 <= d < 16 && #[trigger] length_of(d) == len {
        let d = choose|d: int| 0 <= d < 16 && #[trigger] length_of(d) == len;
        lemma_codes_stand_for_their_lengths(d);
        assert(codes[d] == len);
    }
}

/// A scan is taken up where no adapter is in use and none was found before.
pub proof fn lemma_adapters_are_looked_for_once(active: bool, found: usize, r: Result<(), String>)
    requires
        call_ensures(check_discover, (active, found), r),
    ensures
        r is Ok <==> !active && found == 0,
        active ==> (r matches Err(e) && e@ == "Disconnect CAN before scanning"@),
{
}

/// A frame is counted once, by the way it went, and gets the next number; nothing
/// else of the session or of the frame changes.
pub proof fn lemma_frames_are_counted_by_their_way(c: CaptureView, f: FrameView)
    requires
        c.sequence < u64::MAX,
        c.received < u64::MAX,
        c.transmitted < u64::MAX,
        c.errors < u64::MAX,
    ensures
        ({
            let (after, numbered) = c.counted(f);
            &&& after.sequence == c.sequence + 1
            &&& numbered == FrameView { sequence: after.sequence, ..f }
            &&& after.received + after.transmitted + after.errors == c.received + c.transmitted
                + c.errors + 1
            &&& after.received > c.received <==> f.direction == "rx"@
            &&& after.transmitted > c.transmitted <==> f.direction == "tx"@
            &&& after.received >= c.received && after.transmitted >= c.transmitted && after.errors
                >= c.errors
            &&& after == CaptureView {
                sequence: after.sequence,
                received: after.received,
                transmitted: after.transmitted,
                errors: after.errors,
                ..c
            }
        }),
{
    reveal_strlit("rx");
    reveal_strlit("tx");
    assert("rx"@[0] != "tx"@[0]);
}

/// What is kept is the last frames, 10000 at most, oldest first and the new one last.
pub proof fn lemma_the_last_frames_are_kept(c: CaptureView, f: FrameView)
    requires
        c.history.len() <= 10000,
    ensures
        ({
            let after = c.kept(f);
            let gone = if c.history.len() < 10000 {
                0int
            } else {
                1int
            };
            &&& after.history.len() == c.history.len() + 1 - gone
            &&& after.history.last() == f
            &&& forall|i: int|
                0 <= i < after.history.len() - 1 ==> #[trigger] after.history[i] == c.history[i
                    + gone]
            &&& after == CaptureView { history: after.history, ..c }
        }),
{
}

proof fn lemma_newer_from(history: Seq<FrameView>, after: u64, room: nat)
    ensures
        ({
            let frames = newer(history, after, room);
            &&& frames.len() <= room
            &&& frames.len() <= history.len()
            &&& forall|i: int|
                0 <= i < frames.len() ==> (#[trigger] frames[i]).sequence > after
                    && history.contains(frames[i])
            &&& (frames.len() < room ==> forall|k: int|
                0 <= k < history.len() && history[k].sequence > after ==> frames.contains(
                    #[trigger] history[k],
                ))
        }),
    decreases history.len(),
{
    if history.len() > 0 && room > 0 {
        let rest = history.skip(1);
        let frames = newer(history, after, room);
        if history[0].sequence > after {
            let tail = newer(rest, after, (room - 1) as nat);
            lemma_newer_from(rest, after, (room - 1) as nat);
            assert(frames == seq![history[0]] + tail);
            assert forall|i: int| 0 <= i < frames.len() implies (#[trigger] frames[i]).sequence
                > after && history.contains(frames[i]) by {
                if i > 0 {
                    assert(frames[i] == tail[i - 1]);
                    let k = choose|k: int| 0 <= k < rest.len() && rest[k] == tail[i - 1];
                    assert(history[k + 1] == frames[i]);
                } else {
                    assert(history[0] == frames[0]);
                }
            }
            assert forall|k: int|
                frames.len() < room && 0 <= k < history.len() && history[k].sequence
                    > after implies frames.contains(#[trigger] history[k]) by {
                if k > 0 {
                    assert(rest[k - 1] == history[k]);
                    let i = choose|i: int| 0 <= i < tail.len() && tail[i] == rest[k - 1];
                    assert(frames[i + 1] == history[k]);
                } else {
                    assert(frames[0] == history[0]);
                }
            }
        } else {
            lemma_newer_from(rest, after, room);
            assert forall|i: int| 0 <= i < frames.len() implies history.contains(
                #[trigger] frames[i],
            ) by {
                let k = choose|k: int| 0 <= k < rest.len() && rest[k] == frames[i];
                assert(history[k + 1] == frames[i]);
            }
            assert forall|k: int|
                frames.len() < room && 0 <= k < history.len() && history[k].sequence
                    > after implies frames.contains(#[trigger] history[k]) by {
                assert(rest[k - 1] == history[k]);
            }
        }
    }
}

/// A poll gives frames that are kept and that the client has not seen, 2000 at most,
/// and all of them where there are fewer; an answer to another request gives none.
/// Beside them the answer shows the session as it is.
pub proof fn lemma_polls_show_what_is_new(c: CaptureView, after: u64)
    ensures
        ({
            let shown = c.shown(Some(after));
            &&& shown.frames.len() <= 2000
            &&& forall|i: int|
                0 <= i < shown.frames.len() ==> (#[trigger] shown.frames[i]).sequence > after
                    && c.history.contains(shown.frames[i])
            &&& (shown.frames.len() < 2000 ==> forall|k: int|
                0 <= k < c.history.len() && c.history[k].sequence > after ==> shown.frames.contains(
                    #[trigger] c.history[k],
                ))
            &&& shown.session == CaptureView {
                history: Seq::empty(),
                sequence: shown.session.sequence,
                ..c
            }
            &&& shown.frames.len() > 0 ==> shown.session.sequence == shown.frames.last().sequence
            &&& shown.frames.len() == 0 ==> shown.session.sequence == c.sequence
        }),
        c.shown(None).frames.len() == 0,
        c.shown(None).skipped == 0,
        c.shown(None).session == (CaptureView { history: Seq::empty(), ..c }),
{
    lemma_newer_from(c.history, after, 2000);
}

/// A request changes nothing of the session before it is carried out, but that a scan
/// forgets the adapters and that a session to be stopped counts as disconnected; it is
/// refused where the session is not fit for it.
pub proof fn lemma_requests_are_taken_when_they_can_be(c: CaptureView, r: Request, adapter: bool)
    ensures
        c.begun(r, adapter) is Err <==> match r {
            Request::Scan { .. } => c.connected,
            Request::Connect { .. } => c.connected || c.devices.len() == 0,
            Request::Send { .. } => !adapter,
            Request::Record { .. } => !c.connected || c.recording is Some,
            _ => false,
        },
        c.begun(r, adapter) matches Ok((after, action)) ==> {
            &&& after == CaptureView { devices: after.devices, connected: after.connected, ..c }
            &&& after.devices != c.devices ==> r is Scan && after.devices.len() == 0
            &&& after.connected != c.connected ==> r is Disconnect
            &&& r is Scan <==> action == Action::Scan
            &&& r is Scan ==> after.devices.len() == 0
            &&& r is Connect <==> action == (if adapter {
                Action::Start
            } else {
                Action::LoadAndStart
            })
            &&& r is Disconnect <==> action == Action::Stop
            &&& r is Disconnect ==> !after.connected
            &&& r is Send <==> action == Action::Send
            &&& r is Poll <==> action == Action::Nothing
            &&& r is Record <==> action == Action::Create
            &&& r is StopRecording <==> action == Action::FinishRecording
        },
{
}

/// An adapter that starts begins the counts and the frames anew, with the settings it
/// was given; the numbering and the recording go on.
pub proof fn lemma_starting_begins_anew(c: CaptureView, configs: Seq<ChannelConfig>)
    ensures
        ({
            let after = c.started(configs);
            &&& after.connected
            &&& after.configs == configs
            &&& after.received == 0 && after.transmitted == 0 && after.errors == 0 && after.dropped
                == 0
            &&& after.history.len() == 0
            &&& after.error is None
            &&& after.devices == c.devices
            &&& after.sequence == c.sequence
            &&& after.recording == c.recording
            &&& after.recorded == c.recorded
        }),
{
}

/// A recording is there from when its file is created until it is finished, fails, or
/// the adapter fails; a failure is told, and no other error is forgotten for it.
pub proof fn lemma_recordings_begin_and_end(
    c: CaptureView,
    path: Seq<char>,
    count: u64,
    failure: Seq<char>,
    dropped: u64,
)
    ensures
        c.with_recording(path).recording == Some(path),
        c.with_recording(path).recorded == 0,
        c.with_recording(path).error is None,
        c.after_write(Ok(count)) == (CaptureView { recorded: count, ..c }),
        c.after_write(Err(failure)).recording is None,
        c.after_write(Err(failure)).error == Some("CAN recording failed: "@ + failure),
        c.after_write(Err(failure)).connected == c.connected,
        c.without_recording(None) == (CaptureView { recording: None, ..c }),
        c.without_recording(Some(failure)).error == Some(failure),
        c.without_recording(Some(failure)).recording is None,
        c.disconnected(None) == (CaptureView { connected: false, ..c }),
        c.disconnected(Some(failure)).error == Some(failure),
        c.disconnected(Some(failure)).connected == false,
        c.disconnected(Some(failure)).recording == c.recording,
        c.after_poll(dropped, None) == (CaptureView { dropped, ..c }),
        c.after_poll(dropped, Some(failure)).dropped == dropped,
        c.after_poll(dropped, Some(failure)).connected == false,
        c.connected ==> c.after_poll(dropped, Some(failure)).error == Some(failure)
            && c.after_poll(dropped, Some(failure)).recording is None,
        !c.connected ==> c.after_poll(dropped, Some(failure)).error == c.error
            && c.after_poll(dropped, Some(failure)).recording == c.recording,
{
}

} // verus!
