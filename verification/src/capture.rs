//! The CAN session: which requests are taken when, how frames are counted and
//! numbered, and what a client that polls gets to see. The adapter and the
//! recording file belong to the caller, which reports what became of them.

use vstd::prelude::*;
use vstd::string::*;
use std::collections::VecDeque;
use crate::can::{ChannelConfig, Device, Frame, FrameView, Transmit};
use crate::def_view::text_of;
use crate::text::same_text;

verus! {

/// Frames kept for clients that poll.
pub const HISTORY: usize = 10000;

/// Most frames that one poll gives.
pub const PAGE: usize = 2000;

/// What a client asks of the session.
#[derive(Debug)]
pub enum Request {
    Scan { library: Option<String> },
    Connect { index: i32, channels: u8, configs: Vec<ChannelConfig> },
    Disconnect,
    Send { frame: Transmit },
    Poll { after: u64 },
    Record { path: String },
    StopRecording,
}

/// What has to be done for a request before it is answered.
#[derive(Copy, Clone, Debug, PartialEq, Eq, Structural)]
pub enum Action {
    /// Let go of the adapters and look for them anew
    Scan,
    /// Look for the adapters again, then start one
    LoadAndStart,
    Start,
    /// Stop the adapter and take what it still holds
    Stop,
    Send,
    /// Create the recording file
    Create,
    /// Take what the adapter holds and finish the recording file
    FinishRecording,
    Nothing,
}

/// The session between requests.
#[derive(Debug)]
pub struct Capture {
    pub connected: bool,
    pub devices: Vec<Device>,
    pub configs: Vec<ChannelConfig>,
    pub sequence: u64,
    pub received: u64,
    pub transmitted: u64,
    pub errors: u64,
    pub dropped: u64,
    /// Path of the recording that is written
    pub recording: Option<String>,
    pub recorded: u64,
    pub error: Option<String>,
    /// The last frames, oldest first
    pub history: VecDeque<Frame>,
}

/// What the session holds between requests.
#[verifier::ext_equal]
pub struct CaptureView {
    pub connected: bool,
    pub devices: Seq<Device>,
    pub configs: Seq<ChannelConfig>,
    pub sequence: u64,
    pub received: u64,
    pub transmitted: u64,
    pub errors: u64,
    pub dropped: u64,
    pub recording: Option<Seq<char>>,
    pub recorded: u64,
    pub error: Option<Seq<char>>,
    pub history: Seq<FrameView>,
}

/// What frames say.
pub open spec fn frames_of(frames: Seq<Frame>) -> Seq<FrameView> {
    frames.map_values(|f: Frame| f@)
}

impl View for Capture {
    type V = CaptureView;

    open spec fn view(&self) -> CaptureView {
        CaptureView {
            connected: self.connected,
            devices: self.devices@,
            configs: self.configs@,
            sequence: self.sequence,
            received: self.received,
            transmitted: self.transmitted,
            errors: self.errors,
            dropped: self.dropped,
            recording: text_of(self.recording),
            recorded: self.recorded,
            error: text_of(self.error),
            history: frames_of(self.history@),
        }
    }
}

/// The session before the first request.
pub open spec fn idle() -> CaptureView {
    CaptureView {
        connected: false,
        devices: Seq::empty(),
        configs: Seq::empty(),
        sequence: 0,
        received: 0,
        transmitted: 0,
        errors: 0,
        dropped: 0,
        recording: None,
        recorded: 0,
        error: None,
        history: Seq::empty(),
    }
}

impl Default for Capture {
    fn default() -> (r: Self)
        ensures
            r@ == idle(),
    {
        let r = Capture {
            connected: false,
            devices: Vec::new(),
            configs: Vec::new(),
            sequence: 0,
            received: 0,
            transmitted: 0,
            errors: 0,
            dropped: 0,
            recording: None,
            recorded: 0,
            error: None,
            history: VecDeque::new(),
        };
        assert(r@ =~= idle());
        r
    }
}

impl CaptureView {
    /// What a request comes to: the session and what has to be done, or why it
    /// is refused.
    pub open spec fn begun(self, r: Request, has_adapter: bool) -> Result<
        (CaptureView, Action),
        Seq<char>,
    > {
        match r {
            Request::Scan { .. } => if self.connected {
                Err("Disconnect CAN before scanning"@)
            } else {
                Ok((CaptureView { devices: Seq::empty(), ..self }, Action::Scan))
            },
            Request::Connect { .. } => if self.connected {
                Err("CAN is already connected"@)
            } else if self.devices.len() == 0 {
                Err("Scan for adapters first"@)
            } else if has_adapter {
                Ok((self, Action::Start))
            } else {
                Ok((self, Action::LoadAndStart))
            },
            Request::Disconnect => Ok(
                (CaptureView { connected: false, ..self }, Action::Stop),
            ),
            Request::Send { .. } => if has_adapter {
                Ok((self, Action::Send))
            } else {
                Err("CAN is disconnected"@)
            },
            Request::Poll { .. } => Ok((self, Action::Nothing)),
            Request::Record { .. } => if !self.connected {
                Err("Connect CAN before recording"@)
            } else if self.recording is Some {
                Err("Stop the current CAN recording first"@)
            } else {
                Ok((self, Action::Create))
            },
            Request::StopRecording => Ok((self, Action::FinishRecording)),
        }
    }

    /// The session once an adapter has started with these settings.
    pub open spec fn started(self, configs: Seq<ChannelConfig>) -> CaptureView {
        CaptureView {
            history: Seq::empty(),
            received: 0,
            transmitted: 0,
            errors: 0,
            dropped: 0,
            connected: true,
            configs,
            error: None,
            ..self
        }
    }

    /// The session once a recording file was created.
    pub open spec fn with_recording(self, path: Seq<char>) -> CaptureView {
        CaptureView { recording: Some(path), recorded: 0, error: None, ..self }
    }

    /// The session once the adapter was asked what it dropped and whether it failed.
    pub open spec fn after_poll(self, dropped: u64, error: Option<Seq<char>>) -> CaptureView {
        if self.connected && error is Some {
            CaptureView { dropped, error, connected: false, recording: None, ..self }
        } else {
            CaptureView { dropped, ..self }
        }
    }

    /// The session once a frame was written, or could not be.
    pub open spec fn after_write(self, result: Result<u64, Seq<char>>) -> CaptureView {
        match result {
            Ok(recorded) => CaptureView { recorded, ..self },
            Err(text) => CaptureView {
                error: Some("CAN recording failed: "@ + text),
                recording: None,
                ..self
            },
        }
    }

    /// The session once its recording file is finished.
    pub open spec fn without_recording(self, error: Option<Seq<char>>) -> CaptureView {
        CaptureView {
            recording: None,
            error: if error is Some {
                error
            } else {
                self.error
            },
            ..self
        }
    }

    /// The session once its adapter has stopped.
    pub open spec fn disconnected(self, error: Option<Seq<char>>) -> CaptureView {
        CaptureView {
            connected: false,
            error: if error is Some {
                error
            } else {
                self.error
            },
            ..self
        }
    }

    /// The session with one more frame, and the frame with its number.
    pub open spec fn counted(self, f: FrameView) -> (CaptureView, FrameView) {
        let sequence = self.sequence.wrapping_add(1);
        let counted = if f.direction == "rx"@ {
            CaptureView { sequence, received: self.received.wrapping_add(1), ..self }
        } else if f.direction == "tx"@ {
            CaptureView { sequence, transmitted: self.transmitted.wrapping_add(1), ..self }
        } else {
            CaptureView { sequence, errors: self.errors.wrapping_add(1), ..self }
        };
        (counted, FrameView { sequence, ..f })
    }

    /// The session with one more frame to show; the oldest makes room for it.
    pub open spec fn kept(self, f: FrameView) -> CaptureView {
        CaptureView {
            history: (if self.history.len() == HISTORY {
                self.history.skip(1)
            } else {
                self.history
            }).push(f),
            ..self
        }
    }
}

/// What a request is answered with.
#[derive(Debug)]
pub struct Snapshot {
    pub connected: bool,
    pub devices: Vec<Device>,
    pub configs: Vec<ChannelConfig>,
    pub frames: Vec<Frame>,
    pub sequence: u64,
    pub received: u64,
    pub transmitted: u64,
    pub errors: u64,
    pub dropped: u64,
    pub skipped: u64,
    pub recording: Option<String>,
    pub recorded: u64,
    pub error: Option<String>,
}

/// What a request's answer says.
#[verifier::ext_equal]
pub struct SnapshotView {
    /// The session, with the sequence as the answer gives it and no history
    pub session: CaptureView,
    pub frames: Seq<FrameView>,
    pub skipped: u64,
}

impl View for Snapshot {
    type V = SnapshotView;

    open spec fn view(&self) -> SnapshotView {
        SnapshotView {
            session: CaptureView {
                connected: self.connected,
                devices: self.devices@,
                configs: self.configs@,
                sequence: self.sequence,
                received: self.received,
                transmitted: self.transmitted,
                errors: self.errors,
                dropped: self.dropped,
                recording: text_of(self.recording),
                recorded: self.recorded,
                error: text_of(self.error),
                history: Seq::empty(),
            },
            frames: frames_of(self.frames@),
            skipped: self.skipped,
        }
    }
}

/// The first `room` frames with a number above `after`.
pub open spec fn newer(history: Seq<FrameView>, after: u64, room: nat) -> Seq<FrameView>
    decreases history.len(),
{
    if history.len() == 0 || room == 0 {
        Seq::empty()
    } else if history[0].sequence > after {
        seq![history[0]] + newer(history.skip(1), after, (room - 1) as nat)
    } else {
        newer(history.skip(1), after, room)
    }
}

/// How many frames between `after` and the oldest that is kept are gone.
pub open spec fn missed(history: Seq<FrameView>, after: u64) -> u64 {
    if history.len() == 0 || history[0].sequence <= after || after == u64::MAX {
        0
    } else {
        (history[0].sequence - after - 1) as u64
    }
}

impl CaptureView {
    /// The answer to a request: to a poll with frames, to others without.
    pub open spec fn shown(self, after: Option<u64>) -> SnapshotView {
        match after {
            None => SnapshotView {
                session: CaptureView { history: Seq::empty(), ..self },
                frames: Seq::empty(),
                skipped: 0,
            },
            Some(after) => {
                let frames = newer(self.history, after, PAGE as nat);
                SnapshotView {
                    session: CaptureView {
                        history: Seq::empty(),
                        sequence: if frames.len() > 0 {
                            frames.last().sequence
                        } else {
                            self.sequence
                        },
                        ..self
                    },
                    frames,
                    skipped: missed(self.history, after),
                }
            },
        }
    }
}

fn copied_devices(devices: &Vec<Device>) -> (r: Vec<Device>)
    ensures
        r@ == devices@,
{
    let mut out: Vec<Device> = Vec::new();
    while out.len() < devices.len()
        invariant
            out@.len() <= devices@.len(),
            out@ == devices@.take(out@.len() as int),
        decreases devices@.len() - out@.len(),
    {
        let i: usize = out.len();
        out.push(devices[i].copy());
        assert(out@ =~= devices@.take(out@.len() as int));
    }
    assert(out@ =~= devices@);
    out
}

fn copied_configs(configs: &Vec<ChannelConfig>) -> (r: Vec<ChannelConfig>)
    ensures
        r@ == configs@,
{
    let mut out: Vec<ChannelConfig> = Vec::new();
    while out.len() < configs.len()
        invariant
            out@.len() <= configs@.len(),
            out@ == configs@.take(out@.len() as int),
        decreases configs@.len() - out@.len(),
    {
        let i: usize = out.len();
        out.push(configs[i]);
        assert(out@ =~= configs@.take(out@.len() as int));
    }
    assert(out@ =~= configs@);
    out
}

fn copied_text(s: &Option<String>) -> (r: Option<String>)
    ensures
        r == *s,
{
    match s {
        Some(s) => Some(s.clone()),
        None => None,
    }
}

impl Capture {
    /// Takes a request up, or refuses it.
    pub fn begin(&mut self, r: &Request, has_adapter: bool) -> (out: Result<Action, String>)
        ensures
            match old(self)@.begun(*r, has_adapter) {
                Ok((after, action)) => final(self)@ == after && out == Ok::<Action, String>(action),
                Err(text) => final(self)@ == old(self)@ && (out matches Err(e) && e@ == text),
            },
    {
        match r {
            Request::Scan { .. } => {
                if self.connected {
                    return Err("Disconnect CAN before scanning".to_owned());
                }
                self.devices = Vec::new();
                assert(self@ =~= CaptureView { devices: Seq::empty(), ..old(self)@ });
                Ok(Action::Scan)
            },
            Request::Connect { .. } => {
                if self.connected {
                    return Err("CAN is already connected".to_owned());
                }
                if self.devices.len() == 0 {
                    return Err("Scan for adapters first".to_owned());
                }
                if has_adapter {
                    Ok(Action::Start)
                } else {
                    Ok(Action::LoadAndStart)
                }
            },
            Request::Disconnect => {
                self.connected = false;
                Ok(Action::Stop)
            },
            Request::Send { .. } => {
                if has_adapter {
                    Ok(Action::Send)
                } else {
                    Err("CAN is disconnected".to_owned())
                }
            },
            Request::Poll { .. } => Ok(Action::Nothing),
            Request::Record { .. } => {
                if !self.connected {
                    return Err("Connect CAN before recording".to_owned());
                }
                if self.recording.is_some() {
                    return Err("Stop the current CAN recording first".to_owned());
                }
                Ok(Action::Create)
            },
            Request::StopRecording => Ok(Action::FinishRecording),
        }
    }

    /// The adapters that a scan found.
    pub fn scanned(&mut self, devices: Vec<Device>)
        ensures
            final(self)@ == (CaptureView { devices: devices@, error: None, ..old(self)@ }),
    {
        self.devices = devices;
        self.error = None;
    }

    /// Whether the adapters found again are as many as before.
    pub fn check_reload(&self, found: usize) -> (r: Result<(), String>)
        ensures
            r is Ok <==> found == self@.devices.len(),
            r matches Err(text) ==> text@ == "Adapters changed; scan again"@,
    {
        if found != self.devices.len() {
            return Err("Adapters changed; scan again".to_owned());
        }
        Ok(())
    }

    /// The adapter has started with these settings: counting begins anew.
    pub fn started(&mut self, configs: &Vec<ChannelConfig>)
        ensures
            final(self)@ == old(self)@.started(configs@),
    {
        self.history = VecDeque::new();
        self.received = 0;
        self.transmitted = 0;
        self.errors = 0;
        self.dropped = 0;
        self.connected = true;
        self.configs = copied_configs(configs);
        self.error = None;
        assert(self@ =~= old(self)@.started(configs@));
    }

    /// The recording file has been created.
    pub fn created(&mut self, path: String)
        ensures
            final(self)@ == old(self)@.with_recording(path@),
    {
        self.recording = Some(path);
        self.recorded = 0;
        self.error = None;
    }

    /// What the adapter says of itself. Whether the recording has to be
    /// finished, because the connection is gone.
    pub fn polled(&mut self, dropped: u64, error: Option<String>) -> (finish: bool)
        ensures
            finish == (old(self)@.connected && error is Some),
            final(self)@ == old(self)@.after_poll(dropped, text_of(error)),
    {
        self.dropped = dropped;
        if self.connected && error.is_some() {
            self.error = error;
            self.connected = false;
            self.recording = None;
            return true;
        }
        false
    }

    /// Numbers and counts a frame.
    pub fn count(&mut self, f: Frame) -> (r: Frame)
        ensures
            (final(self)@, r@) == old(self)@.counted(f@),
    {
        self.sequence = self.sequence.wrapping_add(1);
        let mut f = f;
        f.sequence = self.sequence;
        if same_text(f.direction.as_str(), "rx") {
            self.received = self.received.wrapping_add(1);
        } else if same_text(f.direction.as_str(), "tx") {
            self.transmitted = self.transmitted.wrapping_add(1);
        } else {
            self.errors = self.errors.wrapping_add(1);
        }
        f
    }

    /// What writing a frame to the recording came to: how many it holds, or why
    /// it failed. Whether the recording has to be finished.
    pub fn wrote(&mut self, result: Result<u64, String>) -> (finish: bool)
        ensures
            finish == (result is Err),
            final(self)@ == old(self)@.after_write(
                match result {
                    Ok(count) => Ok(count),
                    Err(e) => Err(e@),
                },
            ),
    {
        match result {
            Ok(count) => {
                self.recorded = count;
                false
            },
            Err(e) => {
                let mut out: String = "CAN recording failed: ".to_owned();
                out.append(e.as_str());
                self.error = Some(out);
                self.recording = None;
                true
            },
        }
    }

    /// Keeps a numbered frame for clients that poll.
    pub fn keep(&mut self, f: Frame)
        ensures
            final(self)@ == old(self)@.kept(f@),
    {
        if self.history.len() == HISTORY {
            let _ = self.history.pop_front();
            assert(frames_of(self.history@) =~= old(self)@.history.skip(1));
        }
        let ghost before = self.history@;
        self.history.push_back(f);
        assert(frames_of(self.history@) =~= frames_of(before).push(f@));
    }

    /// The recording is finished; why that failed, if it did.
    pub fn finished(&mut self, error: Option<String>)
        ensures
            final(self)@ == old(self)@.without_recording(text_of(error)),
    {
        self.recording = None;
        if error.is_some() {
            self.error = error;
        }
    }

    /// The adapter has stopped; what it says was wrong, if something was.
    pub fn stopped(&mut self, error: Option<String>)
        ensures
            final(self)@ == old(self)@.disconnected(text_of(error)),
    {
        self.connected = false;
        if error.is_some() {
            self.error = error;
        }
    }

    /// The first frames with a number above `after`.
    fn newer_frames(&self, after: u64) -> (r: Vec<Frame>)
        ensures
            frames_of(r@) == newer(self@.history, after, PAGE as nat),
    {
        let ghost all = self@.history;
        let mut out: Vec<Frame> = Vec::new();
        let mut i: usize = 0;
        assert(all.skip(0) =~= all);
        assert(frames_of(out@) =~= Seq::<FrameView>::empty());
        assert(newer(all, after, PAGE as nat) =~= frames_of(out@) + newer(
            all.skip(0),
            after,
            PAGE as nat,
        ));
        while i < self.history.len() && out.len() < PAGE
            invariant
                i <= self.history@.len(),
                out@.len() <= PAGE,
                all == self@.history,
                newer(all, after, PAGE as nat) == frames_of(out@) + newer(
                    all.skip(i as int),
                    after,
                    (PAGE - out@.len()) as nat,
                ),
            decreases self.history@.len() - i,
        {
            let ghost rest = all.skip(i as int);
            assert(rest.skip(1) =~= all.skip(i + 1));
            assert(rest[0] == self.history@[i as int]@);
            let f = &self.history[i];
            if f.sequence > after {
                let ghost before = out@;
                out.push(f.copy());
                assert(frames_of(out@) =~= frames_of(before).push(rest[0]));
                assert(newer(all, after, PAGE as nat) =~= frames_of(out@) + newer(
                    all.skip(i + 1),
                    after,
                    (PAGE - out@.len()) as nat,
                ));
            }
            i = i + 1;
        }
        assert(newer(all.skip(i as int), after, (PAGE - out@.len()) as nat) =~= Seq::<
            FrameView,
        >::empty());
        assert(frames_of(out@) =~= newer(all, after, PAGE as nat));
        out
    }

    /// The answer to a request; a poll says which frame it has seen last.
    pub fn snapshot(&self, after: Option<u64>) -> (r: Snapshot)
        ensures
            r@ == self@.shown(after),
    {
        let mut sequence: u64 = self.sequence;
        let mut skipped: u64 = 0;
        let mut frames: Vec<Frame> = Vec::new();
        assert(frames_of(frames@) =~= Seq::<FrameView>::empty());
        if let Some(after) = after {
            if self.history.len() > 0 {
                assert(self@.history[0] == self.history@[0]@);
                let oldest: u64 = self.history[0].sequence;
                if oldest > after {
                    skipped = oldest - after - 1;
                }
            }
            frames = self.newer_frames(after);
            let n: usize = frames.len();
            if n > 0 {
                assert(frames_of(frames@).last() == frames@[n - 1]@);
                sequence = frames[n - 1].sequence;
            }
        }
        Snapshot {
            connected: self.connected,
            devices: copied_devices(&self.devices),
            configs: copied_configs(&self.configs),
            frames,
            sequence,
            received: self.received,
            transmitted: self.transmitted,
            errors: self.errors,
            dropped: self.dropped,
            skipped,
            recording: copied_text(&self.recording),
            recorded: self.recorded,
            error: copied_text(&self.error),
        }
    }
}

/// Whether the kept frames are numbered in a row, up to the last that came.
pub open spec fn in_a_row(c: CaptureView) -> bool {
    forall|i: int|
        0 <= i < c.history.len() ==> (#[trigger] c.history[i]).sequence == c.sequence - (
        c.history.len() - 1 - i)
}

/// Counting and keeping a frame leaves the kept frames numbered in a row, and
/// never more of them than there is room for.
pub proof fn lemma_frames_stay_in_a_row(c: CaptureView, f: FrameView)
    requires
        in_a_row(c),
        c.history.len() <= HISTORY,
        c.sequence < u64::MAX,
    ensures
        ({
            let (counted, numbered) = c.counted(f);
            let kept = counted.kept(numbered);
            in_a_row(kept) && kept.history.len() <= HISTORY && kept.history.last() == numbered
                && numbered.sequence == c.sequence + 1
        }),
{
    let (counted, numbered) = c.counted(f);
    let kept = counted.kept(numbered);
    assert forall|i: int| 0 <= i < kept.history.len() implies (#[trigger] kept.history[i]).sequence
        == kept.sequence - (kept.history.len() - 1 - i) by {
        if i < kept.history.len() - 1 {
            let k = if c.history.len() == HISTORY {
                i + 1
            } else {
                i
            };
            assert(kept.history[i] == c.history[k]);
        }
    }
}

/// What a poll gives of frames that are numbered in a row.
proof fn lemma_newer_in_a_row(history: Seq<FrameView>, last: u64, after: u64, room: nat)
    requires
        forall|i: int|
            0 <= i < history.len() ==> (#[trigger] history[i]).sequence == last - (history.len() - 1
                - i),
        after <= last,
        history.len() > 0 ==> history[0].sequence <= after + 1,
        history.len() == 0 ==> after == last,
    ensures
        ({
            let frames = newer(history, after, room);
            &&& frames.len() == (if last - after < room {
                last - after
            } else {
                room as int
            })
            &&& forall|i: int|
                0 <= i < frames.len() ==> (#[trigger] frames[i]).sequence == after + 1 + i
        }),
    decreases history.len(),
{
    if history.len() > 0 && room > 0 {
        let rest = history.skip(1);
        assert forall|i: int| 0 <= i < rest.len() implies (#[trigger] rest[i]).sequence == last - (
        rest.len() - 1 - i) by {
            assert(rest[i] == history[i + 1]);
        }
        if history[0].sequence > after {
            assert(history[0].sequence == after + 1);
            lemma_newer_in_a_row_from(rest, last, (after + 1) as u64, after, (room - 1) as nat);
            let frames = newer(history, after, room);
            let tail = newer(rest, after, (room - 1) as nat);
            assert(frames =~= seq![history[0]] + tail);
            assert forall|i: int| 0 <= i < frames.len() implies (#[trigger] frames[i]).sequence
                == after + 1 + i by {
                if i > 0 {
                    assert(frames[i] == tail[i - 1]);
                }
            }
        } else {
            lemma_newer_in_a_row(rest, last, after, room);
        }
    }
}

/// Frames that all follow `after`, from the one after `seen` on.
proof fn lemma_newer_in_a_row_from(
    history: Seq<FrameView>,
    last: u64,
    seen: u64,
    after: u64,
    room: nat,
)
    requires
        forall|i: int|
            0 <= i < history.len() ==> (#[trigger] history[i]).sequence == last - (history.len() - 1
                - i),
        after < seen <= last,
        history.len() == last - seen,
    ensures
        ({
            let frames = newer(history, after, room);
            &&& frames.len() == (if last - seen < room {
                last - seen
            } else {
                room as int
            })
            &&& forall|i: int|
                0 <= i < frames.len() ==> (#[trigger] frames[i]).sequence == seen + 1 + i
        }),
    decreases history.len(),
{
    if history.len() > 0 && room > 0 {
        let rest = history.skip(1);
        assert forall|i: int| 0 <= i < rest.len() implies (#[trigger] rest[i]).sequence == last - (
        rest.len() - 1 - i) by {
            assert(rest[i] == history[i + 1]);
        }
        lemma_newer_in_a_row_from(rest, last, (seen + 1) as u64, after, (room - 1) as nat);
        let frames = newer(history, after, room);
        let tail = newer(rest, after, (room - 1) as nat);
        assert(frames =~= seq![history[0]] + tail);
        assert forall|i: int| 0 <= i < frames.len() implies (#[trigger] frames[i]).sequence == seen
            + 1 + i by {
            if i > 0 {
                assert(frames[i] == tail[i - 1]);
            }
        }
    }
}

/// A poll accounts for every frame: those after the one the client has seen
/// last are given in a row, or counted as gone, or still to be polled from the
/// sequence it returns.
pub proof fn lemma_poll_accounts_for_every_frame(c: CaptureView, after: u64)
    requires
        in_a_row(c),
        c.history.len() > 0,
        after <= c.sequence,
    ensures
        ({
            let shown = c.shown(Some(after));
            &&& after + shown.skipped + shown.frames.len() == shown.session.sequence
            &&& shown.session.sequence <= c.sequence
            &&& forall|i: int|
                0 <= i < shown.frames.len() ==> (#[trigger] shown.frames[i]).sequence == after
                    + shown.skipped + 1 + i
        }),
{
    let skipped = missed(c.history, after);
    let from = (after + skipped) as u64;
    assert(c.history.last().sequence == c.sequence);
    assert(c.history[0].sequence <= c.sequence);
    lemma_newer_in_a_row(c.history, c.sequence, from, PAGE as nat);
    lemma_newer_above(c.history, after, from, PAGE as nat);
}

/// Frames that are all above both bounds are the same for both.
proof fn lemma_newer_above(history: Seq<FrameView>, a: u64, b: u64, room: nat)
    requires
        a == b || forall|i: int|
            0 <= i < history.len() ==> (#[trigger] history[i]).sequence > a
                && history[i].sequence > b,
    ensures
        newer(history, a, room) == newer(history, b, room),
    decreases history.len(),
{
    if a != b && history.len() > 0 && room > 0 {
        let rest = history.skip(1);
        assert forall|i: int| 0 <= i < rest.len() implies (#[trigger] rest[i]).sequence > a
            && rest[i].sequence > b by {
            assert(rest[i] == history[i + 1]);
        }
        assert(history[0].sequence > a);
        lemma_newer_above(rest, a, b, (room - 1) as nat);
    }
}

} // verus!
