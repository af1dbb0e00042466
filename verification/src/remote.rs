//! The process boundary around the CAN adapter's SDK: a crash of the vendor's
//! code cannot take down the studio. Both ends, without the pipe between them.

use vstd::prelude::*;
use vstd::string::*;
use crate::can::{ChannelConfig, Device, Frame, FrameView, Transmit};
#[allow(unused_imports)]
use crate::capture::frames_of;
#[allow(unused_imports)]
use crate::def_view::text_of;

verus! {

/// What the studio asks of the SDK's process.
#[derive(Debug)]
pub enum Request {
    Scan { library: Option<String> },
    Start { index: i32, channels: u8, configs: Vec<ChannelConfig> },
    Send { frame: Transmit },
    Poll,
    Stop,
}

/// What it answers.
#[derive(Debug)]
pub struct Response {
    pub devices: Vec<Device>,
    pub frames: Vec<Frame>,
    pub dropped: u64,
    pub error: Option<String>,
}

impl Default for Response {
    fn default() -> (r: Self)
        ensures
            r.devices@.len() == 0,
            r.frames@.len() == 0,
            r.dropped == 0,
            r.error is None,
    {
        Response { devices: Vec::new(), frames: Vec::new(), dropped: 0, error: None }
    }
}

/// The studio's end: what it knows of the SDK's process.
#[derive(Debug)]
pub struct Remote {
    /// The process was ended
    pub stopped: bool,
    /// Frames that came with the answer to a stop
    pub pending: Vec<Frame>,
    pub dropped: u64,
    /// Why the process was given up
    pub error: Option<String>,
}

/// The studio's end.
#[verifier::ext_equal]
pub struct RemoteView {
    pub stopped: bool,
    pub pending: Seq<FrameView>,
    pub dropped: u64,
    pub error: Option<Seq<char>>,
}

impl View for Remote {
    type V = RemoteView;

    open spec fn view(&self) -> RemoteView {
        RemoteView {
            stopped: self.stopped,
            pending: frames_of(self.pending@),
            dropped: self.dropped,
            error: text_of(self.error),
        }
    }
}

/// How frames are got next.
#[derive(Debug)]
pub enum Drain {
    Frames(Vec<Frame>),
    /// Ask the process
    Poll,
}

/// What is said of a process that does not answer.
pub fn late() -> (r: String)
    ensures
        r@ == "Damiao SDK worker did not respond within 10 seconds; scan again"@,
{
    "Damiao SDK worker did not respond within 10 seconds; scan again".to_owned()
}

impl RemoteView {
    /// After an answer, or the reason why there was none: then the process is
    /// given up.
    pub open spec fn answered(self, answer: Result<Response, String>) -> RemoteView {
        match answer {
            Ok(response) => RemoteView { dropped: response.dropped, ..self },
            Err(e) => RemoteView { error: Some(e@), stopped: true, ..self },
        }
    }
}

/// What a call comes to: a process that answers with an error keeps running.
pub open spec fn call_outcome(answer: Result<Response, String>) -> Result<Response, Seq<char>> {
    match answer {
        Err(e) => Err(e@),
        Ok(response) => match response.error {
            Some(e) => Err(e@),
            None => Ok(response),
        },
    }
}

impl Remote {
    pub fn new() -> (r: Self)
        ensures
            r@ == (RemoteView { stopped: false, pending: Seq::empty(), dropped: 0, error: None }),
    {
        let r = Remote { stopped: false, pending: Vec::new(), dropped: 0, error: None };
        assert(r@.pending =~= Seq::empty());
        r
    }

    /// Takes an answer; the process is to be ended when `self` is stopped.
    pub fn answer(&mut self, answer: Result<Response, String>) -> (r: Result<Response, String>)
        ensures
            final(self)@ == old(self)@.answered(answer),
            match call_outcome(answer) {
                Ok(response) => r == Ok::<Response, String>(response),
                Err(text) => r matches Err(e) && e@ == text,
            },
    {
        match answer {
            Err(e) => {
                self.error = Some(e.clone());
                self.stopped = true;
                Err(e)
            },
            Ok(response) => {
                self.dropped = response.dropped;
                match response.error {
                    Some(e) => Err(e),
                    None => Ok(response),
                }
            },
        }
    }

    /// Forgets an earlier error before an adapter is started.
    pub fn starting(&mut self)
        ensures
            final(self)@ == (RemoteView { error: None, ..old(self)@ }),
    {
        self.error = None;
    }

    /// How frames are got next: those that are kept, else none from a process
    /// that was given up or ended, else by asking.
    pub fn drain(&mut self) -> (r: Drain)
        ensures
            match r {
                Drain::Frames(frames) => frames_of(frames@) == old(self)@.pending && (
                old(self)@.pending.len() > 0 || old(self)@.error is Some || old(self)@.stopped),
                Drain::Poll => old(self)@.pending.len() == 0 && old(self)@.error is None
                    && !old(self)@.stopped,
            },
            final(self)@ == (RemoteView { pending: Seq::empty(), ..old(self)@ }),
    {
        if self.pending.len() > 0 {
            let mut frames: Vec<Frame> = Vec::new();
            std::mem::swap(&mut frames, &mut self.pending);
            assert(self@.pending =~= Seq::empty());
            return Drain::Frames(frames);
        }
        assert(self@.pending =~= Seq::empty());
        if self.error.is_some() || self.stopped {
            let none: Vec<Frame> = Vec::new();
            assert(frames_of(none@) =~= Seq::empty());
            Drain::Frames(none)
        } else {
            Drain::Poll
        }
    }

    /// The frames of an answer; one that failed has none.
    pub fn polled(&mut self, answer: Result<Response, String>) -> (r: Vec<Frame>)
        ensures
            final(self)@ == old(self)@.answered(answer),
            r@ == (match call_outcome(answer) {
                Ok(response) => response.frames@,
                Err(_) => Seq::empty(),
            }),
    {
        match self.answer(answer) {
            Ok(response) => response.frames,
            Err(_) => {
                let none: Vec<Frame> = Vec::new();
                assert(none@ =~= Seq::empty());
                none
            },
        }
    }

    /// Whether the process is asked to stop before it is ended.
    pub fn asks_stop(&self) -> (r: bool)
        ensures
            r == (self@.error is None && !self@.stopped),
    {
        self.error.is_none() && !self.stopped
    }

    /// Takes the answer to a stop, if there was one, and keeps the frames that
    /// came with it; the process is ended in any case.
    pub fn stop(&mut self, answer: Option<Result<Response, String>>)
        ensures
            final(self)@ == (match answer {
                None => RemoteView { stopped: true, ..old(self)@ },
                Some(answer) => {
                    let after = old(self)@.answered(answer);
                    RemoteView {
                        stopped: true,
                        pending: match call_outcome(answer) {
                            Ok(response) => frames_of(response.frames@),
                            Err(_) => after.pending,
                        },
                        ..after
                    }
                },
            }),
    {
        if let Some(answer) = answer {
            if let Ok(response) = self.answer(answer) {
                self.pending = response.frames;
            }
        }
        self.stopped = true;
    }
}

/// What the SDK's process does for a request.
#[derive(Debug, Copy, Clone, PartialEq, Eq, Structural)]
pub enum Task {
    /// Load the library and look for adapters
    Load,
    Start,
    Send,
    Drain,
    /// Stop the adapter and drain it until nothing comes
    StopAndDrain,
    Nothing,
}

/// What the SDK's process does for a request, or why it refuses: it looks for
/// adapters once, and before anything else.
pub fn work(request: &Request, loaded: bool) -> (r: Result<Task, String>)
    ensures
        match *request {
            Request::Scan { .. } => if loaded {
                r matches Err(e) && e@ == "Scan requires a fresh SDK worker"@
            } else {
                r == Ok::<Task, String>(Task::Load)
            },
            Request::Start { .. } => if loaded {
                r == Ok::<Task, String>(Task::Start)
            } else {
                r matches Err(e) && e@ == "Scan first"@
            },
            Request::Send { .. } => if loaded {
                r == Ok::<Task, String>(Task::Send)
            } else {
                r matches Err(e) && e@ == "Scan first"@
            },
            Request::Poll => r == Ok::<Task, String>(
                if loaded {
                    Task::Drain
                } else {
                    Task::Nothing
                },
            ),
            Request::Stop => r == Ok::<Task, String>(
                if loaded {
                    Task::StopAndDrain
                } else {
                    Task::Nothing
                },
            ),
        },
{
    match request {
        Request::Scan { .. } => if loaded {
            Err("Scan requires a fresh SDK worker".to_owned())
        } else {
            Ok(Task::Load)
        },
        Request::Start { .. } => if loaded {
            Ok(Task::Start)
        } else {
            Err("Scan first".to_owned())
        },
        Request::Send { .. } => if loaded {
            Ok(Task::Send)
        } else {
            Err("Scan first".to_owned())
        },
        Request::Poll => if loaded {
            Ok(Task::Drain)
        } else {
            Ok(Task::Nothing)
        },
        Request::Stop => if loaded {
            Ok(Task::StopAndDrain)
        } else {
            Ok(Task::Nothing)
        },
    }
}

} // verus!
