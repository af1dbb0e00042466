//! Everything the UI asks of the backend, apart from what is done with files,
//! sockets and the target: the settings, the watched set, and the state that a
//! page which starts late is shown.

use vstd::prelude::*;
use vstd::string::*;
use crate::capture::Request;
use crate::catalog::Catalog;
use crate::connect::{Changes, Watches};
#[allow(unused_imports)]
use crate::def_view::text_of;
use crate::elf::ElfInfo;
use crate::session::{plan_watches, WatchMeta, WatchPlan, WatchRequest, WatchResult};
#[allow(unused_imports)]
use crate::session::planned;
use crate::stream::StreamState;
#[allow(unused_imports)]
use crate::stream::{stopped_state, StateView};

verus! {

/// State changes that belong to the app rather than to one session. `R` is the
/// state of a recording.
#[derive(Debug)]
pub enum AppEvent<R> {
    Recording(R),
    Stream(StreamState),
}

/// The recording and stream state, for a page that starts after they did.
#[derive(Debug)]
pub struct AppState<R> {
    pub recording: Option<R>,
    pub stream: StreamState,
}

/// One task's state, or why it could not be read; `S` is a state, `C` the
/// firmware's counters for a task.
#[derive(Debug)]
pub struct TaskStatus<S, C> {
    /// The task slot's node path, as `Task.root.path`
    pub path: String,
    pub state: Option<S>,
    /// Why the state could not be read
    pub error: Option<String>,
    /// What the firmware counted for it, when it keeps counters
    pub counters: Option<C>,
}

/// One look at the tasks.
#[derive(Debug)]
pub struct TaskSnapshot<S, C> {
    pub tasks: Vec<TaskStatus<S, C>>,
    /// Host time of the read, in microseconds from an arbitrary start
    pub host_us: u64,
    /// Whether the firmware links rm-task-stats
    pub has_stats: bool,
    /// Cycle counter frequency, when the counters were read
    pub clock_hz: Option<u32>,
    /// Tasks spawned while every counter slot was taken
    pub untracked: u32,
    /// Why the counters could not be read
    pub stats_error: Option<String>,
}

impl<S, C> TaskStatus<S, C> {
    /// A task's status: `decoded` is what its memory holds, if it could be
    /// read, or why it is not read at all.
    pub fn new(path: String, decoded: Result<Option<S>, String>, counters: Option<C>) -> (r: Self)
        ensures
            r.path == path,
            r.counters == counters,
            match decoded {
                Ok(Some(state)) => r.state == Some(state) && r.error is None,
                Ok(None) => r.state is None && text_of(r.error) == Some("short read"@),
                Err(e) => r.state is None && text_of(r.error) == Some(e@),
            },
    {
        match decoded {
            Ok(Some(state)) => TaskStatus { path, state: Some(state), error: None, counters },
            Ok(None) => TaskStatus {
                path,
                state: None,
                error: Some("short read".to_owned()),
                counters,
            },
            Err(e) => TaskStatus { path, state: None, error: Some(e), counters },
        }
    }
}

/// The app's settings, and what its session and stream are doing.
#[derive(Debug)]
pub struct StudioApp {
    /// Read the defmt log and serve tuning over the firmware's RTT channels
    pub rtt: bool,
    pub recordings_dir: Option<String>,
    pub can_library: Option<String>,
    pub can_worker: Option<String>,
    pub watches: Watches,
    /// The state of the stream that runs
    pub stream: Option<StreamState>,
}

impl StudioApp {
    pub fn new() -> (r: Self)
        ensures
            r.rtt,
            r.recordings_dir is None,
            r.can_library is None,
            r.can_worker is None,
            r.watches.items@.len() == 0,
            r.watches.cells@.len() == 0,
            r.stream is None,
    {
        StudioApp {
            rtt: true,
            recordings_dir: None,
            can_library: None,
            can_worker: None,
            watches: Watches::new(),
            stream: None,
        }
    }

    /// Leave the firmware's RTT channels alone: no log, no tuning over RTT.
    /// Reading the log moves the channel's read offset, which is a write to
    /// target memory.
    pub fn without_rtt(self) -> (r: Self)
        ensures
            r == (StudioApp { rtt: false, ..self }),
    {
        let mut app = self;
        app.rtt = false;
        app
    }

    /// Where a recording goes when no path is given.
    pub fn set_recordings_dir(&mut self, dir: String)
        ensures
            *final(self) == (StudioApp { recordings_dir: Some(dir), ..*old(self) }),
    {
        self.recordings_dir = Some(dir);
    }

    /// Override the child executable before making any CAN requests.
    pub fn with_can_worker_executable(self, path: String) -> (r: Self)
        ensures
            r == (StudioApp { can_worker: Some(path), ..self }),
    {
        let mut app = self;
        app.can_worker = Some(path);
        app
    }

    /// Which library CAN adapters are looked for with when none is given.
    pub fn set_can_library(&mut self, path: String)
        ensures
            *final(self) == (StudioApp { can_library: Some(path), ..*old(self) }),
    {
        self.can_library = Some(path);
    }

    /// A CAN request as it is carried out: a scan that names no library takes
    /// the one that was set.
    pub fn can_request(&self, request: Request) -> (r: Request)
        ensures
            match request {
                Request::Scan { library: None } => r matches Request::Scan { library }
                    && text_of(library) == text_of(self.can_library),
                _ => r == request,
            },
    {
        match request {
            Request::Scan { library: None } => Request::Scan {
                library: match &self.can_library {
                    Some(path) => Some(path.clone()),
                    None => None,
                },
            },
            other => other,
        }
    }

    /// The state that a page which starts late is shown.
    pub fn app_state<R>(&self, recording: Option<R>) -> (r: AppState<R>)
        ensures
            r.recording == recording,
            r.stream@ == (match self.stream {
                Some(state) => state@,
                None => stopped_state(),
            }),
    {
        AppState {
            recording,
            stream: match &self.stream {
                Some(state) => copy_state(state),
                None => StreamState::stopped(),
            },
        }
    }

    /// Takes what opening the stream's listener came to, after any earlier one
    /// was closed. The second state goes to the UI.
    pub fn start_stream(&mut self, address: Result<String, String>, bind_all: bool) -> (r: (
        Result<StreamState, String>,
        Option<StreamState>,
    ))
        ensures
            *final(self) == (StudioApp { stream: final(self).stream, ..*old(self) }),
            match address {
                Ok(address) => {
                    let state = StateView {
                        listening: true,
                        address: Some(address@),
                        bind_all,
                        clients: 0,
                        dropped: 0,
                        error: None,
                    };
                    &&& r.0 matches Ok(got)
                    &&& got@ == state
                    &&& r.1 is None
                    &&& final(self).stream matches Some(kept)
                    &&& kept@ == state
                },
                Err(e) => {
                    &&& r.0 matches Err(got)
                    &&& got@ == e@
                    &&& r.1 matches Some(shown)
                    &&& shown@ == (StateView { error: Some(e@), ..stopped_state() })
                    &&& final(self).stream is None
                },
            },
    {
        match address {
            Ok(address) => {
                let state = StreamState::started(address, bind_all);
                let shown = copy_state(&state);
                self.stream = Some(state);
                (Ok(shown), None)
            },
            Err(e) => {
                self.stream = None;
                (Err(e.clone()), Some(StreamState::failed(e)))
            },
        }
    }

    /// Stops the stream; the state it leaves goes to the UI.
    pub fn stop_stream(&mut self) -> (r: StreamState)
        ensures
            r@ == (match old(self).stream {
                Some(state) => StateView { listening: false, clients: 0, ..state@ },
                None => stopped_state(),
            }),
            *final(self) == (StudioApp { stream: None, ..*old(self) }),
    {
        let mut state: Option<StreamState> = None;
        std::mem::swap(&mut state, &mut self.stream);
        match state {
            Some(state) => state.ended(),
            None => StreamState::stopped(),
        }
    }

    /// Resolves watches and takes those that can be sampled: what each came to,
    /// what the session has to be told, and how recordings and the stream
    /// describe them.
    pub fn set_watches(
        &mut self,
        elf: Option<&ElfInfo>,
        catalog: Option<&Catalog>,
        watches: &Vec<WatchRequest>,
    ) -> (r: (Vec<WatchResult>, Changes, Vec<WatchMeta>))
        ensures
            ({
                let plan = planned(
                    match elf {
                        Some(elf) => Some(*elf),
                        None => None,
                    },
                    match catalog {
                        Some(c) => Some(*c),
                        None => None,
                    },
                    watches@,
                );
                &&& r.0@.map_values(|w: WatchResult| (w.id, text_of(w.error))) == plan.results
                &&& r.2@.map_values(|m: WatchMeta| m@) == plan.metas
                &&& final(self).watches.items@ == plan.items
                &&& final(self).watches.cells@ == plan.cells
                &&& r.1 == (Changes {
                    items: old(self).watches.items@ != plan.items,
                    cells: old(self).watches.cells@ != plan.cells,
                })
            }),
            *final(self) == (StudioApp { watches: final(self).watches, ..*old(self) }),
    {
        let plan: WatchPlan = plan_watches(elf, catalog, watches);
        let changes: Changes = self.watches.take(plan.items, plan.cells);
        (plan.results, changes, plan.metas)
    }
}

fn copy_text(s: &Option<String>) -> (r: Option<String>)
    ensures
        text_of(r) == text_of(*s),
{
    match s {
        Some(s) => Some(s.clone()),
        None => None,
    }
}

fn copy_state(s: &StreamState) -> (r: StreamState)
    ensures
        r@ == s@,
{
    StreamState {
        listening: s.listening,
        address: copy_text(&s.address),
        bind_all: s.bind_all,
        clients: s.clients,
        dropped: s.dropped,
        error: copy_text(&s.error),
    }
}

} // verus!
