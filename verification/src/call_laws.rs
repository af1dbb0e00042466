//! How the calls of the library relate: what one leaves for the next to find.

use vstd::prelude::*;
use vstd::string::*;
use vstd::utf8::encode_utf8;
use crate::app::StudioApp;
use crate::can::{Device, Frame};
use crate::capture::{Capture, Request};
use crate::catalog::ReadItem;
use crate::connect::{
    deal, lemma_every_task_gets_its_own, read_outcome, regions_for, Changes, Probe, Reply, Watches,
};
use crate::def_view::text_of;
use crate::node_ref::NodeRef;
use crate::remote::{Drain, Remote, Response};
use crate::server::{tunables, Server};
use crate::store::{encode, plan, Plan, Slot};
use crate::stream::{
    publishes, reaped, Fanout, LineWrite, Losses, Sent, StreamState, TuneValue, WriteStep, Wrote,
};
use crate::table::{
    fnv_of, Access, Kind, Table, TableError, Tunable, WatchBool, WatchF32, WatchI32, WatchU32,
};
use crate::type_def::{TypeDef, TypeId};
use crate::type_handle::TypeHandle;
use crate::type_table::{def_in, size_of_type, underlying_at};
use crate::values::ValueReads;
use crate::wire::{Overflow, Status};

verus! {

/// A tunable value begins at its default, takes requests while the firmware runs, and
/// keeps the name, unit and bounds it was made with; made safe-only, that alone changes.
pub proof fn lemma_tunables_begin_at_their_default(
    name: &str,
    unit: &str,
    default: u32,
    min: u32,
    max: u32,
    max_step: u32,
    r: Tunable,
    safe: Tunable,
)
    requires
        call_ensures(Tunable::new, (name, unit, default, min, max, max_step), r),
        call_ensures(Tunable::safe_only, (r,), safe),
    ensures
        r@.requested == default && r@.applied == default && r@.default == default,
        r@.min == min && r@.max == max && r@.max_step == max_step,
        r@.name == name@ && r@.unit == unit@,
        r@.kind == Kind::F32,
        r@.access == Access::Live,
        r@.id == fnv_of(encode_utf8(name@)),
        safe@.access == Access::SafeOnly,
        safe@.descriptor() != r@.descriptor() ==> safe@.access != r@.access,
        safe@.requested == r@.requested && safe@.applied == r@.applied && safe@.default
            == r@.default,
        safe@.min == r@.min && safe@.max == r@.max && safe@.max_step == r@.max_step,
        safe@.name == r@.name && safe@.unit == r@.unit && safe@.id == r@.id && safe@.kind
            == r@.kind,
{
}

/// What is asked of a value is what it was asked for last, and what it runs with is
/// what it was given last; its description stays as it is.
pub proof fn lemma_requests_reach_the_value(t: &mut Tunable, bits: u32)
    requires
        call_ensures(Tunable::request, (t, bits), ()),
    ensures
        final(t)@.requested == bits,
        final(t)@.applied == old(t)@.applied,
        final(t)@.descriptor() == old(t)@.descriptor(),
        final(t)@.name == old(t)@.name,
{
}

/// Applying a value gives what it runs with from then on, and leaves a request that
/// its bounds allow.
pub proof fn lemma_applied_values_run(t: &mut Tunable, current: u32, r: u32)
    requires
        call_ensures(Tunable::apply, (t, current), r),
    ensures
        final(t)@.applied == r,
        final(t)@.requested == old(t)@.target(current),
        final(t)@.descriptor() == old(t)@.descriptor(),
{
}

/// What is published of a watched value is what it shows: a number by its bits, a flag
/// as 1 or 0.
pub proof fn lemma_published_values_are_shown(
    f: &mut WatchF32,
    i: &mut WatchI32,
    u: &mut WatchU32,
    b: &mut WatchBool,
    bits: u32,
    number: i32,
    flag: bool,
)
    requires
        call_ensures(WatchF32::publish, (f, bits), ()),
        call_ensures(WatchI32::publish, (i, number), ()),
        call_ensures(WatchU32::publish, (u, bits), ()),
        call_ensures(WatchBool::publish, (b, flag), ()),
    ensures
        final(f)@.applied == bits,
        final(u)@.applied == bits,
        (final(i)@.applied - number) % 0x1_0000_0000 == 0,
        final(b)@.applied == (if flag {
            1u32
        } else {
            0u32
        }),
        final(f)@.descriptor() == old(f)@.descriptor(),
        final(i)@.descriptor() == old(i)@.descriptor(),
        final(u)@.descriptor() == old(u)@.descriptor(),
        final(b)@.descriptor() == old(b)@.descriptor(),
        final(i)@.requested == old(i)@.requested,
        final(b)@.requested == old(b)@.requested,
{
}

/// A watched value is of the kind it was made as.
pub proof fn lemma_watched_values_have_their_kind(
    name: &str,
    unit: &str,
    f: WatchF32,
    i: WatchI32,
    u: WatchU32,
    b: WatchBool,
)
    requires
        call_ensures(WatchF32::new, (name, unit), f),
        call_ensures(WatchI32::new, (name, unit), i),
        call_ensures(WatchU32::new, (name, unit), u),
        call_ensures(WatchBool::new, (name, unit), b),
    ensures
        f@.kind == Kind::F32 && i@.kind == Kind::I32 && u@.kind == Kind::U32 && b@.kind
            == Kind::Bool,
        f@.name == name@ && i@.name == name@ && u@.name == name@ && b@.name == name@,
        f@.unit == unit@ && i@.unit == unit@ && u@.unit == unit@ && b@.unit == unit@,
        !f@.tunable() && !i@.tunable() && !u@.tunable() && !b@.tunable(),
{
}

/// Each value of a table is reached by its place and no other is touched; neither
/// requests nor values change the table's fingerprint.
pub proof fn lemma_tables_change_one_value(
    t: &mut Table,
    index: usize,
    bits: u32,
    before: u32,
    after: u32,
    k: int,
)
    requires
        index < old(t)@.len(),
        0 <= k < old(t)@.len(),
        call_ensures(Table::request, (t, index, bits), ()) || call_ensures(
            Table::publish,
            (t, index, bits),
            (),
        ),
        call_ensures(Table::fingerprint, (&*old(t),), before),
        call_ensures(Table::fingerprint, (&*final(t),), after),
    ensures
        final(t)@.len() == old(t)@.len(),
        k != index ==> final(t)@[k] == old(t)@[k],
        call_ensures(Table::request, (t, index, bits), ()) ==> final(t)@[index as int].requested
            == bits && final(t)@[index as int].applied == old(t)@[index as int].applied,
        call_ensures(Table::publish, (t, index, bits), ()) ==> final(t)@[index as int].applied
            == bits && final(t)@[index as int].requested == old(t)@[index as int].requested,
        before == after,
{
    let a = old(t)@;
    let b = final(t)@;
    assert forall|j: int| 0 <= j < a.len() implies (#[trigger] a[j]).descriptor()
        == b[j].descriptor() by {}
    lemma_same_descriptions(a, b);
}

proof fn lemma_same_descriptions(
    a: Seq<crate::table::EntryView>,
    b: Seq<crate::table::EntryView>,
)
    requires
        a.len() == b.len(),
        forall|j: int| 0 <= j < a.len() ==> (#[trigger] a[j]).descriptor() == b[j].descriptor(),
    ensures
        crate::table::descriptors(a) == crate::table::descriptors(b),
    decreases a.len(),
{
    if a.len() > 0 {
        assert forall|j: int| 0 <= j < a.len() - 1 implies (#[trigger] a.drop_last()[j]).descriptor()
            == b.drop_last()[j].descriptor() by {
            assert(a[j].descriptor() == b[j].descriptor());
        }
        lemma_same_descriptions(a.drop_last(), b.drop_last());
        assert(a[a.len() - 1].descriptor() == b[b.len() - 1].descriptor());
    }
}

/// A table is valid where no two of its values share an id; where two do, the error
/// names two that do.
pub proof fn lemma_valid_tables_tell_values_apart(t: Table, r: Result<(), TableError>)
    requires
        call_ensures(Table::validate, (&t,), r),
    ensures
        r is Ok <==> forall|i: int, j: int|
            0 <= i < j < t@.len() ==> (#[trigger] t@[i]).id != (#[trigger] t@[j]).id,
        r matches Err(TableError::DuplicateId { first, second }) ==> exists|i: int, j: int|
            0 <= i < j < t@.len() && (#[trigger] t@[i]).id == (#[trigger] t@[j]).id && first@
                == t@[i].name && second@ == t@[j].name,
{
}

/// A value is found under its id, the first that has it.
pub proof fn lemma_values_are_found_by_id(t: Table, id: u32, r: Option<usize>, k: int)
    requires
        call_ensures(Table::find, (&t, id), r),
        0 <= k < t@.len(),
        t@.len() <= usize::MAX,
    ensures
        r matches Some(i) ==> i < t@.len() && t@[i as int].id == id && (k < i ==> t@[k].id != id),
        r is None ==> t@[k].id != id,
{
    crate::table::lemma_position_is(t@, id);
}

/// A stream that starts listens where it was told to and has no clients yet; one that
/// could not says why, and one that ended keeps what it had but its clients.
pub proof fn lemma_streams_start_and_end(
    address: String,
    bind_all: bool,
    error: String,
    started: StreamState,
    failed: StreamState,
    ended: StreamState,
    stopped: StreamState,
)
    requires
        call_ensures(StreamState::started, (address, bind_all), started),
        call_ensures(StreamState::failed, (error,), failed),
        call_ensures(StreamState::ended, (started,), ended),
        call_ensures(StreamState::stopped, (), stopped),
    ensures
        started@.listening && started@.address == Some(address@) && started@.bind_all == bind_all,
        started@.clients == 0 && started@.dropped == 0 && started@.error is None,
        !failed@.listening && failed@.error == Some(error@) && failed@.address is None,
        failed@.clients == 0 && failed@.dropped == 0 && !failed@.bind_all,
        !ended@.listening && ended@.address == Some(address@) && ended@.bind_all == bind_all,
        ended@.clients == 0,
        !stopped@.listening && stopped@.address is None && stopped@.error is None,
        stopped@.clients == 0 && stopped@.dropped == 0 && !stopped@.bind_all,
{
}

/// A state is published when something changed, and from time to time where it is not
/// what was published before.
pub proof fn lemma_states_are_published_when_they_change(
    changed: bool,
    due: bool,
    state: StreamState,
    reported: StreamState,
    r: bool,
)
    requires
        call_ensures(publishes, (changed, due, &state, &reported), r),
    ensures
        changed ==> r,
        !changed && !due ==> !r,
        !changed && state@ == reported@ ==> !r,
        due && state@ != reported@ ==> r,
{
}

/// A line is written from its start on, each part behind the one before, until all of
/// it is; a failure or an end stops it.
pub proof fn lemma_lines_are_written_part_by_part(
    w: &mut LineWrite,
    wrote: Wrote,
    alive: bool,
    again: bool,
    step: WriteStep,
)
    requires
        old(w).wf(),
        call_ensures(LineWrite::wrote, (w, wrote), again),
        call_ensures(LineWrite::next, (&*final(w), alive), step),
    ensures
        again <==> wrote == Wrote::WouldBlock,
        wrote == Wrote::Failed || wrote == Wrote::Bytes(0) || old(w).failed ==> step
            == WriteStep::Stop,
        wrote matches Wrote::Bytes(n) ==> (n > 0 && !old(w).failed && alive && old(w).at + n
            < old(w).len ==> step == (WriteStep::Write { from: (old(w).at + n) as usize })),
        wrote matches Wrote::Bytes(n) ==> (n > 0 && !old(w).failed && old(w).at + n == old(w).len
            ==> step == WriteStep::Written),
        wrote == Wrote::WouldBlock && !old(w).failed && alive && old(w).at < old(w).len ==> step
            == (WriteStep::Write { from: old(w).at }),
        !alive && final(w).at < final(w).len ==> step == WriteStep::Stop,
{
}

/// A line begins unwritten.
pub proof fn lemma_lines_begin_unwritten(len: usize, r: LineWrite, step: WriteStep)
    requires
        call_ensures(LineWrite::new, (len,), r),
        call_ensures(LineWrite::next, (&r, true), step),
    ensures
        r.wf(),
        len > 0 ==> step == (WriteStep::Write { from: 0 }),
        len == 0 ==> step == WriteStep::Written,
{
}

/// A client stays while it takes its lines or has not missed more batches than it may;
/// one that is gone goes.
pub proof fn lemma_slow_clients_are_let_go(
    l: &mut Losses,
    sent: Sent,
    batch: bool,
    limit: u64,
    stays: bool,
)
    requires
        old(l).counts(),
        call_ensures(Losses::line_offered, (l, sent, batch, limit), stays),
    ensures
        sent == Sent::Taken ==> stays && *final(l) == *old(l),
        sent == Sent::Gone ==> !stays,
        sent == Sent::Full && batch ==> (stays <==> old(l).pending_batches + 1 <= limit),
        sent == Sent::Full && !batch ==> (stays <==> old(l).pending_batches <= limit),
{
}

/// A notice tells the batches and the messages that were missed, and is owed where
/// there are any.
pub proof fn lemma_notices_tell_what_was_missed(l: Losses, r: Option<(u64, u64)>)
    requires
        call_ensures(Losses::notice, (&l,), r),
    ensures
        r is Some <==> l.pending_batches > 0 || l.pending_messages > 0,
        r matches Some((batches, messages)) ==> batches == l.pending_batches && messages
            == l.pending_messages,
{
}

/// Numbers go up by one, a new client begins with nothing missed, and what the tap
/// lost is told once.
pub proof fn lemma_fanouts_count(
    f: &mut Fanout,
    g: &mut Fanout,
    h: &mut Fanout,
    seq: u64,
    lost: u64,
    told: Option<u64>,
)
    requires
        call_ensures(Fanout::next_seq, (f,), seq),
        call_ensures(Fanout::add, (g,), ()),
        call_ensures(Fanout::tap_lost, (h, lost), told),
    ensures
        seq == old(f).seq + 1,
        final(f).seq == seq,
        final(f).clients == old(f).clients && final(f).names == old(f).names,
        final(g).clients@.len() == old(g).clients@.len() + 1,
        final(g).clients@.last().dropped == 0,
        !final(g).clients@.last().owes_notice(),
        final(g).clients@.drop_last() == old(g).clients@,
        final(g).seq == old(g).seq,
        told matches Some(n) ==> n > 0 && final(h).tap_dropped == old(h).tap_dropped + n
            && final(h).tap_dropped == lost,
        told is None ==> *final(h) == *old(h) && lost <= old(h).tap_dropped,
        final(h).clients == old(h).clients && final(h).seq == old(h).seq,
{
    assert(final(g).clients@.drop_last() =~= old(g).clients@);
}

/// Values are told where one is new or has changed, or where they are to be told
/// anyway; and what was told is what is known.
pub proof fn lemma_changed_values_are_told(
    f: &mut Fanout,
    values: Vec<TuneValue>,
    anyway: bool,
    told: bool,
    i: int,
)
    requires
        call_ensures(Fanout::tune_values, (f, values, anyway), told),
        0 <= i < values@.len(),
    ensures
        anyway ==> told,
        told ==> final(f).tune@ == values@,
        !told ==> *final(f) == *old(f),
        final(f).clients == old(f).clients && final(f).names == old(f).names && final(f).seq
            == old(f).seq,
        !told ==> exists|k: int|
            0 <= k < old(f).tune@.len() && (#[trigger] old(f).tune@[k]).id == values@[i].id
                && crate::stream::f64_eq(old(f).tune@[k].requested, values@[i].requested)
                && crate::stream::f64_eq(old(f).tune@[k].applied, values@[i].applied),
{
    if !told {
        let known = crate::stream::by_id(old(f).tune@);
        assert(known.contains_key(values@[i].id) && known[values@[i].id].same_as(values@[i]));
        lemma_known_value(old(f).tune@, values@[i].id);
    }
}

proof fn lemma_known_value(values: Seq<TuneValue>, id: u32)
    ensures
        crate::stream::by_id(values).contains_key(id) ==> exists|k: int|
            0 <= k < values.len() && #[trigger] values[k] == crate::stream::by_id(values)[id]
                && values[k].id == id,
    decreases values.len(),
{
    if values.len() > 0 {
        lemma_known_value(values.drop_last(), id);
        if crate::stream::by_id(values).contains_key(id) {
            if values.last().id == id {
                assert(values[values.len() - 1] == crate::stream::by_id(values)[id]);
            } else {
                let k = choose|k: int|
                    0 <= k < values.len() - 1 && #[trigger] values.drop_last()[k]
                        == crate::stream::by_id(values.drop_last())[id];
                assert(values[k] == crate::stream::by_id(values)[id]);
            }
        }
    }
}

/// A new session has its own names and no values yet; clients and counts stay.
pub proof fn lemma_sessions_bring_their_names(f: &mut Fanout, names: Vec<(u32, String)>)
    requires
        call_ensures(Fanout::session_started, (f, names), ()),
    ensures
        final(f).names@ == names@,
        final(f).tune@.len() == 0,
        final(f).clients == old(f).clients,
        final(f).seq == old(f).seq,
        final(f).lost() == old(f).lost(),
{
}

/// A sample that could not be sent is not counted as sent but as dropped.
pub proof fn lemma_dropped_samples_are_counted(s: &mut Server)
    requires
        call_ensures(Server::sample_dropped, (s,), ()),
        old(s)@.sent > 0,
        old(s)@.dropped < u32::MAX,
    ensures
        final(s)@.sent == old(s)@.sent - 1,
        final(s)@.dropped == old(s)@.dropped + 1,
        final(s)@.watches == old(s)@.watches && final(s)@.lease == old(s)@.lease && final(s)@.save
            == old(s)@.save,
{
}

/// A server begins with nobody served; saving is offered where there is storage, and a
/// save that was taken up is answered once.
pub proof fn lemma_saves_are_answered_once(
    with: Server,
    without: Server,
    s: &mut Server,
    result: Result<u32, Status>,
    reply: Vec<u8>,
    pending: bool,
    still: bool,
)
    requires
        call_ensures(Server::new, (), with),
        call_ensures(Server::without_storage, (), without),
        call_ensures(Server::save_pending, (&*old(s),), pending),
        call_ensures(Server::finish_save, (s, result), reply),
        call_ensures(Server::save_pending, (&*final(s),), still),
    ensures
        with@.save_supported && !without@.save_supported,
        with@.watches.len() == 0 && with@.lease is None && with@.save is None,
        without@.watches.len() == 0 && without@.lease is None && without@.save is None,
        !still,
        !pending ==> reply@.len() == 0,
        pending <==> old(s)@.save is Some,
        final(s)@.lease == old(s)@.lease && final(s)@.watches == old(s)@.watches,
{
}

/// A record is never written over the newest one, and its generation is the next.
pub proof fn lemma_saving_spares_the_newest(a: Option<u32>, b: Option<u32>, r: Plan)
    requires
        call_ensures(plan, (a, b), r),
    ensures
        r.target == Slot::A ==> a is None || b is Some && b->0 > a->0,
        r.target == Slot::B ==> a is Some && (b is None || b->0 <= a->0),
        a is None && b is None ==> r.newest is None && r.next_generation == 1,
        a matches Some(g) ==> (r.newest == Some(Slot::A) && g < u32::MAX ==> r.next_generation == g
            + 1),
        b matches Some(g) ==> (r.newest == Some(Slot::B) && g < u32::MAX ==> r.next_generation == g
            + 1),
{
}

/// Frames that are held are handed out once; where there are none the process is
/// asked, unless it failed or stopped.
pub proof fn lemma_held_frames_are_handed_out(v: &mut Remote, r: Drain)
    requires
        call_ensures(Remote::drain, (v,), r),
    ensures
        final(v)@.pending.len() == 0,
        final(v)@.error == old(v)@.error && final(v)@.stopped == old(v)@.stopped
            && final(v)@.dropped == old(v)@.dropped,
        r is Poll <==> old(v)@.pending.len() == 0 && old(v)@.error is None && !old(v)@.stopped,
        r matches Drain::Frames(frames) ==> frames@.len() == old(v)@.pending.len() && forall|i: int|
            0 <= i < frames@.len() ==> (#[trigger] frames@[i])@ == old(v)@.pending[i],
{
}

/// A process that was asked to stop is stopped whatever it answers, and the frames of
/// its answer are kept.
pub proof fn lemma_stopped_processes_leave_their_frames(
    v: &mut Remote,
    answer: Option<Result<Response, String>>,
)
    requires
        call_ensures(Remote::stop, (v, answer), ()),
    ensures
        final(v)@.stopped,
        answer is None ==> final(v)@.pending == old(v)@.pending && final(v)@.error
            == old(v)@.error,
        answer matches Some(Ok(response)) ==> (response.error is None ==> final(v)@.pending.len()
            == response.frames@.len() && forall|i: int|
            0 <= i < response.frames@.len() ==> #[trigger] final(v)@.pending[i]
                == response.frames@[i]@),
        answer matches Some(Ok(response)) ==> final(v)@.dropped == response.dropped,
        answer matches Some(Err(e)) ==> final(v)@.error == Some(e@) && final(v)@.pending
            == old(v)@.pending,
{
}

/// A poll gives the frames of an answer, and none of a failure.
pub proof fn lemma_polls_give_their_frames(
    v: &mut Remote,
    answer: Result<Response, String>,
    r: Vec<Frame>,
)
    requires
        call_ensures(Remote::polled, (v, answer), r),
    ensures
        answer matches Ok(response) ==> (response.error is None ==> r@ == response.frames@) && (
        response.error is Some ==> r@.len() == 0),
        answer is Err ==> r@.len() == 0 && final(v)@.stopped,
{
}

/// A stream of the app runs from its start to its stop, and each says what came of it.
pub proof fn lemma_the_app_streams_once(
    app: &mut StudioApp,
    address: String,
    bind_all: bool,
    r: (Result<StreamState, String>, Option<StreamState>),
)
    requires
        call_ensures(StudioApp::start_stream, (app, Ok(address), bind_all), r),
    ensures
        r.0 matches Ok(state) && state@.listening && state@.address == Some(address@)
            && state@.bind_all == bind_all && state@.clients == 0 && state@.error is None
            && state@.dropped == 0,
        r.1 is None,
        final(app).stream matches Some(kept) && kept@ == r.0->Ok_0@,
        final(app).watches == old(app).watches && final(app).rtt == old(app).rtt,
{
}

/// A stream that could not start leaves none, and is told.
pub proof fn lemma_the_app_tells_why_it_does_not_stream(
    app: &mut StudioApp,
    error: String,
    bind_all: bool,
    r: (Result<StreamState, String>, Option<StreamState>),
)
    requires
        call_ensures(StudioApp::start_stream, (app, Err(error), bind_all), r),
    ensures
        r.0 matches Err(e) && e@ == error@,
        r.1 matches Some(state) && !state@.listening && state@.error == Some(error@),
        final(app).stream is None,
        final(app).watches == old(app).watches && final(app).rtt == old(app).rtt,
{
}

/// A stream that is stopped is gone, and its last state tells where it was.
pub proof fn lemma_the_app_stops_its_stream(app: &mut StudioApp, r: StreamState)
    requires
        call_ensures(StudioApp::stop_stream, (app,), r),
    ensures
        final(app).stream is None,
        !r@.listening,
        r@.clients == 0,
        old(app).stream matches Some(state) ==> r@.address == state@.address && r@.dropped
            == state@.dropped && r@.bind_all == state@.bind_all && r@.error == state@.error,
        old(app).stream is None ==> r@.address is None && r@.error is None,
        final(app).watches == old(app).watches && final(app).rtt == old(app).rtt,
{
}

/// A scan that names no library uses the app's; any other request goes as it is.
pub proof fn lemma_scans_use_the_apps_library(app: StudioApp, request: Request, r: Request)
    requires
        call_ensures(StudioApp::can_request, (&app, request), r),
    ensures
        request matches Request::Scan { library: None } ==> (r matches Request::Scan { library }
            && text_of(library) == text_of(app.can_library)),
        request matches Request::Scan { library: Some(_) } ==> r == request,
        !(request is Scan) ==> r == request,
{
}

/// Watches that are taken replace those before, and what changed is told.
pub proof fn lemma_watches_are_replaced(
    w: &mut Watches,
    items: Vec<ReadItem>,
    cells: Vec<(u32, u32)>,
    r: Changes,
)
    requires
        call_ensures(Watches::take, (w, items, cells), r),
    ensures
        final(w).items@ == items@,
        final(w).cells@ == cells@,
        r.items <==> old(w).items@ != items@,
        r.cells <==> old(w).cells@ != cells@,
{
}

/// Adapters that were found take the place of those before and clear the error; found
/// again they must be as many.
pub proof fn lemma_found_adapters_are_kept(
    c: &mut Capture,
    devices: Vec<Device>,
    found: usize,
    r: Result<(), String>,
)
    requires
        call_ensures(Capture::scanned, (c, devices), ()),
        call_ensures(Capture::check_reload, (&*final(c), found), r),
    ensures
        final(c)@.devices == devices@,
        final(c)@.error is None,
        final(c)@.connected == old(c)@.connected && final(c)@.history == old(c)@.history
            && final(c)@.sequence == old(c)@.sequence,
        r is Ok <==> found == devices@.len(),
{
}

/// An adapter is known by the place at which it was found, before its model is.
pub proof fn lemma_adapters_are_known_by_their_place(index: i32, r: Device)
    requires
        call_ensures(Device::found, (index,), r),
    ensures
        r.index == index,
        r.channels == 0,
        r.model@ == "Damiao CAN adapter"@,
        r.version@.len() == 0,
{
}

/// What a handle says of a type is what the type behind its typedefs and qualifiers
/// is: what it points to, what its elements are and how many, and how large one is.
pub proof fn lemma_handles_look_behind_names(
    h: TypeHandle,
    pointee: Option<TypeHandle>,
    element: Option<TypeHandle>,
    count: Option<u64>,
    size: Option<u64>,
    array: bool,
    record: bool,
    pointer: bool,
    primitive: bool,
)
    requires
        call_ensures(TypeHandle::pointee, (&h,), pointee),
        call_ensures(TypeHandle::element_type, (&h,), element),
        call_ensures(TypeHandle::array_count, (&h,), count),
        call_ensures(TypeHandle::element_size, (&h,), size),
        call_ensures(TypeHandle::is_array, (&h,), array),
        call_ensures(TypeHandle::is_struct_or_union, (&h,), record),
        call_ensures(TypeHandle::is_pointer_or_reference, (&h,), pointer),
        call_ensures(TypeHandle::is_primitive, (&h,), primitive),
    ensures
        ({
            let types = h.table@.types;
            match def_in(types, underlying_at(types, h.id, 0)) {
                Some(TypeDef::Pointer(inner)) => pointer && pointee == Some(
                    TypeHandle { table: h.table, id: inner },
                ) && !array && !record && !primitive && count is None && element is None,
                Some(TypeDef::Reference(inner)) => pointer && pointee == Some(
                    TypeHandle { table: h.table, id: inner },
                ) && !array && !record && !primitive && count is None && element is None,
                Some(TypeDef::Array { element: e, count: n }) => array && element == Some(
                    TypeHandle { table: h.table, id: e },
                ) && count == n && size == size_of_type(types, e) && !pointer && !record
                    && !primitive && pointee is None,
                Some(TypeDef::Struct(_)) => record && !array && !pointer && !primitive && count
                    is None && size is None && pointee is None,
                Some(TypeDef::Union(_)) => record && !array && !pointer && !primitive && count
                    is None && size is None && pointee is None,
                Some(TypeDef::Primitive(_)) => primitive && !record && !array && !pointer && pointee
                    is None,
                _ => !primitive && !record && !array && !pointer && pointee is None && element
                    is None && count is None && size is None,
            }
        }),
{
}

/// A pointer can be opened where what it points to is a record or an array, and what
/// it then shows is that.
pub proof fn lemma_pointers_open_to_what_they_point_to(
    h: TypeHandle,
    inner: TypeId,
    opens: bool,
    target: Option<TypeHandle>,
)
    requires
        call_ensures(TypeHandle::is_pointer_expandable, (&h,), opens),
        call_ensures(TypeHandle::pointee_underlying, (&h,), target),
        def_in(h.table@.types, underlying_at(h.table@.types, h.id, 0)) == Some(
            TypeDef::Pointer(inner),
        ),
    ensures
        target == Some(
            TypeHandle { table: h.table, id: underlying_at(h.table@.types, inner, 0) },
        ),
        opens <==> {
            let types = h.table@.types;
            let at = underlying_at(types, underlying_at(types, inner, 0), 0);
            def_in(types, at) matches Some(def) && (def is Struct || def is Union || def is Array)
        },
{
}

/// How many clients are gone from a place on.
pub open spec fn gone_from(alive: Seq<bool>, i: int) -> nat
    decreases alive.len() - i,
{
    if i < 0 || i >= alive.len() {
        0
    } else {
        gone_from(alive, i + 1) + (if alive[i] {
            0nat
        } else {
            1nat
        })
    }
}

proof fn lemma_gone_swapped(a: Seq<bool>, b: Seq<bool>, i: int, j: int)
    requires
        0 <= i < a.len(),
        i < j <= a.len(),
        !a[i],
        b == a.update(i, a.last()).drop_last(),
    ensures
        j < a.len() ==> gone_from(b, j) == gone_from(a, j) - (if a.last() {
            0int
        } else {
            1
        }),
        j == a.len() ==> gone_from(b, j) == 0 && gone_from(a, j) == 0,
    decreases a.len() - j,
{
    if j < a.len() - 1 {
        lemma_gone_swapped(a, b, i, j + 1);
        assert(b[j] == a[j]);
    } else if j == a.len() - 1 {
        assert(gone_from(a, j + 1) == 0);
    }
}

/// Every client that is gone is let go, and no other.
pub proof fn lemma_clients_that_are_gone_are_let_go(
    clients: Seq<Losses>,
    alive: Seq<bool>,
    gone: nat,
    out: Seq<usize>,
    i: int,
)
    requires
        alive.len() == clients.len(),
        0 <= i <= clients.len(),
    ensures
        reaped(clients, alive, gone, out, i).2.len() == out.len() + gone_from(alive, i),
        reaped(clients, alive, gone, out, i).0.len() + gone_from(alive, i) == clients.len(),
    decreases clients.len() - i,
{
    if i < clients.len() {
        if alive[i] {
            lemma_clients_that_are_gone_are_let_go(clients, alive, gone, out, i + 1);
        } else {
            let fewer = alive.update(i, alive.last()).drop_last();
            lemma_clients_that_are_gone_are_let_go(
                clients.update(i, clients.last()).drop_last(),
                fewer,
                gone + clients[i].dropped as nat,
                out.push(i as usize),
                i,
            );
            lemma_gone_swapped(alive, fewer, i, i + 1);
            if i < alive.len() - 1 {
                assert(fewer[i] == alive.last());
            } else {
                assert(gone_from(fewer, i) == 0);
                assert(gone_from(alive, i + 1) == 0);
            }
        }
    }
}

/// A record is written where the room takes its head, twelve bytes for each value that
/// takes requests, and its check.
pub proof fn lemma_records_need_their_room(
    t: Table,
    generation: u32,
    room: usize,
    r: Result<Vec<u8>, Overflow>,
)
    requires
        call_ensures(encode, (&t, generation, room), r),
    ensures
        r is Ok <==> tunables(t@) <= 0xffff && 14 + 12 * tunables(t@) <= room,
        r matches Ok(record) ==> record@.len() == 14 + 12 * tunables(t@),
{
}

/// Up to 256 numbers are read at once, beginning with nothing known of them.
pub proof fn lemma_reads_begin_unknown(nodes: Vec<NodeRef>, r: Result<ValueReads, String>)
    requires
        call_ensures(ValueReads::begin, (nodes,), r),
    ensures
        r is Ok <==> nodes@.len() <= 256,
        r matches Err(e) ==> e@ == "read at most 256 values per request"@,
        r matches Ok(reads) ==> reads@.known.len() == 0 && reads@.items.len() == 0
            && reads@.nodes.len() == nodes@.len() && forall|i: int|
            0 <= i < nodes@.len() ==> #[trigger] reads@.nodes[i] == nodes@[i]@,
{
}

/// Where every region was read, each task is dealt the blocks of its own regions, and
/// what is left over is the counters'.
pub proof fn lemma_blocks_are_dealt_to_their_tasks(
    probes: Vec<Probe>,
    blocks: usize,
    r: (Vec<(usize, usize)>, Option<usize>),
    i: int,
)
    requires
        call_ensures(deal, (&probes, blocks), r),
        0 <= i < probes@.len(),
        regions_for(probes@).len() <= blocks,
    ensures
        r.0@.len() == probes@.len(),
        r.0@[i].0 <= r.0@[i].1 <= blocks,
        probes@[i] matches Ok(regions) ==> r.0@[i].1 - r.0@[i].0 == regions@.len()
            && regions_for(probes@).subrange(r.0@[i].0 as int, r.0@[i].1 as int) == regions@,
        probes@[i] is Err ==> r.0@[i].0 == r.0@[i].1,
{
    lemma_every_task_gets_its_own(probes@, i, blocks as nat);
    if let Ok(regions) = probes@[i] {
        assert(regions_for(probes@).subrange(r.0@[i].0 as int, r.0@[i].1 as int) == regions@);
    }
    assert(r.0@[i].1 == crate::connect::dealt_before(probes@.take(i + 1), blocks as nat));
}

/// A read that was answered gives its blocks; otherwise why it gave none.
pub proof fn lemma_reads_are_answered(reply: Reply<Vec<Vec<u8>>>, r: Result<Vec<Vec<u8>>, String>)
    requires
        call_ensures(read_outcome, (reply,), r),
    ensures
        reply matches Reply::Answered(Ok(blocks)) ==> r == Ok::<Vec<Vec<u8>>, String>(blocks),
        reply is NotSent ==> (r matches Err(e) && e@ == "connect a debug probe first"@),
        reply is Late ==> (r matches Err(e) && e@ == "the target did not answer in time"@),
        reply matches Reply::Answered(Err(text)) ==> (r matches Err(e) && e@ == text@),
{
}

} // verus!
