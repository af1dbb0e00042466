//! The task trace a probe reads: a bounded ring of scheduler events.
//!
//! The firmware calls [`tick`] at least once per 32-bit cycle-counter wrap, and
//! [`record`] from its executor's trace hooks; the host decodes the ring's
//! memory with [`decode`], which omits torn and overwritten slots.
//!
//! ```text
//! magic u32 | version u32 | capacity u32 | hz u32 | head u32 | capacity × event
//! event: first u32 | low u32 | high u32 | task u32 | kind u32 | last u32
//! ```

use vstd::prelude::*;
use vstd::string::*;
use crate::bytes::{get_u32, put_u32};
#[allow(unused_imports)]
use crate::bytes::{group_le_len, le32, lemma_le32, u32_at};

verus! {

broadcast use group_le_len;

pub const CAPACITY: usize = 1024;

pub const READY: u32 = 1;

pub const BEGIN: u32 = 2;

pub const END: u32 = 3;

pub const EXIT: u32 = 4;

/// Marks the memory of a trace.
pub const TRACE_MAGIC: u32 = 0x5354_5452;

pub const TRACE_VERSION: u32 = 1;

/// Bytes before the events.
pub const TRACE_HEAD: usize = 20;

/// Bytes of one event.
pub const EVENT_LEN: usize = 24;

/// The largest ring a host accepts.
pub const MAX_CAPACITY: u32 = 8192;

/// A slot of the ring. `first` and `last` both hold the event's sequence number
/// once it is complete.
#[derive(Copy, Clone, Debug)]
pub struct Event {
    pub first: u32,
    pub low: u32,
    pub high: u32,
    pub task: u32,
    pub kind: u32,
    pub last: u32,
}

/// What an empty slot holds.
pub open spec fn empty_event() -> Event {
    Event { first: 0, low: 0, high: 0, task: 0, kind: 0, last: 0 }
}

impl Event {
    fn new() -> (r: Self)
        ensures
            r == empty_event(),
    {
        Event { first: 0, low: 0, high: 0, task: 0, kind: 0, last: 0 }
    }
}

/// The ring and the clock that stamps it.
#[derive(Debug)]
pub struct Trace {
    pub hz: u32,
    pub head: u32,
    pub events: Vec<Event>,
    /// The cycle counter when it was last seen.
    pub previous: u32,
    /// How often the cycle counter has wrapped.
    pub wraps: u32,
}

impl Trace {
    /// The ring has its fixed size.
    pub open spec fn well_formed(self) -> bool {
        self.events@.len() == CAPACITY
    }

    /// A trace as built: not recording until [`init`] sets its clock.
    pub fn new() -> (r: Self)
        ensures
            r.well_formed(),
            r.hz == 0,
            r.head == 0,
            r.previous == 0,
            r.wraps == 0,
            forall|i: int| 0 <= i < CAPACITY ==> r.events@[i] == empty_event(),
    {
        let mut events: Vec<Event> = Vec::new();
        while events.len() < CAPACITY
            invariant
                events@.len() <= CAPACITY,
                forall|i: int| 0 <= i < events@.len() ==> events@[i] == empty_event(),
            decreases CAPACITY - events@.len(),
        {
            events.push(Event::new());
        }
        Trace { hz: 0, head: 0, events, previous: 0, wraps: 0 }
    }

    /// The memory a probe reads.
    pub fn image(&self) -> (r: Vec<u8>)
        requires
            self.well_formed(),
        ensures
            r@ == trace_image(self.hz, self.head, self.events@),
    {
        let mut out: Vec<u8> = Vec::new();
        put_u32(&mut out, TRACE_MAGIC);
        put_u32(&mut out, TRACE_VERSION);
        put_u32(&mut out, CAPACITY as u32);
        put_u32(&mut out, self.hz);
        put_u32(&mut out, self.head);
        let ghost head = trace_head(CAPACITY as u32, self.hz, self.head);
        assert(out@ =~= head);
        let mut i: usize = 0;
        assert(self.events@.take(0) =~= Seq::<Event>::empty());
        assert(head =~= head + Seq::<u8>::empty());
        while i < self.events.len()
            invariant
                i <= self.events@.len(),
                out@ == head + events_bytes(self.events@.take(i as int)),
            decreases self.events@.len() - i,
        {
            let e: Event = self.events[i];
            put_u32(&mut out, e.first);
            put_u32(&mut out, e.low);
            put_u32(&mut out, e.high);
            put_u32(&mut out, e.task);
            put_u32(&mut out, e.kind);
            put_u32(&mut out, e.last);
            i = i + 1;
            proof {
                let seen = self.events@.take(i as int);
                assert(seen.drop_last() =~= self.events@.take(i - 1));
                assert(out@ =~= head + (events_bytes(seen.drop_last()) + event_bytes(e)));
            }
        }
        assert(self.events@.take(self.events@.len() as int) =~= self.events@);
        out
    }
}

pub open spec fn event_bytes(e: Event) -> Seq<u8> {
    le32(e.first) + le32(e.low) + le32(e.high) + le32(e.task) + le32(e.kind) + le32(e.last)
}

pub open spec fn events_bytes(events: Seq<Event>) -> Seq<u8>
    decreases events.len(),
{
    if events.len() == 0 {
        Seq::empty()
    } else {
        events_bytes(events.drop_last()) + event_bytes(events.last())
    }
}

pub open spec fn trace_head(capacity: u32, hz: u32, head: u32) -> Seq<u8> {
    le32(TRACE_MAGIC) + le32(TRACE_VERSION) + le32(capacity) + le32(hz) + le32(head)
}

/// The memory of a trace.
pub open spec fn trace_image(hz: u32, head: u32, events: Seq<Event>) -> Seq<u8> {
    trace_head(events.len() as u32, hz, head) + events_bytes(events)
}

/// Starts recording, before the executor starts: forgets every event and sets
/// the clock. The writers must be masked while it runs.
pub fn init(trace: &mut Trace, hz: u32, cycle: u32)
    requires
        old(trace).well_formed(),
    ensures
        final(trace).well_formed(),
        final(trace).hz == hz,
        final(trace).head == 0,
        final(trace).previous == cycle,
        final(trace).wraps == 0,
        forall|i: int|
            0 <= i < CAPACITY ==> #[trigger] final(trace).events@[i] == (Event {
                first: 0,
                last: 0,
                ..old(trace).events@[i]
            }),
{
    let mut i: usize = 0;
    while i < trace.events.len()
        invariant
            i <= trace.events@.len() == CAPACITY,
            old(trace).well_formed(),
            forall|k: int|
                0 <= k < i ==> #[trigger] trace.events@[k] == (Event {
                    first: 0,
                    last: 0,
                    ..old(trace).events@[k]
                }),
            forall|k: int| i <= k < CAPACITY ==> trace.events@[k] == old(trace).events@[k],
        decreases CAPACITY - i,
    {
        let e: Event = trace.events[i];
        trace.events.set(i, Event { first: 0, last: 0, ..e });
        i = i + 1;
    }
    trace.hz = hz;
    trace.head = 0;
    trace.previous = cycle;
    trace.wraps = 0;
}

/// How often the counter has wrapped once it reads `cycle`.
pub open spec fn wraps_at(trace: Trace, cycle: u32) -> u32 {
    if cycle < trace.previous {
        trace.wraps.wrapping_add(1)
    } else {
        trace.wraps
    }
}

/// Takes a reading of the cycle counter into the extended clock; returns the
/// clock's high word.
fn extend(trace: &mut Trace, cycle: u32) -> (r: u32)
    ensures
        r == wraps_at(*old(trace), cycle),
        *final(trace) == (Trace { previous: cycle, wraps: r, ..*old(trace) }),
{
    if cycle < trace.previous {
        trace.wraps = trace.wraps.wrapping_add(1);
    }
    trace.previous = cycle;
    trace.wraps
}

/// Periodic heartbeat extends the cycle clock even while all tasks sleep.
pub fn tick(trace: &mut Trace, cycle: u32)
    ensures
        *final(trace) == (Trace {
            previous: cycle,
            wraps: wraps_at(*old(trace), cycle),
            ..*old(trace)
        }),
{
    let _ = extend(trace, cycle);
}

/// The slot that the event after `head` takes.
pub open spec fn slot_after(head: u32) -> int {
    head as int % CAPACITY as int
}

/// Records one event in the oldest slot, stamped with the extended clock. A
/// trace without a clock records nothing and does not look at `cycle`.
pub fn record(trace: &mut Trace, task: u32, kind: u32, cycle: u32)
    requires
        old(trace).well_formed(),
    ensures
        final(trace).well_formed(),
        final(trace).hz == old(trace).hz,
        old(trace).hz == 0 ==> *final(trace) == *old(trace),
        old(trace).hz != 0 ==> {
            &&& final(trace).head == old(trace).head.wrapping_add(1)
            &&& final(trace).previous == cycle
            &&& final(trace).wraps == wraps_at(*old(trace), cycle)
            &&& final(trace).events@ == old(trace).events@.update(
                slot_after(old(trace).head),
                Event {
                    first: old(trace).head.wrapping_add(1),
                    low: cycle,
                    high: wraps_at(*old(trace), cycle),
                    task,
                    kind,
                    last: old(trace).head.wrapping_add(1),
                },
            )
        },
{
    if trace.hz == 0 {
        return;
    }
    let high: u32 = extend(trace, cycle);
    let seq: u32 = trace.head.wrapping_add(1);
    let slot: usize = seq.wrapping_sub(1) as usize % CAPACITY;
    trace.events.set(slot, Event { first: seq, low: cycle, high, task, kind, last: seq });
    trace.head = seq;
}

#[derive(Copy, Clone, Debug)]
pub struct TraceEvent {
    pub seq: u32,
    pub ticks: u64,
    pub task: u32,
    pub kind: u32,
}

#[derive(Debug)]
pub struct TraceSnapshot {
    pub clock_hz: u32,
    pub head: u32,
    pub capacity: u32,
    /// Slots omitted because they were torn, overwritten or unreadable.
    pub incomplete: u32,
    pub events: Vec<TraceEvent>,
}

/// Where the event with this sequence number stands in a ring.
pub open spec fn event_at(capacity: u32, seq: u32) -> int {
    TRACE_HEAD + (seq.wrapping_sub(1) as int % capacity as int) * EVENT_LEN
}

/// Whether the slot for `seq` holds that event, whole.
pub open spec fn readable(bytes: Seq<u8>, capacity: u32, seq: u32) -> bool {
    let at = event_at(capacity, seq);
    &&& u32_at(bytes, at) == seq
    &&& u32_at(bytes, at + 20) == seq
    &&& 1 <= u32_at(bytes, at + 16) <= 4
}

/// The event with this sequence number.
pub open spec fn event_of(bytes: Seq<u8>, capacity: u32, seq: u32) -> TraceEvent {
    let at = event_at(capacity, seq);
    TraceEvent {
        seq,
        ticks: (u32_at(bytes, at + 4) + 0x1_0000_0000 * u32_at(bytes, at + 8)) as u64,
        task: u32_at(bytes, at + 12),
        kind: u32_at(bytes, at + 16),
    }
}

/// How many of the ring's slots have been written: all of them once the ring
/// has gone round, which also shows in the slot after the head.
pub open spec fn slots_used(bytes: Seq<u8>, capacity: u32, head: u32) -> u32 {
    if head >= capacity || u32_at(bytes, event_at(capacity, head.wrapping_add(1))) != 0 {
        capacity
    } else {
        head
    }
}

/// The readable events among the oldest `n` of `count` slots, oldest first.
pub open spec fn events_of(bytes: Seq<u8>, capacity: u32, head: u32, count: u32, n: nat) -> Seq<
    TraceEvent,
>
    decreases n,
{
    if n == 0 {
        Seq::empty()
    } else {
        let before = events_of(bytes, capacity, head, count, (n - 1) as nat);
        let seq = head.wrapping_sub((count - n) as u32);
        if readable(bytes, capacity, seq) {
            before.push(event_of(bytes, capacity, seq))
        } else {
            before
        }
    }
}

/// Whether the header names a ring whose memory `bytes` is.
pub open spec fn whole_ring(bytes: Seq<u8>) -> bool {
    let capacity = u32_at(bytes, 8);
    1 <= capacity <= MAX_CAPACITY && bytes.len() == TRACE_HEAD + capacity * EVENT_LEN
}

/// Why `bytes` is no trace, if it is none.
pub open spec fn refusal(bytes: Seq<u8>) -> Option<Seq<char>> {
    if bytes.len() < 4 {
        Some("short trace read"@)
    } else if u32_at(bytes, 0) != TRACE_MAGIC {
        Some("unsupported task trace format"@)
    } else if bytes.len() < 8 {
        Some("short trace read"@)
    } else if u32_at(bytes, 4) != TRACE_VERSION {
        Some("unsupported task trace format"@)
    } else if bytes.len() < TRACE_HEAD {
        Some("short trace read"@)
    } else if !whole_ring(bytes) {
        Some("invalid trace capacity"@)
    } else {
        None
    }
}

/// Decodes the memory of a trace; torn and overwritten slots are omitted.
pub fn decode(bytes: &[u8]) -> (r: Result<TraceSnapshot, String>)
    ensures
        r is Ok <==> refusal(bytes@) is None,
        r matches Err(e) ==> refusal(bytes@) == Some(e@),
        r matches Ok(s) ==> {
            let count = slots_used(bytes@, s.capacity, s.head);
            &&& s.capacity == u32_at(bytes@, 8)
            &&& s.clock_hz == u32_at(bytes@, 12)
            &&& s.head == u32_at(bytes@, 16)
            &&& s.events@ == events_of(bytes@, s.capacity, s.head, count, count as nat)
            &&& s.incomplete == count - s.events@.len()
        },
{
    if bytes.len() < 4 {
        return Err("short trace read".to_owned());
    }
    if get_u32(bytes, 0) != TRACE_MAGIC {
        return Err("unsupported task trace format".to_owned());
    }
    if bytes.len() < 8 {
        return Err("short trace read".to_owned());
    }
    if get_u32(bytes, 4) != TRACE_VERSION {
        return Err("unsupported task trace format".to_owned());
    }
    if bytes.len() < TRACE_HEAD {
        return Err("short trace read".to_owned());
    }
    let capacity: u32 = get_u32(bytes, 8);
    let clock_hz: u32 = get_u32(bytes, 12);
    let head: u32 = get_u32(bytes, 16);
    if capacity == 0 || capacity > MAX_CAPACITY || bytes.len() != TRACE_HEAD + capacity as usize
        * EVENT_LEN {
        return Err("invalid trace capacity".to_owned());
    }
    let next_slot: usize = TRACE_HEAD + head as usize % capacity as usize * EVENT_LEN;
    proof {
        lemma_slot_inside(head, capacity);
    }
    let count: u32 = if head >= capacity || get_u32(bytes, next_slot) != 0 {
        capacity
    } else {
        head
    };
    let mut events: Vec<TraceEvent> = Vec::new();
    let mut incomplete: u32 = 0;
    let mut n: u32 = 0;
    while n < count
        invariant
            n <= count <= capacity <= MAX_CAPACITY,
            0 < capacity,
            bytes@.len() == TRACE_HEAD + capacity * EVENT_LEN,
            events@ == events_of(bytes@, capacity, head, count, n as nat),
            incomplete == n - events@.len(),
            events@.len() <= n,
        decreases count - n,
    {
        let seq: u32 = head.wrapping_sub(count - n - 1);
        n = n + 1;
        let at: usize = TRACE_HEAD + seq.wrapping_sub(1) as usize % capacity as usize * EVENT_LEN;
        proof {
            lemma_slot_inside(seq.wrapping_sub(1), capacity);
            assert((count - n) as u32 == count - n);
        }
        let kind: u32 = get_u32(bytes, at + 16);
        if get_u32(bytes, at) != seq || get_u32(bytes, at + 20) != seq || kind < 1 || kind > 4 {
            incomplete = incomplete + 1;
            continue;
        }
        events.push(
            TraceEvent {
                seq,
                ticks: get_u32(bytes, at + 4) as u64 + 0x1_0000_0000 * (get_u32(
                    bytes,
                    at + 8,
                ) as u64),
                task: get_u32(bytes, at + 12),
                kind,
            },
        );
    }
    Ok(TraceSnapshot { clock_hz, head, capacity, incomplete, events })
}

proof fn lemma_slot_inside(n: u32, capacity: u32)
    requires
        0 < capacity,
    ensures
        0 <= (n as int % capacity as int) < capacity,
        TRACE_HEAD + (n as int % capacity as int) * EVENT_LEN + EVENT_LEN <= TRACE_HEAD + capacity
            * EVENT_LEN,
{
    vstd::arithmetic::div_mod::lemma_mod_bound(n as int, capacity as int);
}

/// What one call of [`record`] captures.
pub struct Moment {
    pub low: u32,
    pub high: u32,
    pub task: u32,
    pub kind: u32,
}

/// The sequence number of event `k`, counted from 0; it wraps.
pub open spec fn seq_of(k: int) -> u32 {
    ((k + 1) % 0x1_0000_0000) as u32
}

/// The slot of event `k`.
pub open spec fn slot_of(k: int) -> int {
    k % CAPACITY as int
}

/// The slot that holds event `k`, complete.
pub open spec fn whole_event(m: Moment, k: int) -> Event {
    Event {
        first: seq_of(k),
        low: m.low,
        high: m.high,
        task: m.task,
        kind: m.kind,
        last: seq_of(k),
    }
}

/// How many of `n` events the ring still holds.
pub open spec fn kept(n: nat) -> nat {
    if n < CAPACITY {
        n
    } else {
        CAPACITY as nat
    }
}

/// Whether a ring is what recording exactly these moments since [`init`]
/// leaves: the latest in their slots, the rest of the slots unused.
pub open spec fn recorded(head: u32, events: Seq<Event>, all: Seq<Moment>) -> bool {
    &&& events.len() == CAPACITY
    &&& head == all.len() % 0x1_0000_0000
    &&& forall|k: int|
        all.len() - kept(all.len()) <= k < all.len() ==> events[#[trigger] slot_of(k)]
            == whole_event(all[k], k)
    &&& forall|i: int| all.len() <= i < CAPACITY ==> (#[trigger] events[i]).first == 0
}

/// A trace just initialised has recorded nothing.
pub proof fn lemma_init_records_nothing(events: Seq<Event>)
    requires
        events.len() == CAPACITY,
        forall|i: int| 0 <= i < CAPACITY ==> (#[trigger] events[i]).first == 0,
    ensures
        recorded(0, events, Seq::empty()),
{
}

/// Recording one more event keeps every later one of the earlier events and
/// overwrites only the oldest.
pub proof fn lemma_record_appends(head: u32, events: Seq<Event>, all: Seq<Moment>, m: Moment)
    requires
        recorded(head, events, all),
    ensures
        recorded(
            head.wrapping_add(1),
            events.update(
                slot_after(head),
                Event {
                    first: head.wrapping_add(1),
                    low: m.low,
                    high: m.high,
                    task: m.task,
                    kind: m.kind,
                    last: head.wrapping_add(1),
                },
            ),
            all.push(m),
        ),
{
    let n = all.len() as int;
    let seq = head.wrapping_add(1);
    let after = events.update(
        slot_after(head),
        Event { first: seq, low: m.low, high: m.high, task: m.task, kind: m.kind, last: seq },
    );
    let more = all.push(m);
    assert(slot_after(head) == slot_of(n));
    assert(seq == seq_of(n));
    assert forall|k: int| more.len() - kept(more.len()) <= k < more.len() implies after[
    #[trigger] slot_of(k)] == whole_event(more[k], k) by {
        if k < n {
            assert(slot_of(k) != slot_of(n));
            assert(events[slot_of(k)] == whole_event(all[k], k));
        }
    }
}

proof fn lemma_events_len(events: Seq<Event>)
    ensures
        events_bytes(events).len() == events.len() * EVENT_LEN,
    decreases events.len(),
{
    if events.len() > 0 {
        lemma_events_len(events.drop_last());
    }
}

/// The words of slot `i` in the memory of a trace.
proof fn lemma_event_words(head: Seq<u8>, events: Seq<Event>, tail: Seq<u8>, i: int)
    requires
        head.len() == TRACE_HEAD,
        0 <= i < events.len(),
    ensures
        ({
            let all = head + events_bytes(events) + tail;
            let at = TRACE_HEAD + i * EVENT_LEN;
            &&& u32_at(all, at) == events[i].first
            &&& u32_at(all, at + 4) == events[i].low
            &&& u32_at(all, at + 8) == events[i].high
            &&& u32_at(all, at + 12) == events[i].task
            &&& u32_at(all, at + 16) == events[i].kind
            &&& u32_at(all, at + 20) == events[i].last
        }),
    decreases events.len(),
{
    let rest = events.drop_last();
    let e = events.last();
    let all = head + events_bytes(events) + tail;
    lemma_events_len(rest);
    lemma_events_len(events);
    if i < rest.len() {
        assert(all =~= head + events_bytes(rest) + (event_bytes(e) + tail));
        lemma_event_words(head, rest, event_bytes(e) + tail, i);
    } else {
        let at = TRACE_HEAD + i * EVENT_LEN;
        assert(all.subrange(at, at + 4) =~= le32(e.first));
        lemma_le32(all, at, e.first);
        assert(all.subrange(at + 4, at + 8) =~= le32(e.low));
        lemma_le32(all, at + 4, e.low);
        assert(all.subrange(at + 8, at + 12) =~= le32(e.high));
        lemma_le32(all, at + 8, e.high);
        assert(all.subrange(at + 12, at + 16) =~= le32(e.task));
        lemma_le32(all, at + 12, e.task);
        assert(all.subrange(at + 16, at + 20) =~= le32(e.kind));
        lemma_le32(all, at + 16, e.kind);
        assert(all.subrange(at + 20, at + 24) =~= le32(e.last));
        lemma_le32(all, at + 20, e.last);
    }
}

/// The header words of the memory of a trace.
proof fn lemma_head_words(hz: u32, head: u32, events: Seq<Event>)
    requires
        events.len() <= u32::MAX,
    ensures
        ({
            let all = trace_image(hz, head, events);
            &&& all.len() == TRACE_HEAD + events.len() * EVENT_LEN
            &&& u32_at(all, 0) == TRACE_MAGIC
            &&& u32_at(all, 4) == TRACE_VERSION
            &&& u32_at(all, 8) == events.len()
            &&& u32_at(all, 12) == hz
            &&& u32_at(all, 16) == head
        }),
{
    let n = events.len() as u32;
    let all = trace_image(hz, head, events);
    lemma_events_len(events);
    assert(all.subrange(0, 4) =~= le32(TRACE_MAGIC));
    lemma_le32(all, 0, TRACE_MAGIC);
    assert(all.subrange(4, 8) =~= le32(TRACE_VERSION));
    lemma_le32(all, 4, TRACE_VERSION);
    assert(all.subrange(8, 12) =~= le32(n));
    lemma_le32(all, 8, n);
    assert(all.subrange(12, 16) =~= le32(hz));
    lemma_le32(all, 12, hz);
    assert(all.subrange(16, 20) =~= le32(head));
    lemma_le32(all, 16, head);
}

/// The event that event `k`'s moment decodes to.
pub open spec fn decoded(m: Moment, k: int) -> TraceEvent {
    TraceEvent {
        seq: seq_of(k),
        ticks: (m.low + 0x1_0000_0000 * m.high) as u64,
        task: m.task,
        kind: m.kind,
    }
}

/// Sequence numbers and slots counted back from the head.
proof fn lemma_back_from_head(total: int, head: u32, back: int)
    requires
        0 <= total,
        head == total % 0x1_0000_0000,
        0 <= back < total,
        back < CAPACITY,
    ensures
        head.wrapping_sub(back as u32) == seq_of(total - 1 - back),
        seq_of(total - 1 - back).wrapping_sub(1) as int % CAPACITY as int == slot_of(
            total - 1 - back,
        ),
{
    let k = total - 1 - back;
    let q = k / 0x1_0000_0000;
    let r = k % 0x1_0000_0000;
    assert(k == q * 0x1_0000_0000 + r);
    assert(seq_of(k).wrapping_sub(1) == r);
    assert(r % 1024 == k % 1024);
}

/// The slot of event `k` in the memory of a trace holds the event.
proof fn lemma_event_in_image(hz: u32, head: u32, events: Seq<Event>, all: Seq<Moment>, k: int)
    requires
        recorded(head, events, all),
        all.len() - kept(all.len()) <= k < all.len(),
        1 <= all[k].kind <= 4,
        seq_of(k).wrapping_sub(1) as int % CAPACITY as int == slot_of(k),
    ensures
        readable(trace_image(hz, head, events), CAPACITY as u32, seq_of(k)),
        event_of(trace_image(hz, head, events), CAPACITY as u32, seq_of(k)) == decoded(all[k], k),
{
    let image = trace_image(hz, head, events);
    let slot = slot_of(k);
    let base = trace_head(events.len() as u32, hz, head);
    assert(events[slot_of(k)] == whole_event(all[k], k));
    assert(image =~= base + events_bytes(events) + Seq::<u8>::empty());
    lemma_event_words(base, events, Seq::empty(), slot);
    assert(event_at(CAPACITY as u32, seq_of(k)) == TRACE_HEAD + slot * EVENT_LEN);
}

proof fn lemma_decoded_prefix(hz: u32, head: u32, events: Seq<Event>, all: Seq<Moment>, n: nat)
    requires
        recorded(head, events, all),
        forall|k: int| 0 <= k < all.len() ==> 1 <= (#[trigger] all[k]).kind <= 4,
        n <= kept(all.len()),
    ensures
        events_of(
            trace_image(hz, head, events),
            CAPACITY as u32,
            head,
            kept(all.len()) as u32,
            n,
        ) == Seq::new(
            n,
            |i: int|
                decoded(
                    all[all.len() - kept(all.len()) + i],
                    all.len() - kept(all.len()) + i,
                ),
        ),
    decreases n,
{
    let count = kept(all.len());
    let from = all.len() - count;
    let goal = |n: nat| Seq::new(n, |i: int| decoded(all[from + i], from + i));
    if n > 0 {
        lemma_decoded_prefix(hz, head, events, all, (n - 1) as nat);
        let k = from + n - 1;
        let total = all.len() as int;
        let back = count - n;
        assert(back == total - 1 - k);
        assert((count as u32 - n) as u32 == back as u32);
        lemma_back_from_head(total, head, back);
        lemma_event_in_image(hz, head, events, all, k);
        assert(goal((n - 1) as nat).push(decoded(all[k], k)) =~= goal(n));
    } else {
        assert(goal(0) =~= Seq::<TraceEvent>::empty());
    }
}

/// What was recorded is what a host decodes: the latest events, as many as the
/// ring holds, in order and none incomplete. The one exception: with exactly
/// one slot to go before the ring closes after the sequence number has
/// wrapped, the slot after the head holds sequence number 0, which reads as
/// unused.
pub proof fn lemma_recorded_is_decoded(hz: u32, head: u32, events: Seq<Event>, all: Seq<Moment>)
    requires
        recorded(head, events, all),
        forall|k: int| 0 <= k < all.len() ==> 1 <= (#[trigger] all[k]).kind <= 4,
        all.len() > CAPACITY ==> head != CAPACITY - 1,
    ensures
        ({
            let image = trace_image(hz, head, events);
            let count = slots_used(image, CAPACITY as u32, head);
            &&& refusal(image) is None
            &&& u32_at(image, 8) == CAPACITY
            &&& u32_at(image, 12) == hz
            &&& u32_at(image, 16) == head
            &&& count == kept(all.len())
            &&& events_of(image, CAPACITY as u32, head, count, count as nat) == Seq::new(
                count as nat,
                |i: int| decoded(all[all.len() - count + i], all.len() - count + i),
            )
        }),
{
    let image = trace_image(hz, head, events);
    lemma_head_words(hz, head, events);
    lemma_decoded_prefix(hz, head, events, all, kept(all.len()));
    lemma_slot_after_head(hz, head, events, all);
}

/// The slot after the head is that of the oldest event kept, whose sequence
/// number is 0 only in the one case that is left out.
proof fn lemma_oldest_slot(total: int, head: u32)
    requires
        CAPACITY < total,
        head == total % 0x1_0000_0000,
        head < CAPACITY,
        head != CAPACITY - 1,
    ensures
        slot_of(total - CAPACITY) == head,
        seq_of(total - CAPACITY) != 0,
{
    let q = total / 0x1_0000_0000;
    assert(total == q * 0x1_0000_0000 + head);
    assert((total - 1024) % 1024 == head % 1024);
    assert((total - 1023) % 0x1_0000_0000 == (head - 1023) % 0x1_0000_0000);
    assert(head - 1023 < 0);
    assert((head - 1023) % 0x1_0000_0000 == head - 1023 + 0x1_0000_0000);
}

/// The slot after the head shows whether the ring has gone round.
#[verifier::spinoff_prover]
proof fn lemma_slot_after_head(hz: u32, head: u32, events: Seq<Event>, all: Seq<Moment>)
    requires
        recorded(head, events, all),
        all.len() > CAPACITY ==> head != CAPACITY - 1,
    ensures
        slots_used(trace_image(hz, head, events), CAPACITY as u32, head) == kept(all.len()),
{
    let total = all.len() as int;
    if head < CAPACITY {
        let image = trace_image(hz, head, events);
        let base = trace_head(events.len() as u32, hz, head);
        let slot = head as int;
        assert(image =~= base + events_bytes(events) + Seq::<u8>::empty());
        lemma_event_words(base, events, Seq::empty(), slot);
        assert(head.wrapping_add(1).wrapping_sub(1) == head);
        assert(event_at(CAPACITY as u32, head.wrapping_add(1)) == TRACE_HEAD + slot * EVENT_LEN);
        if total > CAPACITY {
            lemma_oldest_slot(total, head);
            let k = total - CAPACITY as int;
            assert(events[slot_of(k)] == whole_event(all[k], k));
        } else if total == CAPACITY {
            assert(total % 0x1_0000_0000 == CAPACITY);
        } else {
            assert(total % 0x1_0000_0000 == total);
            assert(events[slot].first == 0);
        }
    } else if total < CAPACITY {
        assert(total % 0x1_0000_0000 == total);
    }
}

/// A slot that is being written carries the sequence number with its top bit
/// flipped, so a host that reads it then omits it.
pub proof fn lemma_torn_slot_is_omitted(bytes: Seq<u8>, capacity: u32, seq: u32)
    requires
        u32_at(bytes, event_at(capacity, seq)) == (seq ^ 0x8000_0000u32),
    ensures
        !readable(bytes, capacity, seq),
{
    assert(seq ^ 0x8000_0000u32 != seq) by (bit_vector);
}

} // verus!
