//! The live stream of newline-delimited JSON to the user's own scripts: what is
//! sent, and what is lost when a client does not keep up.
//!
//! Each client has a bounded queue. A client whose queue is full loses messages,
//! and is told how many; one that stays full past a limit is disconnected.
//! Neither reaches other clients.

use vstd::prelude::*;
use vstd::string::*;
use crate::connect::TunableName;
#[allow(unused_imports)]
use crate::def_view::text_of;
use crate::double_bits::less_or_equal;
#[allow(unused_imports)]
use crate::double_bits::f64_le;
#[allow(unused_imports)]
use crate::session::texts_of;
use crate::text::{push_decimal, same_text};
#[allow(unused_imports)]
use crate::text::{decimal, hex_digit};

verus! {

pub const DEFAULT_PORT: u16 = 7878;

pub const PROTOCOL_VERSION: u32 = 1;

#[derive(Debug, Clone, Copy, PartialEq, Eq, Structural)]
pub struct StreamOptions {
    pub port: u16,
    /// Listen on every interface instead of 127.0.0.1 only
    pub bind_all: bool,
    /// Messages queued per client
    pub client_queue: usize,
    /// Sample batches a client may lose in a row before it is disconnected
    pub drop_limit: u64,
}

impl StreamOptions {
    pub fn new(port: u16, bind_all: bool) -> (r: Self)
        ensures
            r == (StreamOptions { port, bind_all, client_queue: 256, drop_limit: 150 }),
    {
        Self {
            port,
            bind_all,
            client_queue: 256,
            // About five seconds of batches
            drop_limit: 150,
        }
    }

    /// Messages a client's queue holds: there is room for a notice and a line.
    pub fn queue_len(&self) -> (r: usize)
        ensures
            r == (if self.client_queue < 2 {
                2
            } else {
                self.client_queue
            }),
    {
        if self.client_queue < 2 {
            2
        } else {
            self.client_queue
        }
    }
}

/// The stream as the UI shows it.
#[derive(Debug)]
pub struct StreamState {
    pub listening: bool,
    /// `127.0.0.1:7878`
    pub address: Option<String>,
    pub bind_all: bool,
    pub clients: usize,
    /// Sample batches lost over every client, those disconnected included
    pub dropped: u64,
    pub error: Option<String>,
}

/// The stream as the UI shows it.
#[verifier::ext_equal]
pub struct StateView {
    pub listening: bool,
    pub address: Option<Seq<char>>,
    pub bind_all: bool,
    pub clients: usize,
    pub dropped: u64,
    pub error: Option<Seq<char>>,
}

impl View for StreamState {
    type V = StateView;

    open spec fn view(&self) -> StateView {
        StateView {
            listening: self.listening,
            address: text_of(self.address),
            bind_all: self.bind_all,
            clients: self.clients,
            dropped: self.dropped,
            error: text_of(self.error),
        }
    }
}

/// The state of a stream that does not run.
pub open spec fn stopped_state() -> StateView {
    StateView {
        listening: false,
        address: None,
        bind_all: false,
        clients: 0,
        dropped: 0,
        error: None,
    }
}

impl StreamState {
    pub fn stopped() -> (r: Self)
        ensures
            r@ == stopped_state(),
    {
        Self {
            listening: false,
            address: None,
            bind_all: false,
            clients: 0,
            dropped: 0,
            error: None,
        }
    }

    /// The state of a stream that starts to listen.
    pub fn started(address: String, bind_all: bool) -> (r: Self)
        ensures
            r@ == (StateView {
                listening: true,
                address: Some(address@),
                bind_all,
                clients: 0,
                dropped: 0,
                error: None,
            }),
    {
        Self {
            listening: true,
            address: Some(address),
            bind_all,
            clients: 0,
            dropped: 0,
            error: None,
        }
    }

    /// The state of a stream that could not start.
    pub fn failed(error: String) -> (r: Self)
        ensures
            r@ == (StateView { error: Some(error@), ..stopped_state() }),
    {
        let mut state = StreamState::stopped();
        state.error = Some(error);
        state
    }

    /// What stopping leaves of a state: no listener and no clients.
    pub fn ended(self) -> (r: Self)
        ensures
            r@ == (StateView { listening: false, clients: 0, ..self@ }),
    {
        let mut state = self;
        state.listening = false;
        state.clients = 0;
        state
    }
}

/// Whether two texts are the same, or both missing.
fn same_optional(a: &Option<String>, b: &Option<String>) -> (r: bool)
    ensures
        r == (text_of(*a) == text_of(*b)),
{
    match (a, b) {
        (Some(a), Some(b)) => same_text(a.as_str(), b.as_str()),
        (None, None) => true,
        _ => false,
    }
}

/// Whether the stream's state goes to the UI: at once when a client came or
/// left, and otherwise when it is due and differs from what was last shown.
pub fn publishes(changed: bool, due: bool, state: &StreamState, reported: &StreamState) -> (r: bool)
    ensures
        r == (changed || (due && state@ != reported@)),
{
    let same: bool = state.listening == reported.listening && same_optional(
        &state.address,
        &reported.address,
    ) && state.bind_all == reported.bind_all && state.clients == reported.clients && state.dropped
        == reported.dropped && same_optional(&state.error, &reported.error);
    assert(same == (state@ == reported@));
    changed || (due && !same)
}

/// What offering a message to a client's queue came to.
#[derive(Debug, Clone, Copy, PartialEq, Eq, Structural)]
pub enum Sent {
    Taken,
    /// The queue is full
    Full,
    /// The client is gone
    Gone,
}

/// What a client lost.
#[derive(Debug, Clone, Copy, PartialEq, Eq, Structural)]
pub struct Losses {
    /// Lost since the client last got a message, and not reported to it yet
    pub pending_batches: u64,
    pub pending_messages: u64,
    pub dropped: u64,
}

impl Losses {
    pub fn new() -> (r: Self)
        ensures
            r == (Losses { pending_batches: 0, pending_messages: 0, dropped: 0 }),
    {
        Losses { pending_batches: 0, pending_messages: 0, dropped: 0 }
    }

    /// Whether the client has to be told of losses before it gets a message.
    pub open spec fn owes_notice(self) -> bool {
        self.pending_batches + self.pending_messages > 0
    }

    /// The batches and messages that a client has to be told it lost before it
    /// gets another message.
    pub fn notice(&self) -> (r: Option<(u64, u64)>)
        ensures
            r == (if self.owes_notice() {
                Some((self.pending_batches, self.pending_messages))
            } else {
                None
            }),
    {
        if self.pending_batches > 0 || self.pending_messages > 0 {
            Some((self.pending_batches, self.pending_messages))
        } else {
            None
        }
    }

    /// What is lost after a notice was offered.
    pub open spec fn noticed(self, sent: Sent) -> Losses {
        if sent == Sent::Taken {
            Losses { pending_batches: 0, pending_messages: 0, ..self }
        } else {
            self
        }
    }

    /// Takes what offering the notice came to; `false` when the client should be
    /// disconnected.
    pub fn notice_offered(&mut self, sent: Sent) -> (r: bool)
        ensures
            *final(self) == old(self).noticed(sent),
            r == (sent != Sent::Gone),
    {
        if sent == Sent::Taken {
            self.pending_batches = 0;
            self.pending_messages = 0;
        }
        sent != Sent::Gone
    }

    /// What is lost after a message was offered.
    pub open spec fn offered(self, sent: Sent, batch: bool) -> Losses {
        if sent != Sent::Full {
            self
        } else if batch {
            Losses {
                pending_batches: (self.pending_batches + 1) as u64,
                dropped: (self.dropped + 1) as u64,
                ..self
            }
        } else {
            Losses { pending_messages: (self.pending_messages + 1) as u64, ..self }
        }
    }

    /// Whether the counters have room for one more loss.
    pub open spec fn counts(self) -> bool {
        self.pending_batches < u64::MAX && self.pending_messages < u64::MAX && self.dropped
            < u64::MAX
    }

    /// Takes what offering a message came to; `false` when the client should be
    /// disconnected: it is gone, or has lost too many batches in a row.
    pub fn line_offered(&mut self, sent: Sent, batch: bool, drop_limit: u64) -> (r: bool)
        requires
            old(self).counts(),
        ensures
            *final(self) == old(self).offered(sent, batch),
            r == (sent == Sent::Taken || (sent == Sent::Full && final(self).pending_batches
                <= drop_limit)),
    {
        match sent {
            Sent::Taken => true,
            Sent::Full => {
                if batch {
                    self.pending_batches = self.pending_batches + 1;
                    self.dropped = self.dropped + 1;
                } else {
                    self.pending_messages = self.pending_messages + 1;
                }
                self.pending_batches <= drop_limit
            },
            Sent::Gone => false,
        }
    }
}

/// One message offered to a client: what became of the notice before it, if one
/// was owed, and of the message.
pub struct Offer {
    pub notice: Sent,
    pub line: Sent,
    pub batch: bool,
}

/// What a client lost after some offers.
pub open spec fn losses_after(offers: Seq<Offer>) -> Losses
    decreases offers.len(),
{
    if offers.len() == 0 {
        Losses { pending_batches: 0, pending_messages: 0, dropped: 0 }
    } else {
        let last = offers.last();
        let before = losses_after(offers.drop_last());
        let told = if before.owes_notice() {
            before.noticed(last.notice)
        } else {
            before
        };
        told.offered(last.line, last.batch)
    }
}

/// The batches that the notices a client got told it of.
pub open spec fn batches_told(offers: Seq<Offer>) -> nat
    decreases offers.len(),
{
    if offers.len() == 0 {
        0
    } else {
        let before = losses_after(offers.drop_last());
        batches_told(offers.drop_last()) + (if before.owes_notice() && offers.last().notice
            == Sent::Taken {
            before.pending_batches as nat
        } else {
            0
        })
    }
}

/// The batches that found a client's queue full.
pub open spec fn batches_refused(offers: Seq<Offer>) -> nat
    decreases offers.len(),
{
    if offers.len() == 0 {
        0
    } else {
        batches_refused(offers.drop_last()) + (if offers.last().line == Sent::Full
            && offers.last().batch {
            1nat
        } else {
            0nat
        })
    }
}

/// Every batch that found the queue full is counted as dropped, and a client is
/// told of each exactly once: it has been, or it will be with the next message
/// that it gets.
pub proof fn lemma_every_loss_is_told(offers: Seq<Offer>)
    requires
        offers.len() < u64::MAX,
    ensures
        losses_after(offers).dropped == batches_refused(offers),
        losses_after(offers).dropped == batches_told(offers) + losses_after(
            offers,
        ).pending_batches,
        losses_after(offers).pending_messages <= offers.len(),
        losses_after(offers).dropped <= offers.len(),
    decreases offers.len(),
{
    if offers.len() > 0 {
        lemma_every_loss_is_told(offers.drop_last());
    }
}

/// How to go on with writing a line.
#[derive(Debug, Clone, Copy, PartialEq, Eq, Structural)]
pub enum WriteStep {
    /// Write the bytes from here on
    Write { from: usize },
    Written,
    Stop,
}

/// What one attempt to write came to.
#[derive(Debug, Clone, Copy, PartialEq, Eq, Structural)]
pub enum Wrote {
    Bytes(usize),
    Interrupted,
    WouldBlock,
    Failed,
}

/// A line being written, and how far it is. The offset is kept across partial
/// writes.
#[derive(Debug, Clone, Copy, PartialEq, Eq, Structural)]
pub struct LineWrite {
    pub len: usize,
    pub at: usize,
    pub failed: bool,
}

impl LineWrite {
    pub open spec fn wf(self) -> bool {
        self.at <= self.len
    }

    pub fn new(len: usize) -> (r: Self)
        ensures
            r == (LineWrite { len, at: 0, failed: false }),
    {
        LineWrite { len, at: 0, failed: false }
    }

    /// What to do next; a client that was disconnected gets nothing more.
    pub fn next(&self, alive: bool) -> (r: WriteStep)
        requires
            self.wf(),
        ensures
            r == (if self.failed {
                WriteStep::Stop
            } else if self.at == self.len {
                WriteStep::Written
            } else if !alive {
                WriteStep::Stop
            } else {
                WriteStep::Write { from: self.at }
            }),
    {
        if self.failed {
            WriteStep::Stop
        } else if self.at == self.len {
            WriteStep::Written
        } else if !alive {
            WriteStep::Stop
        } else {
            WriteStep::Write { from: self.at }
        }
    }

    /// Takes what an attempt came to; `true` when the next one should wait.
    pub fn wrote(&mut self, wrote: Wrote) -> (r: bool)
        requires
            old(self).wf(),
            wrote matches Wrote::Bytes(n) ==> n <= old(self).len - old(self).at,
        ensures
            final(self).wf(),
            final(self).len == old(self).len,
            final(self).at == old(self).at + (match wrote {
                Wrote::Bytes(n) => n as int,
                _ => 0,
            }),
            final(self).failed == (old(self).failed || wrote == Wrote::Failed || wrote
                == Wrote::Bytes(0)),
            r == (wrote == Wrote::WouldBlock),
    {
        match wrote {
            Wrote::Bytes(n) => {
                if n == 0 {
                    self.failed = true;
                } else {
                    self.at = self.at + n;
                }
                false
            },
            Wrote::Interrupted => false,
            Wrote::WouldBlock => true,
            Wrote::Failed => {
                self.failed = true;
                false
            },
        }
    }
}

/// A letter inside a JSON string: quotes, backslashes and control characters are
/// escaped, anything else stands for itself.
pub open spec fn json_letter(c: char) -> Seq<char> {
    let code = c as nat;
    if c == '"' {
        seq!['\\', '"']
    } else if c == '\\' {
        seq!['\\', '\\']
    } else if code == 0x08 {
        seq!['\\', 'b']
    } else if code == 0x09 {
        seq!['\\', 't']
    } else if code == 0x0a {
        seq!['\\', 'n']
    } else if code == 0x0c {
        seq!['\\', 'f']
    } else if code == 0x0d {
        seq!['\\', 'r']
    } else if code < 0x20 {
        seq!['\\', 'u', '0', '0', hex_digit(code / 16), hex_digit(code % 16)]
    } else {
        seq![c]
    }
}

/// Letters inside a JSON string.
pub open spec fn json_letters(s: Seq<char>) -> Seq<char>
    decreases s.len(),
{
    if s.len() == 0 {
        Seq::empty()
    } else {
        json_letters(s.drop_last()) + json_letter(s.last())
    }
}

/// A text as a JSON string.
pub open spec fn json_text(s: Seq<char>) -> Seq<char> {
    seq!['"'] + json_letters(s) + seq!['"']
}

/// [`serde_json::to_string`] of a text: the text as a JSON string, quoted and
/// escaped. It never fails for a text.
#[verifier::external_body]
fn json_string(s: &str) -> (r: String)
    ensures
        r@ == json_text(s@),
{
    serde_json::to_string(s).expect("JSON string")
}

/// A number as the stream writes it, `null` where it is no finite number.
pub open spec fn shown_number(n: Option<Seq<char>>) -> Seq<char> {
    match n {
        Some(text) => text,
        None => "null"@,
    }
}

/// Numbers, separated by commas.
pub open spec fn shown_numbers(list: Seq<Option<Seq<char>>>) -> Seq<char>
    decreases list.len(),
{
    if list.len() == 0 {
        Seq::empty()
    } else if list.len() == 1 {
        shown_number(list[0])
    } else {
        shown_numbers(list.drop_last()) + seq![','] + shown_number(list.last())
    }
}

/// The texts of a list of numbers.
pub open spec fn numbers_of(list: Seq<Option<String>>) -> Seq<Option<Seq<char>>> {
    list.map_values(|n: Option<String>| text_of(n))
}

/// What a batch holds for one watch: one value per tick, which the batch holds
/// tick by tick.
pub open spec fn column(
    values: Seq<Option<Seq<char>>>,
    ticks: nat,
    width: nat,
    col: int,
) -> Seq<Option<Seq<char>>> {
    Seq::new(ticks, |tick: int| values[tick * width + col])
}

/// The values of the first `n` watches, by name.
pub open spec fn shown_columns(
    names: Seq<Seq<char>>,
    values: Seq<Option<Seq<char>>>,
    ticks: nat,
    width: nat,
    n: nat,
) -> Seq<char>
    decreases n,
{
    if n == 0 {
        Seq::empty()
    } else {
        shown_columns(names, values, ticks, width, (n - 1) as nat) + (if n > 1 {
            seq![',']
        } else {
            Seq::empty()
        }) + json_text(names[n - 1]) + seq![':', '['] + shown_numbers(
            column(values, ticks, width, n - 1),
        ) + seq![']']
    }
}

/// A batch of samples as a line of the stream: its number, its times, and the
/// values of each watch by name.
pub open spec fn samples_shown(
    seq: u64,
    times: Seq<Option<Seq<char>>>,
    names: Seq<Seq<char>>,
    values: Seq<Option<Seq<char>>>,
    width: nat,
) -> Seq<char> {
    let shown = if names.len() < width {
        names.len()
    } else {
        width
    };
    "{\"type\":\"samples\",\"seq\":"@ + decimal(seq as nat) + ",\"t\":["@ + shown_numbers(times)
        + "],\"values\":{"@ + shown_columns(names, values, times.len(), width, shown) + "}}\n"@
}

fn push_number(out: &mut String, n: &Option<String>)
    ensures
        final(out)@ == old(out)@ + shown_number(text_of(*n)),
{
    match n {
        Some(text) => out.append(text.as_str()),
        None => out.append("null"),
    }
}

fn push_times(out: &mut String, list: &Vec<Option<String>>)
    ensures
        final(out)@ == old(out)@ + shown_numbers(numbers_of(list@)),
{
    let ghost start = out@;
    let ghost views = numbers_of(list@);
    let mut i: usize = 0;
    proof {
        assert(views.take(0) =~= Seq::empty());
        assert(out@ =~= start + shown_numbers(views.take(0)));
    }
    while i < list.len()
        invariant
            i <= list@.len(),
            views == numbers_of(list@),
            out@ == start + shown_numbers(views.take(i as int)),
        decreases list@.len() - i,
    {
        let ghost next = views.take(i + 1);
        proof {
            assert(next.drop_last() =~= views.take(i as int));
            assert(next.last() == text_of(list@[i as int]));
        }
        if i > 0 {
            out.append(",");
            proof {
                reveal_strlit(",");
            }
        }
        push_number(out, &list[i]);
        assert(out@ =~= start + shown_numbers(next));
        i = i + 1;
    }
    assert(views.take(i as int) =~= views);
}

fn push_column(out: &mut String, values: &Vec<Option<String>>, ticks: usize, width: usize, col: usize)
    requires
        col < width,
        ticks * width <= values@.len(),
    ensures
        final(out)@ == old(out)@ + shown_numbers(
            column(numbers_of(values@), ticks as nat, width as nat, col as int),
        ),
{
    let ghost start = out@;
    let ghost views = column(numbers_of(values@), ticks as nat, width as nat, col as int);
    let len: usize = values.len();
    let mut i: usize = 0;
    let mut at: usize = col;
    proof {
        assert(views.take(0) =~= Seq::empty());
        assert(out@ =~= start + shown_numbers(views.take(0)));
    }
    while i < ticks
        invariant
            i <= ticks,
            col < width,
            len == values@.len(),
            ticks * width <= len,
            i < ticks ==> at == i * width + col,
            views == column(numbers_of(values@), ticks as nat, width as nat, col as int),
            out@ == start + shown_numbers(views.take(i as int)),
        decreases ticks - i,
    {
        let ghost next = views.take(i + 1);
        proof {
            assert(i * width + width <= ticks * width) by (nonlinear_arith)
                requires
                    i < ticks,
            ;
            assert(next.drop_last() =~= views.take(i as int));
            assert(next.last() == text_of(values@[at as int]));
        }
        if i > 0 {
            out.append(",");
            proof {
                reveal_strlit(",");
            }
        }
        push_number(out, &values[at]);
        assert(out@ =~= start + shown_numbers(next));
        i = i + 1;
        if i < ticks {
            proof {
                assert(i * width + width <= ticks * width) by (nonlinear_arith)
                    requires
                        i < ticks,
                ;
                assert((i - 1) * width + width == i * width) by (nonlinear_arith);
            }
            at = at + width;
        }
    }
    assert(views.take(i as int) =~= views);
}

/// A batch of samples as a line of the stream. The numbers are given as they are
/// written, `None` for one that is not finite; `values` holds `width` of them for
/// each tick, in the order of the watches.
pub fn samples_line(
    seq: u64,
    times: &Vec<Option<String>>,
    names: &Vec<String>,
    values: &Vec<Option<String>>,
    width: usize,
) -> (r: String)
    requires
        times@.len() * width <= values@.len(),
    ensures
        r@ == samples_shown(
            seq,
            numbers_of(times@),
            texts_of(names@),
            numbers_of(values@),
            width as nat,
        ),
{
    let ghost views = numbers_of(values@);
    let ghost all = texts_of(names@);
    let ticks: usize = times.len();
    let shown: usize = if names.len() < width {
        names.len()
    } else {
        width
    };
    let mut out: String = "{\"type\":\"samples\",\"seq\":".to_owned();
    push_decimal(&mut out, seq);
    out.append(",\"t\":[");
    push_times(&mut out, times);
    out.append("],\"values\":{");
    let ghost start = out@;
    let mut n: usize = 0;
    assert(out@ =~= start + shown_columns(all, views, ticks as nat, width as nat, 0));
    while n < shown
        invariant
            n <= shown <= width,
            shown <= names@.len(),
            ticks * width <= values@.len(),
            views == numbers_of(values@),
            all == texts_of(names@),
            out@ == start + shown_columns(all, views, ticks as nat, width as nat, n as nat),
        decreases shown - n,
    {
        let ghost before = out@;
        if n > 0 {
            out.append(",");
        }
        let name: String = json_string(names[n].as_str());
        out.append(name.as_str());
        out.append(":[");
        push_column(&mut out, values, ticks, width, n);
        out.append("]");
        proof {
            reveal_strlit(",");
            reveal_strlit(":[");
            reveal_strlit("]");
            assert(all[n as int] == names@[n as int]@);
            assert(out@ =~= start + shown_columns(
                all,
                views,
                ticks as nat,
                width as nat,
                (n + 1) as nat,
            ));
        }
        n = n + 1;
    }
    out.append("}}\n");
    assert(out@ =~= samples_shown(
        seq,
        numbers_of(times@),
        texts_of(names@),
        numbers_of(values@),
        width as nat,
    ));
    out
}

/// A tuning value as the firmware has it; the numbers by the bits of their
/// doubles.
#[derive(Debug, Clone, Copy, PartialEq, Eq, Structural)]
pub struct TuneValue {
    pub id: u32,
    pub requested: u64,
    pub applied: u64,
}

/// Whether two doubles are equal as numbers.
pub open spec fn f64_eq(a: u64, b: u64) -> bool {
    f64_le(a, b) && f64_le(b, a)
}

impl TuneValue {
    /// Whether two values are equal as numbers; one that is not a number equals
    /// nothing.
    pub open spec fn same_as(self, other: TuneValue) -> bool {
        self.id == other.id && f64_eq(self.requested, other.requested) && f64_eq(
            self.applied,
            other.applied,
        )
    }

    fn same(&self, other: &TuneValue) -> (r: bool)
        ensures
            r == self.same_as(*other),
    {
        self.id == other.id && less_or_equal(self.requested, other.requested) && less_or_equal(
            other.requested,
            self.requested,
        ) && less_or_equal(self.applied, other.applied) && less_or_equal(
            other.applied,
            self.applied,
        )
    }
}

/// The tuning values by id; of two with one id the later stands.
pub open spec fn by_id(values: Seq<TuneValue>) -> Map<u32, TuneValue>
    decreases values.len(),
{
    if values.len() == 0 {
        Map::empty()
    } else {
        by_id(values.drop_last()).insert(values.last().id, values.last())
    }
}

/// The names of tuning values by id; of two with one id the later stands.
pub open spec fn names_by_id(names: Seq<(u32, Seq<char>)>) -> Map<u32, Seq<char>>
    decreases names.len(),
{
    if names.len() == 0 {
        Map::empty()
    } else {
        names_by_id(names.drop_last()).insert(names.last().0, names.last().1)
    }
}

/// The names of a list.
pub open spec fn name_pairs(names: Seq<(u32, String)>) -> Seq<(u32, Seq<char>)> {
    names.map_values(|n: (u32, String)| (n.0, n.1@))
}

/// Batches lost over some clients.
pub open spec fn lost_by(clients: Seq<Losses>) -> nat
    decreases clients.len(),
{
    if clients.len() == 0 {
        0
    } else {
        lost_by(clients.drop_last()) + clients.last().dropped as nat
    }
}

/// What is sent to every client.
#[derive(Debug)]
pub struct Fanout {
    pub clients: Vec<Losses>,
    pub names: Vec<(u32, String)>,
    /// Tuning values that clients know
    pub tune: Vec<TuneValue>,
    pub seq: u64,
    /// Batches lost by clients already disconnected
    pub dropped_gone: u64,
    /// Losses ahead of the fan-out already reported to clients
    pub tap_dropped: u64,
}

/// The clients after those that left are taken out, from client `i` on, with
/// what left them behind and where each stood when it was taken out. The last
/// client takes the place of one that is taken out.
pub open spec fn reaped(
    clients: Seq<Losses>,
    alive: Seq<bool>,
    gone: nat,
    out: Seq<usize>,
    i: int,
) -> (Seq<Losses>, nat, Seq<usize>)
    decreases clients.len() - i,
{
    if i < 0 || i >= clients.len() || alive.len() != clients.len() {
        (clients, gone, out)
    } else if alive[i] {
        reaped(clients, alive, gone, out, i + 1)
    } else {
        reaped(
            clients.update(i, clients.last()).drop_last(),
            alive.update(i, alive.last()).drop_last(),
            gone + clients[i].dropped as nat,
            out.push(i as usize),
            i,
        )
    }
}

proof fn lemma_lost_by_update(clients: Seq<Losses>, i: int)
    requires
        0 <= i < clients.len(),
    ensures
        lost_by(clients.update(i, clients.last()).drop_last()) + clients[i].dropped == lost_by(
            clients,
        ),
    decreases clients.len(),
{
    let rest = clients.drop_last();
    let next = clients.update(i, clients.last()).drop_last();
    if i == clients.len() - 1 {
        assert(next =~= rest);
    } else {
        assert(next =~= rest.update(i, clients.last()));
        lemma_lost_by_set(rest, i, clients.last());
    }
}

proof fn lemma_lost_by_set(clients: Seq<Losses>, i: int, c: Losses)
    requires
        0 <= i < clients.len(),
    ensures
        lost_by(clients.update(i, c)) + clients[i].dropped == lost_by(clients) + c.dropped,
    decreases clients.len(),
{
    let next = clients.update(i, c);
    if i == clients.len() - 1 {
        assert(next.drop_last() =~= clients.drop_last());
    } else {
        assert(next.drop_last() =~= clients.drop_last().update(i, c));
        lemma_lost_by_set(clients.drop_last(), i, c);
    }
}

/// Taking clients out forgets none of the batches that they lost.
pub proof fn lemma_reaping_forgets_no_loss(
    clients: Seq<Losses>,
    alive: Seq<bool>,
    gone: nat,
    out: Seq<usize>,
    i: int,
)
    ensures
        reaped(clients, alive, gone, out, i).1 + lost_by(reaped(clients, alive, gone, out, i).0)
            == gone + lost_by(clients),
    decreases clients.len() - i,
{
    if 0 <= i < clients.len() && alive.len() == clients.len() {
        if alive[i] {
            lemma_reaping_forgets_no_loss(clients, alive, gone, out, i + 1);
        } else {
            lemma_lost_by_update(clients, i);
            lemma_reaping_forgets_no_loss(
                clients.update(i, clients.last()).drop_last(),
                alive.update(i, alive.last()).drop_last(),
                gone + clients[i].dropped as nat,
                out.push(i as usize),
                i,
            );
        }
    }
}

impl Fanout {
    /// Batches lost so far.
    pub open spec fn lost(self) -> nat {
        self.dropped_gone as nat + self.tap_dropped as nat + lost_by(self.clients@)
    }

    /// Starts with the names of the session's tuning values.
    pub fn new(names: Vec<(u32, String)>) -> (r: Self)
        ensures
            r.clients@.len() == 0,
            r.names@ == names@,
            r.tune@.len() == 0,
            r.seq == 0,
            r.dropped_gone == 0,
            r.tap_dropped == 0,
    {
        Fanout {
            clients: Vec::new(),
            names,
            tune: Vec::new(),
            seq: 0,
            dropped_gone: 0,
            tap_dropped: 0,
        }
    }

    /// Takes what was lost ahead of the fan-out; how many batches clients have
    /// to be told of, if any: every client missed these.
    pub fn tap_lost(&mut self, lost: u64) -> (r: Option<u64>)
        ensures
            final(self).tap_dropped == (if lost > old(self).tap_dropped {
                lost
            } else {
                old(self).tap_dropped
            }),
            r == (if lost > old(self).tap_dropped {
                Some((lost - old(self).tap_dropped) as u64)
            } else {
                None
            }),
            *final(self) == (Fanout { tap_dropped: final(self).tap_dropped, ..*old(self) }),
    {
        if lost > self.tap_dropped {
            let n: u64 = lost - self.tap_dropped;
            self.tap_dropped = lost;
            Some(n)
        } else {
            None
        }
    }

    /// The number of the next batch: they count from 1.
    pub fn next_seq(&mut self) -> (r: u64)
        requires
            old(self).seq < u64::MAX,
        ensures
            r == old(self).seq + 1,
            *final(self) == (Fanout { seq: r, ..*old(self) }),
    {
        self.seq = self.seq + 1;
        self.seq
    }

    /// The name of a tuning value; of two with one id the later stands.
    pub fn name_of(&self, id: u32) -> (r: Option<&String>)
        ensures
            match r {
                Some(name) => names_by_id(name_pairs(self.names@)).contains_pair(id, name@),
                None => !names_by_id(name_pairs(self.names@)).contains_key(id),
            },
    {
        let ghost pairs = name_pairs(self.names@);
        let mut n: usize = self.names.len();
        assert(pairs.take(n as int) =~= pairs);
        while n > 0
            invariant
                n <= self.names@.len(),
                pairs == name_pairs(self.names@),
                names_by_id(pairs).contains_key(id) == names_by_id(
                    pairs.take(n as int),
                ).contains_key(id),
                names_by_id(pairs).contains_key(id) ==> names_by_id(pairs)[id] == names_by_id(
                    pairs.take(n as int),
                )[id],
            decreases n,
        {
            let ghost some = pairs.take(n as int);
            proof {
                assert(some.drop_last() =~= pairs.take(n - 1));
                assert(some.last() == pairs[n - 1]);
                assert(pairs[n - 1] == (self.names@[n - 1].0, self.names@[n - 1].1@));
            }
            if self.names[n - 1].0 == id {
                return Some(&self.names[n - 1].1);
            }
            n = n - 1;
        }
        None
    }

    /// Takes the names of a session that connects; nothing is known of its
    /// tuning values.
    pub fn session_started(&mut self, names: Vec<(u32, String)>)
        ensures
            final(self).names@ == names@,
            final(self).tune@.len() == 0,
            *final(self) == (Fanout {
                names: final(self).names,
                tune: final(self).tune,
                ..*old(self)
            }),
    {
        self.names = names;
        self.tune = Vec::new();
    }

    /// Takes the names of a new table.
    pub fn set_names(&mut self, names: Vec<(u32, String)>)
        ensures
            final(self).names@ == names@,
            *final(self) == (Fanout { names: final(self).names, ..*old(self) }),
    {
        self.names = names;
    }

    /// Whether clients hear of tuning values: what was found out about the table
    /// changed, or there are more or fewer values than before, or one differs.
    pub open spec fn tune_news(self, values: Seq<TuneValue>, check_changed: bool) -> bool {
        let known = by_id(self.tune@);
        ||| check_changed
        ||| values.len() != known.dom().len()
        ||| exists|i: int|
            0 <= i < values.len() && !(known.contains_key((#[trigger] values[i]).id)
                && known[values[i].id].same_as(values[i]))
    }

    fn known_value(&self, id: u32) -> (r: Option<TuneValue>)
        ensures
            match r {
                Some(v) => by_id(self.tune@).contains_pair(id, v),
                None => !by_id(self.tune@).contains_key(id),
            },
    {
        let mut n: usize = self.tune.len();
        assert(self.tune@.take(n as int) =~= self.tune@);
        while n > 0
            invariant
                n <= self.tune@.len(),
                by_id(self.tune@).contains_key(id) == by_id(
                    self.tune@.take(n as int),
                ).contains_key(id),
                by_id(self.tune@).contains_key(id) ==> by_id(self.tune@)[id] == by_id(
                    self.tune@.take(n as int),
                )[id],
            decreases n,
        {
            let ghost some = self.tune@.take(n as int);
            proof {
                assert(some.drop_last() =~= self.tune@.take(n - 1));
                assert(some.last() == self.tune@[n - 1]);
            }
            if self.tune[n - 1].id == id {
                return Some(self.tune[n - 1]);
            }
            n = n - 1;
        }
        None
    }

    /// How many different ids the known values have.
    fn known_count(&self) -> (r: usize)
        ensures
            r == by_id(self.tune@).dom().len(),
            by_id(self.tune@).dom().finite(),
    {
        let mut n: usize = 0;
        let mut i: usize = 0;
        proof {
            assert(self.tune@.take(0) =~= Seq::empty());
        }
        while i < self.tune.len()
            invariant
                i <= self.tune@.len(),
                n <= i,
                by_id(self.tune@.take(i as int)).dom().finite(),
                n == by_id(self.tune@.take(i as int)).dom().len(),
                forall|id: u32|
                    by_id(self.tune@.take(i as int)).contains_key(id) <==> exists|k: int|
                        0 <= k < i && (#[trigger] self.tune@[k]).id == id,
            decreases self.tune@.len() - i,
        {
            let ghost some = self.tune@.take(i + 1);
            let ghost before = by_id(self.tune@.take(i as int));
            proof {
                assert(some.drop_last() =~= self.tune@.take(i as int));
                assert(some.last() == self.tune@[i as int]);
            }
            let mut fresh: bool = true;
            let mut k: usize = 0;
            while k < i
                invariant
                    k <= i < self.tune@.len(),
                    fresh == !exists|j: int|
                        0 <= j < k && (#[trigger] self.tune@[j]).id == self.tune@[i as int].id,
                decreases i - k,
            {
                if self.tune[k].id == self.tune[i].id {
                    fresh = false;
                }
                k = k + 1;
            }
            proof {
                let id = self.tune@[i as int].id;
                assert(fresh == !before.contains_key(id));
                assert(by_id(some).dom() =~= before.dom().insert(id));
                assert forall|x: u32|
                    by_id(some).contains_key(x) <==> exists|j: int|
                        0 <= j < i + 1 && (#[trigger] self.tune@[j]).id == x by {
                    if x == id {
                        assert(self.tune@[i as int].id == x);
                    }
                }
            }
            if fresh {
                n = n + 1;
            }
            i = i + 1;
        }
        assert(self.tune@.take(i as int) =~= self.tune@);
        n
    }

    /// Takes the tuning values as the firmware has them; whether clients hear of
    /// them.
    pub fn tune_values(&mut self, values: Vec<TuneValue>, check_changed: bool) -> (r: bool)
        ensures
            r == old(self).tune_news(values@, check_changed),
            r ==> final(self).tune@ == values@,
            *final(self) == (Fanout { tune: final(self).tune, ..*old(self) }),
            !r ==> *final(self) == *old(self),
    {
        let mut news: bool = check_changed || values.len() != self.known_count();
        let mut i: usize = 0;
        while i < values.len()
            invariant
                i <= values@.len(),
                news == (check_changed || values@.len() != by_id(self.tune@).dom().len()
                    || exists|k: int|
                    0 <= k < i && !(by_id(self.tune@).contains_key((#[trigger] values@[k]).id)
                        && by_id(self.tune@)[values@[k].id].same_as(values@[k]))),
            decreases values@.len() - i,
        {
            let same: bool = match self.known_value(values[i].id) {
                Some(v) => v.same(&values[i]),
                None => false,
            };
            if !same {
                news = true;
                assert(!(by_id(self.tune@).contains_key((values@[i as int]).id) && by_id(
                    self.tune@,
                )[values@[i as int].id].same_as(values@[i as int])));
            }
            i = i + 1;
        }
        if news {
            self.tune = values;
        }
        news
    }

    /// Adds a client that has lost nothing.
    pub fn add(&mut self)
        ensures
            final(self).clients@ == old(self).clients@.push(
                Losses { pending_batches: 0, pending_messages: 0, dropped: 0 },
            ),
            *final(self) == (Fanout { clients: final(self).clients, ..*old(self) }),
    {
        self.clients.push(Losses::new());
    }

    /// Takes out the clients that left or were disconnected, and says where each
    /// stood when it was taken out; the last client took its place.
    pub fn reap(&mut self, alive: Vec<bool>) -> (r: Vec<usize>)
        requires
            alive@.len() == old(self).clients@.len(),
            old(self).lost() <= u64::MAX,
        ensures
            (final(self).clients@, final(self).dropped_gone as nat, r@) == reaped(
                old(self).clients@,
                alive@,
                old(self).dropped_gone as nat,
                Seq::empty(),
                0,
            ),
            final(self).lost() == old(self).lost(),
            *final(self) == (Fanout {
                clients: final(self).clients,
                dropped_gone: final(self).dropped_gone,
                ..*old(self)
            }),
    {
        let ghost start = *self;
        let ghost all = alive@;
        let mut alive: Vec<bool> = alive;
        let mut out: Vec<usize> = Vec::new();
        let mut i: usize = 0;
        while i < self.clients.len()
            invariant
                i <= self.clients@.len(),
                alive@.len() == self.clients@.len(),
                *self == (Fanout {
                    clients: self.clients,
                    dropped_gone: self.dropped_gone,
                    ..start
                }),
                self.dropped_gone + lost_by(self.clients@) == start.dropped_gone + lost_by(
                    start.clients@,
                ),
                start.lost() <= u64::MAX,
                reaped(start.clients@, all, start.dropped_gone as nat, Seq::empty(), 0) == reaped(
                    self.clients@,
                    alive@,
                    self.dropped_gone as nat,
                    out@,
                    i as int,
                ),
            decreases self.clients@.len() - i,
        {
            if alive[i] {
                i = i + 1;
            } else {
                let ghost clients = self.clients@;
                let ghost flags = alive@;
                proof {
                    lemma_lost_by_update(clients, i as int);
                }
                let client: Losses = self.clients.swap_remove(i);
                let _ = alive.swap_remove(i);
                self.dropped_gone = self.dropped_gone + client.dropped;
                out.push(i);
                proof {
                    assert(self.clients@ =~= clients.update(i as int, clients.last()).drop_last());
                    assert(alive@ =~= flags.update(i as int, flags.last()).drop_last());
                }
            }
        }
        out
    }

    /// Batches lost so far, over every client and ahead of them.
    pub fn dropped(&self) -> (r: u64)
        requires
            self.lost() <= u64::MAX,
        ensures
            r == self.lost(),
    {
        let mut sum: u64 = 0;
        let mut i: usize = 0;
        assert(self.clients@.take(0) =~= Seq::empty());
        while i < self.clients.len()
            invariant
                i <= self.clients@.len(),
                sum == lost_by(self.clients@.take(i as int)),
                self.lost() <= u64::MAX,
            decreases self.clients@.len() - i,
        {
            proof {
                assert(self.clients@.take(i + 1).drop_last() =~= self.clients@.take(i as int));
                assert(self.clients@.take(i + 1).last() == self.clients@[i as int]);
                lemma_lost_by_prefix(self.clients@, i + 1);
            }
            sum = sum + self.clients[i].dropped;
            i = i + 1;
        }
        assert(self.clients@.take(i as int) =~= self.clients@);
        self.dropped_gone + self.tap_dropped + sum
    }
}

proof fn lemma_lost_by_prefix(clients: Seq<Losses>, n: int)
    requires
        0 <= n <= clients.len(),
    ensures
        lost_by(clients.take(n)) <= lost_by(clients),
    decreases clients.len() - n,
{
    if n < clients.len() {
        lemma_lost_by_prefix(clients, n + 1);
        assert(clients.take(n + 1).drop_last() =~= clients.take(n));
    } else {
        assert(clients.take(n) =~= clients);
    }
}

/// The names by id of a list of named tuning values.
pub fn names_from(tunables: &Vec<TunableName>) -> (r: Vec<(u32, String)>)
    ensures
        name_pairs(r@) == tunables@.map_values(|t: TunableName| (t.id, t.name@)),
{
    let mut out: Vec<(u32, String)> = Vec::new();
    let mut i: usize = 0;
    while i < tunables.len()
        invariant
            i <= tunables@.len(),
            out@.len() == i,
            forall|k: int|
                0 <= k < i ==> (#[trigger] out@[k]).0 == tunables@[k].id && out@[k].1@
                    == tunables@[k].name@,
        decreases tunables@.len() - i,
    {
        out.push((tunables[i].id, tunables[i].name.clone()));
        i = i + 1;
    }
    assert(name_pairs(out@) =~= tunables@.map_values(|t: TunableName| (t.id, t.name@)));
    out
}

} // verus!
