//! Connecting to a target: what a request to connect asks for, what a running
//! session is told when the watched set changes, and how its answers are dealt
//! out.

use vstd::prelude::*;
use vstd::string::*;
use object::Object;
use crate::catalog::{Catalog, CatalogEntry, ReadItem};
use crate::elf::ElfInfo;
#[allow(unused_imports)]
use crate::elf::symbol_named;
#[allow(unused_imports)]
use crate::def_view::text_of;
#[allow(unused_imports)]
use crate::search::first;
use crate::session::trimmed;
#[allow(unused_imports)]
use crate::session::trimmed_text;
use crate::text::push_hex;
#[allow(unused_imports)]
use crate::text::hex_padded;

verus! {

#[derive(Clone, Copy, PartialEq, Eq, Debug, Structural)]
pub enum Carrier {
    /// A debug probe on SWD: needs the ELF and the chip
    Probe,
    /// The firmware's framed link on a serial port: needs neither
    Serial,
}

#[derive(Debug)]
pub struct ConnectRequest {
    pub carrier: Carrier,
    pub probe: Option<String>,
    pub chip: String,
    pub speed_khz: Option<u32>,
    pub port: Option<String>,
    /// Samples per second, by the bits of the double
    pub rate_hz: u64,
}

/// How a carrier is opened.
#[derive(Debug)]
pub enum ConnectPlan {
    Probe {
        selector: Option<String>,
        chip: String,
        speed_khz: Option<u32>,
        /// Where the firmware's RTT block is, if it is to be read
        rtt_address: Option<u64>,
    },
    Serial { port: String },
}

/// How a carrier is opened.
#[verifier::ext_equal]
pub enum ConnectView {
    Probe {
        selector: Option<Seq<char>>,
        chip: Seq<char>,
        speed_khz: Option<u32>,
        rtt_address: Option<u64>,
    },
    Serial { port: Seq<char> },
}

impl View for ConnectPlan {
    type V = ConnectView;

    open spec fn view(&self) -> ConnectView {
        match self {
            ConnectPlan::Probe { selector, chip, speed_khz, rtt_address } => ConnectView::Probe {
                selector: text_of(*selector),
                chip: chip@,
                speed_khz: *speed_khz,
                rtt_address: *rtt_address,
            },
            ConnectPlan::Serial { port } => ConnectView::Serial { port: port@ },
        }
    }
}

/// A text, unless it is empty.
pub open spec fn nonempty(s: Option<String>) -> Option<Seq<char>> {
    match s {
        Some(s) => if s@.len() > 0 {
            Some(s@)
        } else {
            None
        },
        None => None,
    }
}

fn keep_nonempty(s: Option<String>) -> (r: Option<String>)
    ensures
        text_of(r) == nonempty(s),
{
    match s {
        Some(s) => if s.as_str().unicode_len() > 0 {
            Some(s)
        } else {
            None
        },
        None => None,
    }
}

/// Where a firmware's RTT block is.
pub open spec fn rtt_block(elf: ElfInfo) -> Option<u64> {
    match first(elf.symbols@, symbol_named("_SEGGER_RTT"@)) {
        Some(i) => Some(elf.symbols@[i].address),
        None => None,
    }
}

/// What a request to connect asks for, or what it lacks.
pub open spec fn connect_planned(
    request: ConnectRequest,
    elf: Result<ElfInfo, Seq<char>>,
    rtt: bool,
) -> Result<ConnectView, Seq<char>> {
    if request.carrier == Carrier::Serial {
        match nonempty(request.port) {
            Some(port) => Ok(ConnectView::Serial { port }),
            None => Err("choose the serial port first"@),
        }
    } else {
        match elf {
            Err(e) => Err(e),
            Ok(elf) => if trimmed_text(request.chip@).len() == 0 {
                Err("choose the target chip first"@)
            } else {
                Ok(
                    ConnectView::Probe {
                        selector: nonempty(request.probe),
                        chip: trimmed_text(request.chip@),
                        speed_khz: request.speed_khz,
                        rtt_address: if rtt {
                            rtt_block(elf)
                        } else {
                            None
                        },
                    },
                )
            },
        }
    }
}

/// What a request to connect asks for. A probe needs the open ELF, or the reason
/// why there is none is the error, and the chip; a serial port needs a name.
pub fn plan_connect(request: ConnectRequest, elf: Result<&ElfInfo, String>, rtt: bool) -> (r: Result<
    ConnectPlan,
    String,
>)
    ensures
        connect_planned(
            request,
            match elf {
                Ok(elf) => Ok(*elf),
                Err(e) => Err(e@),
            },
            rtt,
        ) == (match r {
            Ok(plan) => Ok(plan@),
            Err(e) => Err(e@),
        }),
{
    if request.carrier == Carrier::Serial {
        return match keep_nonempty(request.port) {
            Some(port) => Ok(ConnectPlan::Serial { port }),
            None => Err("choose the serial port first".to_owned()),
        };
    }
    let elf: &ElfInfo = match elf {
        Ok(elf) => elf,
        Err(e) => {
            return Err(e);
        },
    };
    let chip: String = trimmed(request.chip.as_str());
    if chip.as_str().unicode_len() == 0 {
        return Err("choose the target chip first".to_owned());
    }
    let rtt_address: Option<u64> = if rtt {
        match elf.find_symbol("_SEGGER_RTT") {
            Some(s) => Some(s.address),
            None => None,
        }
    } else {
        None
    };
    Ok(
        ConnectPlan::Probe {
            selector: keep_nonempty(request.probe),
            chip,
            speed_khz: request.speed_khz,
            rtt_address,
        },
    )
}

/// A tuning value's name, for recordings and the stream.
#[derive(Debug)]
pub struct TunableName {
    pub id: u32,
    pub name: String,
    pub unit: Option<String>,
}

/// How a tuning value is named.
pub open spec fn named(e: CatalogEntry) -> (u32, Seq<char>, Option<Seq<char>>) {
    (
        e.id,
        e.name@,
        if e.unit@.len() > 0 {
            Some(e.unit@)
        } else {
            None
        },
    )
}

/// The names of a table's values, in its order; an empty unit is none.
pub fn tunable_names(catalog: &Catalog) -> (r: Vec<TunableName>)
    ensures
        r@.len() == catalog.entries@.len(),
        forall|i: int|
            0 <= i < r@.len() ==> ((#[trigger] r@[i]).id, r@[i].name@, text_of(r@[i].unit))
                == named(catalog.entries@[i]),
{
    let mut out: Vec<TunableName> = Vec::new();
    let mut i: usize = 0;
    while i < catalog.entries.len()
        invariant
            i <= catalog.entries@.len(),
            out@.len() == i,
            forall|k: int|
                0 <= k < i ==> ((#[trigger] out@[k]).id, out@[k].name@, text_of(out@[k].unit))
                    == named(catalog.entries@[k]),
        decreases catalog.entries@.len() - i,
    {
        let e: &CatalogEntry = &catalog.entries[i];
        let unit: Option<String> = if e.unit.as_str().unicode_len() > 0 {
            Some(e.unit.clone())
        } else {
            None
        };
        out.push(TunableName { id: e.id, name: e.name.clone(), unit });
        i = i + 1;
    }
    out
}

/// The build id that an object file carries, if it can be read and has one.
pub uninterp spec fn build_id_in(elf: Seq<u8>) -> Option<Seq<u8>>;

/// [`object::File::parse`] and the file's `build_id`; where either fails there
/// is none. The crate is built to read ELF files alone.
#[verifier::external_body]
fn read_build_id(elf: &[u8]) -> (r: Option<Vec<u8>>)
    ensures
        build_id_in(elf@) == (match r {
            Some(id) => Some(id@),
            None => None,
        }),
{
    let file = object::File::parse(elf).ok()?;
    let id = file.build_id().ok()??;
    Some(id.to_vec())
}

/// Bytes as two hexadecimal digits each.
pub open spec fn hex_of(bytes: Seq<u8>) -> Seq<char>
    decreases bytes.len(),
{
    if bytes.len() == 0 {
        Seq::empty()
    } else {
        hex_of(bytes.drop_last()) + hex_padded(bytes.last() as nat, 2)
    }
}

/// Bytes as two hexadecimal digits each.
pub fn hex_text(bytes: &[u8]) -> (r: String)
    ensures
        r@ == hex_of(bytes@),
{
    let mut out: String = String::new();
    let mut i: usize = 0;
    proof {
        assert(bytes@.take(0) =~= Seq::empty());
        assert(out@ =~= hex_of(bytes@.take(0)));
    }
    while i < bytes.len()
        invariant
            i <= bytes@.len(),
            out@ == hex_of(bytes@.take(i as int)),
        decreases bytes@.len() - i,
    {
        proof {
            assert(bytes@.take(i + 1).drop_last() =~= bytes@.take(i as int));
            assert(bytes@.take(i + 1).last() == bytes@[i as int]);
        }
        push_hex(&mut out, bytes[i] as u64, 2);
        i = i + 1;
    }
    assert(bytes@.take(bytes@.len() as int) =~= bytes@);
    out
}

/// The ELF's GNU build id as hex, when it has one
pub fn build_id(elf: &[u8]) -> (r: Option<String>)
    ensures
        text_of(r) == (match build_id_in(elf@) {
            Some(id) => Some(hex_of(id)),
            None => None,
        }),
{
    match read_build_id(elf) {
        Some(id) => Some(hex_text(id.as_slice())),
        None => None,
    }
}

/// What a session samples.
#[derive(Debug)]
pub struct Watches {
    /// Last watched set, re-sent when a new session connects
    pub items: Vec<ReadItem>,
    /// Tuning values watched by id, as `(watch id, value id)`, for a framed link
    pub cells: Vec<(u32, u32)>,
}

/// What a running session has to be told.
#[derive(Debug, Clone, Copy, PartialEq, Eq, Structural)]
pub struct Changes {
    pub items: bool,
    pub cells: bool,
}

fn same_items(a: &Vec<ReadItem>, b: &Vec<ReadItem>) -> (r: bool)
    ensures
        r == (a@ == b@),
{
    if a.len() != b.len() {
        return false;
    }
    let mut i: usize = 0;
    while i < a.len()
        invariant
            i <= a@.len() == b@.len(),
            forall|k: int| 0 <= k < i ==> a@[k] == b@[k],
        decreases a@.len() - i,
    {
        if a[i] != b[i] {
            assert(a@[i as int] != b@[i as int]);
            return false;
        }
        i = i + 1;
    }
    assert(a@ =~= b@);
    true
}

fn same_cells(a: &Vec<(u32, u32)>, b: &Vec<(u32, u32)>) -> (r: bool)
    ensures
        r == (a@ == b@),
{
    if a.len() != b.len() {
        return false;
    }
    let mut i: usize = 0;
    while i < a.len()
        invariant
            i <= a@.len() == b@.len(),
            forall|k: int| 0 <= k < i ==> a@[k] == b@[k],
        decreases a@.len() - i,
    {
        if a[i].0 != b[i].0 || a[i].1 != b[i].1 {
            assert(a@[i as int] != b@[i as int]);
            return false;
        }
        i = i + 1;
    }
    assert(a@ =~= b@);
    true
}

impl Watches {
    pub fn new() -> (r: Watches)
        ensures
            r.items@.len() == 0,
            r.cells@.len() == 0,
    {
        Watches { items: Vec::new(), cells: Vec::new() }
    }

    /// Takes a new set. Only a change of what is sampled goes to the session: a
    /// new unit or name must not restart sampling.
    pub fn take(&mut self, items: Vec<ReadItem>, cells: Vec<(u32, u32)>) -> (r: Changes)
        ensures
            final(self).items@ == items@,
            final(self).cells@ == cells@,
            r.items == (old(self).items@ != items@),
            r.cells == (old(self).cells@ != cells@),
    {
        let changes = Changes {
            items: !same_items(&self.items, &items),
            cells: !same_cells(&self.cells, &cells),
        };
        if changes.items {
            self.items = items;
        }
        if changes.cells {
            self.cells = cells;
        }
        changes
    }

    /// What a session that just connected is told: a probe the symbols, a serial
    /// link the tuning values, and neither an empty set.
    pub fn resent(&self, carrier: Carrier) -> (r: Changes)
        ensures
            r.items == (carrier == Carrier::Probe && self.items@.len() > 0),
            r.cells == (carrier == Carrier::Serial && self.cells@.len() > 0),
    {
        Changes {
            items: carrier == Carrier::Probe && self.items.len() > 0,
            cells: carrier == Carrier::Serial && self.cells.len() > 0,
        }
    }
}

/// What asking a session came to.
#[derive(Debug)]
pub enum Reply<T> {
    /// No session runs, or it is gone
    NotSent,
    /// No answer in time
    Late,
    Answered(Result<T, String>),
}

/// A reply, with the reasons given where there is none.
pub open spec fn settled_reply<T>(reply: Reply<T>, not_sent: Seq<char>, late: Seq<char>) -> Result<
    T,
    Seq<char>,
> {
    match reply {
        Reply::NotSent => Err(not_sent),
        Reply::Late => Err(late),
        Reply::Answered(Ok(v)) => Ok(v),
        Reply::Answered(Err(e)) => Err(e@),
    }
}

/// What a tuning request came to.
pub fn request_outcome(reply: Reply<()>) -> (r: Result<(), String>)
    ensures
        settled_reply(
            reply,
            "connect to the target first"@,
            "the target did not take the write in time"@,
        ) == crate::values::result_view(r),
{
    match reply {
        Reply::NotSent => Err("connect to the target first".to_owned()),
        Reply::Late => Err("the target did not take the write in time".to_owned()),
        Reply::Answered(r) => r,
    }
}

/// What reading target memory once came to.
pub fn read_outcome(reply: Reply<Vec<Vec<u8>>>) -> (r: Result<Vec<Vec<u8>>, String>)
    ensures
        settled_reply(
            reply,
            "connect a debug probe first"@,
            "the target did not answer in time"@,
        ) == crate::values::result_view(r),
{
    match reply {
        Reply::NotSent => Err("connect a debug probe first".to_owned()),
        Reply::Late => Err("the target did not answer in time".to_owned()),
        Reply::Answered(r) => r,
    }
}

/// The memory that a task's state is read from, or why it cannot be.
pub type Probe = Result<Vec<(u64, usize)>, String>;

/// How many regions a task asks for.
pub open spec fn asked(probe: Probe) -> nat {
    match probe {
        Ok(regions) => regions@.len(),
        Err(_) => 0,
    }
}

/// What is read for the first tasks.
pub open spec fn regions_for(probes: Seq<Probe>) -> Seq<(u64, usize)>
    decreases probes.len(),
{
    if probes.len() == 0 {
        Seq::empty()
    } else {
        regions_for(probes.drop_last()) + (match probes.last() {
            Ok(regions) => regions@,
            Err(_) => Seq::empty(),
        })
    }
}

/// Everything that one look at the tasks reads: what each task asks for, in
/// order, and then the firmware's counters, if it keeps any.
pub fn task_regions(probes: &Vec<Probe>, counters: Option<(u64, usize)>) -> (r: Vec<(u64, usize)>)
    ensures
        r@ == regions_for(probes@) + (match counters {
            Some(region) => seq![region],
            None => Seq::empty(),
        }),
{
    let mut out: Vec<(u64, usize)> = Vec::new();
    let mut i: usize = 0;
    assert(probes@.take(0) =~= Seq::empty());
    while i < probes.len()
        invariant
            i <= probes@.len(),
            out@ == regions_for(probes@.take(i as int)),
        decreases probes@.len() - i,
    {
        proof {
            assert(probes@.take(i + 1).drop_last() =~= probes@.take(i as int));
            assert(probes@.take(i + 1).last() == probes@[i as int]);
        }
        let ghost before = out@;
        if let Ok(regions) = &probes[i] {
            let mut j: usize = 0;
            assert(out@ =~= before + regions@.take(0));
            while j < regions.len()
                invariant
                    j <= regions@.len(),
                    out@ == before + regions@.take(j as int),
                decreases regions@.len() - j,
            {
                out.push(regions[j]);
                j = j + 1;
                assert(out@ =~= before + regions@.take(j as int));
            }
            assert(regions@.take(j as int) =~= regions@);
        }
        assert(out@ =~= regions_for(probes@.take(i + 1)));
        i = i + 1;
    }
    assert(probes@.take(i as int) =~= probes@);
    let ghost all = out@;
    if let Some(region) = counters {
        out.push(region);
        assert(out@ =~= all + seq![region]);
    } else {
        assert(out@ =~= all + Seq::empty());
    }
    out
}

/// Where the blocks of a task start: behind those of the tasks before it, as far
/// as there are any.
pub open spec fn dealt_before(probes: Seq<Probe>, blocks: nat) -> nat
    decreases probes.len(),
{
    if probes.len() == 0 {
        0
    } else {
        let at = dealt_before(probes.drop_last(), blocks);
        if asked(probes.last()) <= blocks - at {
            at + asked(probes.last())
        } else {
            blocks
        }
    }
}

proof fn lemma_dealt_bound(probes: Seq<Probe>, blocks: nat)
    ensures
        dealt_before(probes, blocks) <= blocks,
    decreases probes.len(),
{
    if probes.len() > 0 {
        lemma_dealt_bound(probes.drop_last(), blocks);
    }
}

/// Which of the blocks that were read are each task's, from the first to before
/// the last; one that came too short gets fewer. The counters' block is the one
/// behind the tasks', if it came.
pub fn deal(probes: &Vec<Probe>, blocks: usize) -> (r: (Vec<(usize, usize)>, Option<usize>))
    ensures
        r.0@.len() == probes@.len(),
        forall|i: int|
            0 <= i < probes@.len() ==> {
                &&& (#[trigger] r.0@[i]).0 == dealt_before(probes@.take(i), blocks as nat)
                &&& r.0@[i].1 == dealt_before(probes@.take(i + 1), blocks as nat)
            },
        r.1 == (if dealt_before(probes@, blocks as nat) < blocks {
            Some(dealt_before(probes@, blocks as nat) as usize)
        } else {
            None
        }),
{
    let mut out: Vec<(usize, usize)> = Vec::new();
    let mut at: usize = 0;
    let mut i: usize = 0;
    assert(probes@.take(0) =~= Seq::empty());
    while i < probes.len()
        invariant
            i <= probes@.len(),
            out@.len() == i,
            at == dealt_before(probes@.take(i as int), blocks as nat),
            at <= blocks,
            forall|k: int|
                0 <= k < i ==> {
                    &&& (#[trigger] out@[k]).0 == dealt_before(probes@.take(k), blocks as nat)
                    &&& out@[k].1 == dealt_before(probes@.take(k + 1), blocks as nat)
                },
        decreases probes@.len() - i,
    {
        proof {
            assert(probes@.take(i + 1).drop_last() =~= probes@.take(i as int));
            assert(probes@.take(i + 1).last() == probes@[i as int]);
        }
        let n: usize = match &probes[i] {
            Ok(regions) => regions.len(),
            Err(_) => 0,
        };
        let to: usize = if n <= blocks - at {
            at + n
        } else {
            blocks
        };
        out.push((at, to));
        at = to;
        i = i + 1;
    }
    assert(probes@.take(i as int) =~= probes@);
    let rest: Option<usize> = if at < blocks {
        Some(at)
    } else {
        None
    };
    (out, rest)
}

/// Where every region was read, each task is dealt as many blocks as it asked
/// for, and they are those of its own regions.
pub proof fn lemma_every_task_gets_its_own(probes: Seq<Probe>, i: int, blocks: nat)
    requires
        0 <= i < probes.len(),
        regions_for(probes).len() <= blocks,
    ensures
        dealt_before(probes.take(i), blocks) == regions_for(probes.take(i)).len(),
        dealt_before(probes.take(i + 1), blocks) == regions_for(probes.take(i)).len() + asked(
            probes[i],
        ),
        probes[i] matches Ok(regions) ==> regions_for(probes).subrange(
            dealt_before(probes.take(i), blocks) as int,
            dealt_before(probes.take(i + 1), blocks) as int,
        ) == regions@,
{
    lemma_dealt_in_order(probes, i, blocks);
    lemma_dealt_in_order(probes, i + 1, blocks);
    assert(probes.take(i + 1).drop_last() =~= probes.take(i));
    assert(probes.take(i + 1).last() == probes[i]);
    if let Ok(regions) = probes[i] {
        lemma_regions_prefix(probes, i + 1);
        let to = regions_for(probes.take(i + 1));
        assert(regions_for(probes).take(to.len() as int) == to);
        let from = regions_for(probes.take(i)).len() as int;
        assert(regions_for(probes).subrange(from, to.len() as int) =~= to.skip(from)) by {
            assert forall|k: int| from <= k < to.len() implies regions_for(probes)[k] == to[k] by {
                assert(regions_for(probes).take(to.len() as int)[k] == to[k]);
            }
        }
        assert(to.skip(from) =~= regions@);
    }
}

proof fn lemma_regions_prefix(probes: Seq<Probe>, i: int)
    requires
        0 <= i <= probes.len(),
    ensures
        regions_for(probes.take(i)).len() <= regions_for(probes).len(),
        regions_for(probes).take(regions_for(probes.take(i)).len() as int) == regions_for(
            probes.take(i),
        ),
    decreases probes.len() - i,
{
    let some = regions_for(probes.take(i));
    if i < probes.len() {
        lemma_regions_prefix(probes, i + 1);
        let more = regions_for(probes.take(i + 1));
        assert(probes.take(i + 1).drop_last() =~= probes.take(i));
        assert(regions_for(probes).take(some.len() as int) =~= some) by {
            assert forall|k: int| 0 <= k < some.len() implies regions_for(probes)[k]
                == some[k] by {
                assert(regions_for(probes).take(more.len() as int)[k] == more[k]);
                assert(more[k] == some[k]);
            }
        }
    } else {
        assert(probes.take(i) =~= probes);
        assert(some.take(some.len() as int) =~= some);
    }
}

proof fn lemma_dealt_in_order(probes: Seq<Probe>, i: int, blocks: nat)
    requires
        0 <= i <= probes.len(),
        regions_for(probes).len() <= blocks,
    ensures
        dealt_before(probes.take(i), blocks) == regions_for(probes.take(i)).len(),
    decreases i,
{
    lemma_regions_prefix(probes, i);
    if i > 0 {
        lemma_dealt_in_order(probes, i - 1, blocks);
        assert(probes.take(i).drop_last() =~= probes.take(i - 1));
        assert(probes.take(i).last() == probes[i - 1]);
    }
}

/// What the firmware's counters come to: `layout` says whether it keeps any, and
/// where not why; `decoded` is what their block held, if it came.
pub fn counters_outcome<T>(
    layout: Option<Result<(), String>>,
    decoded: Option<Result<T, String>>,
) -> (r: (Option<T>, Option<String>))
    ensures
        match layout {
            None => r.0 is None && r.1 is None,
            Some(Err(e)) => r.0 is None && text_of(r.1) == Some(e@),
            Some(Ok(_)) => match decoded {
                None => r.0 is None && text_of(r.1) == Some("short read"@),
                Some(Err(e)) => r.0 is None && text_of(r.1) == Some(e@),
                Some(Ok(v)) => r.0 == Some(v) && r.1 is None,
            },
        },
{
    match layout {
        None => (None, None),
        Some(Err(e)) => (None, Some(e)),
        Some(Ok(_)) => match decoded {
            None => (None, Some("short read".to_owned())),
            Some(Err(e)) => (None, Some(e)),
            Some(Ok(v)) => (Some(v), None),
        },
    }
}

} // verus!
