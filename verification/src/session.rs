//! Session control: what a client's requests come to before anything is asked
//! of the target, and what the target's answers come to.

use vstd::prelude::*;
use vstd::string::*;
use crate::browse::node;
#[allow(unused_imports)]
use crate::bytes::get_u64;
#[allow(unused_imports)]
use crate::bytes::u64_at;
use crate::catalog::{Catalog, ReadItem};
#[allow(unused_imports)]
use crate::catalog::entry_with;
use crate::def_view::text_of;
use crate::elf::ElfInfo;
use crate::leaves::read_item;
#[allow(unused_imports)]
use crate::leaves::{item_for, plain_node};
use crate::node_ref::NodeRef;
#[allow(unused_imports)]
use crate::search::first;
use crate::text::{chars_of, holds_ignoring_case, push_decimal, push_signed};
#[allow(unused_imports)]
use crate::text::{decimal, lowered, occurs_in, signed_decimal};
#[allow(unused_imports)]
use crate::variable_type::VariableType;

verus! {

/// Most chip names that a search gives.
pub const MAX_CHIPS: usize = 50;

/// What a text is without the white space around it.
pub uninterp spec fn trimmed_text(s: Seq<char>) -> Seq<char>;

/// [`str::trim`]: the text without leading and trailing white space; which
/// characters those are is only named.
#[verifier::external_body]
pub(crate) fn trimmed(s: &str) -> (r: String)
    ensures
        r@ == trimmed_text(s@),
{
    s.trim().to_owned()
}

/// The first names, at most `room`, in which the query stands, whatever the
/// case.
pub open spec fn chips_matching(all: Seq<Seq<char>>, query: Seq<char>, room: nat) -> Seq<Seq<char>>
    decreases all.len(),
{
    if all.len() == 0 || room == 0 {
        Seq::empty()
    } else if occurs_in(lowered(all[0]), lowered(query)) {
        seq![all[0]] + chips_matching(all.skip(1), query, (room - 1) as nat)
    } else {
        chips_matching(all.skip(1), query, room)
    }
}

/// The texts of a list of strings.
pub open spec fn texts_of(all: Seq<String>) -> Seq<Seq<char>> {
    all.map_values(|s: String| s@)
}

/// Chip names containing `query`, case-insensitive, at most 50
pub fn search_chips(all: &Vec<String>, query: &str) -> (r: Vec<String>)
    ensures
        texts_of(r@) == chips_matching(texts_of(all@), query@, MAX_CHIPS as nat),
{
    let ghost views = texts_of(all@);
    let mut out: Vec<String> = Vec::new();
    let mut i: usize = 0;
    proof {
        assert(views.skip(0) =~= views);
        assert(texts_of(out@) =~= Seq::<Seq<char>>::empty());
        assert(chips_matching(views, query@, MAX_CHIPS as nat) =~= texts_of(out@)
            + chips_matching(views.skip(0), query@, MAX_CHIPS as nat));
    }
    while i < all.len() && out.len() < MAX_CHIPS
        invariant
            i <= all@.len(),
            out@.len() <= MAX_CHIPS,
            views == texts_of(all@),
            chips_matching(views, query@, MAX_CHIPS as nat) == texts_of(out@) + chips_matching(
                views.skip(i as int),
                query@,
                (MAX_CHIPS - out@.len()) as nat,
            ),
        decreases all@.len() - i,
    {
        let ghost rest = views.skip(i as int);
        proof {
            assert(rest.skip(1) =~= views.skip(i + 1));
            assert(rest[0] == all@[i as int]@);
        }
        if holds_ignoring_case(all[i].as_str(), query) {
            let ghost before = out@;
            out.push(all[i].clone());
            proof {
                assert(texts_of(out@) =~= texts_of(before).push(rest[0]));
                assert(chips_matching(views, query@, MAX_CHIPS as nat) =~= texts_of(out@)
                    + chips_matching(views.skip(i + 1), query@, (MAX_CHIPS - out@.len()) as nat));
            }
        }
        i = i + 1;
    }
    proof {
        assert(chips_matching(views.skip(i as int), query@, (MAX_CHIPS - out@.len()) as nat)
            =~= Seq::<Seq<char>>::empty());
        assert(texts_of(out@) =~= chips_matching(views, query@, MAX_CHIPS as nat));
    }
    out
}

/// What a sample's bytes are as an exact integer, for whole 64-bit integers.
pub open spec fn exact_text(item: ReadItem, bytes: Seq<u8>) -> Option<Seq<char>> {
    if item.bit_size is Some || item.bit_offset is Some || bytes.len() != 8 {
        None
    } else if item.scalar is U64 {
        Some(decimal(u64_at(bytes, 0) as nat))
    } else if item.scalar is I64 {
        Some(signed_decimal((u64_at(bytes, 0) as i64) as int))
    } else {
        None
    }
}

/// Preserve integers that cannot round-trip through JSON's f64 number model.
pub fn exact_integer(item: &ReadItem, bytes: &[u8]) -> (r: Option<String>)
    ensures
        text_of(r) == exact_text(*item, bytes@),
{
    if item.bit_size.is_some() || item.bit_offset.is_some() || bytes.len() != 8 {
        return None;
    }
    let mut out: String = String::new();
    match item.scalar {
        VariableType::U64 => {
            push_decimal(&mut out, get_u64(bytes, 0));
            assert(out@ =~= decimal(u64_at(bytes@, 0) as nat));
            Some(out)
        },
        VariableType::I64 => {
            let value: i64 = #[verifier::truncate] (get_u64(bytes, 0) as i64);
            push_signed(&mut out, value);
            assert(out@ =~= signed_decimal(value as int));
            Some(out)
        },
        _ => None,
    }
}

/// A path from behind the last `::` among its first `n` characters on.
pub open spec fn shortened_from(path: Seq<char>, n: int) -> Seq<char>
    decreases n,
{
    if n < 2 {
        path
    } else if path[n - 2] == ':' && path[n - 1] == ':' {
        path.skip(n)
    } else {
        shortened_from(path, n - 1)
    }
}

/// A path from behind its last `::` on.
pub open spec fn shortened(path: Seq<char>) -> Seq<char> {
    shortened_from(path, path.len() as int)
}

/// `GIMBAL.yaw.angle` for `gimbal::GIMBAL.yaw.angle`, as the legend shows it
pub fn short_name(path: &str) -> (r: &str)
    ensures
        r@ == shortened(path@),
{
    let chars: Vec<char> = chars_of(path);
    let len: usize = chars.len();
    let mut n: usize = len;
    while n >= 2
        invariant
            n <= len,
            chars@ == path@,
            len == chars@.len(),
            shortened(path@) == shortened_from(path@, n as int),
        decreases n,
    {
        if chars[n - 2] == ':' && chars[n - 1] == ':' {
            let r: &str = path.substring_char(n, len);
            assert(r@ =~= path@.skip(n as int));
            return r;
        }
        n = n - 1;
    }
    path
}

/// A watch as recordings and the stream describe it.
#[derive(Debug)]
pub struct WatchMeta {
    pub id: u32,
    pub name: String,
    pub path: String,
    pub type_text: String,
    pub unit: Option<String>,
}

/// A value to sample: a symbol path, or a tuning table value by id. The rest
/// describes it to recordings and the stream; the backend fills in what is missing.
#[derive(Debug)]
pub struct WatchRequest {
    pub id: u32,
    pub node: Option<NodeRef>,
    pub cell: Option<u32>,
    /// Display name, e.g. `GIMBAL.yaw.angle`
    pub name: Option<String>,
    pub unit: Option<String>,
    /// Symbol path, or the tuning value's name
    pub path: Option<String>,
    pub type_text: Option<String>,
}

/// What became of a watch.
#[derive(Debug)]
pub struct WatchResult {
    pub id: u32,
    /// Why the value cannot be sampled; `None` when it is
    pub error: Option<String>,
}

/// What the ELF says of a watch: the path and type of its node.
pub open spec fn found_in(elf: Option<ElfInfo>, w: WatchRequest) -> Option<(Seq<char>, Seq<char>)> {
    match (elf, w.node) {
        (Some(elf), Some(at)) => match plain_node(elf, at@) {
            Ok(n) => Some((n.path, n.type_text)),
            Err(_) => None,
        },
        _ => None,
    }
}

/// A watch's path: as it was sent, else as the ELF has it, else by the id of
/// its tuning value.
pub open spec fn watch_path(w: WatchRequest, found: Option<(Seq<char>, Seq<char>)>) -> Seq<char> {
    match w.path {
        Some(path) => path@,
        None => match found {
            Some((path, _)) => path,
            None => match w.cell {
                Some(cell) => "cell "@ + decimal(cell as nat),
                None => Seq::empty(),
            },
        },
    }
}

/// A watch's type: as it was sent, else as the ELF has it.
pub open spec fn watch_type(w: WatchRequest, found: Option<(Seq<char>, Seq<char>)>) -> Seq<char> {
    match w.type_text {
        Some(text) => text@,
        None => match found {
            Some((_, text)) => text,
            None => Seq::empty(),
        },
    }
}

/// What recordings and the stream say of a watch.
#[verifier::ext_equal]
pub struct MetaView {
    pub id: u32,
    pub name: Seq<char>,
    pub path: Seq<char>,
    pub type_text: Seq<char>,
    pub unit: Option<Seq<char>>,
}

impl View for WatchMeta {
    type V = MetaView;

    open spec fn view(&self) -> MetaView {
        MetaView {
            id: self.id,
            name: self.name@,
            path: self.path@,
            type_text: self.type_text@,
            unit: text_of(self.unit),
        }
    }
}

/// How a watch is described, where what it says of its name and unit is kept
/// or dropped.
pub open spec fn described_as(
    w: WatchRequest,
    found: Option<(Seq<char>, Seq<char>)>,
    keep_name: bool,
    keep_unit: bool,
) -> MetaView {
    let path = watch_path(w, found);
    MetaView {
        id: w.id,
        name: if w.name is Some && keep_name {
            w.name->0@
        } else {
            shortened(path)
        },
        path,
        type_text: watch_type(w, found),
        unit: if keep_unit {
            text_of(w.unit)
        } else {
            None
        },
    }
}

/// Whether something is left of an optional text without white space.
pub open spec fn says_something(s: Option<String>) -> bool {
    s matches Some(s) && trimmed_text(s@).len() > 0
}

fn not_blank(s: &Option<String>) -> (r: bool)
    ensures
        r == says_something(*s),
{
    match s {
        Some(s) => trimmed(s.as_str()).as_str().unicode_len() > 0,
        None => false,
    }
}

/// Describes a watch, where what it says of its name and unit is kept or
/// dropped.
pub fn describe_watch(
    w: &WatchRequest,
    found: &Option<(String, String)>,
    keep_name: bool,
    keep_unit: bool,
) -> (r: WatchMeta)
    ensures
        r@ == described_as(
            *w,
            match found {
                Some((path, text)) => Some((path@, text@)),
                None => None,
            },
            keep_name,
            keep_unit,
        ),
{
    let path: String = match &w.path {
        Some(path) => path.clone(),
        None => match found {
            Some((path, _)) => path.clone(),
            None => match w.cell {
                Some(cell) => {
                    let mut out: String = "cell ".to_owned();
                    push_decimal(&mut out, cell as u64);
                    out
                },
                None => String::new(),
            },
        },
    };
    let type_text: String = match &w.type_text {
        Some(text) => text.clone(),
        None => match found {
            Some((_, text)) => text.clone(),
            None => String::new(),
        },
    };
    let short: String = short_name(path.as_str()).to_owned();
    let name: String = match &w.name {
        Some(name) => if keep_name {
            name.clone()
        } else {
            short
        },
        None => short,
    };
    let unit: Option<String> = match &w.unit {
        Some(unit) => if keep_unit {
            Some(unit.clone())
        } else {
            None
        },
        None => None,
    };
    let r = WatchMeta { id: w.id, name, path, type_text, unit };
    assert(r@ =~= described_as(
        *w,
        match found {
            Some((path, text)) => Some((path@, text@)),
            None => None,
        },
        keep_name,
        keep_unit,
    ));
    r
}

/// How recordings and the stream describe a watch.
pub open spec fn meta_of(elf: Option<ElfInfo>, w: WatchRequest) -> MetaView {
    described_as(w, found_in(elf, w), says_something(w.name), says_something(w.unit))
}

/// How recordings and the stream describe a watch: what the UI sent, filled in
/// from the ELF where it sent nothing.
pub fn watch_meta(elf: Option<&ElfInfo>, w: &WatchRequest) -> (r: WatchMeta)
    ensures
        r@ == meta_of(
            match elf {
                Some(elf) => Some(*elf),
                None => None,
            },
            *w,
        ),
{
    let found: Option<(String, String)> = match (elf, &w.node) {
        (Some(elf), Some(at)) => match node(elf, at) {
            Ok(n) => Some((n.path, n.type_text)),
            Err(_) => None,
        },
        _ => None,
    };
    describe_watch(w, &found, not_blank(&w.name), not_blank(&w.unit))
}

/// How a watch is sampled, or why it cannot be.
pub open spec fn watch_item(elf: ElfInfo, catalog: Option<Catalog>, w: WatchRequest) -> Result<
    ReadItem,
    Seq<char>,
> {
    match (w.node, w.cell) {
        (Some(at), _) => match plain_node(elf, at@) {
            Ok(n) => item_for(n),
            Err(e) => Err(e.shown()),
        },
        (None, Some(cell)) => match catalog {
            Some(catalog) => match first(catalog.entries@, entry_with(cell)) {
                Some(i) => Ok(
                    catalog.entries@[i].spec_item(0, catalog.entries@[i].applied_address),
                ),
                None => Err("this ELF's tuning table has no such value"@),
            },
            None => Err("this ELF's tuning table has no such value"@),
        },
        (None, None) => Err("nothing to watch"@),
    }
}

/// How a watch is sampled, or why it cannot be.
pub fn resolve_watch(elf: &ElfInfo, catalog: Option<&Catalog>, w: &WatchRequest) -> (r: Result<
    ReadItem,
    String,
>)
    ensures
        match watch_item(
            *elf,
            match catalog {
                Some(c) => Some(*c),
                None => None,
            },
            *w,
        ) {
            Ok(item) => r == Ok::<ReadItem, String>(item),
            Err(text) => r matches Err(e) && e@ == text,
        },
{
    match (&w.node, w.cell) {
        (Some(at), _) => match node(elf, at) {
            Ok(n) => read_item(n),
            Err(e) => Err(e.to_text()),
        },
        (None, Some(cell)) => {
            if let Some(catalog) = catalog {
                if let Some(entry) = catalog.entry(cell) {
                    return Ok(entry.applied_item(0));
                }
            }
            Err("this ELF's tuning table has no such value".to_owned())
        },
        (None, None) => Err("nothing to watch".to_owned()),
    }
}

/// What a list of watches comes to.
#[derive(Debug)]
pub struct WatchPlan {
    /// Tuning values watched by id, as `(watch id, value id)`, for a framed link
    pub cells: Vec<(u32, u32)>,
    /// What a probe samples
    pub items: Vec<ReadItem>,
    pub metas: Vec<WatchMeta>,
    pub results: Vec<WatchResult>,
}

/// What a list of watches comes to.
#[verifier::ext_equal]
pub struct PlanView {
    pub cells: Seq<(u32, u32)>,
    pub items: Seq<ReadItem>,
    pub metas: Seq<MetaView>,
    pub results: Seq<(u32, Option<Seq<char>>)>,
}

impl View for WatchPlan {
    type V = PlanView;

    open spec fn view(&self) -> PlanView {
        PlanView {
            cells: self.cells@,
            items: self.items@,
            metas: self.metas@.map_values(|m: WatchMeta| m@),
            results: self.results@.map_values(|r: WatchResult| (r.id, text_of(r.error))),
        }
    }
}

/// What one more watch comes to: the tuning value it names goes to a framed
/// link in any case; without an ELF only such a value can be watched.
pub open spec fn with_watch(
    p: PlanView,
    elf: Option<ElfInfo>,
    catalog: Option<Catalog>,
    w: WatchRequest,
) -> PlanView {
    let cells = match w.cell {
        Some(cell) => p.cells.push((w.id, cell)),
        None => p.cells,
    };
    let resolved = match elf {
        Some(elf) => match watch_item(elf, catalog, w) {
            Ok(item) => Ok(Some(item)),
            Err(text) => Err(text),
        },
        None => if w.cell is Some {
            Ok(None)
        } else {
            Err("open the ELF to watch symbols"@)
        },
    };
    match resolved {
        Ok(item) => PlanView {
            cells,
            items: match item {
                Some(item) => p.items.push(ReadItem { id: w.id, ..item }),
                None => p.items,
            },
            metas: p.metas.push(meta_of(elf, w)),
            results: p.results.push((w.id, None)),
        },
        Err(text) => PlanView {
            cells,
            results: p.results.push((w.id, Some(text))),
            ..p
        },
    }
}

/// What a list of watches comes to.
pub open spec fn planned(elf: Option<ElfInfo>, catalog: Option<Catalog>, ws: Seq<WatchRequest>) -> PlanView
    decreases ws.len(),
{
    if ws.len() == 0 {
        PlanView {
            cells: Seq::empty(),
            items: Seq::empty(),
            metas: Seq::empty(),
            results: Seq::empty(),
        }
    } else {
        with_watch(planned(elf, catalog, ws.drop_last()), elf, catalog, ws.last())
    }
}

impl WatchPlan {
    fn push(&mut self, elf: Option<&ElfInfo>, catalog: Option<&Catalog>, w: &WatchRequest)
        ensures
            final(self)@ == with_watch(
                old(self)@,
                match elf {
                    Some(elf) => Some(*elf),
                    None => None,
                },
                match catalog {
                    Some(c) => Some(*c),
                    None => None,
                },
                *w,
            ),
    {
        let ghost elf_view = match elf {
            Some(elf) => Some(*elf),
            None => None,
        };
        let ghost catalog_view = match catalog {
            Some(c) => Some(*c),
            None => None,
        };
        if let Some(cell) = w.cell {
            self.cells.push((w.id, cell));
        }
        let resolved: Result<Option<ReadItem>, String> = match elf {
            Some(elf) => match resolve_watch(elf, catalog, w) {
                Ok(item) => Ok(Some(item)),
                Err(e) => Err(e),
            },
            None => if w.cell.is_some() {
                Ok(None)
            } else {
                Err("open the ELF to watch symbols".to_owned())
            },
        };
        let ghost results = self.results@;
        let ghost metas = self.metas@;
        match resolved {
            Ok(item) => {
                if let Some(item) = item {
                    let mut item: ReadItem = item;
                    item.id = w.id;
                    self.items.push(item);
                }
                let meta = watch_meta(elf, w);
                self.metas.push(meta);
                let result = WatchResult { id: w.id, error: None };
                self.results.push(result);
                assert(self@.metas =~= old(self)@.metas.push(meta@));
                assert(self@.results =~= old(self)@.results.push((w.id, None)));
            },
            Err(e) => {
                let result = WatchResult { id: w.id, error: Some(e) };
                self.results.push(result);
                assert(self@.results =~= old(self)@.results.push((w.id, Some(e@))));
            },
        }
        assert(self@ =~= with_watch(old(self)@, elf_view, catalog_view, *w));
    }
}

/// Resolves watches: symbols against the loaded ELF for a probe; tuning values
/// also go by id to a framed link, which needs no ELF.
pub fn plan_watches(elf: Option<&ElfInfo>, catalog: Option<&Catalog>, watches: &Vec<WatchRequest>) -> (r:
    WatchPlan)
    ensures
        r@ == planned(
            match elf {
                Some(elf) => Some(*elf),
                None => None,
            },
            match catalog {
                Some(c) => Some(*c),
                None => None,
            },
            watches@,
        ),
{
    let ghost elf_view = match elf {
        Some(elf) => Some(*elf),
        None => None,
    };
    let ghost catalog_view = match catalog {
        Some(c) => Some(*c),
        None => None,
    };
    let mut plan = WatchPlan {
        cells: Vec::new(),
        items: Vec::new(),
        metas: Vec::new(),
        results: Vec::new(),
    };
    let mut i: usize = 0;
    proof {
        assert(watches@.take(0) =~= Seq::<WatchRequest>::empty());
        assert(plan@ =~= planned(elf_view, catalog_view, watches@.take(0)));
    }
    while i < watches.len()
        invariant
            i <= watches@.len(),
            elf_view == (match elf {
                Some(elf) => Some(*elf),
                None => None,
            }),
            catalog_view == (match catalog {
                Some(c) => Some(*c),
                None => None,
            }),
            plan@ == planned(elf_view, catalog_view, watches@.take(i as int)),
        decreases watches@.len() - i,
    {
        proof {
            assert(watches@.take(i + 1).drop_last() =~= watches@.take(i as int));
            assert(watches@.take(i + 1).last() == watches@[i as int]);
        }
        plan.push(elf, catalog, &watches[i]);
        i = i + 1;
    }
    assert(watches@.take(watches@.len() as int) =~= watches@);
    plan
}

/// The watches among the first that got no error, in the order they were asked
/// for.
pub open spec fn accepted(ws: Seq<WatchRequest>, results: Seq<(u32, Option<Seq<char>>)>) -> Seq<
    WatchRequest,
>
    decreases ws.len(),
{
    if ws.len() == 0 {
        Seq::empty()
    } else {
        let before = accepted(ws.drop_last(), results);
        if results[ws.len() - 1].1 is None {
            before.push(ws.last())
        } else {
            before
        }
    }
}

/// What is accepted depends on the answers to those watches alone.
proof fn lemma_accepted_prefix(
    ws: Seq<WatchRequest>,
    a: Seq<(u32, Option<Seq<char>>)>,
    b: Seq<(u32, Option<Seq<char>>)>,
)
    requires
        ws.len() <= a.len(),
        ws.len() <= b.len(),
        forall|i: int| 0 <= i < ws.len() ==> #[trigger] a[i] == b[i],
    ensures
        accepted(ws, a) == accepted(ws, b),
    decreases ws.len(),
{
    if ws.len() > 0 {
        lemma_accepted_prefix(ws.drop_last(), a, b);
        assert(a[ws.len() - 1] == b[ws.len() - 1]);
    }
}

/// Every watch gets one answer, in the order they were asked for, and one is
/// described exactly where it got no error, in that order too.
pub proof fn lemma_every_watch_is_answered(
    elf: Option<ElfInfo>,
    catalog: Option<Catalog>,
    ws: Seq<WatchRequest>,
)
    ensures
        ({
            let p = planned(elf, catalog, ws);
            &&& p.results.len() == ws.len()
            &&& forall|i: int| 0 <= i < ws.len() ==> (#[trigger] p.results[i]).0 == ws[i].id
            &&& p.metas == accepted(ws, p.results).map_values(|w: WatchRequest| meta_of(elf, w))
            &&& p.items.len() <= p.metas.len() <= ws.len()
        }),
    decreases ws.len(),
{
    let p = planned(elf, catalog, ws);
    let described = |w: WatchRequest| meta_of(elf, w);
    if ws.len() > 0 {
        lemma_every_watch_is_answered(elf, catalog, ws.drop_last());
        let before = planned(elf, catalog, ws.drop_last());
        assert(p == with_watch(before, elf, catalog, ws.last()));
        assert forall|i: int| 0 <= i < ws.len() - 1 implies #[trigger] before.results[i]
            == p.results[i] by {}
        lemma_accepted_prefix(ws.drop_last(), before.results, p.results);
        let kept = accepted(ws.drop_last(), p.results);
        assert(kept.push(ws.last()).map_values(described) =~= kept.map_values(described).push(
            described(ws.last()),
        ));
        assert forall|i: int| 0 <= i < ws.len() implies (#[trigger] p.results[i]).0 == ws[i].id by {
            if i < ws.len() - 1 {
                assert(before.results[i].0 == ws.drop_last()[i].id);
            }
        }
        assert(p.metas == accepted(ws, p.results).map_values(described));
    } else {
        assert(p.metas =~= accepted(ws, p.results).map_values(described));
    }
}

} // verus!
