//! Reading numbers once, outside the sampled set: which pointers have to be
//! read to find them, and what the bytes that came back say.

use vstd::prelude::*;
use vstd::string::*;
use crate::browse::{node_with_memory, Progress};
#[allow(unused_imports)]
use crate::browse::{node_at, symbol_of};
use crate::bytes::copy_range;
use crate::catalog::ReadItem;
#[allow(unused_imports)]
use crate::def_view::text_of;
use crate::elf::ElfInfo;
#[allow(unused_imports)]
use crate::elf::{symbol_named, SymbolInfo};
use crate::leaves::{read_item, MAX_LEAVES};
#[allow(unused_imports)]
use crate::leaves::item_for;
use crate::node_ref::{NodeRef, Step};
#[allow(unused_imports)]
use crate::node_ref::{NodeView, StepView};
use crate::preview::word;
#[allow(unused_imports)]
use crate::preview::{be_value, le_value};
#[allow(unused_imports)]
use crate::search::{first, lemma_first, lemma_first_is, lemma_first_none};
use crate::session::exact_integer;
#[allow(unused_imports)]
use crate::session::exact_text;
#[allow(unused_imports)]
use crate::tree::{answer_views, resolution, stepped, walked, ResolvedView, SourceView, WalkView};
#[allow(unused_imports)]
use crate::type_def::TypeId;

verus! {

/// What a pointer was found to hold.
#[derive(Debug)]
pub struct PointerRead {
    pub address: u64,
    pub len: usize,
    pub word: Result<u64, String>,
}

/// What a pointer was found to hold.
#[verifier::ext_equal]
pub struct PointerView {
    pub address: u64,
    pub len: usize,
    pub word: Result<u64, Seq<char>>,
}

/// The content of an outcome.
pub open spec fn result_view<T>(r: Result<T, String>) -> Result<T, Seq<char>> {
    match r {
        Ok(v) => Ok(v),
        Err(e) => Err(e@),
    }
}

impl View for PointerRead {
    type V = PointerView;

    open spec fn view(&self) -> PointerView {
        PointerView { address: self.address, len: self.len, word: result_view(self.word) }
    }
}

/// Picks what was read at an address.
pub open spec fn read_at(address: u64, len: usize) -> spec_fn(PointerView) -> bool {
    |p: PointerView| p.address == address && p.len == len
}

/// What a pointer was found to hold, if it was read.
pub open spec fn known_word(known: Seq<PointerView>, address: u64, len: usize) -> Option<
    Result<u64, Seq<char>>,
> {
    match first(known, read_at(address, len)) {
        Some(i) => Some(known[i].word),
        None => None,
    }
}

/// The words found so far.
pub open spec fn known_of(list: Seq<PointerRead>) -> Seq<PointerView> {
    list.map_values(|p: PointerRead| p@)
}

/// How far finding one number has come.
#[verifier::ext_equal]
pub enum Found {
    /// A pointer has to be read first
    Read { address: u64, len: usize },
    Item(Result<ReadItem, Seq<char>>),
}

/// A step of a reference takes at most two words, and one that waits for a word
/// has used all there are.
proof fn lemma_step_takes_two(
    elf: ElfInfo,
    sym: SymbolInfo,
    node: NodeView,
    k: int,
    at: ResolvedView,
    used: nat,
    answers: Seq<Result<u64, Seq<char>>>,
)
    requires
        0 <= k < node.steps.len(),
        used <= answers.len(),
    ensures
        match stepped(elf, sym, node, k, at, used, SourceView::Answers(answers), true) {
            WalkView::At(_, n) => n <= used + 2 && n <= answers.len(),
            WalkView::Read { .. } => answers.len() < used + 2,
            WalkView::Failed(_) => true,
        },
{
}

proof fn lemma_walk_takes_two_a_step(
    elf: ElfInfo,
    sym: SymbolInfo,
    type_id: TypeId,
    node: NodeView,
    n: nat,
    answers: Seq<Result<u64, Seq<char>>>,
)
    requires
        n <= node.steps.len(),
    ensures
        match walked(elf, sym, type_id, node, n, SourceView::Answers(answers), true) {
            WalkView::At(_, used) => used <= 2 * n && used <= answers.len(),
            WalkView::Read { .. } => answers.len() < 2 * n,
            WalkView::Failed(_) => true,
        },
    decreases n,
{
    if n > 0 {
        lemma_walk_takes_two_a_step(elf, sym, type_id, node, (n - 1) as nat, answers);
        if let WalkView::At(at, used) = walked(
            elf,
            sym,
            type_id,
            node,
            (n - 1) as nat,
            SourceView::Answers(answers),
            true,
        ) {
            lemma_step_takes_two(elf, sym, node, n - 1, at, used, answers);
        }
    }
}

/// A reference of `n` steps never waits for more than `2 * n` words.
pub proof fn lemma_reads_bounded(
    elf: ElfInfo,
    node: NodeView,
    answers: Seq<Result<u64, Seq<char>>>,
)
    ensures
        resolution(elf, node, SourceView::Answers(answers), true) is Read ==> answers.len() < 2
            * node.steps.len(),
{
    if let Some(i) = first(elf.symbols@, symbol_named(node.symbol)) {
        let sym = elf.symbols@[i];
        if let Some(type_id) = sym.type_id {
            lemma_walk_takes_two_a_step(elf, sym, type_id, node, node.steps.len(), answers);
        }
    }
}

/// How far finding a number has come, with the words that are known; its
/// reference has taken `answers` so far.
pub open spec fn found(
    elf: ElfInfo,
    node: NodeView,
    known: Seq<PointerView>,
    answers: Seq<Result<u64, Seq<char>>>,
) -> Found
    decreases 2 * node.steps.len() - answers.len(),
{
    match resolution(elf, node, SourceView::Answers(answers), true) {
        WalkView::Failed(e) => Found::Item(Err(e.shown())),
        WalkView::At(at, _) => Found::Item(item_for(node_at(elf, node, symbol_of(elf, node), at))),
        WalkView::Read { address, size } => match known_word(known, address, size) {
            None => Found::Read { address, len: size },
            Some(word) => {
                proof {
                    lemma_reads_bounded(elf, node, answers);
                }
                found(elf, node, known, answers.push(word))
            },
        },
    }
}

/// The numbers found after those found before, and the pointer that has to be
/// read before the next one is.
pub open spec fn found_all(
    elf: ElfInfo,
    nodes: Seq<NodeView>,
    known: Seq<PointerView>,
    done: Seq<Result<ReadItem, Seq<char>>>,
) -> (Seq<Result<ReadItem, Seq<char>>>, Option<(u64, usize)>)
    decreases nodes.len() - done.len(),
{
    if done.len() >= nodes.len() {
        (done, None)
    } else {
        match found(elf, nodes[done.len() as int], known, Seq::empty()) {
            Found::Read { address, len } => (done, Some((address, len))),
            Found::Item(item) => found_all(elf, nodes, known, done.push(item)),
        }
    }
}

/// What reading a word of `len` bytes came to: a pointer, a length or a tag. That
/// a pointer is null is for the step to say that follows it.
pub open spec fn pointer_word(
    little: bool,
    len: usize,
    answer: Result<Seq<Seq<u8>>, Seq<char>>,
) -> Result<u64, Seq<char>> {
    match answer {
        Err(e) => Err(e),
        Ok(blocks) => if blocks.len() == 0 || blocks[0].len() != len {
            Err("short pointer read"@)
        } else {
            Ok(
                (if little {
                    le_value(blocks[0])
                } else {
                    be_value(blocks[0])
                }) as u64,
            )
        },
    }
}

/// The blocks of bytes that a read gave.
pub open spec fn blocks_of(blocks: Seq<Vec<u8>>) -> Seq<Seq<u8>> {
    blocks.map_values(|b: Vec<u8>| b@)
}

/// What a read gave, or why it failed.
pub open spec fn answer_of(answer: Result<Vec<Vec<u8>>, String>) -> Result<
    Seq<Seq<u8>>,
    Seq<char>,
> {
    match answer {
        Ok(blocks) => Ok(blocks_of(blocks@)),
        Err(e) => Err(e@),
    }
}

/// The word that a read gave.
pub fn pointer_from(little: bool, len: usize, answer: Result<Vec<Vec<u8>>, String>) -> (r: Result<
    u64,
    String,
>)
    requires
        len <= 8,
    ensures
        result_view(r) == pointer_word(little, len, answer_of(answer)),
{
    let blocks: Vec<Vec<u8>> = match answer {
        Err(e) => {
            return Err(e);
        },
        Ok(blocks) => blocks,
    };
    if blocks.len() == 0 || blocks[0].len() != len {
        return Err("short pointer read".to_owned());
    }
    let value: u64 = if len == 0 {
        0
    } else {
        match word(little, blocks[0].as_slice()) {
            Ok(value) => value,
            Err(e) => {
                return Err(e);
            },
        }
    };
    proof {
        crate::preview::lemma_word_fits(blocks@[0]@);
    }
    Ok(value)
}

/// Where a span's bytes stand in one block of a read.
pub open spec fn covers(at: u64, block: Seq<u8>, address: u64, len: u64) -> bool {
    at <= address && address - at + len <= block.len()
}

/// The first block, from block `i` on, that holds a span's bytes.
pub open spec fn covering(
    regions: Seq<u64>,
    blocks: Seq<Seq<u8>>,
    address: u64,
    len: u64,
    i: nat,
) -> Option<Seq<u8>>
    decreases regions.len() - i,
{
    if i >= regions.len() || i >= blocks.len() {
        None
    } else if covers(regions[i as int], blocks[i as int], address, len) {
        let from = address - regions[i as int];
        Some(blocks[i as int].subrange(from, from + len))
    } else {
        covering(regions, blocks, address, len, i + 1)
    }
}

/// The bytes of a span among the regions that were read.
pub fn span_bytes(regions: &Vec<u64>, blocks: &Vec<Vec<u8>>, address: u64, len: u64) -> (r: Option<
    Vec<u8>,
>)
    ensures
        covering(regions@, blocks_of(blocks@), address, len, 0) == (match r {
            Some(bytes) => Some(bytes@),
            None => None,
        }),
{
    let ghost views = blocks_of(blocks@);
    let mut i: usize = 0;
    while i < regions.len() && i < blocks.len()
        invariant
            i <= regions@.len(),
            i <= blocks@.len(),
            views == blocks_of(blocks@),
            covering(regions@, views, address, len, 0) == covering(
                regions@,
                views,
                address,
                len,
                i as nat,
            ),
        decreases regions@.len() - i,
    {
        assert(views[i as int] == blocks@[i as int]@);
        let have: usize = blocks[i].len();
        if regions[i] <= address {
            let from: u64 = address - regions[i];
            if from <= have as u64 && len <= have as u64 - from {
                return Some(
                    copy_range(blocks[i].as_slice(), from as usize, from as usize + len as usize),
                );
            }
        }
        i = i + 1;
    }
    None
}

/// What one value was read as. The number itself is decoded from the bytes.
#[derive(Debug)]
pub struct ValueRead {
    /// How to decode the value, and its bytes; `None` when it could not be read
    pub value: Option<(ReadItem, Vec<u8>)>,
    pub text: Option<String>,
    pub error: Option<String>,
}

/// What one value was read as.
#[verifier::ext_equal]
pub struct ValueView {
    pub value: Option<(ReadItem, Seq<u8>)>,
    pub text: Option<Seq<char>>,
    pub error: Option<Seq<char>>,
}

impl View for ValueRead {
    type V = ValueView;

    open spec fn view(&self) -> ValueView {
        ValueView {
            value: match self.value {
                Some((item, bytes)) => Some((item, bytes@)),
                None => None,
            },
            text: text_of(self.text),
            error: text_of(self.error),
        }
    }
}

/// A value that could not be read.
pub open spec fn unread(reason: Seq<char>) -> ValueView {
    ValueView { value: None, text: None, error: Some(reason) }
}

/// A value by its bytes.
pub open spec fn read_as(item: ReadItem, bytes: Seq<u8>) -> ValueView {
    ValueView { value: Some((item, bytes)), text: exact_text(item, bytes), error: None }
}

fn failed(reason: String) -> (r: ValueRead)
    ensures
        r@ == unread(reason@),
{
    ValueRead { value: None, text: None, error: Some(reason) }
}

fn read(item: ReadItem, bytes: Vec<u8>) -> (r: ValueRead)
    ensures
        r@ == read_as(item, bytes@),
{
    let text = exact_integer(&item, bytes.as_slice());
    ValueRead { value: Some((item, bytes)), text, error: None }
}

/// What a value's bytes say among the regions that were read.
pub open spec fn value_in(
    item: Result<ReadItem, Seq<char>>,
    span: Option<(u64, u64)>,
    regions: Seq<u64>,
    blocks: Seq<Seq<u8>>,
) -> ValueView {
    match (item, span) {
        (Err(e), _) => unread(e),
        (Ok(_), None) => unread("not a single number"@),
        (Ok(item), Some((address, len))) => match covering(regions, blocks, address, len, 0) {
            Some(bytes) => read_as(item, bytes),
            None => unread("short read"@),
        },
    }
}

/// What a value's bytes say when they were read alone.
pub open spec fn value_alone(
    item: Result<ReadItem, Seq<char>>,
    span: Option<(u64, u64)>,
    answer: Result<Seq<Seq<u8>>, Seq<char>>,
) -> ValueView {
    match (item, span) {
        (Err(e), _) => unread(e),
        (Ok(_), None) => unread("not a single number"@),
        (Ok(item), Some((_, len))) => match answer {
            Err(e) => unread(e),
            Ok(blocks) => if blocks.len() > 0 && blocks[0].len() == len {
                read_as(item, blocks[0])
            } else {
                unread("short read"@)
            },
        },
    }
}

/// The outcomes of a list.
pub open spec fn items_of(items: Seq<Result<ReadItem, String>>) -> Seq<
    Result<ReadItem, Seq<char>>,
> {
    items.map_values(|r: Result<ReadItem, String>| result_view(r))
}

/// The references of a list.
pub open spec fn refs_of(nodes: Seq<NodeRef>) -> Seq<NodeView> {
    nodes.map_values(|n: NodeRef| n@)
}

/// Numbers that are being read.
#[derive(Debug)]
pub struct ValueReads {
    pub nodes: Vec<NodeRef>,
    /// What each pointer was found to hold; none is read twice
    pub known: Vec<PointerRead>,
    /// How to read each number found so far
    pub items: Vec<Result<ReadItem, String>>,
}

/// Numbers that are being read.
#[verifier::ext_equal]
pub struct ReadsView {
    pub nodes: Seq<NodeView>,
    pub known: Seq<PointerView>,
    pub items: Seq<Result<ReadItem, Seq<char>>>,
}

impl View for ValueReads {
    type V = ReadsView;

    open spec fn view(&self) -> ReadsView {
        ReadsView {
            nodes: refs_of(self.nodes@),
            known: known_of(self.known@),
            items: items_of(self.items@),
        }
    }
}

fn find_word(known: &Vec<PointerRead>, address: u64, len: usize) -> (r: Option<Result<u64, String>>)
    ensures
        known_word(known_of(known@), address, len) == (match r {
            Some(word) => Some(result_view(word)),
            None => None,
        }),
{
    let ghost views = known_of(known@);
    let ghost p = read_at(address, len);
    let mut i: usize = 0;
    while i < known.len()
        invariant
            i <= known@.len(),
            views == known_of(known@),
            p == read_at(address, len),
            forall|k: int| 0 <= k < i ==> !p(#[trigger] views[k]),
        decreases known@.len() - i,
    {
        assert(views[i as int] == known@[i as int]@);
        if known[i].address == address && known[i].len == len {
            proof {
                lemma_first_is(views, p, i as int);
            }
            return Some(
                match &known[i].word {
                    Ok(word) => Ok(*word),
                    Err(e) => Err(e.clone()),
                },
            );
        }
        i = i + 1;
    }
    proof {
        lemma_first_none(views, p);
    }
    None
}

fn find_item(elf: &ElfInfo, node: &NodeRef, known: &Vec<PointerRead>) -> (r: Progress<
    Result<ReadItem, String>,
>)
    ensures
        found(*elf, node@, known_of(known@), Seq::empty()) == (match r {
            Progress::Read { address, size } => Found::Read { address, len: size },
            Progress::Done(item) => Found::Item(result_view(item)),
        }),
{
    let ghost views = known_of(known@);
    let mut answers: Vec<Result<u64, String>> = Vec::new();
    assert(answer_views(answers@) =~= Seq::empty());
    loop
        invariant
            views == known_of(known@),
            found(*elf, node@, views, Seq::empty()) == found(
                *elf,
                node@,
                views,
                answer_views(answers@),
            ),
        decreases 2 * node@.steps.len() - answers@.len(),
    {
        let ghost before = answer_views(answers@);
        match node_with_memory(elf, node, answers.as_slice()) {
            Progress::Done(Ok(n)) => {
                return Progress::Done(read_item(n));
            },
            Progress::Done(Err(e)) => {
                return Progress::Done(Err(e.to_text()));
            },
            Progress::Read { address, size } => match find_word(known, address, size) {
                None => {
                    return Progress::Read { address, size };
                },
                Some(word) => {
                    let ghost w = result_view(word);
                    answers.push(word);
                    proof {
                        lemma_reads_bounded(*elf, node@, before);
                        assert(answer_views(answers@) =~= before.push(w));
                    }
                },
            },
        }
    }
}

impl ValueReads {
    /// Starts reading numbers, no more at a time than leaves are collected.
    pub fn begin(nodes: Vec<NodeRef>) -> (r: Result<ValueReads, String>)
        ensures
            nodes@.len() > MAX_LEAVES ==> (r matches Err(e) && e@
                == "read at most 256 values per request"@),
            nodes@.len() <= MAX_LEAVES ==> (r matches Ok(reads) && reads@ == (ReadsView {
                nodes: refs_of(nodes@),
                known: Seq::empty(),
                items: Seq::empty(),
            })),
    {
        if nodes.len() > MAX_LEAVES {
            return Err("read at most 256 values per request".to_owned());
        }
        let reads = ValueReads { nodes, known: Vec::new(), items: Vec::new() };
        assert(reads@.known =~= Seq::empty());
        assert(reads@.items =~= Seq::empty());
        Ok(reads)
    }

    /// Finds numbers as far as the words that are known lead, and says which
    /// pointer has to be read to get on; `None` when every number is found.
    pub fn next(&mut self, elf: &ElfInfo) -> (r: Option<(u64, usize)>)
        ensures
            final(self)@ == (ReadsView {
                items: found_all(*elf, old(self)@.nodes, old(self)@.known, old(self)@.items).0,
                ..old(self)@
            }),
            r == found_all(*elf, old(self)@.nodes, old(self)@.known, old(self)@.items).1,
    {
        let ghost start = self@;
        while self.items.len() < self.nodes.len()
            invariant
                start == old(self)@,
                self@.nodes == start.nodes,
                self@.known == start.known,
                found_all(*elf, start.nodes, start.known, start.items) == found_all(
                    *elf,
                    start.nodes,
                    start.known,
                    self@.items,
                ),
            decreases self.nodes@.len() - self.items@.len(),
        {
            let i: usize = self.items.len();
            assert(self@.nodes[i as int] == self.nodes@[i as int]@);
            match find_item(elf, &self.nodes[i], &self.known) {
                Progress::Read { address, size } => {
                    return Some((address, size));
                },
                Progress::Done(item) => {
                    let ghost before = self@.items;
                    let ghost view = result_view(item);
                    self.items.push(item);
                    assert(self@.items =~= before.push(view));
                },
            }
        }
        None
    }

    /// Takes what reading a pointer came to.
    pub fn answer(
        &mut self,
        little: bool,
        address: u64,
        len: usize,
        answer: Result<Vec<Vec<u8>>, String>,
    )
        requires
            len <= 8,
        ensures
            final(self)@ == (ReadsView {
                known: old(self)@.known.push(
                    PointerView {
                        address,
                        len,
                        word: pointer_word(little, len, answer_of(answer)),
                    },
                ),
                ..old(self)@
            }),
    {
        let word = pointer_from(little, len, answer);
        let read = PointerRead { address, len, word };
        self.known.push(read);
        assert(self@.known =~= old(self)@.known.push(read@));
    }

    /// The values, from the regions that were read; each region is given by its
    /// address, and `spans` says which bytes each number takes.
    pub fn values(
        &self,
        spans: &Vec<Option<(u64, u64)>>,
        regions: &Vec<u64>,
        blocks: &Vec<Vec<u8>>,
    ) -> (r: Vec<ValueRead>)
        requires
            spans@.len() == self@.items.len(),
        ensures
            r@.len() == self@.items.len(),
            forall|i: int|
                0 <= i < r@.len() ==> (#[trigger] r@[i])@ == value_in(
                    self@.items[i],
                    spans@[i],
                    regions@,
                    blocks_of(blocks@),
                ),
    {
        let mut out: Vec<ValueRead> = Vec::new();
        let mut i: usize = 0;
        while i < self.items.len()
            invariant
                i <= self.items@.len(),
                spans@.len() == self.items@.len(),
                out@.len() == i,
                forall|k: int|
                    0 <= k < i ==> (#[trigger] out@[k])@ == value_in(
                        self@.items[k],
                        spans@[k],
                        regions@,
                        blocks_of(blocks@),
                    ),
            decreases self.items@.len() - i,
        {
            assert(self@.items[i as int] == result_view(self.items@[i as int]));
            let value = match (&self.items[i], spans[i]) {
                (Err(e), _) => failed(e.clone()),
                (Ok(_), None) => failed("not a single number".to_owned()),
                (Ok(item), Some((address, len))) => match span_bytes(
                    regions,
                    blocks,
                    address,
                    len,
                ) {
                    Some(bytes) => read(*item, bytes),
                    None => failed("short read".to_owned()),
                },
            };
            out.push(value);
            i = i + 1;
        }
        out
    }

    /// Whether a failed read is to be made again value by value: a bad pointee
    /// must not hide unrelated fields.
    pub fn retries(&self) -> (r: bool)
        ensures
            r == exists|i: int|
                0 <= i < self@.nodes.len() && (#[trigger] self@.nodes[i]).steps.contains(
                    StepView::Deref,
                ),
    {
        let mut i: usize = 0;
        while i < self.nodes.len()
            invariant
                i <= self.nodes@.len(),
                forall|k: int|
                    0 <= k < i ==> !(#[trigger] self@.nodes[k]).steps.contains(StepView::Deref),
            decreases self.nodes@.len() - i,
        {
            assert(self@.nodes[i as int] == self.nodes@[i as int]@);
            if derefs(&self.nodes[i]) {
                return true;
            }
            i = i + 1;
        }
        false
    }
}

fn derefs(node: &NodeRef) -> (r: bool)
    ensures
        r == node@.steps.contains(StepView::Deref),
{
    let mut i: usize = 0;
    while i < node.steps.len()
        invariant
            i <= node.steps@.len(),
            forall|k: int| 0 <= k < i ==> (#[trigger] node@.steps[k]) != StepView::Deref,
        decreases node.steps@.len() - i,
    {
        assert(node@.steps[i as int] == node.steps@[i as int]@);
        if let Step::Deref = &node.steps[i] {
            assert(node@.steps[i as int] == StepView::Deref);
            return true;
        }
        i = i + 1;
    }
    false
}

/// A value, from a read of its own.
pub fn lone_value(
    item: &Result<ReadItem, String>,
    span: Option<(u64, u64)>,
    answer: Result<Vec<Vec<u8>>, String>,
) -> (r: ValueRead)
    ensures
        r@ == value_alone(result_view(*item), span, answer_of(answer)),
{
    match (item, span) {
        (Err(e), _) => failed(e.clone()),
        (Ok(_), None) => failed("not a single number".to_owned()),
        (Ok(item), Some((_, len))) => match answer {
            Err(e) => failed(e),
            Ok(blocks) => {
                if blocks.len() > 0 && blocks[0].len() as u64 == len {
                    let bytes: Vec<u8> = copy_range(blocks[0].as_slice(), 0, blocks[0].len());
                    assert(bytes@ =~= blocks@[0]@);
                    read(*item, bytes)
                } else {
                    failed("short read".to_owned())
                }
            },
        },
    }
}

proof fn lemma_asks_for_unknown(
    elf: ElfInfo,
    node: NodeView,
    known: Seq<PointerView>,
    answers: Seq<Result<u64, Seq<char>>>,
)
    ensures
        found(elf, node, known, answers) matches Found::Read { address, len } ==> known_word(
            known,
            address,
            len,
        ) is None,
    decreases 2 * node.steps.len() - answers.len(),
{
    if let WalkView::Read { address, size } = resolution(
        elf,
        node,
        SourceView::Answers(answers),
        true,
    ) {
        if let Some(word) = known_word(known, address, size) {
            lemma_reads_bounded(elf, node, answers);
            lemma_asks_for_unknown(elf, node, known, answers.push(word));
        }
    }
}

/// No pointer is asked for twice: one that is asked for is not known yet.
pub proof fn lemma_pointer_read_once(
    elf: ElfInfo,
    nodes: Seq<NodeView>,
    known: Seq<PointerView>,
    done: Seq<Result<ReadItem, Seq<char>>>,
)
    ensures
        found_all(elf, nodes, known, done).1 matches Some((address, len)) ==> known_word(
            known,
            address,
            len,
        ) is None,
    decreases nodes.len() - done.len(),
{
    if done.len() < nodes.len() {
        lemma_asks_for_unknown(elf, nodes[done.len() as int], known, Seq::empty());
        if let Found::Item(item) = found(elf, nodes[done.len() as int], known, Seq::empty()) {
            lemma_pointer_read_once(elf, nodes, known, done.push(item));
        }
    }
}

/// What a number was found to be stays as it is when more words are known.
pub proof fn lemma_found_is_kept(
    elf: ElfInfo,
    node: NodeView,
    known: Seq<PointerView>,
    more: PointerView,
    answers: Seq<Result<u64, Seq<char>>>,
)
    requires
        found(elf, node, known, answers) is Item,
    ensures
        found(elf, node, known.push(more), answers) == found(elf, node, known, answers),
    decreases 2 * node.steps.len() - answers.len(),
{
    if let WalkView::Read { address, size } = resolution(
        elf,
        node,
        SourceView::Answers(answers),
        true,
    ) {
        assert(known.push(more).drop_last() =~= known);
        lemma_first(known, read_at(address, size));
        if let Some(word) = known_word(known, address, size) {
            lemma_reads_bounded(elf, node, answers);
            lemma_found_is_kept(elf, node, known, more, answers.push(word));
        }
    }
}

/// Once every number is found there is one outcome for each reference, in
/// order.
pub proof fn lemma_every_number_is_found(
    elf: ElfInfo,
    nodes: Seq<NodeView>,
    known: Seq<PointerView>,
    done: Seq<Result<ReadItem, Seq<char>>>,
)
    requires
        done.len() <= nodes.len(),
        found_all(elf, nodes, known, done).1 is None,
    ensures
        found_all(elf, nodes, known, done).0.len() == nodes.len(),
        found_all(elf, nodes, known, done).0.take(done.len() as int) == done,
        forall|i: int|
            done.len() <= i < nodes.len() ==> found(elf, nodes[i], known, Seq::empty())
                == Found::Item(#[trigger] found_all(elf, nodes, known, done).0[i]),
    decreases nodes.len() - done.len(),
{
    let all = found_all(elf, nodes, known, done).0;
    if done.len() < nodes.len() {
        if let Found::Item(item) = found(elf, nodes[done.len() as int], known, Seq::empty()) {
            lemma_every_number_is_found(elf, nodes, known, done.push(item));
            assert(all.take(done.len() + 1int) == done.push(item));
            assert(all[done.len() as int] == all.take(done.len() + 1int)[done.len() as int]);
            assert(all.take(done.len() as int) =~= done) by {
                assert forall|k: int| 0 <= k < done.len() implies all[k] == done[k] by {
                    assert(all.take(done.len() + 1int)[k] == done.push(item)[k]);
                }
            }
        }
    } else {
        assert(all.take(done.len() as int) =~= done);
    }
}

} // verus!
