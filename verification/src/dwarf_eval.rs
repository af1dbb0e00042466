//! Where location expressions and location lists put a variable.

use vstd::prelude::*;
use vstd::string::*;
use gimli::{DebugInfo, DebugInfoOffset, EndianSlice, Expression, ValueType};
use gimli::EvaluationResult::{
    Complete, RequiresAtLocation, RequiresBaseType, RequiresCallFrameCfa, RequiresEntryValue,
    RequiresFrameBase, RequiresIndexedAddress, RequiresMemory, RequiresParameterRef,
    RequiresRegister, RequiresRelocatedAddress, RequiresTls,
};
use gimli::Location::{
    Address as InMemory, Empty as Nowhere, ImplicitPointer as ToNothing, Register as InRegister,
};
use gimli::Operation::{
    Bra, ImplicitValue, PlusConstant, Skip, StackValue, UnsignedConstant, Address as PushAddress,
    ImplicitPointer as PointNowhere, Register as NameRegister,
};
use gimli::RunTimeEndian::{Big, Little};
use crate::die::Value;
#[allow(unused_imports)]
use crate::die::ValueView;
use crate::dwarf_index::{find_indexed_address, find_indexed_list, find_list_expressions};
#[allow(unused_imports)]
use crate::dwarf_index::{expressions_of_list, indexed_address_of, indexed_list_of};
use crate::dwarf_source::Sections;
#[allow(unused_imports)]
use crate::dwarf_source::{contents_views, SectionsView};
use crate::text::push_decimal;
#[allow(unused_imports)]
use crate::text::decimal;
use crate::variable_status::VariableStatus;
#[allow(unused_imports)]
use crate::variable_status::StatusView;

use self::Answer::{GenericType, Indexed, Relocated};
use self::Piece::{Empty, ImplicitPointer, Other};

verus! {

/// Most operations that the evaluation of one expression takes.
pub const MAX_OPERATIONS: u32 = 0xffff_fffe;

/// An operation by the number it pushes or adds, or by how the evaluation goes
/// on after it.
#[derive(Copy, Clone, Debug)]
pub enum Op {
    PlusConstant(u64),
    UnsignedConstant(u64),
    Address(u64),
    /// Ends a location; a piece may follow
    Located,
    /// Goes on so far behind or before the next operation
    Jump(i16),
    /// Goes on there, or with the next operation
    Choice(i16),
    Plain,
}

/// Whether the operation at this place of an expression is a piece of 2^61 bytes
/// or more: its size in bits is past 64 bits.
pub open spec fn oversized_piece(code: Seq<u8>, at: int) -> bool {
    &&& 0 <= at
    &&& at + 9 < code.len()
    &&& code[at] == 0x93
    &&& forall|k: int| at < k < at + 9 ==> code[k] >= 0x80
    &&& code[at + 9] % 0x80 >= 0x20 || (code[at + 9] >= 0x80 && at + 10 < code.len() && code[at + 10]
        == 1)
}

/// Whether the operation at this place of an expression is a piece of 2^61 bytes
/// or more.
fn is_oversized_piece(code: &[u8], at: usize) -> (r: bool)
    ensures
        r == oversized_piece(code@, at as int),
{
    if code.len() < 10 || at > code.len() - 10 || code[at] != 0x93 {
        return false;
    }
    let last: usize = at + 9;
    let mut k: usize = at + 1;
    while k < last
        invariant
            at < k <= last == at + 9 < code@.len(),
            forall|j: int| at < j < k ==> code@[j] >= 0x80,
        decreases last - k,
    {
        if code[k] < 0x80 {
            return false;
        }
        k = k + 1;
    }
    code[last] % 0x80 >= 0x20 || (code[last] >= 0x80 && last + 1 < code.len() && code[last + 1] == 1)
}

/// The operation at this place of an expression, and where the next one is.
pub uninterp spec fn operation_at(
    info: Seq<u8>,
    little: bool,
    unit: usize,
    code: Seq<u8>,
    at: usize,
) -> Option<(Op, usize)>;

/// The first `next` of [`gimli::Expression::operations`] on an expression from
/// this place on, by the constant or address it holds, and the place after it.
/// There is nothing where the unit has no header or no operation can be read. An
/// operation takes at least a byte and ends within the expression. An oversized
/// piece is left out: gimli could not count its bits.
#[verifier::external_body]
pub(crate) fn operation(info: &[u8], little: bool, unit: usize, code: &[u8], at: usize) -> (r:
    Option<(Op, usize)>)
    requires
        at <= code@.len(),
        !oversized_piece(code@, at as int),
    ensures
        r == operation_at(info@, little, unit, code@, at),
        r matches Some((_, next)) ==> at < next <= code@.len(),
{
    let e = if little { Little } else { Big };
    let header = DebugInfo::new(info, e).header_from_offset(DebugInfoOffset(unit)).ok()?;
    let mut ops = Expression(EndianSlice::new(&code[at..], e)).operations(header.encoding());
    let op = match ops.next().ok()?? {
        PlusConstant { value } => Op::PlusConstant(value),
        UnsignedConstant { value } => Op::UnsignedConstant(value),
        PushAddress { address } => Op::Address(address),
        NameRegister { .. } | ImplicitValue { .. } | StackValue | PointNowhere { .. } => Op::Located,
        Skip { target } => Op::Jump(target),
        Bra { target } => Op::Choice(target),
        _ => Op::Plain,
    };
    Some((op, ops.offset_from(&Expression(EndianSlice::new(code, e)))))
}

/// Whether no evaluation comes to an oversized piece in so many steps from this
/// place on, whichever way it takes at a branch. The piece that follows a location
/// is one step with it.
pub open spec fn clear(
    info: Seq<u8>,
    little: bool,
    unit: usize,
    code: Seq<u8>,
    at: int,
    steps: nat,
) -> bool
    decreases steps,
{
    if steps == 0 || at < 0 || at >= code.len() {
        true
    } else if oversized_piece(code, at) {
        false
    } else {
        let left = (steps - 1) as nat;
        match operation_at(info, little, unit, code, at as usize) {
            None => true,
            Some((Op::Jump(by), next)) => clear(info, little, unit, code, next + by, left),
            Some((Op::Choice(by), next)) => clear(info, little, unit, code, next + by, left)
                && clear(info, little, unit, code, next as int, left),
            Some((Op::Located, next)) => !oversized_piece(code, next as int) && match operation_at(
                info,
                little,
                unit,
                code,
                next,
            ) {
                Some((_, after)) => clear(info, little, unit, code, after as int, left),
                None => true,
            },
            Some((_, next)) => clear(info, little, unit, code, next as int, left),
        }
    }
}

/// The most steps, up to a number, in which no evaluation comes to an oversized
/// piece.
pub open spec fn clear_steps(info: Seq<u8>, little: bool, unit: usize, code: Seq<u8>, most: nat) -> nat
    decreases most,
{
    if most == 0 || clear(info, little, unit, code, 0, most) {
        most
    } else {
        clear_steps(info, little, unit, code, (most - 1) as nat)
    }
}

/// How many steps an evaluation can take without coming to an oversized piece.
pub open spec fn steps_allowed(info: Seq<u8>, little: bool, unit: usize, code: Seq<u8>) -> u32 {
    clear_steps(info, little, unit, code, MAX_OPERATIONS as nat) as u32
}

/// What is clear for more steps is for fewer.
proof fn lemma_clear_for_fewer(
    info: Seq<u8>,
    little: bool,
    unit: usize,
    code: Seq<u8>,
    at: int,
    steps: nat,
)
    requires
        clear(info, little, unit, code, at, steps + 1),
    ensures
        clear(info, little, unit, code, at, steps),
    decreases steps,
{
    if steps > 0 && 0 <= at < code.len() && !oversized_piece(code, at) {
        let left = (steps - 1) as nat;
        match operation_at(info, little, unit, code, at as usize) {
            None => {},
            Some((Op::Jump(by), next)) => {
                lemma_clear_for_fewer(info, little, unit, code, next + by, left);
            },
            Some((Op::Choice(by), next)) => {
                lemma_clear_for_fewer(info, little, unit, code, next + by, left);
                lemma_clear_for_fewer(info, little, unit, code, next as int, left);
            },
            Some((Op::Located, next)) => {
                if let Some((_, after)) = operation_at(info, little, unit, code, next) {
                    lemma_clear_for_fewer(info, little, unit, code, after as int, left);
                }
            },
            Some((_, next)) => {
                lemma_clear_for_fewer(info, little, unit, code, next as int, left);
            },
        }
    }
}

/// Steps that are clear where one more is not, or where no more are asked for, are
/// the most.
proof fn lemma_clear_steps_are(
    info: Seq<u8>,
    little: bool,
    unit: usize,
    code: Seq<u8>,
    steps: nat,
    most: nat,
)
    requires
        steps <= most,
        clear(info, little, unit, code, 0, steps),
        steps == most || !clear(info, little, unit, code, 0, steps + 1),
    ensures
        clear_steps(info, little, unit, code, most) == steps,
    decreases most,
{
    if steps < most {
        if clear(info, little, unit, code, 0, most) {
            lemma_clear_for_all_fewer(info, little, unit, code, 0, steps + 1, most);
        }
        lemma_clear_steps_are(info, little, unit, code, steps, (most - 1) as nat);
    }
}

proof fn lemma_clear_for_all_fewer(
    info: Seq<u8>,
    little: bool,
    unit: usize,
    code: Seq<u8>,
    at: int,
    few: nat,
    many: nat,
)
    requires
        few <= many,
        clear(info, little, unit, code, at, many),
    ensures
        clear(info, little, unit, code, at, few),
    decreases many,
{
    if few < many {
        lemma_clear_for_fewer(info, little, unit, code, at, (many - 1) as nat);
        lemma_clear_for_all_fewer(info, little, unit, code, at, few, (many - 1) as nat);
    }
}

/// Where one step more makes no difference anywhere, no number of steps does.
proof fn lemma_clear_stays(
    info: Seq<u8>,
    little: bool,
    unit: usize,
    code: Seq<u8>,
    few: nat,
    many: nat,
    at: int,
)
    requires
        few <= many,
        forall|p: int|
            #![trigger clear(info, little, unit, code, p, few)]
            clear(info, little, unit, code, p, few) == clear(info, little, unit, code, p, few + 1),
    ensures
        clear(info, little, unit, code, at, many) == clear(info, little, unit, code, at, few),
    decreases many,
{
    if few < many {
        assert(clear(info, little, unit, code, at, few) == clear(
            info,
            little,
            unit,
            code,
            at,
            few + 1,
        ));
        let left = (many - 1) as nat;
        if 0 <= at < code.len() && !oversized_piece(code, at) {
            match operation_at(info, little, unit, code, at as usize) {
                None => {},
                Some((Op::Jump(by), next)) => {
                    lemma_clear_stays(info, little, unit, code, few, left, next + by);
                },
                Some((Op::Choice(by), next)) => {
                    lemma_clear_stays(info, little, unit, code, few, left, next + by);
                    lemma_clear_stays(info, little, unit, code, few, left, next as int);
                },
                Some((Op::Located, next)) => {
                    if let Some((_, after)) = operation_at(info, little, unit, code, next) {
                        lemma_clear_stays(info, little, unit, code, few, left, after as int);
                    }
                },
                Some((_, next)) => {
                    lemma_clear_stays(info, little, unit, code, few, left, next as int);
                },
            }
        }
    }
}

/// Without an oversized piece every number of steps is clear.
proof fn lemma_clear_without_pieces(
    info: Seq<u8>,
    little: bool,
    unit: usize,
    code: Seq<u8>,
    at: int,
    steps: nat,
)
    requires
        forall|p: int| !#[trigger] oversized_piece(code, p),
    ensures
        clear(info, little, unit, code, at, steps),
    decreases steps,
{
    if steps > 0 && 0 <= at < code.len() {
        let left = (steps - 1) as nat;
        match operation_at(info, little, unit, code, at as usize) {
            None => {},
            Some((Op::Jump(by), next)) => {
                lemma_clear_without_pieces(info, little, unit, code, next + by, left);
            },
            Some((Op::Choice(by), next)) => {
                lemma_clear_without_pieces(info, little, unit, code, next + by, left);
                lemma_clear_without_pieces(info, little, unit, code, next as int, left);
            },
            Some((Op::Located, next)) => {
                if let Some((_, after)) = operation_at(info, little, unit, code, next) {
                    lemma_clear_without_pieces(info, little, unit, code, after as int, left);
                }
            },
            Some((_, next)) => {
                lemma_clear_without_pieces(info, little, unit, code, next as int, left);
            },
        }
    }
}

/// Whether an oversized piece could stand somewhere in an expression.
fn may_be_oversized(code: &[u8]) -> (r: bool)
    ensures
        !r ==> forall|p: int| !#[trigger] oversized_piece(code@, p),
{
    let mut at: usize = 0;
    while at < code.len()
        invariant
            at <= code@.len(),
            forall|k: int| k < at ==> !#[trigger] oversized_piece(code@, k),
        decreases code@.len() - at,
    {
        if is_oversized_piece(code, at) {
            return true;
        }
        at = at + 1;
    }
    false
}

/// Whether it is clear from a place on, by what is clear of the expression for one
/// step less.
fn clear_at(
    info: &[u8],
    little: bool,
    unit: usize,
    code: &[u8],
    at: usize,
    row: &Vec<bool>,
    Ghost(steps): Ghost<nat>,
) -> (r: bool)
    requires
        at <= code@.len(),
        row@.len() == code@.len(),
        forall|p: int|
            0 <= p < row@.len() ==> #[trigger] row@[p] == clear(info@, little, unit, code@, p, steps),
    ensures
        r == clear(info@, little, unit, code@, at as int, steps + 1),
{
    proof {
        reveal_with_fuel(clear, 2);
    }
    if at >= code.len() {
        return true;
    }
    if is_oversized_piece(code, at) {
        return false;
    }
    match operation(info, little, unit, code, at) {
        None => true,
        Some((Op::Jump(by), next)) => clear_behind(row, next, by),
        Some((Op::Choice(by), next)) => clear_behind(row, next, by) && clear_behind(row, next, 0),
        Some((Op::Located, next)) => if is_oversized_piece(code, next) {
            false
        } else {
            match operation(info, little, unit, code, next) {
                Some((_, after)) => clear_behind(row, after, 0),
                None => true,
            }
        },
        Some((_, next)) => clear_behind(row, next, 0),
    }
}

/// What a row says of the place so far behind or before another; a place outside
/// is clear.
fn clear_behind(row: &Vec<bool>, next: usize, by: i16) -> (r: bool)
    ensures
        r == (0 <= next + by < row@.len() ==> row@[next + by]),
{
    let to: i128 = next as i128 + by as i128;
    if to < 0 || to >= row.len() as i128 {
        true
    } else {
        row[to as usize]
    }
}

/// How many steps an evaluation can take without coming to an oversized piece.
fn allowed_steps(info: &[u8], little: bool, unit: usize, code: &[u8]) -> (r: u32)
    ensures
        r == steps_allowed(info@, little, unit, code@),
        r <= MAX_OPERATIONS,
{
    if !may_be_oversized(code) {
        proof {
            lemma_clear_without_pieces(info@, little, unit, code@, 0, MAX_OPERATIONS as nat);
        }
        return MAX_OPERATIONS;
    }
    let len: usize = code.len();
    let mut row: Vec<bool> = Vec::new();
    while row.len() < len
        invariant
            row@.len() <= len,
            forall|p: int| 0 <= p < row@.len() ==> #[trigger] row@[p],
        decreases len - row@.len(),
    {
        row.push(true);
    }
    let mut steps: u32 = 0;
    while steps < MAX_OPERATIONS
        invariant
            steps <= MAX_OPERATIONS,
            len == code@.len(),
            row@.len() == len,
            clear(info@, little, unit, code@, 0, steps as nat),
            forall|p: int|
                0 <= p < len ==> #[trigger] row@[p] == clear(
                    info@,
                    little,
                    unit,
                    code@,
                    p,
                    steps as nat,
                ),
        decreases MAX_OPERATIONS - steps,
    {
        let mut next: Vec<bool> = Vec::new();
        let mut same: bool = true;
        while next.len() < len
            invariant
                len == code@.len(),
                row@.len() == len,
                next@.len() <= len,
                same == (forall|p: int| 0 <= p < next@.len() ==> next@[p] == #[trigger] row@[p]),
                forall|p: int|
                    0 <= p < len ==> #[trigger] row@[p] == clear(
                        info@,
                        little,
                        unit,
                        code@,
                        p,
                        steps as nat,
                    ),
                forall|p: int|
                    0 <= p < next@.len() ==> #[trigger] next@[p] == clear(
                        info@,
                        little,
                        unit,
                        code@,
                        p,
                        (steps + 1) as nat,
                    ),
            decreases len - next@.len(),
        {
            let at: usize = next.len();
            let ghost before = next@;
            let clear_here: bool = clear_at(
                info,
                little,
                unit,
                code,
                at,
                &row,
                Ghost(steps as nat),
            );
            next.push(clear_here);
            proof {
                if same && clear_here == row@[at as int] {
                    assert forall|p: int| 0 <= p < next@.len() implies next@[p]
                        == #[trigger] row@[p] by {
                        if p < at {
                            assert(before[p] == row@[p]);
                        }
                    }
                } else if !same {
                    let p = choose|p: int| 0 <= p < before.len() && before[p] != #[trigger] row@[p];
                    assert(next@[p] != row@[p]);
                } else {
                    assert(next@[at as int] != row@[at as int]);
                }
            }
            if clear_here != row[at] {
                same = false;
            }
        }
        if same {
            proof {
                assert forall|p: int|
                    #![trigger clear(info@, little, unit, code@, p, steps as nat)]
                    clear(info@, little, unit, code@, p, steps as nat) == clear(
                        info@,
                        little,
                        unit,
                        code@,
                        p,
                        (steps as nat) + 1,
                    ) by {
                    if 0 <= p < len {
                        assert(next@[p] == row@[p]);
                    }
                }
                lemma_clear_stays(
                    info@,
                    little,
                    unit,
                    code@,
                    steps as nat,
                    MAX_OPERATIONS as nat,
                    0,
                );
            }
            return MAX_OPERATIONS;
        }
        if !next[0] {
            proof {
                lemma_clear_steps_are(
                    info@,
                    little,
                    unit,
                    code@,
                    steps as nat,
                    MAX_OPERATIONS as nat,
                );
            }
            return steps;
        }
        row = next;
        steps = steps + 1;
    }
    MAX_OPERATIONS
}

/// What an evaluation is told when it stops.
#[derive(Copy, Clone, Debug)]
pub enum Answer {
    /// The address with the index that it asked for
    Indexed(u64),
    /// Where the address that it asked for was moved to
    Relocated(u64),
    /// The base type is the generic one
    GenericType,
}

/// What an evaluation stops for that the debug information can tell.
#[derive(Copy, Clone, Debug)]
pub enum Need {
    /// The address with this index
    Indexed(usize),
    /// Where this address was moved to
    Relocated(u64),
    /// The base type of a value
    BaseType,
}

/// What the evaluation of an expression stops for once it was given these
/// answers, if it is something that the debug information can tell.
pub uninterp spec fn need_at(
    info: Seq<u8>,
    little: bool,
    unit: usize,
    code: Seq<u8>,
    answers: Seq<Answer>,
    limit: u32,
) -> Option<Need>;

/// Whether this is an answer to what an evaluation stops for.
pub open spec fn asked_for(need: Option<Need>, answer: Answer) -> bool {
    match answer {
        Answer::Indexed(_) => need matches Some(Need::Indexed(_)),
        Answer::Relocated(_) => need matches Some(Need::Relocated(_)),
        Answer::GenericType => need == Some(Need::BaseType),
    }
}

/// Whether each of these answers is to what the evaluation stops for once it was
/// given those before.
pub open spec fn all_asked_for(
    info: Seq<u8>,
    little: bool,
    unit: usize,
    code: Seq<u8>,
    answers: Seq<Answer>,
    limit: u32,
) -> bool {
    forall|k: int|
        0 <= k < answers.len() ==> asked_for(
            need_at(info, little, unit, code, answers.take(k), limit),
            #[trigger] answers[k],
        )
}

/// [`gimli::Expression::evaluation`], resumed with each answer in turn: what it
/// stops for then, if that is an indexed address, a relocated one or a base type.
/// An evaluation of more steps than the limit fails. The limit keeps it from a
/// piece whose size in bits gimli could not count, and an answer is only given to
/// what was asked for, as `resume_with_indexed_address` and its like demand.
#[verifier::external_body]
pub(crate) fn need(
    info: &[u8],
    little: bool,
    unit: usize,
    code: &[u8],
    answers: &[Answer],
    limit: u32,
) -> (r: Option<Need>)
    requires
        limit < u32::MAX,
        limit <= steps_allowed(info@, little, unit, code@),
        all_asked_for(info@, little, unit, code@, answers@, limit),
    ensures
        r == need_at(info@, little, unit, code@, answers@, limit),
{
    let e = if little { Little } else { Big };
    let header = DebugInfo::new(info, e).header_from_offset(DebugInfoOffset(unit)).ok()?;
    let mut run = Expression(EndianSlice::new(code, e)).evaluation(header.encoding());
    run.set_max_iterations(limit);
    let mut state = run.evaluate().ok()?;
    for a in answers { state = match *a {
            Indexed(v) => run.resume_with_indexed_address(v),
            Relocated(v) => run.resume_with_relocated_address(v),
            GenericType => run.resume_with_base_type(ValueType::Generic) }.ok()? }
    Some(match state {
        RequiresIndexedAddress { index, .. } => Need::Indexed(index.0),
        RequiresRelocatedAddress(v) => Need::Relocated(v),
        RequiresBaseType(_) => Need::BaseType,
        _ => return None })
}

/// What an evaluation stops for that only a running program can tell.
#[derive(Copy, Clone, Debug)]
pub enum Runtime {
    Register(u16),
    FrameBase,
    Memory,
    Tls,
    CallFrameCfa,
    AtLocation,
    EntryValue,
    ParameterRef,
}

/// What the evaluation of an expression stops for once it was given these
/// answers, if it is a register, the frame base, memory or thread-local storage.
pub uninterp spec fn storage_need_at(
    info: Seq<u8>,
    little: bool,
    unit: usize,
    code: Seq<u8>,
    answers: Seq<Answer>,
    limit: u32,
) -> Option<Runtime>;

/// [`gimli::Expression::evaluation`], resumed as for [`need`]: what it stops for,
/// if it is a register, the frame base, memory or thread-local storage.
#[verifier::external_body]
pub(crate) fn storage_need(
    info: &[u8],
    little: bool,
    unit: usize,
    code: &[u8],
    answers: &[Answer],
    limit: u32,
) -> (r: Option<Runtime>)
    requires
        limit < u32::MAX,
        limit <= steps_allowed(info@, little, unit, code@),
        all_asked_for(info@, little, unit, code@, answers@, limit),
    ensures
        r == storage_need_at(info@, little, unit, code@, answers@, limit),
{
    let e = if little { Little } else { Big };
    let header = DebugInfo::new(info, e).header_from_offset(DebugInfoOffset(unit)).ok()?;
    let mut run = Expression(EndianSlice::new(code, e)).evaluation(header.encoding());
    run.set_max_iterations(limit);
    let mut state = run.evaluate().ok()?;
    for a in answers { state = match *a {
            Indexed(v) => run.resume_with_indexed_address(v),
            Relocated(v) => run.resume_with_relocated_address(v),
            GenericType => run.resume_with_base_type(ValueType::Generic) }.ok()? }
    Some(match state {
        RequiresRegister { register, .. } => Runtime::Register(register.0),
        RequiresFrameBase => Runtime::FrameBase,
        RequiresMemory { .. } => Runtime::Memory,
        RequiresTls(_) => Runtime::Tls, _ => return None })
}

/// What the evaluation of an expression stops for once it was given these
/// answers, if it is something of a call or of another entry.
pub uninterp spec fn call_need_at(
    info: Seq<u8>,
    little: bool,
    unit: usize,
    code: Seq<u8>,
    answers: Seq<Answer>,
    limit: u32,
) -> Option<Runtime>;

/// [`gimli::Expression::evaluation`], resumed as for [`need`]: what it stops for,
/// if it is the call frame, another entry's location, an entry value or a
/// parameter.
#[verifier::external_body]
pub(crate) fn call_need(
    info: &[u8],
    little: bool,
    unit: usize,
    code: &[u8],
    answers: &[Answer],
    limit: u32,
) -> (r: Option<Runtime>)
    requires
        limit < u32::MAX,
        limit <= steps_allowed(info@, little, unit, code@),
        all_asked_for(info@, little, unit, code@, answers@, limit),
    ensures
        r == call_need_at(info@, little, unit, code@, answers@, limit),
{
    let e = if little { Little } else { Big };
    let header = DebugInfo::new(info, e).header_from_offset(DebugInfoOffset(unit)).ok()?;
    let mut run = Expression(EndianSlice::new(code, e)).evaluation(header.encoding());
    run.set_max_iterations(limit);
    let mut state = run.evaluate().ok()?;
    for a in answers { state = match *a {
            Indexed(v) => run.resume_with_indexed_address(v),
            Relocated(v) => run.resume_with_relocated_address(v),
            GenericType => run.resume_with_base_type(ValueType::Generic) }.ok()? }
    Some(match state {
        RequiresCallFrameCfa => Runtime::CallFrameCfa,
        RequiresAtLocation(_) => Runtime::AtLocation,
        RequiresEntryValue(_) => Runtime::EntryValue,
        RequiresParameterRef(_) => Runtime::ParameterRef, _ => return None })
}

/// The pieces that the evaluation of an expression ends with, once it was given
/// these answers: the addresses of those that have one.
pub uninterp spec fn addresses_at(
    info: Seq<u8>,
    little: bool,
    unit: usize,
    code: Seq<u8>,
    answers: Seq<Answer>,
    limit: u32,
) -> Option<Seq<Option<u64>>>;

/// [`gimli::Expression::evaluation`], resumed as for [`need`]: where it completes,
/// the pieces of its `result` by their addresses.
#[verifier::external_body]
pub(crate) fn addresses(
    info: &[u8],
    little: bool,
    unit: usize,
    code: &[u8],
    answers: &[Answer],
    limit: u32,
) -> (r: Option<Vec<Option<u64>>>)
    requires
        limit < u32::MAX,
        limit <= steps_allowed(info@, little, unit, code@),
        all_asked_for(info@, little, unit, code@, answers@, limit),
    ensures
        addresses_at(info@, little, unit, code@, answers@, limit) == (match r {
            Some(all) => Some(all@),
            None => None,
        }),
{
    let e = if little { Little } else { Big };
    let header = DebugInfo::new(info, e).header_from_offset(DebugInfoOffset(unit)).ok()?;
    let mut run = Expression(EndianSlice::new(code, e)).evaluation(header.encoding());
    run.set_max_iterations(limit);
    let mut state = run.evaluate().ok()?;
    for a in answers { state = match *a {
            Indexed(v) => run.resume_with_indexed_address(v),
            Relocated(v) => run.resume_with_relocated_address(v),
            GenericType => run.resume_with_base_type(ValueType::Generic) }.ok()? }
    let Complete = state else { return None };
    Some(run.result().iter().map(|p| match p.location {
        InMemory { address } => Some(address), _ => None }).collect())
}

/// The pieces that the evaluation of an expression ends with, once it was given
/// these answers: the registers of those that are in one.
pub uninterp spec fn registers_at(
    info: Seq<u8>,
    little: bool,
    unit: usize,
    code: Seq<u8>,
    answers: Seq<Answer>,
    limit: u32,
) -> Option<Seq<Option<u16>>>;

/// [`gimli::Expression::evaluation`], resumed as for [`need`]: where it completes,
/// the pieces of its `result` by their registers.
#[verifier::external_body]
pub(crate) fn registers(
    info: &[u8],
    little: bool,
    unit: usize,
    code: &[u8],
    answers: &[Answer],
    limit: u32,
) -> (r: Option<Vec<Option<u16>>>)
    requires
        limit < u32::MAX,
        limit <= steps_allowed(info@, little, unit, code@),
        all_asked_for(info@, little, unit, code@, answers@, limit),
    ensures
        registers_at(info@, little, unit, code@, answers@, limit) == (match r {
            Some(all) => Some(all@),
            None => None,
        }),
{
    let e = if little { Little } else { Big };
    let header = DebugInfo::new(info, e).header_from_offset(DebugInfoOffset(unit)).ok()?;
    let mut run = Expression(EndianSlice::new(code, e)).evaluation(header.encoding());
    run.set_max_iterations(limit);
    let mut state = run.evaluate().ok()?;
    for a in answers { state = match *a {
            Indexed(v) => run.resume_with_indexed_address(v),
            Relocated(v) => run.resume_with_relocated_address(v),
            GenericType => run.resume_with_base_type(ValueType::Generic) }.ok()? }
    let Complete = state else { return None };
    Some(run.result().iter().map(|p| match p.location {
        InRegister { register } => Some(register.0), _ => None }).collect())
}

/// A piece without an address.
#[derive(Copy, Clone, Debug)]
pub enum Piece {
    Empty,
    ImplicitPointer,
    /// A value, or something with a place
    Other,
}

/// The pieces that the evaluation of an expression ends with, once it was given
/// these answers: which are empty or implicit pointers.
pub uninterp spec fn pieces_at(
    info: Seq<u8>,
    little: bool,
    unit: usize,
    code: Seq<u8>,
    answers: Seq<Answer>,
    limit: u32,
) -> Option<Seq<Piece>>;

/// [`gimli::Expression::evaluation`], resumed as for [`need`]: where it completes,
/// which pieces of its `result` are empty or implicit pointers.
#[verifier::external_body]
pub(crate) fn pieces(
    info: &[u8],
    little: bool,
    unit: usize,
    code: &[u8],
    answers: &[Answer],
    limit: u32,
) -> (r: Option<Vec<Piece>>)
    requires
        limit < u32::MAX,
        limit <= steps_allowed(info@, little, unit, code@),
        all_asked_for(info@, little, unit, code@, answers@, limit),
    ensures
        pieces_at(info@, little, unit, code@, answers@, limit) == (match r {
            Some(all) => Some(all@),
            None => None,
        }),
{
    let e = if little { Little } else { Big };
    let header = DebugInfo::new(info, e).header_from_offset(DebugInfoOffset(unit)).ok()?;
    let mut run = Expression(EndianSlice::new(code, e)).evaluation(header.encoding());
    run.set_max_iterations(limit);
    let mut state = run.evaluate().ok()?;
    for a in answers { state = match *a {
            Indexed(v) => run.resume_with_indexed_address(v),
            Relocated(v) => run.resume_with_relocated_address(v),
            GenericType => run.resume_with_base_type(ValueType::Generic) }.ok()? }
    let Complete = state else { return None };
    Some(run.result().iter().map(|p| match p.location { Nowhere => Empty,
        ToNothing { .. } => ImplicitPointer, _ => Other }).collect())
}

/// The status of a variable at this address.
pub open spec fn placed_at(address: u64) -> StatusView {
    if address == 0 {
        StatusView::AddressZero
    } else {
        StatusView::Valid { address }
    }
}

fn place(address: u64) -> (r: VariableStatus)
    ensures
        r@ == placed_at(address),
{
    if address == 0 {
        VariableStatus::AddressZero
    } else {
        VariableStatus::Valid { address }
    }
}

/// Why a variable that needs a running program cannot be read without one.
pub open spec fn runtime_reason(need: Runtime) -> Seq<char> {
    match need {
        Runtime::Register(register) => "Requires register "@ + decimal(register as nat),
        Runtime::FrameBase => "Stack variable (requires frame base)"@,
        Runtime::Memory => "Requires memory read at runtime"@,
        Runtime::Tls => "Thread-local storage variable"@,
        Runtime::CallFrameCfa => "Requires call frame CFA"@,
        Runtime::AtLocation => "Requires DW_AT_location from another DIE"@,
        Runtime::EntryValue => "Requires entry value (function parameter)"@,
        Runtime::ParameterRef => "Requires parameter reference"@,
    }
}

/// The status of a variable that needs a running program.
pub fn runtime_status(need: Runtime) -> (r: VariableStatus)
    ensures
        r@ == (StatusView::LocalVariable { reason: runtime_reason(need) }),
{
    let reason: String = match need {
        Runtime::Register(register) => {
            let mut out: String = "Requires register ".to_owned();
            push_decimal(&mut out, register as u64);
            out
        },
        Runtime::FrameBase => "Stack variable (requires frame base)".to_owned(),
        Runtime::Memory => "Requires memory read at runtime".to_owned(),
        Runtime::Tls => "Thread-local storage variable".to_owned(),
        Runtime::CallFrameCfa => "Requires call frame CFA".to_owned(),
        Runtime::AtLocation => "Requires DW_AT_location from another DIE".to_owned(),
        Runtime::EntryValue => "Requires entry value (function parameter)".to_owned(),
        Runtime::ParameterRef => "Requires parameter reference".to_owned(),
    };
    VariableStatus::LocalVariable { reason }
}

/// The first address among the pieces of a variable.
pub open spec fn first_address(addresses: Seq<Option<u64>>) -> Option<u64>
    decreases addresses.len(),
{
    if addresses.len() == 0 {
        None
    } else if addresses[0] is Some {
        addresses[0]
    } else {
        first_address(addresses.skip(1))
    }
}

/// The status of a variable in these pieces: none are optimized out, several
/// are split, and one is where it is.
pub open spec fn status_of_pieces(
    addresses: Seq<Option<u64>>,
    registers: Seq<Option<u16>>,
    pieces: Seq<Piece>,
) -> StatusView {
    if addresses.len() == 0 {
        StatusView::OptimizedOut
    } else if addresses.len() > 1 {
        StatusView::MultiPiece { has_address: first_address(addresses) is Some }
    } else {
        match addresses[0] {
            Some(address) => placed_at(address),
            None => if registers.len() > 0 && registers[0] is Some {
                StatusView::RegisterOnly { register: registers[0]->0 }
            } else if pieces.len() > 0 && pieces[0] is Empty {
                StatusView::OptimizedOut
            } else if pieces.len() > 0 && pieces[0] is ImplicitPointer {
                StatusView::ImplicitPointer
            } else {
                StatusView::ImplicitValue
            },
        }
    }
}

/// The first address among the pieces of a variable.
pub fn find_address(addresses: &[Option<u64>]) -> (r: Option<u64>)
    ensures
        r == first_address(addresses@),
{
    let ghost all = addresses@;
    let mut i: usize = 0;
    assert(all.skip(0) =~= all);
    while i < addresses.len()
        invariant
            i <= all.len(),
            all == addresses@,
            first_address(all) == first_address(all.skip(i as int)),
        decreases all.len() - i,
    {
        assert(all.skip(i as int)[0] == all[i as int]);
        assert(all.skip(i as int).skip(1) =~= all.skip(i + 1));
        if addresses[i].is_some() {
            return addresses[i];
        }
        i = i + 1;
    }
    None
}

/// The status of a variable in these pieces.
pub fn piece_status(
    addresses: &[Option<u64>],
    registers: &[Option<u16>],
    pieces: &[Piece],
) -> (r: VariableStatus)
    ensures
        r@ == status_of_pieces(addresses@, registers@, pieces@),
{
    if addresses.len() == 0 {
        return VariableStatus::OptimizedOut;
    }
    if addresses.len() > 1 {
        return VariableStatus::MultiPiece { has_address: find_address(addresses).is_some() };
    }
    if let Some(address) = addresses[0] {
        return place(address);
    }
    if registers.len() > 0 {
        if let Some(register) = registers[0] {
            return VariableStatus::RegisterOnly { register };
        }
    }
    if pieces.len() > 0 {
        match pieces[0] {
            Piece::Empty => {
                return VariableStatus::OptimizedOut;
            },
            Piece::ImplicitPointer => {
                return VariableStatus::ImplicitPointer;
            },
            Piece::Other => {},
        }
    }
    VariableStatus::ImplicitValue
}

/// A location expression of a unit.
pub struct Code {
    pub sections: SectionsView,
    pub unit: usize,
    pub code: Seq<u8>,
}

impl Code {
    /// How many steps the evaluation may take.
    pub open spec fn limit(self) -> u32 {
        steps_allowed(
            self.sections.section(".debug_info"@),
            self.sections.little_endian,
            self.unit,
            self.code,
        )
    }

    pub open spec fn need(self, answers: Seq<Answer>) -> Option<Need> {
        need_at(
            self.sections.section(".debug_info"@),
            self.sections.little_endian,
            self.unit,
            self.code,
            answers,
            self.limit(),
        )
    }

    /// The answers with which the evaluation needs nothing more that the debug
    /// information can tell, if it can tell each. Addresses are where they were
    /// linked to be.
    pub open spec fn answered(self, answers: Seq<Answer>, n: nat) -> Option<Seq<Answer>>
        decreases n,
    {
        match self.need(answers) {
            None => Some(answers),
            Some(need) => if n == 0 {
                None
            } else {
                match need {
                    Need::Indexed(index) => match indexed_address_of(
                        self.sections,
                        self.unit,
                        index,
                    ) {
                        Some(address) => self.answered(
                            answers.push(Answer::Indexed(address)),
                            (n - 1) as nat,
                        ),
                        None => None,
                    },
                    Need::Relocated(address) => self.answered(
                        answers.push(Answer::Relocated(address)),
                        (n - 1) as nat,
                    ),
                    Need::BaseType => self.answered(
                        answers.push(Answer::GenericType),
                        (n - 1) as nat,
                    ),
                }
            },
        }
    }

    /// The answers that the debug information gives.
    pub open spec fn answers(self) -> Option<Seq<Answer>> {
        self.answered(Seq::empty(), MAX_OPERATIONS as nat)
    }

    /// What the evaluation needs a running program for.
    pub open spec fn runtime(self, answers: Seq<Answer>) -> Option<Runtime> {
        let info = self.sections.section(".debug_info"@);
        let little = self.sections.little_endian;
        let storage = storage_need_at(info, little, self.unit, self.code, answers, self.limit());
        if storage is Some {
            storage
        } else {
            call_need_at(info, little, self.unit, self.code, answers, self.limit())
        }
    }

    pub open spec fn addresses(self, answers: Seq<Answer>) -> Option<Seq<Option<u64>>> {
        addresses_at(
            self.sections.section(".debug_info"@),
            self.sections.little_endian,
            self.unit,
            self.code,
            answers,
            self.limit(),
        )
    }

    pub open spec fn registers(self, answers: Seq<Answer>) -> Option<Seq<Option<u16>>> {
        registers_at(
            self.sections.section(".debug_info"@),
            self.sections.little_endian,
            self.unit,
            self.code,
            answers,
            self.limit(),
        )
    }

    pub open spec fn pieces(self, answers: Seq<Answer>) -> Option<Seq<Piece>> {
        pieces_at(
            self.sections.section(".debug_info"@),
            self.sections.little_endian,
            self.unit,
            self.code,
            answers,
            self.limit(),
        )
    }

    /// What the expression says of a variable. One that cannot be evaluated
    /// says nothing.
    pub open spec fn status(self) -> StatusView {
        match self.answers() {
            None => StatusView::NoLocation,
            Some(answers) => match self.runtime(answers) {
                Some(need) => StatusView::LocalVariable { reason: runtime_reason(need) },
                None => match (
                    self.addresses(answers),
                    self.registers(answers),
                    self.pieces(answers),
                ) {
                    (Some(addresses), Some(registers), Some(pieces)) => status_of_pieces(
                        addresses,
                        registers,
                        pieces,
                    ),
                    _ => StatusView::NoLocation,
                },
            },
        }
    }

    /// The first address that the expression gives without a running program.
    pub open spec fn address(self) -> Option<u64> {
        match self.answers() {
            None => None,
            Some(answers) => match self.addresses(answers) {
                Some(addresses) => first_address(addresses),
                None => None,
            },
        }
    }
}

/// The answers that the debug information gives an evaluation of so many steps.
fn answers_for(s: &Sections, unit: usize, code: &[u8], limit: u32) -> (r: Option<Vec<Answer>>)
    requires
        limit == (Code { sections: s@, unit, code: code@ }).limit(),
        limit <= MAX_OPERATIONS,
    ensures
        (Code { sections: s@, unit, code: code@ }).answers() == (match r {
            Some(answers) => Some(answers@),
            None => None,
        }),
        r matches Some(answers) ==> all_asked_for(
            s@.section(".debug_info"@),
            s@.little_endian,
            unit,
            code@,
            answers@,
            limit,
        ),
{
    let ghost all = Code { sections: s@, unit, code: code@ };
    let info: &[u8] = s.section(".debug_info");
    let mut answers: Vec<Answer> = Vec::new();
    let mut left: u32 = MAX_OPERATIONS;
    assert(answers@ =~= Seq::<Answer>::empty());
    loop
        invariant
            all == (Code { sections: s@, unit, code: code@ }),
            limit == all.limit() <= MAX_OPERATIONS,
            info@ == s@.section(".debug_info"@),
            all.answers() == all.answered(answers@, left as nat),
            all_asked_for(info@, s@.little_endian, unit, code@, answers@, limit),
        decreases left,
    {
        let next: Answer = match need(
            info,
            s.little_endian,
            unit,
            code,
            answers.as_slice(),
            limit,
        ) {
            None => {
                return Some(answers);
            },
            Some(_) if left == 0 => {
                return None;
            },
            Some(Need::Indexed(index)) => match find_indexed_address(s, unit, index) {
                Some(address) => Answer::Indexed(address),
                None => {
                    return None;
                },
            },
            Some(Need::Relocated(address)) => Answer::Relocated(address),
            Some(Need::BaseType) => Answer::GenericType,
        };
        let ghost before = answers@;
        answers.push(next);
        left = left - 1;
        assert forall|k: int| 0 <= k < answers@.len() implies asked_for(
            need_at(info@, s@.little_endian, unit, code@, answers@.take(k), limit),
            #[trigger] answers@[k],
        ) by {
            assert(answers@.take(k) =~= before.take(k));
            assert(before.take(before.len() as int) =~= before);
            if k < before.len() {
                assert(answers@[k] == before[k]);
            }
        }
    }
}

/// What a location expression says of a variable.
pub fn evaluate_expr_to_status(s: &Sections, unit: usize, code: &[u8]) -> (r: VariableStatus)
    ensures
        r@ == (Code { sections: s@, unit, code: code@ }).status(),
{
    let little: bool = s.little_endian;
    let info: &[u8] = s.section(".debug_info");
    let limit: u32 = allowed_steps(info, little, unit, code);
    let answers: Vec<Answer> = match answers_for(s, unit, code, limit) {
        Some(answers) => answers,
        None => {
            return VariableStatus::NoLocation;
        },
    };
    let given: &[Answer] = answers.as_slice();
    if let Some(needed) = storage_need(info, little, unit, code, given, limit) {
        return runtime_status(needed);
    }
    if let Some(needed) = call_need(info, little, unit, code, given, limit) {
        return runtime_status(needed);
    }
    match (
        addresses(info, little, unit, code, given, limit),
        registers(info, little, unit, code, given, limit),
        pieces(info, little, unit, code, given, limit),
    ) {
        (Some(a), Some(b), Some(c)) => piece_status(a.as_slice(), b.as_slice(), c.as_slice()),
        _ => VariableStatus::NoLocation,
    }
}

/// The first address that a location expression gives without a running program.
pub fn evaluate_simple_location_expr(s: &Sections, unit: usize, code: &[u8]) -> (r: Option<u64>)
    ensures
        r == (Code { sections: s@, unit, code: code@ }).address(),
{
    let info: &[u8] = s.section(".debug_info");
    let limit: u32 = allowed_steps(info, s.little_endian, unit, code);
    match answers_for(s, unit, code, limit) {
        Some(answers) => match addresses(
            info,
            s.little_endian,
            unit,
            code,
            answers.as_slice(),
            limit,
        ) {
            Some(found) => find_address(found.as_slice()),
            None => None,
        },
        None => None,
    }
}

/// The first address that one of these expressions gives.
pub open spec fn first_located(s: SectionsView, unit: usize, codes: Seq<Seq<u8>>) -> Option<u64>
    decreases codes.len(),
{
    if codes.len() == 0 {
        None
    } else {
        let found = (Code { sections: s, unit, code: codes[0] }).address();
        if found is Some {
            found
        } else {
            first_located(s, unit, codes.skip(1))
        }
    }
}

/// The address that a location list gives: the first that one of its
/// expressions does.
pub fn evaluate_location_list(s: &Sections, unit: usize, offset: usize) -> (r: Option<u64>)
    ensures
        r == first_located(s@, unit, expressions_of_list(s@, unit, offset)),
{
    let list: Vec<Vec<u8>> = find_list_expressions(s, unit, offset);
    let ghost all = contents_views(list@);
    let mut i: usize = 0;
    assert(all.skip(0) =~= all);
    while i < list.len()
        invariant
            i <= list@.len(),
            all == contents_views(list@),
            all == expressions_of_list(s@, unit, offset),
            first_located(s@, unit, all) == first_located(s@, unit, all.skip(i as int)),
        decreases list@.len() - i,
    {
        assert(all.skip(i as int)[0] == list@[i as int]@);
        assert(all.skip(i as int).skip(1) =~= all.skip(i + 1));
        if let Some(address) = evaluate_simple_location_expr(s, unit, list[i].as_slice()) {
            return Some(address);
        }
        i = i + 1;
    }
    None
}

/// What a location list says of a variable.
pub open spec fn list_status(address: Option<u64>) -> StatusView {
    match address {
        Some(address) => placed_at(address),
        None => StatusView::LocalVariable { reason: "Location list with no static entry"@ },
    }
}

/// What a location list that gives this address says of a variable.
pub fn located_by_list(address: Option<u64>) -> (r: VariableStatus)
    ensures
        r@ == list_status(address),
{
    match address {
        Some(address) => place(address),
        None => VariableStatus::LocalVariable {
            reason: "Location list with no static entry".to_owned(),
        },
    }
}

/// What a location attribute of this value says of a variable.
pub open spec fn location_status(s: SectionsView, unit: usize, value: ValueView) -> StatusView {
    match value {
        ValueView::Expression(code) => (Code { sections: s, unit, code }).status(),
        ValueView::Block(code) => (Code { sections: s, unit, code }).status(),
        ValueView::Address(address) => placed_at(address),
        ValueView::Unsigned(address) => placed_at(address),
        ValueView::Signed(address) => placed_at(address as u64),
        ValueView::AddressIndex(index) => match indexed_address_of(s, unit, index) {
            Some(address) => placed_at(address),
            None => StatusView::NoLocation,
        },
        ValueView::LocationList(offset) => list_status(
            first_located(s, unit, expressions_of_list(s, unit, offset)),
        ),
        ValueView::LocationListIndex(index) => match indexed_list_of(s, unit, index) {
            Some(offset) => list_status(
                first_located(s, unit, expressions_of_list(s, unit, offset)),
            ),
            None => StatusView::NoLocation,
        },
        _ => StatusView::NoLocation,
    }
}

/// What a location attribute says of a variable.
pub fn evaluate_location_to_status(s: &Sections, unit: usize, value: &Value) -> (r: VariableStatus)
    ensures
        r@ == location_status(s@, unit, value@),
{
    match value {
        // Expression-based location (most common for global variables)
        Value::Expression(code) => evaluate_expr_to_status(s, unit, code.as_slice()),
        // Block containing location expression (older DWARF)
        Value::Block(code) => evaluate_expr_to_status(s, unit, code.as_slice()),
        // Direct address value (some older DWARF or simple cases)
        Value::Address(address) => place(*address),
        Value::Unsigned(address) => place(*address),
        Value::Signed(address) => place(#[verifier::truncate] (*address as u64)),
        // Indexed address (DWARF 5)
        Value::AddressIndex(index) => match find_indexed_address(s, unit, *index) {
            Some(address) => place(address),
            None => VariableStatus::NoLocation,
        },
        Value::LocationList(offset) => located_by_list(evaluate_location_list(s, unit, *offset)),
        // Offset into location lists (DWARF 5)
        Value::LocationListIndex(index) => match find_indexed_list(s, unit, *index) {
            Some(offset) => located_by_list(evaluate_location_list(s, unit, offset)),
            None => VariableStatus::NoLocation,
        },
        _ => VariableStatus::NoLocation,
    }
}

/// The offset that the operations of a member's location give: the first
/// constant or address among them.
pub open spec fn offset_of_operations(ops: Seq<Op>) -> u64
    decreases ops.len(),
{
    if ops.len() == 0 {
        0
    } else {
        match ops[0] {
            Op::PlusConstant(value) => value,
            Op::UnsignedConstant(value) => value,
            Op::Address(address) => address,
            _ => offset_of_operations(ops.skip(1)),
        }
    }
}

/// The offset that the operations of a member's location give.
pub fn operations_offset(ops: &[Op]) -> (r: u64)
    ensures
        r == offset_of_operations(ops@),
{
    let ghost all = ops@;
    let mut i: usize = 0;
    assert(all.skip(0) =~= all);
    while i < ops.len()
        invariant
            i <= all.len(),
            all == ops@,
            offset_of_operations(all) == offset_of_operations(all.skip(i as int)),
        decreases all.len() - i,
    {
        assert(all.skip(i as int)[0] == all[i as int]);
        assert(all.skip(i as int).skip(1) =~= all.skip(i + 1));
        match ops[i] {
            // For member offsets, the constant that is added is the offset
            Op::PlusConstant(value) => {
                return value;
            },
            Op::UnsignedConstant(value) => {
                return value;
            },
            Op::Address(address) => {
                return address;
            },
            _ => {},
        }
        i = i + 1;
    }
    0
}

/// The operations of an expression from this place on, as far as they can be
/// read. An oversized piece cannot.
pub open spec fn operations_from(
    info: Seq<u8>,
    little: bool,
    unit: usize,
    code: Seq<u8>,
    at: int,
) -> Seq<Op>
    decreases code.len() - at,
{
    if at < 0 || at >= code.len() || oversized_piece(code, at) {
        Seq::empty()
    } else {
        match operation_at(info, little, unit, code, at as usize) {
            Some((op, next)) => if next <= at || next > code.len() {
                Seq::empty()
            } else {
                seq![op] + operations_from(info, little, unit, code, next as int)
            },
            None => Seq::empty(),
        }
    }
}

/// The operations of an expression, as far as they can be read.
fn operations(info: &[u8], little: bool, unit: usize, code: &[u8]) -> (r: Vec<Op>)
    ensures
        r@ == operations_from(info@, little, unit, code@, 0),
{
    let ghost all = operations_from(info@, little, unit, code@, 0);
    let mut out: Vec<Op> = Vec::new();
    let mut at: usize = 0;
    assert(out@ + all =~= all);
    while at < code.len() && !is_oversized_piece(code, at)
        invariant
            at <= code@.len(),
            all == operations_from(info@, little, unit, code@, 0),
            all == out@ + operations_from(info@, little, unit, code@, at as int),
        decreases code@.len() - at,
    {
        match operation(info, little, unit, code, at) {
            Some((op, next)) => {
                let ghost rest = operations_from(info@, little, unit, code@, next as int);
                let ghost before = out@;
                out.push(op);
                at = next;
                assert(before + (seq![op] + rest) =~= out@ + rest);
            },
            None => {
                assert(operations_from(info@, little, unit, code@, at as int) =~= Seq::empty());
                assert(out@ + Seq::<Op>::empty() =~= out@);
                return out;
            },
        }
    }
    assert(out@ + Seq::<Op>::empty() =~= out@);
    out
}

/// The offset that an expression gives a member.
pub open spec fn code_offset(s: SectionsView, unit: usize, code: Seq<u8>) -> u64 {
    offset_of_operations(
        operations_from(s.section(".debug_info"@), s.little_endian, unit, code, 0),
    )
}

/// The offset that a member location of this value gives.
pub open spec fn member_offset(s: SectionsView, unit: usize, value: ValueView) -> u64 {
    match value {
        ValueView::Unsigned(offset) => offset,
        ValueView::Signed(offset) => offset as u64,
        ValueView::Expression(code) => code_offset(s, unit, code),
        ValueView::Block(code) => code_offset(s, unit, code),
        _ => 0,
    }
}

/// Evaluate a member offset expression (typically DW_OP_plus_uconst)
pub fn evaluate_member_offset_expr(s: &Sections, unit: usize, code: &[u8]) -> (r: u64)
    ensures
        r == code_offset(s@, unit, code@),
{
    let ops: Vec<Op> = operations(s.section(".debug_info"), s.little_endian, unit, code);
    operations_offset(ops.as_slice())
}

/// The offset that a member's location gives.
pub fn get_member_offset(s: &Sections, unit: usize, value: &Value) -> (r: u64)
    ensures
        r == member_offset(s@, unit, value@),
{
    match value {
        // Direct offset values (common in DWARF 4+, GCC)
        Value::Unsigned(offset) => *offset,
        Value::Signed(offset) => #[verifier::truncate] (*offset as u64),
        // Expression-based offset (common in DWARF 3, ARM Compiler 5)
        Value::Expression(code) => evaluate_member_offset_expr(s, unit, code.as_slice()),
        // Block form (older DWARF)
        Value::Block(code) => evaluate_member_offset_expr(s, unit, code.as_slice()),
        _ => 0,
    }
}

} // verus!
