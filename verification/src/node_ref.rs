//! References to nodes of the symbol tree.

use vstd::prelude::*;
use vstd::string::*;
use crate::text::push_decimal;
#[allow(unused_imports)]
use crate::text::decimal;

verus! {

/// One step from a node to a child.
#[derive(Debug)]
pub enum Step {
    Member(String),
    Index(u64),
    /// Payload of a Rust enum variant
    Variant(String),
    /// Tag member of a Rust enum
    Discriminant,
    /// Slot of an embassy task pool, as the task's `TaskStorage`; only the
    /// first step
    Task(u64),
    /// Follow a pointer using current target memory.
    Deref,
    SliceIndex(u64),
}

/// A step by its content.
pub enum StepView {
    Member(Seq<char>),
    Index(u64),
    Variant(Seq<char>),
    Discriminant,
    Task(u64),
    Deref,
    SliceIndex(u64),
}

impl View for Step {
    type V = StepView;

    open spec fn view(&self) -> StepView {
        match self {
            Step::Member(name) => StepView::Member(name@),
            Step::Index(i) => StepView::Index(*i),
            Step::Variant(name) => StepView::Variant(name@),
            Step::Discriminant => StepView::Discriminant,
            Step::Task(slot) => StepView::Task(*slot),
            Step::Deref => StepView::Deref,
            Step::SliceIndex(i) => StepView::SliceIndex(*i),
        }
    }
}

impl Clone for Step {
    fn clone(&self) -> (r: Self)
        ensures
            r == *self,
    {
        match self {
            Step::Member(name) => Step::Member(name.clone()),
            Step::Index(i) => Step::Index(*i),
            Step::Variant(name) => Step::Variant(name.clone()),
            Step::Discriminant => Step::Discriminant,
            Step::Task(slot) => Step::Task(*slot),
            Step::Deref => Step::Deref,
            Step::SliceIndex(i) => Step::SliceIndex(*i),
        }
    }
}

impl StepView {
    /// How the step shows in a path.
    pub open spec fn shown(self) -> Seq<char> {
        match self {
            StepView::Deref => ".*"@,
            StepView::Member(name) => "."@ + name,
            StepView::SliceIndex(i) => "["@ + decimal(i as nat) + "]"@,
            StepView::Index(i) => "["@ + decimal(i as nat) + "]"@,
            StepView::Variant(name) => "#"@ + name,
            StepView::Discriminant => "#<discriminant>"@,
            StepView::Task(slot) => "[task "@ + decimal(slot as nat) + "]"@,
        }
    }

    /// Whether the step reads a pointer.
    pub open spec fn follows_pointer(self) -> bool {
        self is Deref || self is SliceIndex
    }
}

impl Step {
    fn push_to(&self, out: &mut String)
        ensures
            final(out)@ == old(out)@ + self@.shown(),
    {
        match self {
            Step::Deref => {
                out.append(".*");
            },
            Step::Member(name) => {
                out.append(".");
                out.append(name.as_str());
            },
            Step::SliceIndex(i) | Step::Index(i) => {
                out.append("[");
                push_decimal(out, *i);
                out.append("]");
            },
            Step::Variant(name) => {
                out.append("#");
                out.append(name.as_str());
            },
            Step::Discriminant => {
                out.append("#<discriminant>");
            },
            Step::Task(slot) => {
                out.append("[task ");
                push_decimal(out, *slot);
                out.append("]");
            },
        }
        assert(out@ =~= old(out)@ + self@.shown());
    }
}

/// The views of a list of steps.
pub open spec fn step_views(steps: Seq<Step>) -> Seq<StepView> {
    Seq::new(steps.len(), |i: int| steps[i]@)
}

/// Stable reference to a node: full symbol path, then steps into its type.
#[derive(Debug)]
pub struct NodeRef {
    pub symbol: String,
    pub steps: Vec<Step>,
}

/// A reference by its content.
#[verifier::ext_equal]
pub struct NodeView {
    pub symbol: Seq<char>,
    pub steps: Seq<StepView>,
}

impl View for NodeRef {
    type V = NodeView;

    open spec fn view(&self) -> NodeView {
        NodeView { symbol: self.symbol@, steps: step_views(self.steps@) }
    }
}

/// Steps as they show in a path.
pub open spec fn shown_steps(steps: Seq<StepView>) -> Seq<char>
    decreases steps.len(),
{
    if steps.len() == 0 {
        Seq::empty()
    } else {
        shown_steps(steps.drop_last()) + steps.last().shown()
    }
}

impl NodeView {
    /// The reference as a path, such as `gimbal::GIMBAL.pitch.limit#Some.__0`,
    /// `SAMPLES[3]`, `cmd#<discriminant>` or `app::led_task::POOL[task 0].future`.
    pub open spec fn shown(self) -> Seq<char> {
        self.symbol + shown_steps(self.steps)
    }

    /// The reference to a child.
    pub open spec fn child(self, step: StepView) -> NodeView {
        NodeView { symbol: self.symbol, steps: self.steps.push(step) }
    }

    /// The reference to the node `n` steps below the root.
    pub open spec fn above(self, n: int) -> NodeView {
        NodeView { symbol: self.symbol, steps: self.steps.take(n) }
    }
}

impl NodeRef {
    pub fn root(symbol: &str) -> (r: Self)
        ensures
            r@ == (NodeView { symbol: symbol@, steps: Seq::empty() }),
    {
        let r = NodeRef { symbol: symbol.to_owned(), steps: Vec::new() };
        assert(r@ =~= (NodeView { symbol: symbol@, steps: Seq::empty() }));
        r
    }

    /// The reference `n` steps below the root.
    pub fn prefix(&self, n: usize) -> (r: Self)
        requires
            n <= self@.steps.len(),
        ensures
            r@ == self@.above(n as int),
    {
        let mut steps: Vec<Step> = Vec::new();
        while steps.len() < n
            invariant
                steps@.len() <= n <= self.steps@.len(),
                forall|i: int| 0 <= i < steps@.len() ==> steps@[i] == self.steps@[i],
            decreases n - steps@.len(),
        {
            let step: Step = self.steps[steps.len()].clone();
            steps.push(step);
        }
        let r = NodeRef { symbol: self.symbol.clone(), steps };
        assert(r@ =~= self@.above(n as int));
        r
    }

    /// A copy of the reference.
    pub fn copy(&self) -> (r: Self)
        ensures
            r@ == self@,
    {
        let r = self.prefix(self.steps.len());
        assert(r@ =~= self@);
        r
    }

    pub fn child(&self, step: Step) -> (r: Self)
        ensures
            r@ == self@.child(step@),
    {
        let mut r = self.copy();
        r.steps.push(step);
        assert(r@ =~= self@.child(step@));
        r
    }

    /// The reference as a path.
    pub fn to_text(&self) -> (r: String)
        ensures
            r@ == self@.shown(),
    {
        let mut out: String = self.symbol.clone();
        let ghost steps = self@.steps;
        let mut i: usize = 0;
        assert(out@ =~= out@ + shown_steps(steps.take(0)));
        while i < self.steps.len()
            invariant
                i <= self.steps@.len(),
                steps == self@.steps,
                out@ == self@.symbol + shown_steps(steps.take(i as int)),
            decreases self.steps@.len() - i,
        {
            self.steps[i].push_to(&mut out);
            i = i + 1;
            proof {
                let seen = steps.take(i as int);
                assert(seen.drop_last() =~= steps.take(i - 1));
                assert(out@ =~= self@.symbol + shown_steps(seen));
            }
        }
        assert(steps.take(steps.len() as int) =~= steps);
        out
    }
}

/// Why a reference leads nowhere.
#[derive(Debug)]
pub enum TreeError {
    SymbolNotFound(String),
    Untyped { symbol: String },
    BadStep { at: String, reason: String },
}

/// An error by its content.
pub enum TreeErrorView {
    SymbolNotFound(Seq<char>),
    Untyped { symbol: Seq<char> },
    BadStep { at: Seq<char>, reason: Seq<char> },
}

impl View for TreeError {
    type V = TreeErrorView;

    open spec fn view(&self) -> TreeErrorView {
        match self {
            TreeError::SymbolNotFound(symbol) => TreeErrorView::SymbolNotFound(symbol@),
            TreeError::Untyped { symbol } => TreeErrorView::Untyped { symbol: symbol@ },
            TreeError::BadStep { at, reason } => TreeErrorView::BadStep { at: at@, reason: reason@ },
        }
    }
}

impl TreeErrorView {
    /// The error as a message.
    pub open spec fn shown(self) -> Seq<char> {
        match self {
            TreeErrorView::SymbolNotFound(symbol) => "symbol not found: "@ + symbol,
            TreeErrorView::Untyped { symbol } => symbol + " has no type information"@,
            TreeErrorView::BadStep { at, reason } => "cannot step into "@ + at + ": "@ + reason,
        }
    }
}

impl TreeError {
    /// The error as a message.
    pub fn to_text(&self) -> (r: String)
        ensures
            r@ == self@.shown(),
    {
        match self {
            TreeError::SymbolNotFound(symbol) => {
                let mut out: String = "symbol not found: ".to_owned();
                out.append(symbol.as_str());
                out
            },
            TreeError::Untyped { symbol } => {
                let mut out: String = symbol.clone();
                out.append(" has no type information");
                out
            },
            TreeError::BadStep { at, reason } => {
                let mut out: String = "cannot step into ".to_owned();
                out.append(at.as_str());
                out.append(": ");
                out.append(reason.as_str());
                out
            },
        }
    }
}

} // verus!
