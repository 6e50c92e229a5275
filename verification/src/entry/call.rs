//! Calls: questions about the range of a label, whose answers are written
//! once every label is bound, and directives.

use vstd::prelude::*;
use vstd::layout::layout_of_primitives;
use crate::error::Error;
use crate::error::ErrorView;
use crate::parse::base::PrimitiveSpec;
use crate::parse::base::primitive_of;
use crate::state::EntryState;
use crate::state::Outcome;
use crate::state::StateOperation;
use crate::state::StateView;
use crate::state::lemma_appended_extends;
use crate::state::lemma_extends_reflexive;
use crate::state::lemma_extends_transitive;
use crate::state::lemma_patch_extends;
use crate::state::lemma_use_extends;
use crate::state::support::EvalCall;
use crate::state::support::EvalCallView;
use crate::state::support::PatchOp;
use crate::state::support::PatchView;
use crate::state::support::Query;
use crate::state::zeros;
use crate::text::str_eq;
use crate::to_bytes::IntType;
use crate::to_bytes::decimal_of_type;
use crate::to_bytes::decimal_to_int;
use crate::to_bytes::lemma_pow256_bounds;
use crate::to_bytes::outcome;
use crate::token::Ident;
use crate::token::IdentView;
use crate::token::Label;
use crate::token::LabelView;
use crate::token::LitInt;
use crate::token::LitIntView;

verus! {

/// A call or a directive.
#[derive(Debug, Clone, PartialEq, Eq)]
pub enum CallEntry {
    CallExpr(CallExprEntry),
    Directive(DirectiveEntry),
}

/// The mathematical form of a [`CallEntry`].
pub enum CallEntryView {
    CallExpr(CallExprEntryView),
    Directive(DirectiveEntryView),
}

impl View for CallEntry {
    type V = CallEntryView;

    open spec fn view(&self) -> CallEntryView {
        match self {
            CallEntry::CallExpr(call_expr) => CallEntryView::CallExpr(call_expr@),
            CallEntry::Directive(directive) => CallEntryView::Directive(directive@),
        }
    }
}

/// The state after a call or a directive has been applied to `state`.
pub open spec fn call_effect(call: CallEntryView, state: StateView) -> Outcome {
    match call {
        CallEntryView::CallExpr(call_expr) => call_expr_effect(call_expr, state),
        CallEntryView::Directive(directive) => directive_entry_effect(directive, state),
    }
}

impl StateOperation for CallEntry {
    open spec fn effect(&self, state: StateView) -> Outcome {
        call_effect(self@, state)
    }

    fn apply_to(&self, state: &mut EntryState) -> (r: Result<(), Error>) {
        match self {
            CallEntry::CallExpr(call_expr) => call_expr.apply_to(state),
            CallEntry::Directive(directive) => directive.apply_to(state),
        }
    }
}

/// A call with the type that its answer is written as.
#[derive(Debug, Clone, PartialEq, Eq)]
pub struct CallExprEntry {
    pub call_expr: CallExpr,
    pub primitive: Ident,
}

/// The mathematical form of a [`CallExprEntry`].
pub struct CallExprEntryView {
    pub call_expr: CallExprView,
    pub primitive: IdentView,
}

impl View for CallExprEntry {
    type V = CallExprEntryView;

    open spec fn view(&self) -> CallExprEntryView {
        CallExprEntryView { call_expr: self.call_expr@, primitive: self.primitive@ }
    }
}

/// The state after a call has been applied to `state`: the use of the label
/// is on record, as many zero bytes as the type is wide stand behind the
/// buffer, and the write that fills them waits. A call whose name is unknown
/// changes nothing; a type that is unknown leaves the use on record.
pub open spec fn call_expr_effect(entry: CallExprEntryView, state: StateView) -> Outcome {
    let called = entry.call_expr.processed(state);
    match called.1 {
        Err(e) => Outcome { state: called.0, result: Err(e) },
        Ok(eval) => match primitive_of(entry.primitive) {
            Err(e) => Outcome { state: called.0, result: Err(e) },
            Ok(primitive) => Outcome {
                state: called.0.advanced(primitive.int_type.width()).with_patch(
                    PatchView {
                        target: state.offset(),
                        query: eval.query,
                        label: eval.label,
                        int_type: primitive.int_type,
                        order: primitive.order(state.endian_mode, state.native),
                    },
                ),
                result: Ok(()),
            },
        },
    }
}

impl StateOperation for CallExprEntry {
    open spec fn effect(&self, state: StateView) -> Outcome {
        call_expr_effect(self@, state)
    }

    fn apply_to(&self, state: &mut EntryState) -> (r: Result<(), Error>) {
        let eval: EvalCall = match self.call_expr.process(state) {
            Ok(eval) => eval,
            Err(e) => {
                return Err(e);
            },
        };
        let curr_offset: usize = state.curr_offset();
        let primitive: PrimitiveSpec = match PrimitiveSpec::parse(self.primitive.duplicate()) {
            Ok(primitive) => primitive,
            Err(e) => {
                return Err(e);
            },
        };
        let endian_mode = state.endian_mode();
        state.advance_bytes(primitive.int_type().num_bytes());
        state.defer_patch_op(PatchOp::new(curr_offset, eval, primitive, endian_mode, state.native()));
        Ok(())
    }
}

/// The question that the name of a call stands for.
pub open spec fn query_of(name: Seq<char>) -> Option<Query> {
    if name == "start"@ {
        Some(Query::Start)
    } else if name == "end"@ {
        Some(Query::End)
    } else if name == "len"@ {
        Some(Query::Len)
    } else {
        None
    }
}

/// The question that the name of a call stands for, if it stands for one.
pub fn query_named(name: &str) -> (r: Option<Query>)
    ensures
        r == query_of(name@),
{
    if str_eq(name, "start") {
        Some(Query::Start)
    } else if str_eq(name, "end") {
        Some(Query::End)
    } else if str_eq(name, "len") {
        Some(Query::Len)
    } else {
        None
    }
}

/// A call as it stands in the source: a name and the label in its brackets.
#[derive(Debug, Clone, PartialEq, Eq)]
pub struct CallExpr {
    pub name: Ident,
    pub lifetime: Label,
}

/// The mathematical form of a [`CallExpr`].
pub struct CallExprView {
    pub name: IdentView,
    pub lifetime: LabelView,
}

impl View for CallExpr {
    type V = CallExprView;

    open spec fn view(&self) -> CallExprView {
        CallExprView { name: self.name@, lifetime: self.lifetime@ }
    }
}

impl CallExprView {
    /// The state after the call has been looked at, and the question that it
    /// puts: a call whose name is one of the questions records the use of
    /// its label; any other fails and changes nothing.
    pub open spec fn processed(self, state: StateView) -> (StateView, Result<EvalCallView, ErrorView>) {
        match query_of(self.name.name) {
            Some(query) => (state.with_use(self.lifetime), Ok(EvalCallView { query, label: self.lifetime })),
            None => (state, Err(ErrorView::UnknownCall { site: self.name.site })),
        }
    }
}

impl CallExpr {
    pub fn process(&self, state: &mut EntryState) -> (r: Result<EvalCall, Error>)
        requires
            old(state).wf(),
        ensures
            final(state).wf(),
            final(state)@ == self@.processed(old(state)@).0,
            outcome(r) == self@.processed(old(state)@).1,
    {
        match FunctionCall::parse(&self.name, &self.lifetime) {
            Ok(func) => Ok(func.process(state)),
            Err(e) => Err(e),
        }
    }
}

/// A call that asks for the offset of the first byte of a label.
#[derive(Debug, Clone, PartialEq, Eq)]
pub struct StartCall {
    pub lifetime: Label,
}

/// A call that asks for the offset behind the last byte of a label.
#[derive(Debug, Clone, PartialEq, Eq)]
pub struct EndCall {
    pub lifetime: Label,
}

/// A call that asks for the number of bytes of a label.
#[derive(Debug, Clone, PartialEq, Eq)]
pub struct LenCall {
    pub lifetime: Label,
}

impl StartCall {
    pub fn process(&self, state: &mut EntryState) -> (r: EvalCall)
        requires
            old(state).wf(),
        ensures
            final(state).wf(),
            final(state)@ == old(state)@.with_use(self.lifetime@),
            r@ == (EvalCallView { query: Query::Start, label: self.lifetime@ }),
    {
        state.report_label_use(&self.lifetime);
        EvalCall::new(Query::Start, self.lifetime.duplicate())
    }
}

impl EndCall {
    pub fn process(&self, state: &mut EntryState) -> (r: EvalCall)
        requires
            old(state).wf(),
        ensures
            final(state).wf(),
            final(state)@ == old(state)@.with_use(self.lifetime@),
            r@ == (EvalCallView { query: Query::End, label: self.lifetime@ }),
    {
        state.report_label_use(&self.lifetime);
        EvalCall::new(Query::End, self.lifetime.duplicate())
    }
}

impl LenCall {
    pub fn process(&self, state: &mut EntryState) -> (r: EvalCall)
        requires
            old(state).wf(),
        ensures
            final(state).wf(),
            final(state)@ == old(state)@.with_use(self.lifetime@),
            r@ == (EvalCallView { query: Query::Len, label: self.lifetime@ }),
    {
        state.report_label_use(&self.lifetime);
        EvalCall::new(Query::Len, self.lifetime.duplicate())
    }
}

/// A call whose name has been recognised.
#[derive(Debug, Clone, PartialEq, Eq)]
pub enum FunctionCall {
    Start(StartCall),
    End(EndCall),
    Len(LenCall),
}

impl FunctionCall {
    /// The question that the call puts.
    pub open spec fn query(self) -> Query {
        match self {
            FunctionCall::Start(_) => Query::Start,
            FunctionCall::End(_) => Query::End,
            FunctionCall::Len(_) => Query::Len,
        }
    }

    /// The label that the call asks about.
    pub open spec fn label(self) -> LabelView {
        match self {
            FunctionCall::Start(call) => call.lifetime@,
            FunctionCall::End(call) => call.lifetime@,
            FunctionCall::Len(call) => call.lifetime@,
        }
    }

    /// Recognises a call by its name: `start`, `end` or `len`.
    pub fn parse(name: &Ident, lifetime: &Label) -> (r: Result<FunctionCall, Error>)
        ensures
            match query_of(name@.name) {
                Some(query) => r matches Ok(func) && func.query() == query && func.label() == lifetime@,
                None => r == Err::<FunctionCall, Error>(Error::UnknownCall { site: name.site }),
            },
    {
        match query_named(name.name.as_str()) {
            Some(Query::Start) => Ok(FunctionCall::Start(StartCall { lifetime: lifetime.duplicate() })),
            Some(Query::End) => Ok(FunctionCall::End(EndCall { lifetime: lifetime.duplicate() })),
            Some(Query::Len) => Ok(FunctionCall::Len(LenCall { lifetime: lifetime.duplicate() })),
            None => Err(Error::UnknownCall { site: name.site }),
        }
    }

    pub fn process(&self, state: &mut EntryState) -> (r: EvalCall)
        requires
            old(state).wf(),
        ensures
            final(state).wf(),
            final(state)@ == old(state)@.with_use(self.label()),
            r@ == (EvalCallView { query: self.query(), label: self.label() }),
    {
        match self {
            FunctionCall::Start(start_call) => start_call.process(state),
            FunctionCall::End(end_call) => end_call.process(state),
            FunctionCall::Len(len_call) => len_call.process(state),
        }
    }
}

/// A directive as it stands in the source: a name and the number in its
/// brackets.
#[derive(Debug, Clone, PartialEq, Eq)]
pub struct DirectiveEntry {
    pub name: Ident,
    pub args: LitInt,
}

/// The mathematical form of a [`DirectiveEntry`].
pub struct DirectiveEntryView {
    pub name: IdentView,
    pub args: LitIntView,
}

impl View for DirectiveEntry {
    type V = DirectiveEntryView;

    open spec fn view(&self) -> DirectiveEntryView {
        DirectiveEntryView { name: self.name@, args: self.args@ }
    }
}

/// The state after a directive has been applied to `state`. A directive
/// whose name is unknown changes nothing.
pub open spec fn directive_entry_effect(entry: DirectiveEntryView, state: StateView) -> Outcome {
    match directive_of(entry.name, entry.args) {
        Ok(directive) => directive.effect(state),
        Err(e) => Outcome { state, result: Err(e) },
    }
}

impl StateOperation for DirectiveEntry {
    open spec fn effect(&self, state: StateView) -> Outcome {
        directive_entry_effect(self@, state)
    }

    fn apply_to(&self, state: &mut EntryState) -> (r: Result<(), Error>) {
        match Directive::parse(&self.name, &self.args) {
            Ok(directive) => directive.apply_to(state),
            Err(e) => Err(e),
        }
    }
}

/// A directive whose name has been recognised.
#[derive(Debug, Clone, PartialEq, Eq)]
pub enum Directive {
    Align(AlignDirective),
}

/// The mathematical form of a [`Directive`].
pub enum DirectiveView {
    Align { alignment: LitIntView },
}

impl View for Directive {
    type V = DirectiveView;

    open spec fn view(&self) -> DirectiveView {
        match self {
            Directive::Align(align_directive) => DirectiveView::Align {
                alignment: align_directive.alignment@,
            },
        }
    }
}

impl DirectiveView {
    pub open spec fn effect(self, state: StateView) -> Outcome {
        match self {
            DirectiveView::Align { alignment } => align_effect(alignment, state),
        }
    }
}

/// The directive that a name and a number stand for.
pub open spec fn directive_of(name: IdentView, args: LitIntView) -> Result<DirectiveView, ErrorView> {
    if name.name == "align"@ {
        Ok(DirectiveView::Align { alignment: args })
    } else {
        Err(ErrorView::UnknownDirective { site: name.site })
    }
}

impl Directive {
    /// Recognises a directive by its name: `align`.
    pub fn parse(name: &Ident, args: &LitInt) -> (r: Result<Directive, Error>)
        ensures
            outcome(r) == directive_of(name@, args@),
    {
        if str_eq(name.name.as_str(), "align") {
            Ok(Directive::Align(AlignDirective { alignment: args.duplicate() }))
        } else {
            Err(Error::UnknownDirective { site: name.site })
        }
    }
}

impl StateOperation for Directive {
    open spec fn effect(&self, state: StateView) -> Outcome {
        self@.effect(state)
    }

    fn apply_to(&self, state: &mut EntryState) -> (r: Result<(), Error>) {
        match self {
            Directive::Align(align_directive) => {
                assert(self.effect(state@) == align_directive.effect(state@));
                align_directive.apply_to(state)
            },
        }
    }
}

/// `n` is a power of two.
pub open spec fn is_power_of_two(n: nat) -> bool
    decreases n,
{
    n == 1 || (n > 1 && n % 2 == 0 && is_power_of_two(n / 2))
}

/// The least multiple of `n` that is not below `offset`.
pub open spec fn next_multiple_of(offset: nat, n: nat) -> nat {
    if offset % n == 0 {
        offset
    } else {
        (offset + n - offset % n) as nat
    }
}

/// The number of bytes from `offset` to the next multiple of `n`.
pub open spec fn align_padding(offset: nat, n: nat) -> nat {
    (next_multiple_of(offset, n) - offset) as nat
}

/// The state after an alignment to the number that `alignment` stands for:
/// zero bytes up to the next multiple of it, unless it is no power of two.
pub open spec fn align_effect(alignment: LitIntView, state: StateView) -> Outcome {
    match decimal_of_type(alignment.digits, IntType::USize) {
        Ok(n) => if is_power_of_two(n as nat) {
            Outcome { state: state.advanced(align_padding(state.offset(), n as nat)), result: Ok(()) }
        } else {
            Outcome { state, result: Err(ErrorView::InvalidAlignment { site: alignment.site }) }
        },
        Err(_) => Outcome { state, result: Err(ErrorView::InvalidAlignment { site: alignment.site }) },
    }
}

/// Whether `n` is a power of two.
pub fn power_of_two(n: usize) -> (r: bool)
    ensures
        r == is_power_of_two(n as nat),
{
    if n == 0 {
        return false;
    }
    let mut m: usize = n;
    while m % 2 == 0
        invariant
            m > 0,
            is_power_of_two(n as nat) == is_power_of_two(m as nat),
        decreases m,
    {
        m = m / 2;
    }
    m == 1
}

/// The number that the decimal digits `digits` stand for, if a `usize` holds it.
pub fn decimal_to_usize(digits: &str) -> (r: Option<usize>)
    ensures
        match decimal_of_type(digits@, IntType::USize) {
            Ok(v) => r == Some(v as usize) && v == v as usize,
            Err(_) => r is None,
        },
{
    match decimal_to_int(digits, IntType::USize) {
        Ok(v) => {
            proof {
                broadcast use layout_of_primitives;

                lemma_pow256_bounds(IntType::USize.width());
            }
            Some(v as usize)
        },
        Err(_) => None,
    }
}

/// An alignment of the offset to a multiple of a number.
#[derive(Debug, Clone, PartialEq, Eq)]
pub struct AlignDirective {
    pub alignment: LitInt,
}

impl StateOperation for AlignDirective {
    open spec fn effect(&self, state: StateView) -> Outcome {
        align_effect(self.alignment@, state)
    }

    fn apply_to(&self, state: &mut EntryState) -> (r: Result<(), Error>) {
        let alignment: usize = match decimal_to_usize(self.alignment.base10_digits()) {
            Some(n) => n,
            None => {
                assert(decimal_of_type(self.alignment@.digits, IntType::USize) is Err);
                return Err(Error::InvalidAlignment { site: self.alignment.site() });
            },
        };
        if !power_of_two(alignment) {
            return Err(Error::InvalidAlignment { site: self.alignment.site() });
        }
        let curr_offset: usize = state.curr_offset();
        let over: usize = curr_offset % alignment;
        let padding: usize = if over == 0 {
            0
        } else {
            alignment - over
        };
        state.advance_bytes(padding);
        Ok(())
    }
}

/// A call or a directive only adds to the state.
pub proof fn lemma_call_follows(call: CallEntryView, state: StateView)
    ensures
        call_effect(call, state).follows(state),
{
    lemma_extends_reflexive(state);
    match call {
        CallEntryView::CallExpr(entry) => {
            let called = entry.call_expr.processed(state);
            lemma_use_extends(state, entry.call_expr.lifetime);
            if let Ok(eval) = called.1 {
                if let Ok(primitive) = primitive_of(entry.primitive) {
                    let patch = PatchView {
                        target: state.offset(),
                        query: eval.query,
                        label: eval.label,
                        int_type: primitive.int_type,
                        order: primitive.order(state.endian_mode, state.native),
                    };
                    lemma_patch_extends(called.0, primitive.int_type.width(), patch);
                    lemma_extends_transitive(
                        state,
                        called.0,
                        called.0.advanced(primitive.int_type.width()).with_patch(patch),
                    );
                }
            }
        },
        CallEntryView::Directive(entry) => {
            if let Ok(DirectiveView::Align { alignment }) = directive_of(entry.name, entry.args) {
                if let Ok(n) = decimal_of_type(alignment.digits, IntType::USize) {
                    lemma_appended_extends(state, zeros(align_padding(state.offset(), n as nat)));
                }
            }
        },
    }
}

/// The next multiple of `n` from `offset` on is a multiple of `n`, and the
/// least that is not below `offset`.
pub proof fn lemma_next_multiple_of(offset: nat, n: nat)
    requires
        n > 0,
    ensures
        next_multiple_of(offset, n) % n == 0,
        offset <= next_multiple_of(offset, n) < offset + n,
        align_padding(offset, n) < n,
{
    let over = offset % n;
    if over != 0 {
        assert((offset + n - over) % (n as int) == 0) by (nonlinear_arith)
            requires
                over == offset % n,
                n > 0,
                over != 0,
        ;
    }
}

/// An alignment that is made twice in a row does nothing the second time.
pub proof fn lemma_align_idempotent(alignment: LitIntView, state: StateView)
    ensures
        align_effect(alignment, state).result is Ok ==> align_effect(
            alignment,
            align_effect(alignment, state).state,
        ) == align_effect(alignment, state),
{
    let once = align_effect(alignment, state);
    if once.result is Ok {
        let n = decimal_of_type(alignment.digits, IntType::USize)->Ok_0 as nat;
        assert(n > 0);
        lemma_next_multiple_of(state.offset(), n);
        assert(once.state.offset() == next_multiple_of(state.offset(), n));
        assert(align_padding(once.state.offset(), n) == 0);
        assert(once.state.data + zeros(0) =~= once.state.data);
    }
}

/// A call does not look at the labels that are defined: in two states that
/// differ only in what is defined, it writes the same bytes, puts off the same
/// write and ends the same way.
pub proof fn lemma_call_ignores_definitions(call: CallExprEntryView, one: StateView, other: StateView)
    requires
        other == (StateView { locations: other.locations, defined: other.defined, ..one }),
    ensures
        call_expr_effect(call, other).result == call_expr_effect(call, one).result,
        call_expr_effect(call, other).state == (StateView {
            locations: other.locations,
            defined: other.defined,
            ..call_expr_effect(call, one).state
        }),
{
}

} // verus!
