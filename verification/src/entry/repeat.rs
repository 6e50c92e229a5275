//! Repeats: a block or a literal that is applied a number of times.

use vstd::prelude::*;
use crate::entry::EntryView;
use crate::entry::block::BlockEntry;
use crate::entry::block::block_view;
use crate::entry::call::decimal_to_usize;
use crate::entry::literal::LiteralEntry;
use crate::entry::literal::LiteralEntryView;
use crate::entry::literal::lemma_literal_follows;
use crate::entry::literal::literal_effect;
use crate::entry::sequence::entries_effect;
use crate::entry::sequence::lemma_entries_follow;
use crate::error::Error;
use crate::error::ErrorView;
use crate::state::EntryState;
use crate::state::Outcome;
use crate::state::StateOperation;
use crate::state::StateView;
use crate::state::lemma_extends_reflexive;
use crate::state::lemma_extends_transitive;
use crate::to_bytes::IntType;
use crate::to_bytes::decimal_of_type;
use crate::token::LitInt;
use crate::token::LitIntView;

verus! {

/// What a repeat repeats.
#[derive(Debug, PartialEq, Eq)]
pub enum Contents {
    Braced(BlockEntry),
    SingleLiteral(LiteralEntry),
}

/// The mathematical form of [`Contents`].
pub enum ContentsView {
    Braced(Seq<EntryView>),
    SingleLiteral(LiteralEntryView),
}

/// The mathematical form of `contents`.
pub open spec fn contents_view(contents: Contents) -> ContentsView
    decreases contents, 0nat, 0nat,
{
    match contents {
        Contents::Braced(block) => ContentsView::Braced(block_view(block)),
        Contents::SingleLiteral(literal) => ContentsView::SingleLiteral(literal@),
    }
}

impl View for Contents {
    type V = ContentsView;

    open spec fn view(&self) -> ContentsView {
        contents_view(*self)
    }
}

/// The state after `contents` have been applied to `state` once.
pub open spec fn contents_effect(contents: ContentsView, state: StateView) -> Outcome
    decreases contents, 0nat, 0nat,
{
    match contents {
        ContentsView::Braced(entries) => entries_effect(entries, 0, state),
        ContentsView::SingleLiteral(literal) => literal_effect(literal, state),
    }
}

/// The state after `contents` have been applied to `state` `count` times,
/// or up to the first time that fails.
pub open spec fn repeated_effect(contents: ContentsView, count: nat, state: StateView) -> Outcome
    decreases contents, 1nat, count,
{
    if count == 0 {
        Outcome { state, result: Ok(()) }
    } else {
        let first = contents_effect(contents, state);
        if first.result is Err {
            first
        } else {
            repeated_effect(contents, (count - 1) as nat, first.state)
        }
    }
}

impl StateOperation for Contents {
    open spec fn effect(&self, state: StateView) -> Outcome {
        contents_effect(self@, state)
    }

    fn apply_to(&self, state: &mut EntryState) -> (r: Result<(), Error>)
        decreases *self,
    {
        match self {
            Contents::Braced(seq) => seq.apply_to(state),
            Contents::SingleLiteral(lit) => lit.apply_to(state),
        }
    }
}

/// A repeat: its contents and the number of times that they are applied.
#[derive(Debug, PartialEq, Eq)]
pub struct RepeatEntry {
    pub contents: Contents,
    pub count: LitInt,
}

/// The mathematical form of a [`RepeatEntry`].
pub struct RepeatEntryView {
    pub contents: ContentsView,
    pub count: LitIntView,
}

/// The mathematical form of `repeat`.
pub open spec fn repeat_view(repeat: RepeatEntry) -> RepeatEntryView
    decreases repeat, 0nat, 0nat,
{
    RepeatEntryView { contents: contents_view(repeat.contents), count: repeat.count@ }
}

impl View for RepeatEntry {
    type V = RepeatEntryView;

    open spec fn view(&self) -> RepeatEntryView {
        repeat_view(*self)
    }
}

/// The state after `repeat` has been applied to `state`. The count is a
/// number without a suffix that a `usize` holds. The labels count as inside
/// a repeat while the contents are applied, and afterwards as they did
/// before; a time that fails leaves them inside. What the contents define
/// and change holds for every later time and behind the repeat.
pub open spec fn repeat_effect(repeat: RepeatEntryView, state: StateView) -> Outcome
    decreases repeat, 0nat, 0nat,
{
    if repeat.count.suffix.len() > 0 {
        Outcome { state, result: Err(ErrorView::InvalidRepeatCount { site: repeat.count.site }) }
    } else {
        match decimal_of_type(repeat.count.digits, IntType::USize) {
            Ok(count) => {
                let done = repeated_effect(repeat.contents, count as nat, state.with_frozen(true));
                if done.result is Err {
                    done
                } else {
                    Outcome { state: done.state.with_frozen(state.frozen), result: Ok(()) }
                }
            },
            Err(_) => Outcome { state, result: Err(ErrorView::InvalidRepeatCount { site: repeat.count.site }) },
        }
    }
}

impl StateOperation for RepeatEntry {
    open spec fn effect(&self, state: StateView) -> Outcome {
        repeat_effect(self@, state)
    }

    #[verifier::loop_isolation(false)]
    fn apply_to(&self, state: &mut EntryState) -> (r: Result<(), Error>)
        decreases *self,
    {
        if !self.count.suffix().is_empty() {
            return Err(Error::InvalidRepeatCount { site: self.count.site() });
        }
        let count: usize = match decimal_to_usize(self.count.base10_digits()) {
            Some(count) => count,
            None => {
                assert(decimal_of_type(self.count@.digits, IntType::USize) is Err);
                return Err(Error::InvalidRepeatCount { site: self.count.site() });
            },
        };
        let before: bool = state.freeze_label_context();
        let mut i: usize = 0;
        while i < count
            invariant
                i <= count,
                state.wf(),
                repeated_effect(self.contents@, count as nat, old(state)@.with_frozen(true))
                    == repeated_effect(self.contents@, (count - i) as nat, state@),
            decreases count - i,
        {
            match self.contents.apply_to(state) {
                Ok(()) => {},
                Err(e) => {
                    return Err(e);
                },
            }
            i += 1;
        }
        state.unfreeze_label_context(before);
        Ok(())
    }
}

/// The contents of a repeat only add to the state.
pub proof fn lemma_contents_follow(contents: ContentsView, state: StateView)
    ensures
        contents_effect(contents, state).follows(state),
    decreases contents, 0nat, 0nat,
{
    match contents {
        ContentsView::Braced(entries) => lemma_entries_follow(entries, 0, state),
        ContentsView::SingleLiteral(literal) => lemma_literal_follows(literal, state),
    }
}

/// Contents that are applied a number of times only add to the state.
pub proof fn lemma_repeated_follows(contents: ContentsView, count: nat, state: StateView)
    ensures
        repeated_effect(contents, count, state).follows(state),
    decreases contents, 1nat, count,
{
    if count == 0 {
        lemma_extends_reflexive(state);
    } else {
        let first = contents_effect(contents, state);
        lemma_contents_follow(contents, state);
        if first.result is Ok && state.consistent() {
            lemma_repeated_follows(contents, (count - 1) as nat, first.state);
            lemma_extends_transitive(
                state,
                first.state,
                repeated_effect(contents, (count - 1) as nat, first.state).state,
            );
        }
    }
}

/// A repeat only adds to the state.
pub proof fn lemma_repeat_follows(repeat: RepeatEntryView, state: StateView)
    ensures
        repeat_effect(repeat, state).follows(state),
    decreases repeat, 0nat, 0nat,
{
    lemma_extends_reflexive(state);
    if repeat.count.suffix.len() == 0 {
        if let Ok(count) = decimal_of_type(repeat.count.digits, IntType::USize) {
            lemma_repeated_follows(repeat.contents, count as nat, state.with_frozen(true));
            if state.consistent() {
                lemma_extends_transitive(
                    state,
                    state.with_frozen(true),
                    repeated_effect(repeat.contents, count as nat, state.with_frozen(true)).state,
                );
                lemma_extends_transitive(
                    state,
                    repeated_effect(repeat.contents, count as nat, state.with_frozen(true)).state,
                    repeat_effect(repeat, state).state,
                );
            }
        }
    }
}

} // verus!
