//! The entries of a description, and what each of them does to the state.

pub mod block;
pub mod call;
pub mod labeled;
pub mod labels;
pub mod literal;
pub mod mode_change;
pub mod repeat;
pub mod sequence;

use vstd::prelude::*;
use crate::entry::block::BlockEntry;
use crate::entry::block::block_view;
use crate::entry::call::CallEntry;
use crate::entry::call::CallEntryView;
use crate::entry::call::call_effect;
use crate::entry::call::lemma_call_follows;
use crate::entry::labeled::LabeledEntry;
use crate::entry::labeled::LabeledEntryView;
use crate::entry::labeled::labeled_effect;
use crate::entry::labeled::labeled_view;
use crate::entry::labeled::lemma_labeled_follows;
use crate::entry::literal::LiteralEntry;
use crate::entry::literal::LiteralEntryView;
use crate::entry::literal::lemma_literal_follows;
use crate::entry::literal::literal_effect;
use crate::entry::mode_change::ModeChange;
use crate::entry::mode_change::ModeChangeView;
use crate::entry::mode_change::lemma_mode_change_follows;
use crate::entry::mode_change::mode_change_effect;
use crate::entry::repeat::RepeatEntry;
use crate::entry::repeat::RepeatEntryView;
use crate::entry::repeat::lemma_repeat_follows;
use crate::entry::repeat::repeat_effect;
use crate::entry::repeat::repeat_view;
use crate::entry::sequence::entries_effect;
use crate::entry::sequence::lemma_entries_follow;
use crate::error::Error;
use crate::state::EntryState;
use crate::state::Outcome;
use crate::state::StateOperation;
use crate::state::StateView;

verus! {

/// One entry of a description.
#[derive(Debug, PartialEq, Eq)]
pub enum Entry {
    Literal(LiteralEntry),
    Block(BlockEntry),
    Labeled(LabeledEntry),
    Call(CallEntry),
    ModeChange(ModeChange),
    Repeat(RepeatEntry),
}

/// Another name for a block.
pub type SubEntry = BlockEntry;

/// Another name for a sequence.
pub type DataLitEntries = crate::entry::sequence::SequenceEntry;

/// The mathematical form of an [`Entry`]. A block and a sequence are the
/// list of their entries.
pub enum EntryView {
    Literal(LiteralEntryView),
    Block(Seq<EntryView>),
    Labeled(LabeledEntryView),
    Call(CallEntryView),
    ModeChange(ModeChangeView),
    Repeat(RepeatEntryView),
}

/// The mathematical form of `entry`.
pub open spec fn entry_view(entry: Entry) -> EntryView
    decreases entry, 0nat, 0nat,
{
    match entry {
        Entry::Literal(literal) => EntryView::Literal(literal@),
        Entry::Block(block) => EntryView::Block(block_view(block)),
        Entry::Labeled(labeled) => EntryView::Labeled(labeled_view(labeled)),
        Entry::Call(call) => EntryView::Call(call@),
        Entry::ModeChange(mode_change) => EntryView::ModeChange(mode_change@),
        Entry::Repeat(repeat) => EntryView::Repeat(repeat_view(repeat)),
    }
}

impl View for Entry {
    type V = EntryView;

    open spec fn view(&self) -> EntryView {
        entry_view(*self)
    }
}

/// The state after `entry` has been applied to `state`, and how that ended.
pub open spec fn entry_effect(entry: EntryView, state: StateView) -> Outcome
    decreases entry, 0nat, 0nat,
{
    match entry {
        EntryView::Literal(literal) => literal_effect(literal, state),
        EntryView::Block(entries) => entries_effect(entries, 0, state),
        EntryView::Labeled(labeled) => labeled_effect(labeled, state),
        EntryView::Call(call) => call_effect(call, state),
        EntryView::ModeChange(mode_change) => mode_change_effect(mode_change, state),
        EntryView::Repeat(repeat) => repeat_effect(repeat, state),
    }
}

impl StateOperation for Entry {
    open spec fn effect(&self, state: StateView) -> Outcome {
        entry_effect(self@, state)
    }

    fn apply_to(&self, state: &mut EntryState) -> (r: Result<(), Error>)
        decreases *self,
    {
        match self {
            Entry::Literal(literal) => literal.apply_to(state),
            Entry::Block(block) => block.apply_to(state),
            Entry::Labeled(labeled) => labeled.apply_to(state),
            Entry::Call(call) => call.apply_to(state),
            Entry::ModeChange(mode_change) => mode_change.apply_to(state),
            Entry::Repeat(repeat) => repeat.apply_to(state),
        }
    }
}

/// An entry only adds to the state: what was written, defined, used or put
/// off before it stays as it was.
pub proof fn lemma_entry_follows(entry: EntryView, state: StateView)
    ensures
        entry_effect(entry, state).follows(state),
    decreases entry, 0nat, 0nat,
{
    match entry {
        EntryView::Literal(literal) => lemma_literal_follows(literal, state),
        EntryView::Block(entries) => lemma_entries_follow(entries, 0, state),
        EntryView::Labeled(labeled) => lemma_labeled_follows(labeled, state),
        EntryView::Call(call) => lemma_call_follows(call, state),
        EntryView::ModeChange(mode_change) => lemma_mode_change_follows(mode_change, state),
        EntryView::Repeat(repeat) => lemma_repeat_follows(repeat, state),
    }
}

} // verus!
