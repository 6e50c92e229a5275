//! Labelled entries: an entry whose bytes get a name.

use vstd::prelude::*;
use crate::entry::Entry;
use crate::entry::EntryView;
use crate::entry::entry_effect;
use crate::entry::entry_view;
use crate::entry::lemma_entry_follows;
use crate::error::Error;
use crate::error::ErrorView;
use crate::state::EntryState;
use crate::state::Outcome;
use crate::state::StateOperation;
use crate::state::StateView;
use crate::state::lemma_definition_extends;
use crate::state::support::RangeView;
use crate::token::Label;
use crate::token::LabelView;

verus! {

/// An entry with a label in front of it.
#[derive(Debug, PartialEq, Eq)]
pub struct LabeledEntry {
    pub label: Label,
    pub sub_entry: Box<Entry>,
}

/// The mathematical form of a [`LabeledEntry`].
pub struct LabeledEntryView {
    pub label: LabelView,
    pub sub_entry: Box<EntryView>,
}

/// The mathematical form of `labeled`.
pub open spec fn labeled_view(labeled: LabeledEntry) -> LabeledEntryView
    decreases labeled, 0nat, 0nat,
{
    LabeledEntryView { label: labeled.label@, sub_entry: Box::new(entry_view(*labeled.sub_entry)) }
}

impl View for LabeledEntry {
    type V = LabeledEntryView;

    open spec fn view(&self) -> LabeledEntryView {
        labeled_view(*self)
    }
}

/// The state after `labeled` has been applied to `state`: the entry behind
/// the label is applied, and the label is then defined as the bytes that
/// this put behind the buffer.
pub open spec fn labeled_effect(labeled: LabeledEntryView, state: StateView) -> Outcome
    decreases labeled, 0nat, 0nat,
{
    let inner = entry_effect(*labeled.sub_entry, state);
    if inner.result is Err {
        inner
    } else {
        inner.state.with_definition(labeled.label, state.offset(), inner.state.offset())
    }
}

impl StateOperation for LabeledEntry {
    open spec fn effect(&self, state: StateView) -> Outcome {
        labeled_effect(self@, state)
    }

    fn apply_to(&self, state: &mut EntryState) -> (r: Result<(), Error>)
        decreases *self,
    {
        let start: usize = state.curr_offset();
        proof {
            state.lemma_wf();
            lemma_entry_follows(self.sub_entry@, state@);
        }
        match self.sub_entry.apply_to(state) {
            Ok(()) => {},
            Err(e) => {
                return Err(e);
            },
        }
        let end: usize = state.curr_offset();
        state.report_label_def(&self.label, start, end)
    }
}

/// A labelled entry only adds to the state; a label that it defines names
/// the bytes that its entry wrote, from the offset before it to the offset
/// behind it.
pub proof fn lemma_labeled_follows(labeled: LabeledEntryView, state: StateView)
    ensures
        labeled_effect(labeled, state).follows(state),
        state.consistent() && labeled_effect(labeled, state).result is Ok ==> {
            let after = labeled_effect(labeled, state).state;
            let inner = entry_effect(*labeled.sub_entry, state).state;
            &&& !inner.defined.contains_key(labeled.label.name)
            &&& after.defined[labeled.label.name] == labeled.label.site
            &&& after.locations[labeled.label.name] == (RangeView {
                start: state.offset(),
                end: inner.offset(),
            })
            &&& state.offset() <= inner.offset() == after.offset()
        },
    decreases labeled, 0nat, 0nat,
{
    let inner = entry_effect(*labeled.sub_entry, state);
    lemma_entry_follows(*labeled.sub_entry, state);
    if inner.result is Ok && state.consistent() {
        lemma_definition_extends(inner.state, labeled.label, state.offset(), inner.state.offset());
    }
}

/// A labelled entry whose label is defined already fails once its entry has
/// been applied: the failure names the site of this label and the site of the
/// first definition, and the first definition stays as it was.
pub proof fn lemma_labeled_twice_fails(labeled: LabeledEntryView, state: StateView)
    requires
        state.consistent(),
        state.defined.contains_key(labeled.label.name),
        entry_effect(*labeled.sub_entry, state).result is Ok,
    ensures
        labeled_effect(labeled, state).result == Err::<(), ErrorView>(
            ErrorView::DuplicateLabel {
                label: labeled.label.name,
                site: labeled.label.site,
                original: state.defined[labeled.label.name],
            },
        ),
        labeled_effect(labeled, state).state == entry_effect(*labeled.sub_entry, state).state,
        labeled_effect(labeled, state).state.locations[labeled.label.name]
            == state.locations[labeled.label.name],
{
    lemma_entry_follows(*labeled.sub_entry, state);
    assert(state.locations.dom().contains(labeled.label.name));
}

} // verus!
