//! Sequences of entries.

use vstd::prelude::*;
use crate::entry::Entry;
use crate::entry::EntryView;
use crate::entry::entry_effect;
use crate::entry::entry_view;
use crate::entry::lemma_entry_follows;
use crate::error::Error;
use crate::state::EntryState;
use crate::state::Outcome;
use crate::state::StateOperation;
use crate::state::StateView;
use crate::state::lemma_extends_reflexive;
use crate::state::lemma_extends_transitive;

verus! {

/// Entries that are applied one after the other.
#[derive(Debug, PartialEq, Eq)]
pub struct SequenceEntry {
    pub entries: Vec<Entry>,
}

/// The mathematical forms of the first `upto` entries of `entries`.
pub open spec fn entries_view(entries: Seq<Entry>, upto: nat) -> Seq<EntryView>
    decreases entries, 1nat, upto,
{
    if upto == 0 || upto > entries.len() {
        Seq::empty()
    } else {
        entries_view(entries, (upto - 1) as nat).push(entry_view(entries[upto - 1]))
    }
}

/// The mathematical form of `sequence`: the list of the forms of its entries.
pub open spec fn sequence_view(sequence: SequenceEntry) -> Seq<EntryView>
    decreases sequence, 0nat, 0nat,
{
    entries_view(sequence.entries@, sequence.entries@.len())
}

impl View for SequenceEntry {
    type V = Seq<EntryView>;

    open spec fn view(&self) -> Seq<EntryView> {
        sequence_view(*self)
    }
}

/// The form of a list of entries has the form of each entry at its place.
pub proof fn lemma_entries_view(entries: Seq<Entry>, upto: nat)
    requires
        upto <= entries.len(),
    ensures
        entries_view(entries, upto).len() == upto,
        forall|i: int| 0 <= i < upto ==> #[trigger] entries_view(entries, upto)[i] == entry_view(entries[i]),
    decreases upto,
{
    if upto > 0 {
        lemma_entries_view(entries, (upto - 1) as nat);
    }
}

/// The state after the entries of `entries` from the index `from` on have
/// been applied to `state`, one after the other and up to the first that
/// fails.
pub open spec fn entries_effect(entries: Seq<EntryView>, from: nat, state: StateView) -> Outcome
    decreases entries, 1nat, entries.len() - from,
{
    if from >= entries.len() {
        Outcome { state, result: Ok(()) }
    } else {
        let first = entry_effect(entries[from as int], state);
        if first.result is Err {
            first
        } else {
            entries_effect(entries, from + 1, first.state)
        }
    }
}

impl StateOperation for SequenceEntry {
    open spec fn effect(&self, state: StateView) -> Outcome {
        entries_effect(self@, 0, state)
    }

    #[verifier::loop_isolation(false)]
    fn apply_to(&self, state: &mut EntryState) -> (r: Result<(), Error>)
        decreases *self,
    {
        proof {
            lemma_entries_view(self.entries@, self.entries@.len());
        }
        let mut i: usize = 0;
        while i < self.entries.len()
            invariant
                i <= self.entries.len(),
                state.wf(),
                entries_effect(self@, 0, old(state)@) == entries_effect(self@, i as nat, state@),
            decreases self.entries.len() - i,
        {
            assert(self@[i as int] == self.entries@[i as int]@);
            match self.entries[i].apply_to(state) {
                Ok(()) => {},
                Err(e) => {
                    return Err(e);
                },
            }
            i += 1;
        }
        Ok(())
    }
}

/// The entries of a list only add to the state.
pub proof fn lemma_entries_follow(entries: Seq<EntryView>, from: nat, state: StateView)
    ensures
        entries_effect(entries, from, state).follows(state),
    decreases entries, 1nat, entries.len() - from,
{
    if from >= entries.len() {
        lemma_extends_reflexive(state);
    } else {
        let first = entry_effect(entries[from as int], state);
        lemma_entry_follows(entries[from as int], state);
        if first.result is Ok && state.consistent() {
            lemma_entries_follow(entries, from + 1, first.state);
            lemma_extends_transitive(state, first.state, entries_effect(entries, from + 1, first.state).state);
        }
    }
}

/// The form of a list with one more entry behind it is the form of the list
/// with the form of the entry behind it.
pub proof fn lemma_entries_view_push(entries: Seq<Entry>, entry: Entry)
    ensures
        entries_view(entries.push(entry), entries.len() + 1) == entries_view(entries, entries.len()).push(
            entry_view(entry),
        ),
{
    let longer = entries.push(entry);
    lemma_entries_view(longer, entries.len());
    lemma_entries_view(entries, entries.len());
    assert(entries_view(longer, entries.len()) =~= entries_view(entries, entries.len())) by {
        assert forall|i: int| 0 <= i < entries.len() implies entries_view(longer, entries.len())[i]
            == entries_view(entries, entries.len())[i] by {
            assert(longer[i] == entries[i]);
        }
    }
}

} // verus!
