//! Blocks: sequences of entries between braces.

use vstd::prelude::*;
use crate::entry::EntryView;
use crate::entry::sequence::SequenceEntry;
use crate::entry::sequence::entries_effect;
use crate::entry::sequence::sequence_view;
use crate::error::Error;
use crate::state::EntryState;
use crate::state::Outcome;
use crate::state::StateOperation;
use crate::state::StateView;

verus! {

/// A sequence of entries between braces. The braces group and do no more:
/// labels and changes of mode inside hold outside as well.
#[derive(Debug, PartialEq, Eq)]
pub struct BlockEntry {
    pub entries: SequenceEntry,
}

/// The mathematical form of `block`: the list of the forms of its entries.
pub open spec fn block_view(block: BlockEntry) -> Seq<EntryView>
    decreases block, 0nat, 0nat,
{
    sequence_view(block.entries)
}

impl View for BlockEntry {
    type V = Seq<EntryView>;

    open spec fn view(&self) -> Seq<EntryView> {
        block_view(*self)
    }
}

impl StateOperation for BlockEntry {
    open spec fn effect(&self, state: StateView) -> Outcome {
        entries_effect(self@, 0, state)
    }

    fn apply_to(&self, state: &mut EntryState) -> (r: Result<(), Error>)
        decreases *self,
    {
        self.entries.apply_to(state)
    }
}

} // verus!
