//! Assembles a flat byte buffer from a description of it: literals, labelled
//! regions, calls that ask for the offsets of labels, alignment, changes of
//! byte order and repeats.
//!
//! The tokens of a description are read as a tree of entries. The entries are
//! applied one after the other to a state that holds the growing buffer. A
//! call that asks for an offset of a label keeps bytes free and puts the
//! write off; once every entry has been applied and every label that was
//! used is known to be defined, the writes are made.

pub mod entry;
pub mod error;
pub mod parse;
pub mod state;
pub mod text;
pub mod to_bytes;
pub mod token;

use vstd::prelude::*;
use crate::entry::EntryView;
use crate::entry::sequence::SequenceEntry;
use crate::entry::labels::defines;
use crate::entry::labels::entries_labels;
use crate::entry::labels::lemma_entries_define;
use crate::entry::sequence::entries_effect;
use crate::entry::sequence::lemma_entries_follow;
use crate::error::Error;
use crate::error::ErrorView;
use crate::parse::entries::parse_entries;
use crate::parse::entries::parsed;
use crate::state::EntryState;
use crate::state::StateOperation;
use crate::state::StateView;
use crate::state::lemma_call_reads_final_range;
use crate::state::lemma_missing_is_listed;
use crate::state::lemma_undefined_report_exists;
use crate::state::support::LocationMap;
use crate::state::support::RangeView;
use crate::state::support::query_value;
use crate::to_bytes::ByteOrder;
use crate::to_bytes::decode;
use crate::to_bytes::native_byte_order;
use crate::to_bytes::outcome;
use crate::token::LabelView;
use crate::token::Site;
use crate::token::Token;
use crate::token::TokenView;
use crate::token::token_views;

verus! {

/// The state after every entry of `entries` has been applied to the empty
/// state, or the failure of the first entry that fails.
pub open spec fn walked(entries: Seq<EntryView>, native: ByteOrder) -> Result<StateView, ErrorView> {
    let end = entries_effect(entries, 0, StateView::initial(native));
    match end.result {
        Ok(()) => Ok(end.state),
        Err(e) => Err(e),
    }
}

/// The buffer that `entries` describe and the ranges of their labels, on a
/// machine whose byte order is `native`. The entries are applied in order;
/// then every label that was used must have been defined; then the writes
/// that were put off are made. The first failure is what comes out.
pub open spec fn assembled(entries: Seq<EntryView>, native: ByteOrder) -> Result<
    (Seq<u8>, Map<Seq<char>, RangeView>),
    ErrorView,
> {
    match walked(entries, native) {
        Err(e) => Err(e),
        Ok(state) => match state.checked() {
            Err(e) => Err(e),
            Ok(()) => match state.resolved().1 {
                Ok(data) => Ok((data, state.locations)),
                Err(e) => Err(e),
            },
        },
    }
}

/// The buffer that `entries` describe; see [`assembled`].
pub open spec fn generated(entries: Seq<EntryView>, native: ByteOrder) -> Result<Seq<u8>, ErrorView> {
    match assembled(entries, native) {
        Ok(parts) => Ok(parts.0),
        Err(e) => Err(e),
    }
}

/// Every entry can be applied, and one of them uses the label `name`, which
/// none of them defines.
pub open spec fn uses_undefined(entries: Seq<EntryView>, native: ByteOrder, name: Seq<char>) -> bool {
    walked(entries, native) matches Ok(state) && state.missing(name)
}

/// The failure `e` lists the label `name` as used and not defined, with
/// `site` as the site of its first use.
pub open spec fn lists_undefined(e: ErrorView, name: Seq<char>, site: Site) -> bool {
    e matches ErrorView::UndefinedLabels { uses } && uses.contains(LabelView { name, site })
}

/// Assembles the buffer that `entries` describe, and gives it with the
/// ranges of the labels; `native` is the byte order of the machine that the
/// buffer is for.
pub fn assemble(entries: &SequenceEntry, native: ByteOrder) -> (r: Result<(Vec<u8>, LocationMap), Error>)
    ensures
        outcome(r) == assembled(entries@, native),
{
    let mut state = EntryState::with_native(native);
    match entries.apply_to(&mut state) {
        Ok(()) => {},
        Err(e) => {
            return Err(e);
        },
    }
    match state.check() {
        Ok(()) => {},
        Err(e) => {
            return Err(e);
        },
    }
    proof {
        lemma_walked_is_well_formed(entries@, native);
    }
    match state.generate_data() {
        Ok(data) => {
            let parts = state.into_parts();
            Ok((data, parts.1))
        },
        Err(e) => Err(e),
    }
}

/// The buffer that the tokens of a description stand for, on a machine whose
/// byte order is `native`: the tokens are read as entries, and the entries
/// are assembled.
pub open spec fn generated_from(input: Seq<TokenView>, native: ByteOrder) -> Result<Seq<u8>, ErrorView> {
    match parsed(input) {
        Ok(entries) => generated(entries, native),
        Err(e) => Err(e),
    }
}

/// Reads a description and assembles the buffer that it describes, for a
/// machine whose byte order is `native`.
pub fn generate_data_for(input: &Vec<Token>, native: ByteOrder) -> (r: Result<Vec<u8>, Error>)
    ensures
        outcome(r) == generated_from(token_views(input@), native),
{
    let entries: SequenceEntry = match parse_entries(input) {
        Ok(entries) => entries,
        Err(e) => {
            return Err(e);
        },
    };
    match assemble(&entries, native) {
        Ok(parts) => Ok(parts.0),
        Err(e) => Err(e),
    }
}

/// Reads a description and assembles the buffer that it describes, for the
/// machine that this runs on.
pub fn generate_data(input: &Vec<Token>) -> (r: Result<Vec<u8>, Error>)
    ensures
        outcome(r) == generated_from(token_views(input@), ByteOrder::Little) || outcome(r)
            == generated_from(token_views(input@), ByteOrder::Big),
{
    generate_data_for(input, native_byte_order())
}

/// The empty state is well formed, and so is every state that entries lead
/// to from it.
pub proof fn lemma_walked_is_well_formed(entries: Seq<EntryView>, native: ByteOrder)
    ensures
        StateView::initial(native).well_formed(),
        walked(entries, native) matches Ok(state) ==> state.well_formed(),
{
    let initial = StateView::initial(native);
    assert(initial.locations.dom() =~= initial.defined.dom());
    lemma_entries_follow(entries, 0, initial);
}

/// Entries that can all be applied define no label twice, wherever in the
/// description the definitions stand and however often a repeat applies
/// them; the labels that have a range in the end are those that the entries
/// define.
pub proof fn lemma_labels_defined_once(entries: Seq<EntryView>, native: ByteOrder)
    requires
        walked(entries, native) is Ok,
    ensures
        defines(entries_labels(entries, 0), StateView::initial(native), walked(entries, native)->Ok_0),
{
    lemma_walked_is_well_formed(entries, native);
    lemma_entries_define(entries, 0, StateView::initial(native));
}

/// A label that is used anywhere among the entries and defined nowhere
/// makes the whole fail, whatever stands before and behind the use: the
/// failure lists the label with the site of its first use.
pub proof fn lemma_undefined_label_fails(entries: Seq<EntryView>, native: ByteOrder, name: Seq<char>)
    requires
        uses_undefined(entries, native, name),
    ensures
        generated(entries, native) matches Err(e) && lists_undefined(
            e,
            name,
            walked(entries, native)->Ok_0.used[name],
        ),
{
    let state = walked(entries, native)->Ok_0;
    lemma_walked_is_well_formed(entries, native);
    lemma_undefined_report_exists(state);
    let uses = state.undefined_report();
    lemma_missing_is_listed(state, uses, name);
    let i = choose|i: int|
        0 <= i < uses.len() && #[trigger] uses[i] == (LabelView { name, site: state.used[name] });
    assert(uses[i] == (LabelView { name, site: state.used[name] }));
}

/// In the buffer that entries describe, each call has left the number that
/// it asked of the range of its label, read back as a value of its type:
/// the start, the end, or the end less the start.
pub proof fn lemma_calls_in_generated(entries: Seq<EntryView>, native: ByteOrder, i: int)
    requires
        generated(entries, native) is Ok,
        walked(entries, native) matches Ok(state) && 0 <= i < state.patches.len(),
    ensures
        ({
            let state = walked(entries, native)->Ok_0;
            let data = generated(entries, native)->Ok_0;
            let patch = state.patches[i];
            let range = state.locations[patch.label.name];
            &&& state.locations.contains_key(patch.label.name)
            &&& patch.end() <= data.len()
            &&& decode(patch.int_type, patch.order, data.subrange(patch.target as int, patch.end() as int))
                == query_value(patch.query, range)
        }),
{
    let state = walked(entries, native)->Ok_0;
    lemma_walked_is_well_formed(entries, native);
    lemma_call_reads_final_range(state, i);
}

} // verus!
