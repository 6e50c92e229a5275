//! The labels that entries define. Every definition counts: an entry that
//! stands in a repeat defines its labels as many times as the repeat applies
//! it. Since a label can be defined once only, entries that can all be
//! applied define no label twice.

use vstd::prelude::*;
use crate::entry::call::call_effect;
use crate::entry::call::CallEntryView;
use crate::entry::entry_effect;
use crate::entry::labeled::labeled_effect;
use crate::entry::labeled::LabeledEntryView;
use crate::entry::lemma_entry_follows;
use crate::entry::literal::literal_effect;
use crate::entry::literal::LiteralEntryView;
use crate::entry::mode_change::mode_change_effect;
use crate::entry::mode_change::ModeChangeView;
use crate::entry::repeat::contents_effect;
use crate::entry::repeat::lemma_contents_follow;
use crate::entry::repeat::repeat_effect;
use crate::entry::repeat::repeated_effect;
use crate::entry::repeat::ContentsView;
use crate::entry::repeat::RepeatEntryView;
use crate::entry::sequence::entries_effect;
use crate::entry::EntryView;
use crate::state::StateView;
use crate::to_bytes::decimal_of_type;
use crate::to_bytes::IntType;

verus! {

/// The names of the labels that `entry` defines, one for each definition
/// and in the order of the definitions.
pub open spec fn entry_labels(entry: EntryView) -> Seq<Seq<char>>
    decreases entry, 0nat, 0nat,
{
    match entry {
        EntryView::Literal(_) => Seq::empty(),
        EntryView::Block(entries) => entries_labels(entries, 0),
        EntryView::Labeled(labeled) => entry_labels(*labeled.sub_entry).push(labeled.label.name),
        EntryView::Call(_) => Seq::empty(),
        EntryView::ModeChange(_) => Seq::empty(),
        EntryView::Repeat(repeat) => match decimal_of_type(repeat.count.digits, IntType::USize) {
            Ok(count) => repeated_labels(repeat.contents, count as nat),
            Err(_) => Seq::empty(),
        },
    }
}

/// The names of the labels that the entries of `entries` from the index
/// `from` on define.
pub open spec fn entries_labels(entries: Seq<EntryView>, from: nat) -> Seq<Seq<char>>
    decreases entries, 1nat, entries.len() - from,
{
    if from >= entries.len() {
        Seq::empty()
    } else {
        entry_labels(entries[from as int]) + entries_labels(entries, from + 1)
    }
}

/// The names of the labels that `contents` define when they are applied once.
pub open spec fn contents_labels(contents: ContentsView) -> Seq<Seq<char>>
    decreases contents, 0nat, 0nat,
{
    match contents {
        ContentsView::Braced(entries) => entries_labels(entries, 0),
        ContentsView::SingleLiteral(_) => Seq::empty(),
    }
}

/// The names of the labels that `contents` define when they are applied
/// `count` times.
pub open spec fn repeated_labels(contents: ContentsView, count: nat) -> Seq<Seq<char>>
    decreases contents, 1nat, count,
{
    if count == 0 {
        Seq::empty()
    } else {
        contents_labels(contents) + repeated_labels(contents, (count - 1) as nat)
    }
}

/// The definitions `labels` lead from the state `before` to the state
/// `after`: no name stands twice among them, none was defined before, and
/// the labels that are defined afterwards are those that were and these.
pub open spec fn defines(labels: Seq<Seq<char>>, before: StateView, after: StateView) -> bool {
    &&& forall|i: int, j: int| 0 <= i < j < labels.len() ==> #[trigger] labels[i] != #[trigger] labels[j]
    &&& forall|i: int| 0 <= i < labels.len() ==> !before.defined.contains_key(#[trigger] labels[i])
    &&& forall|name: Seq<char>| #[trigger]
        after.defined.contains_key(name) <==> before.defined.contains_key(name) || labels.contains(name)
}

/// Definitions that lead from one state to a second, and definitions that
/// lead from the second to a third, lead together from the first to the
/// third.
proof fn lemma_defines_both(
    first: Seq<Seq<char>>,
    second: Seq<Seq<char>>,
    a: StateView,
    b: StateView,
    c: StateView,
)
    requires
        defines(first, a, b),
        defines(second, b, c),
    ensures
        defines(first + second, a, c),
{
    let both = first + second;
    assert forall|i: int, j: int| 0 <= i < j < both.len() implies #[trigger] both[i] != #[trigger] both[j] by {
        if i < first.len() && j >= first.len() {
            assert(first.contains(first[i]));
            assert(b.defined.contains_key(first[i]));
            assert(!b.defined.contains_key(second[j - first.len()]));
        } else if j < first.len() {
            assert(first[i] != first[j]);
        } else {
            assert(second[i - first.len()] != second[j - first.len()]);
        }
    }
    assert forall|i: int| 0 <= i < both.len() implies !a.defined.contains_key(#[trigger] both[i]) by {
        if i >= first.len() {
            assert(!b.defined.contains_key(second[i - first.len()]));
        } else {
            assert(!a.defined.contains_key(first[i]));
        }
    }
    assert forall|name: Seq<char>| #[trigger]
        c.defined.contains_key(name) <==> a.defined.contains_key(name) || both.contains(name) by {
        if first.contains(name) {
            let i = choose|i: int| 0 <= i < first.len() && first[i] == name;
            assert(both[i] == name);
        }
        if second.contains(name) {
            let i = choose|i: int| 0 <= i < second.len() && second[i] == name;
            assert(both[first.len() + i] == name);
        }
        if both.contains(name) {
            let i = choose|i: int| 0 <= i < both.len() && both[i] == name;
            if i < first.len() {
                assert(first[i] == name);
            } else {
                assert(second[i - first.len()] == name);
            }
        }
    }
}

/// No definitions lead from a state to a state in which the same labels
/// are defined.
proof fn lemma_defines_none(before: StateView, after: StateView)
    requires
        after.defined == before.defined,
    ensures
        defines(Seq::empty(), before, after),
{
}

/// An entry that can be applied defines no label twice and none that was
/// defined before it; the labels that are defined behind it are those that
/// were and those that it defines.
pub proof fn lemma_entry_defines(entry: EntryView, state: StateView)
    requires
        state.consistent(),
        entry_effect(entry, state).result is Ok,
    ensures
        defines(entry_labels(entry), state, entry_effect(entry, state).state),
    decreases entry, 0nat, 0nat,
{
    match entry {
        EntryView::Literal(literal) => {
            lemma_literal_defines(literal, state);
        },
        EntryView::Block(entries) => {
            lemma_entries_define(entries, 0, state);
        },
        EntryView::Labeled(labeled) => {
            lemma_labeled_defines(labeled, state);
        },
        EntryView::Call(call) => {
            lemma_call_defines(call, state);
        },
        EntryView::ModeChange(mode_change) => {
            lemma_mode_change_defines(mode_change, state);
        },
        EntryView::Repeat(repeat) => {
            lemma_repeat_defines(repeat, state);
        },
    }
}

proof fn lemma_literal_defines(literal: LiteralEntryView, state: StateView)
    ensures
        defines(Seq::empty(), state, literal_effect(literal, state).state),
{
    lemma_defines_none(state, literal_effect(literal, state).state);
}

proof fn lemma_call_defines(call: CallEntryView, state: StateView)
    ensures
        defines(Seq::empty(), state, call_effect(call, state).state),
{
    lemma_defines_none(state, call_effect(call, state).state);
}

proof fn lemma_mode_change_defines(mode_change: ModeChangeView, state: StateView)
    ensures
        defines(Seq::empty(), state, mode_change_effect(mode_change, state).state),
{
    lemma_defines_none(state, mode_change_effect(mode_change, state).state);
}

proof fn lemma_labeled_defines(labeled: LabeledEntryView, state: StateView)
    requires
        state.consistent(),
        labeled_effect(labeled, state).result is Ok,
    ensures
        defines(entry_labels(EntryView::Labeled(labeled)), state, labeled_effect(labeled, state).state),
    decreases labeled, 0nat, 0nat,
{
    let inner = entry_effect(*labeled.sub_entry, state).state;
    let after = labeled_effect(labeled, state).state;
    let name = labeled.label.name;
    lemma_entry_defines(*labeled.sub_entry, state);
    lemma_entry_follows(*labeled.sub_entry, state);
    let last = seq![name];
    assert(defines(last, inner, after)) by {
        assert forall|other: Seq<char>| #[trigger]
            after.defined.contains_key(other) <==> inner.defined.contains_key(other) || last.contains(
                other,
            ) by {
            if other == name {
                assert(last[0] == name);
            }
        }
    }
    lemma_defines_both(entry_labels(*labeled.sub_entry), last, state, inner, after);
    assert(entry_labels(*labeled.sub_entry) + last =~= entry_labels(*labeled.sub_entry).push(name));
}

/// Entries that can all be applied define no label twice.
pub proof fn lemma_entries_define(entries: Seq<EntryView>, from: nat, state: StateView)
    requires
        state.consistent(),
        entries_effect(entries, from, state).result is Ok,
    ensures
        defines(entries_labels(entries, from), state, entries_effect(entries, from, state).state),
    decreases entries, 1nat, entries.len() - from,
{
    if from >= entries.len() {
        lemma_defines_none(state, state);
    } else {
        let first = entry_effect(entries[from as int], state);
        lemma_entry_defines(entries[from as int], state);
        lemma_entry_follows(entries[from as int], state);
        lemma_entries_define(entries, from + 1, first.state);
        lemma_defines_both(
            entry_labels(entries[from as int]),
            entries_labels(entries, from + 1),
            state,
            first.state,
            entries_effect(entries, from, state).state,
        );
    }
}

proof fn lemma_contents_define(contents: ContentsView, state: StateView)
    requires
        state.consistent(),
        contents_effect(contents, state).result is Ok,
    ensures
        defines(contents_labels(contents), state, contents_effect(contents, state).state),
    decreases contents, 0nat, 0nat,
{
    match contents {
        ContentsView::Braced(entries) => lemma_entries_define(entries, 0, state),
        ContentsView::SingleLiteral(literal) => lemma_literal_defines(literal, state),
    }
}

/// Contents that can be applied a number of times define no label twice:
/// where they define a label at all, they can be applied once at the most.
pub proof fn lemma_repeated_defines(contents: ContentsView, count: nat, state: StateView)
    requires
        state.consistent(),
        repeated_effect(contents, count, state).result is Ok,
    ensures
        defines(repeated_labels(contents, count), state, repeated_effect(contents, count, state).state),
        count >= 2 ==> contents_labels(contents).len() == 0,
    decreases contents, 1nat, count,
{
    if count == 0 {
        lemma_defines_none(state, state);
    } else {
        let first = contents_effect(contents, state);
        lemma_contents_define(contents, state);
        lemma_contents_follow(contents, state);
        lemma_repeated_defines(contents, (count - 1) as nat, first.state);
        lemma_defines_both(
            contents_labels(contents),
            repeated_labels(contents, (count - 1) as nat),
            state,
            first.state,
            repeated_effect(contents, count, state).state,
        );
        if count >= 2 && contents_labels(contents).len() > 0 {
            let labels = repeated_labels(contents, count);
            let once = contents_labels(contents);
            assert(repeated_labels(contents, (count - 1) as nat) == once + repeated_labels(
                contents,
                (count - 2) as nat,
            ));
            assert(labels[0] == once[0]);
            assert(labels[once.len() as int] == once[0]);
        }
    }
}

proof fn lemma_repeat_defines(repeat: RepeatEntryView, state: StateView)
    requires
        state.consistent(),
        repeat_effect(repeat, state).result is Ok,
    ensures
        defines(entry_labels(EntryView::Repeat(repeat)), state, repeat_effect(repeat, state).state),
    decreases repeat, 0nat, 0nat,
{
    let count = decimal_of_type(repeat.count.digits, IntType::USize)->Ok_0 as nat;
    let frozen = state.with_frozen(true);
    let done = repeated_effect(repeat.contents, count, frozen).state;
    lemma_repeated_defines(repeat.contents, count, frozen);
    let labels = repeated_labels(repeat.contents, count);
    assert(defines(labels, state, repeat_effect(repeat, state).state)) by {
        assert forall|name: Seq<char>| #[trigger]
            done.with_frozen(state.frozen).defined.contains_key(name) <==> state.defined.contains_key(name)
                || labels.contains(name) by {
            assert(done.defined.contains_key(name) <==> frozen.defined.contains_key(name) || labels.contains(
                name,
            ));
        }
        assert forall|i: int| 0 <= i < labels.len() implies !state.defined.contains_key(
            #[trigger] labels[i],
        ) by {
            assert(!frozen.defined.contains_key(labels[i]));
        }
    }
}

} // verus!
