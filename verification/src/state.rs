//! The state that entries are applied to: the buffer, the labels, the byte
//! order in force, and the writes that wait for the labels.

pub mod support;

use vstd::prelude::*;
use vstd::set_lib::lemma_set_subset_finite;
use crate::error::Error;
use crate::error::ErrorView;
use crate::state::support::DataRange;
use crate::state::support::LocationMap;
use crate::state::support::PatchOp;
use crate::state::support::PatchView;
use crate::state::support::RangeView;
use crate::state::support::lemma_resolve_frame;
use crate::state::support::lemma_resolved_bytes;
use crate::state::support::patch_views;
use crate::state::support::patches_fit;
use crate::state::support::query_value;
use crate::state::support::resolve_patches;
use crate::text::chars_less;
use crate::text::chars_of;
use crate::text::lemma_name_lt_irreflexive;
use crate::text::lemma_name_lt_total;
use crate::text::lemma_name_lt_transitive;
use crate::text::lemma_names_in_order;
use crate::text::lists_in_order;
use crate::text::name_lt;
use crate::to_bytes::ByteOrder;
use crate::to_bytes::Endianness;
use crate::to_bytes::decode;
use crate::to_bytes::encode;
use crate::to_bytes::lemma_encode_decode;
use crate::to_bytes::native_byte_order;
use crate::to_bytes::outcome;
use crate::token::Label;
use crate::token::LabelView;
use crate::token::Site;
use crate::token::label_views;

verus! {

/// The mathematical form of an [`EntryState`].
pub struct StateView {
    /// The bytes written so far.
    pub data: Seq<u8>,
    /// The writes that wait, in the order in which they were put off.
    pub patches: Seq<PatchView>,
    /// The range of each label that has been defined.
    pub locations: Map<Seq<char>, RangeView>,
    /// Where each label was defined.
    pub defined: Map<Seq<char>, Site>,
    /// Where each label that a call names was first named.
    pub used: Map<Seq<char>, Site>,
    /// The byte order of values that ask for none.
    pub endian_mode: Endianness,
    /// The byte order of the machine.
    pub native: ByteOrder,
    /// Whether the labels are inside a repeat.
    pub frozen: bool,
}

/// A state and how the step that led to it ended.
pub struct Outcome {
    pub state: StateView,
    pub result: Result<(), ErrorView>,
}

/// `n` zero bytes.
pub open spec fn zeros(n: nat) -> Seq<u8> {
    Seq::new(n, |i: int| 0u8)
}

impl StateView {
    /// The state before anything has been applied, on a machine whose byte
    /// order is `native`.
    pub open spec fn initial(native: ByteOrder) -> StateView {
        StateView {
            data: Seq::empty(),
            patches: Seq::empty(),
            locations: Map::empty(),
            defined: Map::empty(),
            used: Map::empty(),
            endian_mode: Endianness::Native,
            native,
            frozen: false,
        }
    }

    /// The labels that have a range are those that have been defined.
    pub open spec fn consistent(self) -> bool {
        self.locations.dom() == self.defined.dom()
    }

    /// Each waiting write lies inside the buffer.
    pub open spec fn writes_in_bounds(self) -> bool {
        forall|i: int| 0 <= i < self.patches.len() ==> (#[trigger] self.patches[i]).end() <= self.data.len()
    }

    /// What holds of every state that entries lead to from the empty state:
    /// the labels that have a range are those that have been defined; the
    /// labels that have been used are finitely many; each waiting write lies
    /// inside the buffer, behind the ones put off before it; and each names
    /// a label that is recorded as used.
    pub open spec fn well_formed(self) -> bool {
        &&& self.consistent()
        &&& self.used.dom().finite()
        &&& patches_fit(self.patches, self.data.len())
        &&& forall|i: int|
            0 <= i < self.patches.len() ==> self.used.contains_key((#[trigger] self.patches[i]).label.name)
    }

    /// The offset at which the next byte will stand.
    pub open spec fn offset(self) -> nat {
        self.data.len()
    }

    /// The state with `bytes` behind the buffer.
    pub open spec fn appended(self, bytes: Seq<u8>) -> StateView {
        StateView { data: self.data + bytes, ..self }
    }

    /// The state with `n` zero bytes behind the buffer.
    pub open spec fn advanced(self, n: nat) -> StateView {
        self.appended(zeros(n))
    }

    /// The state with `mode` as the byte order in force.
    pub open spec fn with_endian_mode(self, mode: Endianness) -> StateView {
        StateView { endian_mode: mode, ..self }
    }

    /// The state with the labels inside a repeat, or outside.
    pub open spec fn with_frozen(self, frozen: bool) -> StateView {
        StateView { frozen, ..self }
    }

    /// The state after `label` has been defined as the bytes from `start`
    /// up to `end`: a label that is defined already stays as it is, and the
    /// step fails.
    pub open spec fn with_definition(self, label: LabelView, start: nat, end: nat) -> Outcome {
        if self.defined.contains_key(label.name) {
            Outcome {
                state: self,
                result: Err(
                    ErrorView::DuplicateLabel {
                        label: label.name,
                        site: label.site,
                        original: self.defined[label.name],
                    },
                ),
            }
        } else {
            Outcome {
                state: StateView {
                    locations: self.locations.insert(label.name, RangeView { start, end }),
                    defined: self.defined.insert(label.name, label.site),
                    ..self
                },
                result: Ok(()),
            }
        }
    }

    /// The state after a call has named `label`: the first use of a name is
    /// the one that is kept.
    pub open spec fn with_use(self, label: LabelView) -> StateView {
        if self.used.contains_key(label.name) {
            self
        } else {
            StateView { used: self.used.insert(label.name, label.site), ..self }
        }
    }

    /// The state with `patch` behind the writes that wait.
    pub open spec fn with_patch(self, patch: PatchView) -> StateView {
        StateView { patches: self.patches.push(patch), ..self }
    }

    /// `name` has been used and not defined.
    pub open spec fn missing(self, name: Seq<char>) -> bool {
        self.used.contains_key(name) && !self.defined.contains_key(name)
    }

    /// `uses` lists the labels that have been used and not defined: each
    /// with the site of its first use, each once, in increasing order of
    /// the names.
    pub open spec fn is_undefined_report(self, uses: Seq<LabelView>) -> bool {
        &&& forall|i: int|
            0 <= i < uses.len() ==> self.missing((#[trigger] uses[i]).name) && self.used[uses[i].name]
                == uses[i].site
        &&& forall|name: Seq<char>|
            self.missing(name) ==> exists|i: int| 0 <= i < uses.len() && (#[trigger] uses[i]).name == name
        &&& forall|i: int, j: int|
            0 <= i < j < uses.len() ==> name_lt((#[trigger] uses[i]).name, (#[trigger] uses[j]).name)
    }

    /// The list of the labels that have been used and not defined; see
    /// [`StateView::is_undefined_report`].
    pub open spec fn undefined_report(self) -> Seq<LabelView> {
        choose|uses: Seq<LabelView>| self.is_undefined_report(uses)
    }

    /// Whether every label that has been used has been defined, and if not,
    /// which are not.
    pub open spec fn checked(self) -> Result<(), ErrorView> {
        if forall|name: Seq<char>| !self.missing(name) {
            Ok(())
        } else {
            Err(ErrorView::UndefinedLabels { uses: self.undefined_report() })
        }
    }

    /// The state after the waiting writes have been made, in their order and
    /// up to the first that fails, and the finished buffer if none failed.
    /// No write waits any longer.
    pub open spec fn resolved(self) -> (StateView, Result<Seq<u8>, ErrorView>) {
        let done = resolve_patches(self.patches, self.locations, self.data);
        (
            StateView { data: done.0, patches: Seq::empty(), ..self },
            match done.1 {
                Ok(()) => Ok(done.0),
                Err(e) => Err(e),
            },
        )
    }
}

/// Every name that `before` binds, `after` binds to the same value.
pub open spec fn kept<V>(before: Map<Seq<char>, V>, after: Map<Seq<char>, V>) -> bool {
    forall|name: Seq<char>| #[trigger]
        before.contains_key(name) ==> after.contains_key(name) && after[name] == before[name]
}

impl StateView {
    /// `later` holds all that `self` holds, unchanged, and more behind it:
    /// the buffer and the waiting writes have only grown at their ends; no
    /// label has lost or changed its range, its definition or its first
    /// use; the writes that are new fill bytes that are new; and the labels
    /// that are new name bytes that are new.
    pub open spec fn extends_to(self, later: StateView) -> bool {
        &&& self.data.is_prefix_of(later.data)
        &&& self.patches.is_prefix_of(later.patches)
        &&& kept(self.locations, later.locations)
        &&& kept(self.defined, later.defined)
        &&& kept(self.used, later.used)
        &&& self.native == later.native
        &&& forall|i: int|
            self.patches.len() <= i < later.patches.len() ==> self.offset() <= (
            #[trigger] later.patches[i]).target
        &&& forall|name: Seq<char>|
            #![trigger later.locations[name]]
            later.locations.contains_key(name) && !self.locations.contains_key(name) ==> self.offset()
                <= later.locations[name].start <= later.locations[name].end <= later.offset()
    }
}

impl Outcome {
    /// The state of the outcome holds all that `before` holds, and is
    /// consistent and well formed where `before` is.
    pub open spec fn follows(self, before: StateView) -> bool {
        &&& before.consistent() ==> before.extends_to(self.state) && self.state.consistent()
        &&& before.well_formed() ==> self.state.well_formed()
    }
}

/// A state extends to itself.
pub proof fn lemma_extends_reflexive(s: StateView)
    ensures
        s.extends_to(s),
{
}

/// What a state extends to, and that to a third, the first extends to the third.
pub proof fn lemma_extends_transitive(a: StateView, b: StateView, c: StateView)
    requires
        a.extends_to(b),
        b.extends_to(c),
    ensures
        a.extends_to(c),
{
    assert(a.data =~= c.data.subrange(0, a.data.len() as int)) by {
        assert(a.data =~= b.data.subrange(0, a.data.len() as int));
        assert(b.data =~= c.data.subrange(0, b.data.len() as int));
    }
    assert(a.patches =~= c.patches.subrange(0, a.patches.len() as int)) by {
        assert(a.patches =~= b.patches.subrange(0, a.patches.len() as int));
        assert(b.patches =~= c.patches.subrange(0, b.patches.len() as int));
    }
    assert forall|i: int| a.patches.len() <= i < c.patches.len() implies a.offset() <= (
    #[trigger] c.patches[i]).target by {
        if i < b.patches.len() {
            assert(c.patches[i] == b.patches[i]);
        }
    }
    assert forall|name: Seq<char>|
        #![trigger c.locations[name]]
        c.locations.contains_key(name) && !a.locations.contains_key(name) implies a.offset()
        <= c.locations[name].start <= c.locations[name].end <= c.offset() by {
        if b.locations.contains_key(name) {
            assert(b.locations[name] == c.locations[name]);
        }
    }
}

/// Bytes behind the buffer extend a state and keep it well formed.
pub proof fn lemma_appended_extends(s: StateView, bytes: Seq<u8>)
    ensures
        s.extends_to(s.appended(bytes)),
        s.consistent() ==> s.appended(bytes).consistent(),
        s.well_formed() ==> s.appended(bytes).well_formed(),
{
}

/// The use of a label extends a state and keeps it well formed.
pub proof fn lemma_use_extends(s: StateView, label: LabelView)
    ensures
        s.extends_to(s.with_use(label)),
        s.consistent() ==> s.with_use(label).consistent(),
        s.well_formed() ==> s.with_use(label).well_formed(),
        s.with_use(label).used.contains_key(label.name),
{
}

/// The definition of a label as bytes that lie behind `from` extends what
/// the state was at `from`, and keeps the state well formed, whether the
/// definition fails or not.
pub proof fn lemma_definition_extends(s: StateView, label: LabelView, start: nat, end: nat)
    requires
        s.consistent(),
        start <= end <= s.offset(),
    ensures
        s.with_definition(label, start, end).state.consistent(),
        s.well_formed() ==> s.with_definition(label, start, end).state.well_formed(),
        forall|from: StateView|
            from.extends_to(s) && from.offset() <= start ==> #[trigger] from.extends_to(
                s.with_definition(label, start, end).state,
            ),
{
    let after = s.with_definition(label, start, end).state;
    if !s.defined.contains_key(label.name) {
        assert(after.locations.dom() =~= after.defined.dom());
        assert(!s.locations.dom().contains(label.name));
    }
    assert forall|from: StateView| from.extends_to(s) && from.offset() <= start implies #[trigger] from.extends_to(
        after,
    ) by {
        assert forall|name: Seq<char>|
            #![trigger after.locations[name]]
            after.locations.contains_key(name) && !from.locations.contains_key(name) implies from.offset()
            <= after.locations[name].start <= after.locations[name].end <= after.offset() by {
            if s.locations.contains_key(name) {
                assert(s.locations[name] == after.locations[name]);
            }
        }
    }
}

/// A write put off for bytes that have just been written extends a state
/// and keeps it well formed.
pub proof fn lemma_patch_extends(s: StateView, width: nat, patch: PatchView)
    requires
        patch.target == s.offset(),
        patch.end() == s.offset() + width,
        s.used.contains_key(patch.label.name),
    ensures
        s.extends_to(s.advanced(width).with_patch(patch)),
        s.consistent() ==> s.advanced(width).with_patch(patch).consistent(),
        s.well_formed() ==> s.advanced(width).with_patch(patch).well_formed(),
{
}

/// The map from names to sites that a list of labels stands for.
pub open spec fn label_map(labels: Seq<Label>) -> Map<Seq<char>, Site>
    decreases labels.len(),
{
    if labels.len() == 0 {
        Map::empty()
    } else {
        label_map(labels.drop_last()).insert(labels.last().name@, labels.last().site)
    }
}

/// No two labels of the list have the same name.
pub open spec fn distinct_names(labels: Seq<Label>) -> bool {
    forall|i: int, j: int|
        0 <= i < j < labels.len() ==> (#[trigger] labels[i]).name@ != (#[trigger] labels[j]).name@
}

/// The labels of the list stand in increasing order of their names.
pub open spec fn increasing_names(labels: Seq<Label>) -> bool {
    forall|i: int, j: int|
        0 <= i < j < labels.len() ==> name_lt((#[trigger] labels[i]).name@, (#[trigger] labels[j]).name@)
}

proof fn lemma_label_map(labels: Seq<Label>)
    ensures
        forall|k: Seq<char>|
            label_map(labels).contains_key(k) <==> exists|i: int|
                0 <= i < labels.len() && (#[trigger] labels[i]).name@ == k,
        distinct_names(labels) ==> forall|i: int|
            0 <= i < labels.len() ==> label_map(labels)[(#[trigger] labels[i]).name@] == labels[i].site,
    decreases labels.len(),
{
    if labels.len() > 0 {
        let front = labels.drop_last();
        lemma_label_map(front);
        assert(label_map(labels) == label_map(front).insert(labels.last().name@, labels.last().site));
        assert forall|k: Seq<char>|
            label_map(labels).contains_key(k) <==> exists|i: int|
                0 <= i < labels.len() && (#[trigger] labels[i]).name@ == k by {
            if label_map(labels).contains_key(k) {
                if k == labels.last().name@ {
                    assert(labels[labels.len() - 1].name@ == k);
                } else {
                    assert(label_map(front).contains_key(k));
                    let i = choose|i: int| 0 <= i < front.len() && (#[trigger] front[i]).name@ == k;
                    assert(labels[i].name@ == k);
                }
            }
            if exists|i: int| 0 <= i < labels.len() && (#[trigger] labels[i]).name@ == k {
                let i = choose|i: int| 0 <= i < labels.len() && (#[trigger] labels[i]).name@ == k;
                if i < front.len() {
                    assert(front[i].name@ == k);
                }
            }
        }
        if distinct_names(labels) {
            assert(distinct_names(front)) by {
                assert forall|i: int, j: int| 0 <= i < j < front.len() implies (#[trigger] front[i]).name@
                    != (#[trigger] front[j]).name@ by {
                    assert(labels[i].name@ != labels[j].name@);
                }
            }
            assert forall|i: int| 0 <= i < labels.len() implies label_map(labels)[(
            #[trigger] labels[i]).name@] == labels[i].site by {
                if i < front.len() {
                    assert(front[i].name@ == labels[i].name@);
                    assert(labels[i].name@ != labels[labels.len() - 1].name@);
                }
            }
        }
    }
}

/// Two lists of the labels that a state lacks are the same list.
pub proof fn lemma_undefined_report_unique(s: StateView, a: Seq<LabelView>, b: Seq<LabelView>)
    requires
        s.is_undefined_report(a),
        s.is_undefined_report(b),
    ensures
        a == b,
{
    assert forall|i: int| 0 <= i < a.len() && i < b.len() implies a[i] == b[i] by {
        lemma_report_prefix(s, a, b, i);
    }
    if a.len() <= b.len() {
        lemma_report_no_longer(s, a, b);
    } else {
        lemma_report_no_longer(s, b, a);
    }
    assert(a =~= b);
}

proof fn lemma_report_prefix(s: StateView, a: Seq<LabelView>, b: Seq<LabelView>, n: int)
    requires
        s.is_undefined_report(a),
        s.is_undefined_report(b),
        0 <= n < a.len(),
        n < b.len(),
    ensures
        a[n] == b[n],
    decreases n,
{
    assert forall|k: int| 0 <= k < n implies a[k] == b[k] by {
        lemma_report_prefix(s, a, b, k);
    }
    lemma_name_lt_total(a[n].name, b[n].name);
    lemma_report_misplaced(s, a, b, n);
    lemma_report_misplaced(s, b, a, n);
    assert(s.used[a[n].name] == a[n].site);
}

/// Where two lists agree before `n`, the entry `n` of the one cannot stand
/// before the entry `n` of the other.
proof fn lemma_report_misplaced(s: StateView, a: Seq<LabelView>, b: Seq<LabelView>, n: int)
    requires
        s.is_undefined_report(a),
        s.is_undefined_report(b),
        0 <= n < a.len(),
        n < b.len(),
        forall|k: int| 0 <= k < n ==> a[k] == b[k],
    ensures
        !name_lt(a[n].name, b[n].name),
{
    let name = a[n].name;
    if name_lt(name, b[n].name) {
        assert(s.missing(name));
        let j = choose|j: int| 0 <= j < b.len() && (#[trigger] b[j]).name == name;
        lemma_name_lt_irreflexive(name);
        if j < n {
            assert(a[j] == b[j]);
            assert(name_lt(a[j].name, a[n].name));
        } else if j > n {
            assert(name_lt(b[n].name, b[j].name));
            lemma_name_lt_transitive(name, b[n].name, name);
        }
    }
}

proof fn lemma_report_no_longer(s: StateView, a: Seq<LabelView>, b: Seq<LabelView>)
    requires
        s.is_undefined_report(a),
        s.is_undefined_report(b),
        a.len() <= b.len(),
        forall|k: int| 0 <= k < a.len() ==> a[k] == b[k],
    ensures
        a.len() == b.len(),
{
    if a.len() < b.len() {
        let n = a.len() as int;
        let name = b[n].name;
        assert(s.missing(name));
        let j = choose|j: int| 0 <= j < a.len() && (#[trigger] a[j]).name == name;
        assert(a[j] == b[j]);
        assert(name_lt(b[j].name, b[n].name));
        lemma_name_lt_irreflexive(name);
    }
}

/// The state that entries are applied to. It holds the buffer, which only
/// grows; the range and the site of each label that has been defined; the
/// site of the first use of each label that a call has named; the writes that
/// wait for the labels; and the byte order in force.
pub struct EntryState {
    data: Vec<u8>,
    patch_ops: Vec<PatchOp>,
    location_map: LocationMap,
    defined_labels: Vec<Label>,
    used_labels: Vec<Label>,
    endian_mode: Endianness,
    native: ByteOrder,
    frozen: bool,
}

impl View for EntryState {
    type V = StateView;

    closed spec fn view(&self) -> StateView {
        StateView {
            data: self.data@,
            patches: patch_views(self.patch_ops@),
            locations: self.location_map@,
            defined: label_map(self.defined_labels@),
            used: label_map(self.used_labels@),
            endian_mode: self.endian_mode,
            native: self.native,
            frozen: self.frozen,
        }
    }
}

/// No label of the list `defined` has the name `name`.
spec fn lacks(defined: Seq<Label>, name: Seq<char>) -> bool {
    !label_map(defined).contains_key(name)
}

/// `entry` is a copy of one of the first `upto` labels of `used`.
spec fn taken_from(entry: Label, used: Seq<Label>, upto: int) -> bool {
    exists|j: int| 0 <= j < upto && (#[trigger] used[j])@ == entry@
}

/// A label of the list `missing` has the name `name`.
spec fn listed(name: Seq<char>, missing: Seq<Label>) -> bool {
    exists|k: int| 0 <= k < missing.len() && (#[trigger] missing[k]).name@ == name
}

/// The index of a label of the list with the name `name`.
fn find_label(labels: &Vec<Label>, name: &str) -> (r: Option<usize>)
    ensures
        match r {
            Some(i) => i < labels.len() && labels@[i as int].name@ == name@,
            None => forall|i: int| 0 <= i < labels.len() ==> (#[trigger] labels@[i]).name@ != name@,
        },
{
    let key: String = name.to_owned();
    let mut i: usize = 0;
    while i < labels.len()
        invariant
            i <= labels.len(),
            key@ == name@,
            forall|k: int| 0 <= k < i ==> (#[trigger] labels@[k]).name@ != name@,
        decreases labels.len() - i,
    {
        if labels[i].name == key {
            return Some(i);
        }
        i += 1;
    }
    None
}

/// Puts `label` into a list that is in increasing order of the names, at the
/// place that keeps it so.
fn insert_by_name(list: &mut Vec<Label>, label: Label)
    requires
        increasing_names(old(list)@),
        forall|i: int| 0 <= i < old(list).len() ==> (#[trigger] old(list)@[i]).name@ != label.name@,
    ensures
        increasing_names(final(list)@),
        exists|at: int| 0 <= at <= old(list).len() && final(list)@ == old(list)@.insert(at, label),
{
    let name: Vec<char> = chars_of(label.name.as_str());
    let mut at: usize = 0;
    while at < list.len() && chars_less(&chars_of(list[at].name.as_str()), &name)
        invariant
            at <= list.len(),
            list@ == old(list)@,
            name@ == label.name@,
            forall|k: int| 0 <= k < at ==> name_lt((#[trigger] list@[k]).name@, label.name@),
        decreases list.len() - at,
    {
        at += 1;
    }
    proof {
        let before = list@;
        let after = before.insert(at as int, label);
        assert forall|i: int, j: int| 0 <= i < j < after.len() implies name_lt(
            (#[trigger] after[i]).name@,
            (#[trigger] after[j]).name@,
        ) by {
            if j < at {
                assert(name_lt(before[i].name@, before[j].name@));
            } else if j == at {
                assert(name_lt(before[i].name@, label.name@));
            } else if i == at {
                lemma_name_lt_total(before[at as int].name@, label.name@);
                assert(name_lt(label.name@, before[at as int].name@));
                if j - 1 > at {
                    assert(name_lt(before[at as int].name@, before[j - 1].name@));
                    lemma_name_lt_transitive(label.name@, before[at as int].name@, before[j - 1].name@);
                }
            } else if i < at {
                assert(name_lt(before[i].name@, before[j - 1].name@));
            } else {
                assert(name_lt(before[i - 1].name@, before[j - 1].name@));
            }
        }
    }
    list.insert(at, label);
}

impl EntryState {
    /// The fields fit together: the labels that have a range are those that
    /// have been defined, and neither list of labels holds a name twice.
    pub closed spec fn wf(&self) -> bool {
        &&& self@.consistent()
        &&& distinct_names(self.defined_labels@)
        &&& distinct_names(self.used_labels@)
    }

    /// The view of a state whose fields fit together is consistent.
    pub proof fn lemma_wf(&self)
        requires
            self.wf(),
        ensures
            self@.consistent(),
    {
    }

    /// An empty state, for the machine that this runs on.
    pub fn new() -> (r: Self)
        ensures
            r.wf(),
            r@ == StateView::initial(ByteOrder::Little) || r@ == StateView::initial(ByteOrder::Big),
    {
        Self::with_native(native_byte_order())
    }

    /// An empty state, for a machine whose byte order is `native`.
    pub fn with_native(native: ByteOrder) -> (r: Self)
        ensures
            r.wf(),
            r@ == StateView::initial(native),
    {
        let r = Self {
            data: Vec::new(),
            patch_ops: Vec::new(),
            location_map: LocationMap::new(),
            defined_labels: Vec::new(),
            used_labels: Vec::new(),
            endian_mode: Endianness::Native,
            native,
            frozen: false,
        };
        assert(r@.patches =~= Seq::empty());
        assert(r@.locations.dom() =~= r@.defined.dom());
        r
    }

    /// Defines `label` as the bytes from `start` up to `end`, unless it is
    /// defined already.
    pub fn report_label_def(&mut self, label: &Label, start: usize, end: usize) -> (r: Result<(), Error>)
        requires
            old(self).wf(),
            start <= end,
        ensures
            final(self).wf(),
            final(self)@ == old(self)@.with_definition(label@, start as nat, end as nat).state,
            outcome(r) == old(self)@.with_definition(label@, start as nat, end as nat).result,
    {
        proof {
            lemma_label_map(self.defined_labels@);
        }
        match find_label(&self.defined_labels, label.name.as_str()) {
            Some(i) => {
                let original: Site = self.defined_labels[i].site;
                Err(Error::DuplicateLabel { label: label.name.clone(), site: label.site, original })
            },
            None => {
                let ghost before = self.defined_labels@;
                assert(!self@.defined.contains_key(label@.name));
                assert(self@.locations.dom().contains(label@.name) == self@.defined.dom().contains(
                    label@.name,
                ));
                self.defined_labels.push(label.duplicate());
                self.location_map.insert(label.name.clone(), DataRange::new(start, end));
                proof {
                    assert(self.defined_labels@.drop_last() =~= before);
                    assert(self@.locations.dom() =~= self@.defined.dom());
                }
                Ok(())
            },
        }
    }

    /// Records that a call names `label`. The label need not be defined yet.
    pub fn report_label_use(&mut self, label: &Label)
        requires
            old(self).wf(),
        ensures
            final(self).wf(),
            final(self)@ == old(self)@.with_use(label@),
    {
        proof {
            lemma_label_map(self.used_labels@);
        }
        if find_label(&self.used_labels, label.name.as_str()).is_none() {
            let ghost before = self.used_labels@;
            self.used_labels.push(label.duplicate());
            proof {
                assert(self.used_labels@.drop_last() =~= before);
            }
        }
    }

    pub fn endian_mode(&self) -> (r: Endianness)
        ensures
            r == self@.endian_mode,
    {
        self.endian_mode
    }

    pub fn set_endian_mode(&mut self, mode: Endianness)
        requires
            old(self).wf(),
        ensures
            final(self).wf(),
            final(self)@ == old(self)@.with_endian_mode(mode),
    {
        self.endian_mode = mode;
    }

    /// The byte order of the machine that the state was made for.
    pub fn native(&self) -> (r: ByteOrder)
        ensures
            r == self@.native,
    {
        self.native
    }

    /// Tests that every label that a call has named has been defined. Where
    /// some have not, the failure lists them all.
    pub fn check(&self) -> (r: Result<(), Error>)
        requires
            self.wf(),
        ensures
            outcome(r) == self@.checked(),
            r is Ok <==> forall|name: Seq<char>| !self@.missing(name),
            r matches Err(e) ==> e@ matches ErrorView::UndefinedLabels { uses }
                && self@.is_undefined_report(uses),
    {
        let mut missing: Vec<Label> = Vec::new();
        let mut i: usize = 0;
        while i < self.used_labels.len()
            invariant
                i <= self.used_labels.len(),
                increasing_names(missing@),
                distinct_names(self.used_labels@),
                forall|k: int|
                    0 <= k < missing.len() ==> taken_from(#[trigger] missing@[k], self.used_labels@, i as int)
                        && lacks(self.defined_labels@, missing@[k].name@),
                forall|j: int|
                    0 <= j < i && lacks(self.defined_labels@, (#[trigger] self.used_labels@[j]).name@)
                        ==> listed(self.used_labels@[j].name@, missing@),
            decreases self.used_labels.len() - i,
        {
            let used: &Label = &self.used_labels[i];
            proof {
                lemma_label_map(self.defined_labels@);
            }
            if find_label(&self.defined_labels, used.name.as_str()).is_none() {
                let ghost before = missing@;
                let copy: Label = used.duplicate();
                assert forall|k: int| 0 <= k < before.len() implies (#[trigger] before[k]).name@
                    != copy.name@ by {
                    let j = choose|j: int| 0 <= j < i && (#[trigger] self.used_labels@[j])@ == before[k]@;
                    assert(self.used_labels@[j].name@ != self.used_labels@[i as int].name@);
                }
                insert_by_name(&mut missing, copy);
                proof {
                    let at = choose|at: int| 0 <= at <= before.len() && missing@ == before.insert(at, copy);
                    assert forall|k: int| 0 <= k < missing.len() implies taken_from(
                        #[trigger] missing@[k],
                        self.used_labels@,
                        i + 1,
                    ) && lacks(self.defined_labels@, missing@[k].name@) by {
                        if k < at {
                            assert(taken_from(before[k], self.used_labels@, i as int));
                            let j = choose|j: int|
                                0 <= j < i && (#[trigger] self.used_labels@[j])@ == before[k]@;
                            assert(self.used_labels@[j]@ == missing@[k]@);
                        } else if k == at {
                            assert(self.used_labels@[i as int]@ == missing@[k]@);
                        } else {
                            assert(taken_from(before[k - 1], self.used_labels@, i as int));
                            let j = choose|j: int|
                                0 <= j < i && (#[trigger] self.used_labels@[j])@ == before[k - 1]@;
                            assert(self.used_labels@[j]@ == missing@[k]@);
                        }
                    }
                    assert forall|j: int|
                        0 <= j < i + 1 && lacks(
                            self.defined_labels@,
                            (#[trigger] self.used_labels@[j]).name@,
                        ) implies listed(self.used_labels@[j].name@, missing@) by {
                        if j < i {
                            assert(listed(self.used_labels@[j].name@, before));
                            let k = choose|k: int|
                                0 <= k < before.len() && (#[trigger] before[k]).name@
                                    == self.used_labels@[j].name@;
                            if k < at {
                                assert(missing@[k].name@ == self.used_labels@[j].name@);
                            } else {
                                assert(missing@[k + 1].name@ == self.used_labels@[j].name@);
                            }
                        } else {
                            assert(missing@[at].name@ == self.used_labels@[j].name@);
                        }
                    }
                }
            }
            i += 1;
        }
        proof {
            let uses = label_views(missing@);
            lemma_label_map(self.used_labels@);
            lemma_label_map(self.defined_labels@);
            assert forall|k: int| 0 <= k < uses.len() implies self@.missing((#[trigger] uses[k]).name)
                && self@.used[uses[k].name] == uses[k].site by {
                assert(taken_from(missing@[k], self.used_labels@, i as int));
                let j = choose|j: int| 0 <= j < i && (#[trigger] self.used_labels@[j])@ == missing@[k]@;
                assert(self.used_labels@[j].name@ == uses[k].name);
            }
            assert forall|name: Seq<char>| self@.missing(name) implies exists|k: int|
                0 <= k < uses.len() && (#[trigger] uses[k]).name == name by {
                let j = choose|j: int|
                    0 <= j < self.used_labels.len() && (#[trigger] self.used_labels@[j]).name@ == name;
                assert(listed(self.used_labels@[j].name@, missing@));
                let k = choose|k: int|
                    0 <= k < missing.len() && (#[trigger] missing@[k]).name@ == self.used_labels@[j].name@;
                assert(uses[k].name == name);
            }
            assert forall|a: int, b: int| 0 <= a < b < uses.len() implies name_lt(
                (#[trigger] uses[a]).name,
                (#[trigger] uses[b]).name,
            ) by {
                assert(name_lt(missing@[a].name@, missing@[b].name@));
            }
            assert(self@.is_undefined_report(uses));
            if missing.len() > 0 {
                assert(self@.missing(uses[0].name));
                lemma_undefined_report_unique(self@, uses, self@.undefined_report());
            }
        }
        if missing.len() == 0 {
            Ok(())
        } else {
            Err(Error::UndefinedLabels { uses: missing })
        }
    }

    /// Makes the writes that wait, in the order in which they were put off,
    /// and gives the finished buffer. The first write that fails ends it; no
    /// write waits afterwards either way. The bytes that each write fills
    /// are in the buffer.
    pub fn generate_data(&mut self) -> (r: Result<Vec<u8>, Error>)
        requires
            old(self).wf(),
            old(self)@.writes_in_bounds(),
        ensures
            final(self).wf(),
            final(self)@ == old(self)@.resolved().0,
            outcome(r) == old(self)@.resolved().1,
    {
        let mut ops: Vec<PatchOp> = Vec::new();
        core::mem::swap(&mut ops, &mut self.patch_ops);
        let ghost all = patch_views(ops@);
        let ghost start = old(self)@;
        assert(patch_views(self.patch_ops@) =~= Seq::<PatchView>::empty());
        assert(all.skip(0) =~= all);
        for op in it: ops
            invariant
                it.seq() == ops@,
                all == patch_views(ops@),
                start == old(self)@,
                start.writes_in_bounds(),
                all == start.patches,
                self.wf(),
                self@ == (StateView { patches: Seq::empty(), data: self@.data, ..start }),
                self@.data.len() == start.data.len(),
                resolve_patches(all, start.locations, start.data) == resolve_patches(
                    all.skip(it.index() as int),
                    start.locations,
                    self@.data,
                ),
        {
            let ghost rest = all.skip(it.index() as int);
            assert(rest.first() == op@);
            assert(all[it.index() as int].end() <= start.data.len());
            assert(rest.drop_first() =~= all.skip(it.index() + 1));
            match op.apply(&self.location_map, self.data.as_mut_slice()) {
                Ok(()) => {},
                Err(e) => {
                    return Err(e);
                },
            }
        }
        Ok(self.data.clone())
    }

    pub fn append_bytes(&mut self, bytes: &[u8])
        requires
            old(self).wf(),
        ensures
            final(self).wf(),
            final(self)@ == old(self)@.appended(bytes@),
    {
        self.data.extend_from_slice(bytes);
        assert(self.data@ =~= old(self).data@ + bytes@);
    }

    /// Puts `n` zero bytes behind the buffer.
    pub fn advance_bytes(&mut self, n: usize)
        requires
            old(self).wf(),
        ensures
            final(self).wf(),
            final(self)@ == old(self)@.advanced(n as nat),
    {
        let mut i: usize = 0;
        while i < n
            invariant
                i <= n,
                self.wf(),
                self@ == old(self)@.advanced(i as nat),
            decreases n - i,
        {
            self.data.push(0);
            assert(self.data@ =~= old(self).data@ + zeros((i + 1) as nat));
            i += 1;
        }
    }

    /// The offset at which the next byte will stand.
    pub fn curr_offset(&self) -> (r: usize)
        ensures
            r == self@.offset(),
    {
        self.data.len()
    }

    /// Puts a write off until the labels are bound.
    pub fn defer_patch_op(&mut self, op: PatchOp)
        requires
            old(self).wf(),
        ensures
            final(self).wf(),
            final(self)@ == old(self)@.with_patch(op@),
    {
        self.patch_ops.push(op);
        assert(patch_views(self.patch_ops@) =~= patch_views(old(self).patch_ops@).push(op@));
    }

    /// Marks the labels as inside a repeat, and says whether they were so
    /// before.
    pub fn freeze_label_context(&mut self) -> (r: bool)
        requires
            old(self).wf(),
        ensures
            final(self).wf(),
            r == old(self)@.frozen,
            final(self)@ == old(self)@.with_frozen(true),
    {
        let before: bool = self.frozen;
        self.frozen = true;
        before
    }

    /// Ends what [`EntryState::freeze_label_context`] began; `before` is what
    /// that call gave.
    pub fn unfreeze_label_context(&mut self, before: bool)
        requires
            old(self).wf(),
        ensures
            final(self).wf(),
            final(self)@ == old(self)@.with_frozen(before),
    {
        self.frozen = before;
    }

    /// Whether the labels are marked as inside a repeat.
    pub fn label_context_frozen(&self) -> (r: bool)
        ensures
            r == self@.frozen,
    {
        self.frozen
    }

    /// The buffer and the ranges of the labels, which the state gives up.
    pub fn into_parts(self) -> (r: (Vec<u8>, LocationMap))
        ensures
            r.0@ == self@.data,
            r.1@ == self@.locations,
    {
        (self.data, self.location_map)
    }

    /// The ranges of the labels defined so far.
    pub fn location_map(&self) -> (r: &LocationMap)
        ensures
            r@ == self@.locations,
    {
        &self.location_map
    }

    /// The bytes written so far.
    pub fn data(&self) -> (r: &[u8])
        ensures
            r@ == self@.data,
    {
        self.data.as_slice()
    }
}

/// What can be applied to the state: every entry, whatever its kind.
pub trait StateOperation {
    /// The state that applying this to `state` leads to, and how that ends.
    /// A step that fails ends the walk; the state is then what the steps
    /// before the failure made of it.
    spec fn effect(&self, state: StateView) -> Outcome;

    fn apply_to(&self, state: &mut EntryState) -> (r: Result<(), Error>)
        requires
            old(state).wf(),
        ensures
            final(state).wf(),
            final(state)@ == self.effect(old(state)@).state,
            outcome(r) == self.effect(old(state)@).result,
    ;
}

/// A label that is defined stays as it is: a second definition fails, names
/// the site of the second and that of the first, and changes nothing.
pub proof fn lemma_second_definition_fails(state: StateView, label: LabelView, start: nat, end: nat)
    requires
        state.defined.contains_key(label.name),
    ensures
        state.with_definition(label, start, end) == (Outcome {
            state,
            result: Err(
                ErrorView::DuplicateLabel {
                    label: label.name,
                    site: label.site,
                    original: state.defined[label.name],
                },
            ),
        }),
{
}

/// A label that has been used and not defined stands in the list of the
/// labels that the state lacks, with the site of its first use.
pub proof fn lemma_missing_is_listed(state: StateView, uses: Seq<LabelView>, name: Seq<char>)
    requires
        state.is_undefined_report(uses),
        state.missing(name),
    ensures
        exists|i: int| 0 <= i < uses.len() && #[trigger] uses[i] == (LabelView { name, site: state.used[name] }),
{
    let i = choose|i: int| 0 <= i < uses.len() && (#[trigger] uses[i]).name == name;
    assert(uses[i] == (LabelView { name, site: state.used[name] }));
}

/// Where the writes that wait have all been made, each call has left in the
/// buffer the number that it asked of the range that its label has in the
/// end, whether the label was defined before the call or behind it; read
/// back as a value of the call's type, the bytes give that number.
pub proof fn lemma_call_reads_final_range(state: StateView, i: int)
    requires
        state.well_formed(),
        0 <= i < state.patches.len(),
        state.resolved().1 is Ok,
    ensures
        ({
            let out = state.resolved().1->Ok_0;
            let patch = state.patches[i];
            let value = query_value(patch.query, state.locations[patch.label.name]);
            &&& out.len() == state.data.len()
            &&& state.locations.contains_key(patch.label.name)
            &&& patch.int_type.holds(value)
            &&& out.subrange(patch.target as int, patch.end() as int) == encode(
                patch.int_type,
                patch.order,
                value,
            )
            &&& decode(patch.int_type, patch.order, out.subrange(patch.target as int, patch.end() as int))
                == value
        }),
{
    let patch = state.patches[i];
    assert(patches_fit(state.patches, state.data.len()));
    lemma_resolved_bytes(state.patches, state.locations, state.data, i);
    lemma_encode_decode(patch.int_type, patch.order, query_value(patch.query, state.locations[patch.label.name]));
}

/// The labels that a state lacks can be listed, where finitely many labels
/// have been used.
pub proof fn lemma_undefined_report_exists(state: StateView)
    requires
        state.used.dom().finite(),
    ensures
        state.is_undefined_report(state.undefined_report()),
{
    let lacking = state.used.dom().filter(|name: Seq<char>| !state.defined.contains_key(name));
    assert(lacking.subset_of(state.used.dom()));
    lemma_set_subset_finite(state.used.dom(), lacking);
    lemma_names_in_order(lacking);
    let names = choose|list: Seq<Seq<char>>| lists_in_order(list, lacking);
    let uses = Seq::new(names.len(), |i: int| LabelView { name: names[i], site: state.used[names[i]] });
    assert forall|i: int| 0 <= i < uses.len() implies state.missing((#[trigger] uses[i]).name)
        && state.used[uses[i].name] == uses[i].site by {
        assert(names.contains(names[i]));
        assert(lacking.contains(names[i]));
    }
    assert forall|name: Seq<char>| state.missing(name) implies exists|i: int|
        0 <= i < uses.len() && (#[trigger] uses[i]).name == name by {
        assert(lacking.contains(name));
        assert(names.contains(name));
        let i = choose|i: int| 0 <= i < names.len() && names[i] == name;
        assert(uses[i].name == name);
    }
    assert forall|i: int, j: int| 0 <= i < j < uses.len() implies name_lt(
        (#[trigger] uses[i]).name,
        (#[trigger] uses[j]).name,
    ) by {
        assert(name_lt(names[i], names[j]));
    }
    assert(state.is_undefined_report(uses));
}

/// Where the writes that wait have all been made, every byte that no call
/// kept free is what the entries wrote.
pub proof fn lemma_resolved_keeps_the_rest(state: StateView, k: int)
    requires
        state.well_formed(),
        0 <= k < state.data.len(),
        forall|i: int|
            0 <= i < state.patches.len() ==> k < (#[trigger] state.patches[i]).target || k
                >= state.patches[i].end(),
    ensures
        state.resolved().0.data.len() == state.data.len(),
        state.resolved().0.data[k] == state.data[k],
{
    assert(patches_fit(state.patches, state.data.len()));
    lemma_resolve_frame(state.patches, state.locations, state.data, k);
}

} // verus!
