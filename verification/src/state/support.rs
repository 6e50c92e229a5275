//! What the state is made of: byte ranges, the map from labels to ranges, and
//! deferred writes.

use vstd::prelude::*;
use crate::error::Error;
use crate::error::ErrorView;
use crate::parse::base::PrimitiveSpec;
use crate::to_bytes::ByteOrder;
use crate::to_bytes::Endianness;
use crate::to_bytes::IntType;
use crate::to_bytes::encode;
use crate::to_bytes::outcome;
use crate::token::Label;
use crate::token::LabelView;

verus! {

/// The mathematical form of a [`DataRange`]: the bytes from `start` up to,
/// not including, `end`.
pub struct RangeView {
    pub start: nat,
    pub end: nat,
}

impl RangeView {
    pub open spec fn size(self) -> int {
        self.end - self.start
    }
}

/// A range of bytes in the buffer, from `start` up to, not including, `end`.
#[derive(Clone, Copy, Debug, PartialEq, Eq)]
pub struct DataRange {
    start: usize,
    end: usize,
}

impl View for DataRange {
    type V = RangeView;

    closed spec fn view(&self) -> RangeView {
        RangeView { start: self.start as nat, end: self.end as nat }
    }
}

impl DataRange {
    #[verifier::type_invariant]
    spec fn ordered(self) -> bool {
        self.start <= self.end
    }

    #[must_use]
    pub fn new(start: usize, end: usize) -> (r: Self)
        requires
            start <= end,
        ensures
            r@ == (RangeView { start: start as nat, end: end as nat }),
    {
        Self { start, end }
    }

    #[must_use]
    pub fn start(&self) -> (r: usize)
        ensures
            r == self@.start,
            self@.start <= self@.end,
    {
        proof {
            use_type_invariant(self);
        }
        self.start
    }

    #[must_use]
    pub fn end(&self) -> (r: usize)
        ensures
            r == self@.end,
            self@.start <= self@.end,
    {
        proof {
            use_type_invariant(self);
        }
        self.end
    }

    #[must_use]
    pub fn size(&self) -> (r: usize)
        ensures
            r == self@.size(),
            r == self@.end - self@.start,
    {
        proof {
            use_type_invariant(self);
        }
        self.end - self.start
    }
}

/// The map that a sequence of bindings stands for; of two bindings of one
/// name the later one holds.
pub open spec fn bindings_map(bindings: Seq<(String, DataRange)>) -> Map<Seq<char>, RangeView>
    decreases bindings.len(),
{
    if bindings.len() == 0 {
        Map::empty()
    } else {
        bindings_map(bindings.drop_last()).insert(bindings.last().0@, bindings.last().1@)
    }
}

/// The ranges of the labels that have been defined: a map from names to
/// ranges, in which a label has one range.
pub struct LocationMap {
    bindings: Vec<(String, DataRange)>,
}

impl View for LocationMap {
    type V = Map<Seq<char>, RangeView>;

    closed spec fn view(&self) -> Map<Seq<char>, RangeView> {
        bindings_map(self.bindings@)
    }
}

impl LocationMap {
    #[must_use]
    pub fn new() -> (r: Self)
        ensures
            r@ == Map::<Seq<char>, RangeView>::empty(),
    {
        Self { bindings: Vec::new() }
    }

    /// Binds `label` to `range`. A label is bound once.
    pub fn insert(&mut self, label: String, range: DataRange)
        requires
            !old(self)@.contains_key(label@),
        ensures
            final(self)@ == old(self)@.insert(label@, range@),
    {
        let ghost before = self.bindings@;
        self.bindings.push((label, range));
        assert(self.bindings@.drop_last() =~= before);
    }

    #[must_use]
    pub fn get(&self, label: &str) -> (r: Option<DataRange>)
        ensures
            match r {
                Some(range) => self@.contains_key(label@) && self@[label@] == range@,
                None => !self@.contains_key(label@),
            },
    {
        let key: String = label.to_owned();
        let mut i: usize = self.bindings.len();
        assert(self.bindings@.take(i as int) =~= self.bindings@);
        while i > 0
            invariant
                i <= self.bindings.len(),
                key@ == label@,
                bindings_map(self.bindings@).contains_key(label@) == bindings_map(
                    self.bindings@.take(i as int),
                ).contains_key(label@),
                bindings_map(self.bindings@).contains_key(label@) ==> bindings_map(self.bindings@)[label@]
                    == bindings_map(self.bindings@.take(i as int))[label@],
            decreases i,
        {
            i -= 1;
            assert(self.bindings@.take(i + 1).drop_last() =~= self.bindings@.take(i as int));
            if self.bindings[i].0 == key {
                return Some(self.bindings[i].1);
            }
        }
        None
    }
}

impl Default for LocationMap {
    fn default() -> (r: Self)
        ensures
            r@ == Map::<Seq<char>, RangeView>::empty(),
    {
        Self::new()
    }
}

/// Which number a call asks of the range of a label.
#[derive(Clone, Copy, Debug, PartialEq, Eq, Structural)]
pub enum Query {
    /// The offset of the first byte.
    Start,
    /// The offset behind the last byte.
    End,
    /// The number of bytes.
    Len,
}

/// The number that `query` asks of `range`.
pub open spec fn query_value(query: Query, range: RangeView) -> int {
    match query {
        Query::Start => range.start as int,
        Query::End => range.end as int,
        Query::Len => range.end - range.start,
    }
}

/// A question that a call puts to the map of labels: the number that `query`
/// asks of the range of `label`.
#[derive(Debug, Clone)]
pub struct EvalCall {
    pub query: Query,
    pub label: Label,
}

/// The mathematical form of an [`EvalCall`].
pub struct EvalCallView {
    pub query: Query,
    pub label: LabelView,
}

impl View for EvalCall {
    type V = EvalCallView;

    open spec fn view(&self) -> EvalCallView {
        EvalCallView { query: self.query, label: self.label@ }
    }
}

impl EvalCallView {
    /// The answer, once the labels are bound as in `locations`.
    pub open spec fn value(self, locations: Map<Seq<char>, RangeView>) -> Result<int, ErrorView> {
        if locations.contains_key(self.label.name) {
            Ok(query_value(self.query, locations[self.label.name]))
        } else {
            Err(ErrorView::UndefinedLabel { label: self.label.name, site: self.label.site })
        }
    }
}

impl EvalCall {
    pub fn new(query: Query, label: Label) -> (r: Self)
        ensures
            r@ == (EvalCallView { query, label: label@ }),
    {
        Self { query, label }
    }

    /// Looks the label up and gives the number asked for.
    pub fn eval(&self, location_map: &LocationMap) -> (r: Result<i128, Error>)
        ensures
            match self@.value(location_map@) {
                Ok(v) => r matches Ok(x) && x == v,
                Err(e) => r matches Err(x) && x@ == e,
            },
    {
        match location_map.get(self.label.name.as_str()) {
            Some(range) => Ok(
                match self.query {
                    Query::Start => range.start() as i128,
                    Query::End => range.end() as i128,
                    Query::Len => range.size() as i128,
                },
            ),
            None => Err(Error::UndefinedLabel { label: self.label.name.clone(), site: self.label.site }),
        }
    }
}

/// The mathematical form of a [`PatchOp`]: write, at `target`, what `query`
/// gives for `label`, as a value of `int_type` in the byte order `order`.
pub struct PatchView {
    pub target: nat,
    pub query: Query,
    pub label: LabelView,
    pub int_type: IntType,
    pub order: ByteOrder,
}

impl PatchView {
    /// The offset behind the bytes that the write fills.
    pub open spec fn end(self) -> nat {
        self.target + self.int_type.width()
    }

    /// The bytes that the write puts down, once the labels are bound as in
    /// `locations`.
    pub open spec fn bytes(self, locations: Map<Seq<char>, RangeView>) -> Result<Seq<u8>, ErrorView> {
        match (EvalCallView { query: self.query, label: self.label }).value(locations) {
            Ok(value) => if self.int_type.holds(value) {
                Ok(encode(self.int_type, self.order, value))
            } else {
                Err(ErrorView::OutOfRange)
            },
            Err(e) => Err(e),
        }
    }

    /// The buffer after the write, and how the write ended. A write that
    /// fails leaves the buffer as it was.
    pub open spec fn applied(self, locations: Map<Seq<char>, RangeView>, data: Seq<u8>) -> (
        Seq<u8>,
        Result<(), ErrorView>,
    ) {
        match self.bytes(locations) {
            Ok(bytes) => (splice(data, self.target, bytes), Ok(())),
            Err(e) => (data, Err(e)),
        }
    }
}

/// The views of a list of writes, in order.
pub open spec fn patch_views(ops: Seq<PatchOp>) -> Seq<PatchView> {
    Seq::new(ops.len(), |i: int| ops[i]@)
}

/// The buffer after the writes `patches` have been made, one after the other
/// and up to the first that fails, and how that ended.
pub open spec fn resolve_patches(
    patches: Seq<PatchView>,
    locations: Map<Seq<char>, RangeView>,
    data: Seq<u8>,
) -> (Seq<u8>, Result<(), ErrorView>)
    decreases patches.len(),
{
    if patches.len() == 0 {
        (data, Ok(()))
    } else {
        let step = patches.first().applied(locations, data);
        match step.1 {
            Ok(()) => resolve_patches(patches.drop_first(), locations, step.0),
            Err(e) => step,
        }
    }
}

/// `data` with `bytes` written over it from the offset `at` on.
pub open spec fn splice(data: Seq<u8>, at: nat, bytes: Seq<u8>) -> Seq<u8> {
    data.take(at as int) + bytes + data.skip((at + bytes.len()) as int)
}

/// A write that waits until every label is bound: it fills the bytes that
/// were kept free for it with a number that it asks of a label.
pub struct PatchOp {
    target: usize,
    eval: EvalCall,
    primitive: PrimitiveSpec,
    endian_mode: Endianness,
    native: ByteOrder,
}

impl View for PatchOp {
    type V = PatchView;

    closed spec fn view(&self) -> PatchView {
        PatchView {
            target: self.target as nat,
            query: self.eval.query,
            label: self.eval.label@,
            int_type: self.primitive@.int_type,
            order: self.primitive@.order(self.endian_mode, self.native),
        }
    }
}

impl PatchOp {
    /// A write at the offset `target` of the answer to `eval`, as a value of
    /// the type `primitive`; `endian_mode` is the mode in force and `native`
    /// the byte order of the machine.
    #[must_use]
    pub fn new(
        target: usize,
        eval: EvalCall,
        primitive: PrimitiveSpec,
        endian_mode: Endianness,
        native: ByteOrder,
    ) -> (r: Self)
        ensures
            r@ == (PatchView {
                target: target as nat,
                query: eval.query,
                label: eval.label@,
                int_type: primitive@.int_type,
                order: primitive@.order(endian_mode, native),
            }),
    {
        Self { target, eval, primitive, endian_mode, native }
    }

    /// Looks the label up in `location_map` and writes the number into `data`.
    pub fn apply(self, location_map: &LocationMap, data: &mut [u8]) -> (r: Result<(), Error>)
        requires
            self@.end() <= old(data)@.len(),
        ensures
            final(data)@ == self@.applied(location_map@, old(data)@).0,
            outcome(r) == self@.applied(location_map@, old(data)@).1,
    {
        let value: i128 = match self.eval.eval(location_map) {
            Ok(value) => value,
            Err(e) => {
                return Err(e);
            },
        };
        let (head, tail) = data.split_at_mut(self.target);
        let r = self.primitive.write_int(self.endian_mode, self.native, value, tail);
        proof {
            let width = self@.int_type.width() as int;
            if r is Ok {
                let bytes = encode(self@.int_type, self@.order, value as int);
                assert(old(data)@.skip(self.target as int).skip(width) =~= old(data)@.skip(
                    self.target + width,
                ));
                assert(head@ + tail@ =~= splice(old(data)@, self.target as nat, bytes));
            } else {
                assert(head@ + tail@ =~= old(data)@);
            }
        }
        r
    }
}

/// The three numbers that can be asked of a range fit together: the length
/// is the end less the start.
pub proof fn lemma_len_is_end_less_start(range: RangeView)
    ensures
        query_value(Query::Len, range) == query_value(Query::End, range) - query_value(Query::Start, range),
        query_value(Query::Len, range) == range.size(),
{
}

/// The writes lie inside a buffer of `len` bytes, each behind the one before.
pub open spec fn patches_fit(patches: Seq<PatchView>, len: nat) -> bool {
    &&& forall|i: int| 0 <= i < patches.len() ==> (#[trigger] patches[i]).end() <= len
    &&& forall|i: int, j: int|
        0 <= i < j < patches.len() ==> (#[trigger] patches[i]).end() <= (#[trigger] patches[j]).target
}

/// Writes that fit leave the length of the buffer as it was.
pub proof fn lemma_resolve_len(patches: Seq<PatchView>, locations: Map<Seq<char>, RangeView>, data: Seq<u8>)
    requires
        patches_fit(patches, data.len()),
    ensures
        resolve_patches(patches, locations, data).0.len() == data.len(),
    decreases patches.len(),
{
    if patches.len() > 0 {
        let step = patches.first().applied(locations, data);
        let rest = patches.drop_first();
        assert(patches[0].end() <= data.len());
        if step.1 is Ok {
            assert(patches_fit(rest, step.0.len())) by {
                assert forall|i: int| 0 <= i < rest.len() implies (#[trigger] rest[i]).end()
                    <= step.0.len() by {
                    assert(rest[i] == patches[i + 1]);
                }
                assert forall|i: int, j: int| 0 <= i < j < rest.len() implies (#[trigger] rest[i]).end() <= (
                #[trigger] rest[j]).target by {
                    assert(rest[i] == patches[i + 1]);
                    assert(rest[j] == patches[j + 1]);
                }
            }
            lemma_resolve_len(rest, locations, step.0);
        }
    }
}

/// Writes that fit leave every byte that lies in none of them as it was.
pub proof fn lemma_resolve_frame(
    patches: Seq<PatchView>,
    locations: Map<Seq<char>, RangeView>,
    data: Seq<u8>,
    k: int,
)
    requires
        patches_fit(patches, data.len()),
        0 <= k < data.len(),
        forall|j: int| 0 <= j < patches.len() ==> k < (#[trigger] patches[j]).target || k >= patches[j].end(),
    ensures
        resolve_patches(patches, locations, data).0.len() == data.len(),
        resolve_patches(patches, locations, data).0[k] == data[k],
    decreases patches.len(),
{
    if patches.len() > 0 {
        let step = patches.first().applied(locations, data);
        let rest = patches.drop_first();
        assert(patches[0].end() <= data.len());
        assert(k < patches[0].target || k >= patches[0].end());
        if step.1 is Ok {
            assert(patches_fit(rest, step.0.len())) by {
                assert forall|i: int| 0 <= i < rest.len() implies (#[trigger] rest[i]).end()
                    <= step.0.len() by {
                    assert(rest[i] == patches[i + 1]);
                }
                assert forall|i: int, j: int| 0 <= i < j < rest.len() implies (#[trigger] rest[i]).end() <= (
                #[trigger] rest[j]).target by {
                    assert(rest[i] == patches[i + 1]);
                    assert(rest[j] == patches[j + 1]);
                }
            }
            assert forall|j: int| 0 <= j < rest.len() implies k < (#[trigger] rest[j]).target || k
                >= rest[j].end() by {
                assert(rest[j] == patches[j + 1]);
            }
            lemma_resolve_frame(rest, locations, step.0, k);
        }
    }
}

/// Where writes that fit have all been made, the bytes of each are in the
/// buffer at its place: the number that it asks of the range that its label
/// has in the end, as a value of its type in its byte order.
pub proof fn lemma_resolved_bytes(
    patches: Seq<PatchView>,
    locations: Map<Seq<char>, RangeView>,
    data: Seq<u8>,
    i: int,
)
    requires
        patches_fit(patches, data.len()),
        0 <= i < patches.len(),
        resolve_patches(patches, locations, data).1 is Ok,
    ensures
        resolve_patches(patches, locations, data).0.len() == data.len(),
        locations.contains_key(patches[i].label.name),
        patches[i].int_type.holds(query_value(patches[i].query, locations[patches[i].label.name])),
        resolve_patches(patches, locations, data).0.subrange(
            patches[i].target as int,
            patches[i].end() as int,
        ) == encode(
            patches[i].int_type,
            patches[i].order,
            query_value(patches[i].query, locations[patches[i].label.name]),
        ),
    decreases patches.len(),
{
    let step = patches.first().applied(locations, data);
    let rest = patches.drop_first();
    let out = resolve_patches(patches, locations, data).0;
    lemma_resolve_len(patches, locations, data);
    assert(patches[0].end() <= data.len());
    assert(patches_fit(rest, step.0.len())) by {
        assert forall|a: int| 0 <= a < rest.len() implies (#[trigger] rest[a]).end() <= step.0.len() by {
            assert(rest[a] == patches[a + 1]);
        }
        assert forall|a: int, b: int| 0 <= a < b < rest.len() implies (#[trigger] rest[a]).end() <= (
        #[trigger] rest[b]).target by {
            assert(rest[a] == patches[a + 1]);
            assert(rest[b] == patches[b + 1]);
        }
    }
    if i == 0 {
        let first = patches[0];
        let bytes = first.bytes(locations)->Ok_0;
        assert forall|k: int| first.target <= k < first.end() implies out[k] == bytes[k - first.target] by {
            assert forall|j: int| 0 <= j < rest.len() implies k < (#[trigger] rest[j]).target || k
                >= rest[j].end() by {
                assert(rest[j] == patches[j + 1]);
                assert(patches[0].end() <= patches[j + 1].target);
            }
            lemma_resolve_frame(rest, locations, step.0, k);
        }
        lemma_resolve_len(patches, locations, data);
        assert(out.subrange(first.target as int, first.end() as int) =~= bytes);
    } else {
        assert(rest[i - 1] == patches[i]);
        lemma_resolved_bytes(rest, locations, step.0, i - 1);
    }
}

} // verus!
