use datalit::error::Error;
use datalit::parse::base::PrimitiveSpec;
use datalit::state::support::DataRange;
use datalit::state::support::EvalCall;
use datalit::state::support::LocationMap;
use datalit::state::support::PatchOp;
use datalit::state::support::Query;
use datalit::state::EntryState;
use datalit::to_bytes::native_byte_order;
use datalit::to_bytes::ByteOrder;
use datalit::to_bytes::Endianness;
use datalit::to_bytes::IntType;
use datalit::token::Ident;
use datalit::token::Label;
use datalit::token::Site;

fn spot(index: usize) -> Site {
    Site { index }
}

fn primitive(name: &str) -> PrimitiveSpec {
    PrimitiveSpec::parse(Ident::new(name, spot(0))).expect("the name of a type")
}

fn asks(query: Query, label: &str) -> EvalCall {
    EvalCall::new(query, Label::new(label, spot(1)))
}

fn one_label(name: &str, start: usize, end: usize) -> LocationMap {
    let mut map = LocationMap::new();
    map.insert(name.to_string(), DataRange::new(start, end));
    map
}

#[test]
fn data_range_keeps_its_ends() {
    let range = DataRange::new(3, 10);
    assert_eq!(range.start(), 3);
    assert_eq!(range.end(), 10);
    assert_eq!(range.size(), 7);
    assert_eq!(range.size(), range.end() - range.start());
    let empty = DataRange::new(4, 4);
    assert_eq!(empty.size(), 0);
    assert_eq!(DataRange::new(0, usize::MAX).size(), usize::MAX);
}

#[test]
fn location_map_gives_back_what_was_put_in() {
    let mut map = LocationMap::new();
    assert_eq!(map.get("a"), None);
    map.insert("a".to_string(), DataRange::new(0, 1));
    map.insert("b".to_string(), DataRange::new(1, 5));
    map.insert("".to_string(), DataRange::new(5, 5));
    assert_eq!(map.get("a"), Some(DataRange::new(0, 1)));
    assert_eq!(map.get("b"), Some(DataRange::new(1, 5)));
    assert_eq!(map.get(""), Some(DataRange::new(5, 5)));
    assert_eq!(map.get("c"), None);
    assert_eq!(map.get("A"), None);
    assert_eq!(LocationMap::default().get("a"), None);
}

#[test]
fn primitive_spec_reads_type_and_byte_order() {
    let plain = primitive("u16");
    assert_eq!(plain.int_type(), IntType::U16);
    assert_eq!(plain.endianness(), None);
    let tagged = primitive("i32_be");
    assert_eq!(tagged.int_type(), IntType::I32);
    assert_eq!(tagged.endianness(), Some(Endianness::Big));
    let joined = primitive("u24le");
    assert_eq!(joined.int_type(), IntType::U24);
    assert_eq!(joined.endianness(), Some(Endianness::Little));
    assert_eq!(primitive("usize_ne").endianness(), Some(Endianness::Native));
}

#[test]
fn primitive_spec_refuses_what_names_no_type() {
    for name in ["", "le", "u7", "u16_xe", "f32", "u16 "].iter() {
        assert_eq!(
            PrimitiveSpec::parse(Ident::new(name, spot(9))).err(),
            Some(Error::InvalidSuffix { site: spot(9) })
        );
    }
}

#[test]
fn primitive_spec_writes_in_its_own_order_or_the_default() {
    let mut buffer = [7u8; 4];
    assert_eq!(
        primitive("u16_be").write_int(Endianness::Little, ByteOrder::Little, 0x0102, &mut buffer),
        Ok(())
    );
    assert_eq!(buffer, [1, 2, 7, 7]);
    assert_eq!(
        primitive("u16").write_int(Endianness::Little, ByteOrder::Big, 0x0102, &mut buffer),
        Ok(())
    );
    assert_eq!(buffer, [2, 1, 7, 7]);
    assert_eq!(
        primitive("u16").write_int(Endianness::Native, ByteOrder::Big, 0x0102, &mut buffer),
        Ok(())
    );
    assert_eq!(buffer, [1, 2, 7, 7]);
    assert_eq!(
        primitive("u8").write_int(Endianness::Native, ByteOrder::Big, 256, &mut buffer),
        Err(Error::OutOfRange)
    );
    assert_eq!(buffer, [1, 2, 7, 7]);
}

#[test]
fn eval_call_asks_start_end_and_length() {
    let map = one_label("blk", 2, 5);
    assert_eq!(asks(Query::Start, "blk").eval(&map), Ok(2));
    assert_eq!(asks(Query::End, "blk").eval(&map), Ok(5));
    assert_eq!(asks(Query::Len, "blk").eval(&map), Ok(3));
    assert_eq!(
        asks(Query::Start, "other").eval(&map),
        Err(Error::UndefinedLabel { label: "other".to_string(), site: spot(1) })
    );
}

#[test]
fn patch_op_writes_at_its_offset() {
    let map = one_label("blk", 0x0102, 0x0304);
    let mut data = vec![9u8; 6];
    let op = PatchOp::new(
        2,
        asks(Query::End, "blk"),
        primitive("u16"),
        Endianness::Big,
        ByteOrder::Little,
    );
    assert_eq!(op.apply(&map, &mut data), Ok(()));
    assert_eq!(data, vec![9, 9, 3, 4, 9, 9]);
    let op = PatchOp::new(
        4,
        asks(Query::Len, "blk"),
        primitive("u16_le"),
        Endianness::Big,
        ByteOrder::Big,
    );
    assert_eq!(op.apply(&map, &mut data), Ok(()));
    assert_eq!(data, vec![9, 9, 3, 4, 2, 2]);
}

#[test]
fn patch_op_that_fails_leaves_the_buffer() {
    let map = one_label("blk", 0, 300);
    let mut data = vec![9u8; 3];
    let op = PatchOp::new(
        1,
        asks(Query::End, "blk"),
        primitive("u8"),
        Endianness::Big,
        ByteOrder::Little,
    );
    assert_eq!(op.apply(&map, &mut data), Err(Error::OutOfRange));
    assert_eq!(data, vec![9, 9, 9]);
    let op = PatchOp::new(
        1,
        asks(Query::End, "gone"),
        primitive("u8"),
        Endianness::Big,
        ByteOrder::Little,
    );
    assert_eq!(
        op.apply(&map, &mut data),
        Err(Error::UndefinedLabel { label: "gone".to_string(), site: spot(1) })
    );
    assert_eq!(data, vec![9, 9, 9]);
}

#[test]
fn new_state_is_empty_and_native() {
    let state = EntryState::new();
    assert_eq!(state.curr_offset(), 0);
    assert_eq!(state.data(), []);
    assert_eq!(state.endian_mode(), Endianness::Native);
    assert_eq!(state.native(), native_byte_order());
    assert!(!state.label_context_frozen());
    assert_eq!(state.location_map().get("a"), None);
    assert_eq!(state.check(), Ok(()));
    let state = EntryState::with_native(ByteOrder::Big);
    assert_eq!(state.native(), ByteOrder::Big);
    assert_eq!(state.endian_mode(), Endianness::Native);
}

#[test]
fn append_and_advance_move_the_offset() {
    let mut state = EntryState::with_native(ByteOrder::Little);
    state.append_bytes(&[1, 2, 3]);
    assert_eq!(state.curr_offset(), 3);
    state.advance_bytes(2);
    assert_eq!(state.curr_offset(), 5);
    state.advance_bytes(0);
    state.append_bytes(&[]);
    assert_eq!(state.curr_offset(), 5);
    state.append_bytes(&[4]);
    assert_eq!(state.data(), [1, 2, 3, 0, 0, 4]);
    assert_eq!(state.curr_offset(), state.data().len());
}

#[test]
fn endian_mode_is_what_was_set_last() {
    let mut state = EntryState::with_native(ByteOrder::Little);
    state.set_endian_mode(Endianness::Big);
    assert_eq!(state.endian_mode(), Endianness::Big);
    state.set_endian_mode(Endianness::Little);
    assert_eq!(state.endian_mode(), Endianness::Little);
    assert_eq!(state.native(), ByteOrder::Little);
}

#[test]
fn freezing_gives_back_what_was_before() {
    let mut state = EntryState::with_native(ByteOrder::Little);
    let outer = state.freeze_label_context();
    assert!(!outer);
    assert!(state.label_context_frozen());
    let inner = state.freeze_label_context();
    assert!(inner);
    state.unfreeze_label_context(inner);
    assert!(state.label_context_frozen());
    state.unfreeze_label_context(outer);
    assert!(!state.label_context_frozen());
}

#[test]
fn label_is_defined_once() {
    let mut state = EntryState::with_native(ByteOrder::Little);
    state.append_bytes(&[0; 8]);
    assert_eq!(state.report_label_def(&Label::new("a", spot(10)), 0, 4), Ok(()));
    assert_eq!(state.report_label_def(&Label::new("b", spot(11)), 4, 8), Ok(()));
    assert_eq!(
        state.report_label_def(&Label::new("a", spot(12)), 4, 8),
        Err(Error::DuplicateLabel {
            label: "a".to_string(),
            site: spot(12),
            original: spot(10),
        })
    );
    assert_eq!(state.location_map().get("a"), Some(DataRange::new(0, 4)));
    assert_eq!(state.location_map().get("b"), Some(DataRange::new(4, 8)));
    assert_eq!(
        state.report_label_def(&Label::new("a", spot(13)), 0, 4),
        Err(Error::DuplicateLabel {
            label: "a".to_string(),
            site: spot(13),
            original: spot(10),
        })
    );
}

#[test]
fn check_passes_when_every_used_label_is_defined() {
    let mut state = EntryState::with_native(ByteOrder::Little);
    state.report_label_use(&Label::new("later", spot(1)));
    state.report_label_use(&Label::new("sooner", spot(2)));
    assert_eq!(state.report_label_def(&Label::new("sooner", spot(3)), 0, 0), Ok(()));
    assert_eq!(state.report_label_def(&Label::new("later", spot(4)), 0, 0), Ok(()));
    assert_eq!(state.report_label_def(&Label::new("unused", spot(5)), 0, 0), Ok(()));
    assert_eq!(state.check(), Ok(()));
}

#[test]
fn check_lists_every_undefined_label_by_name() {
    let mut state = EntryState::with_native(ByteOrder::Little);
    state.report_label_use(&Label::new("pear", spot(1)));
    state.report_label_use(&Label::new("apple", spot(2)));
    state.report_label_use(&Label::new("fig", spot(3)));
    state.report_label_use(&Label::new("pear", spot(4)));
    state.report_label_use(&Label::new("app", spot(5)));
    state.report_label_use(&Label::new("zebra", spot(6)));
    assert_eq!(state.report_label_def(&Label::new("fig", spot(7)), 0, 0), Ok(()));
    assert_eq!(
        state.check(),
        Err(Error::UndefinedLabels {
            uses: vec![
                Label::new("app", spot(5)),
                Label::new("apple", spot(2)),
                Label::new("pear", spot(1)),
                Label::new("zebra", spot(6)),
            ],
        })
    );
}

#[test]
fn check_orders_names_as_strings_are_ordered() {
    let mut state = EntryState::with_native(ByteOrder::Little);
    let names = ["b", "a", "B", "ab", "", "a_", "a1", "\u{e9}", "z"];
    for (i, name) in names.iter().enumerate() {
        state.report_label_use(&Label::new(name, spot(i)));
    }
    let mut sorted: Vec<&str> = names.to_vec();
    sorted.sort();
    let listed = match state.check() {
        Err(Error::UndefinedLabels { uses }) => uses,
        other => panic!("expected the undefined labels, got {:?}", other),
    };
    let listed_names: Vec<&str> = listed.iter().map(|label| label.name.as_str()).collect();
    assert_eq!(listed_names, sorted);
}

#[test]
fn generate_data_makes_the_writes_in_order() {
    let mut state = EntryState::with_native(ByteOrder::Little);
    state.append_bytes(&[0xAA]);
    let label = Label::new("end", spot(1));
    state.report_label_use(&label);
    let at = state.curr_offset();
    state.advance_bytes(2);
    state.defer_patch_op(PatchOp::new(
        at,
        EvalCall::new(Query::Start, label.duplicate()),
        primitive("u16"),
        Endianness::Big,
        ByteOrder::Little,
    ));
    let at = state.curr_offset();
    state.advance_bytes(1);
    state.defer_patch_op(PatchOp::new(
        at,
        EvalCall::new(Query::Len, label.duplicate()),
        primitive("u8"),
        Endianness::Big,
        ByteOrder::Little,
    ));
    let start = state.curr_offset();
    state.append_bytes(&[1, 2, 3]);
    assert_eq!(state.report_label_def(&label, start, state.curr_offset()), Ok(()));
    assert_eq!(state.data(), [0xAA, 0, 0, 0, 1, 2, 3]);
    assert_eq!(state.check(), Ok(()));
    assert_eq!(state.generate_data(), Ok(vec![0xAA, 0, 4, 3, 1, 2, 3]));
    assert_eq!(state.data(), [0xAA, 0, 4, 3, 1, 2, 3]);
    assert_eq!(state.generate_data(), Ok(vec![0xAA, 0, 4, 3, 1, 2, 3]));
}

#[test]
fn generate_data_stops_at_the_first_write_that_fails() {
    let mut state = EntryState::with_native(ByteOrder::Little);
    let near = Label::new("near", spot(1));
    let far = Label::new("far", spot(2));
    state.report_label_use(&near);
    state.report_label_use(&far);
    state.advance_bytes(1);
    state.defer_patch_op(PatchOp::new(
        0,
        EvalCall::new(Query::End, near.duplicate()),
        primitive("u8"),
        Endianness::Little,
        ByteOrder::Little,
    ));
    state.advance_bytes(1);
    state.defer_patch_op(PatchOp::new(
        1,
        EvalCall::new(Query::End, far.duplicate()),
        primitive("u8"),
        Endianness::Little,
        ByteOrder::Little,
    ));
    state.advance_bytes(1);
    state.defer_patch_op(PatchOp::new(
        2,
        EvalCall::new(Query::Start, far.duplicate()),
        primitive("u8"),
        Endianness::Little,
        ByteOrder::Little,
    ));
    assert_eq!(state.report_label_def(&near, 0, 3), Ok(()));
    state.advance_bytes(300);
    assert_eq!(state.report_label_def(&far, 3, 303), Ok(()));
    assert_eq!(state.generate_data(), Err(Error::OutOfRange));
    assert_eq!(state.data()[0..3], [3, 0, 0]);
    let mut untouched = vec![3u8];
    untouched.resize(303, 0);
    assert_eq!(state.generate_data(), Ok(untouched));
}

#[test]
fn write_may_be_put_off_before_its_bytes_are_there() {
    let mut state = EntryState::with_native(ByteOrder::Little);
    let label = Label::new("all", spot(1));
    state.defer_patch_op(PatchOp::new(
        3,
        EvalCall::new(Query::Len, label.duplicate()),
        primitive("u8"),
        Endianness::Little,
        ByteOrder::Little,
    ));
    state.append_bytes(&[9, 9, 9, 9, 9]);
    assert_eq!(state.report_label_def(&label, 0, 5), Ok(()));
    assert_eq!(state.check(), Ok(()));
    assert_eq!(state.generate_data(), Ok(vec![9, 9, 9, 5, 9]));
}

#[test]
fn generate_data_without_check_reports_the_undefined_label() {
    let mut state = EntryState::with_native(ByteOrder::Little);
    let label = Label::new("nowhere", spot(8));
    state.report_label_use(&label);
    state.advance_bytes(4);
    state.defer_patch_op(PatchOp::new(
        0,
        EvalCall::new(Query::Start, label.duplicate()),
        primitive("u32"),
        Endianness::Little,
        ByteOrder::Little,
    ));
    assert_eq!(
        state.generate_data(),
        Err(Error::UndefinedLabel { label: "nowhere".to_string(), site: spot(8) })
    );
}

#[test]
fn into_parts_gives_buffer_and_labels() {
    let mut state = EntryState::with_native(ByteOrder::Little);
    state.append_bytes(&[1, 2]);
    assert_eq!(state.report_label_def(&Label::new("all", spot(0)), 0, 2), Ok(()));
    let (data, labels) = state.into_parts();
    assert_eq!(data, vec![1, 2]);
    assert_eq!(labels.get("all"), Some(DataRange::new(0, 2)));
}
