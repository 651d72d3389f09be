use coredit::selections::storage::SelectionStorage;
use coredit::{
    Buffer, CursorDirection, DeltaType, Error, LineLength, PositionUnbound, PositiveUsize,
    SelectionUnbound,
};
use std::cmp::Ordering;
use std::collections::HashMap;

#[test]
fn positive_usize_stops_at_one() {
    assert_eq!(PositiveUsize::from(0).get(), 1);
    assert_eq!(PositiveUsize::default().get(), 1);
    assert_eq!((PositiveUsize::from(7) - PositiveUsize::from(7)).get(), 1);
    assert_eq!((PositiveUsize::from(7) - PositiveUsize::from(3)).get(), 4);
    let mut index = PositiveUsize::from(5);
    index.sub_assign(2);
    assert_eq!(index.get(), 3);
    index.sub_assign(3);
    assert_eq!(index.get(), 1);
    index.add_assign(9);
    assert_eq!(index.get(), 10);
    assert_eq!(usize::from(index), 10);
    assert_eq!(index.to_string(), "10");
}

#[test]
fn positions_are_in_order_of_line_then_column() {
    let a = PositionUnbound::new(2, 9);
    let b = PositionUnbound::new(3, 1);
    assert!(a.lt(&b) && a.le(&b) && !b.lt(&a) && !a.same(&b));
    assert!(a.le(&a) && !a.lt(&a) && a.same(&a));
    assert!(a < b);
    assert_eq!(PositionUnbound::new(0, 0), PositionUnbound::default());
}

#[test]
fn successor_and_predecessor_at_the_bounds() {
    let mut line_length = HashMap::new();
    line_length.insert(1, 3);
    line_length.insert(2, 1);
    assert_eq!(line_length.lines_count(), 2);
    assert_eq!(line_length.line_length(2), Some(1));
    assert_eq!(line_length.line_length(3), None);
    let first = PositionUnbound::new(1, 1);
    assert_eq!(first.predecessor(&line_length), None);
    assert_eq!(first.successor(&line_length), Some(PositionUnbound::new(1, 2)));
    let end = PositionUnbound::new(1, 3);
    assert!(end.is_line_end(&line_length));
    assert!(!first.is_line_end(&line_length));
    assert_eq!(end.successor(&line_length), Some(PositionUnbound::new(2, 1)));
    let last = PositionUnbound::new(2, 1);
    assert_eq!(last.successor(&line_length), None);
    assert_eq!(last.predecessor(&line_length), Some(end));
    let empty: HashMap<usize, usize> = HashMap::new();
    assert_eq!(empty.lines_count(), 0);
}

#[test]
fn nudges() {
    let mut s = SelectionUnbound::new_quick(3, 5, 3, 9, CursorDirection::Backward);
    s.nudge_left(2);
    assert_eq!(s, SelectionUnbound::new_quick(3, 3, 3, 7, CursorDirection::Backward));
    s.nudge_left(4);
    assert_eq!(s, SelectionUnbound::new_quick(3, 1, 3, 3, CursorDirection::Backward));
    s.nudge_right(10);
    assert_eq!(s, SelectionUnbound::new_quick(3, 11, 3, 13, CursorDirection::Backward));
    s.nudge_up(2);
    assert_eq!(s, SelectionUnbound::new_quick(1, 11, 1, 13, CursorDirection::Backward));
    let mut tall = SelectionUnbound::new_quick(3, 5, 4, 9, CursorDirection::Forward);
    tall.nudge_left(2);
    assert_eq!(tall, SelectionUnbound::new_quick(3, 3, 4, 9, CursorDirection::Forward));
    tall.nudge_right(1);
    assert_eq!(tall, SelectionUnbound::new_quick(3, 4, 4, 9, CursorDirection::Forward));
    tall.drop_selection_to_head();
    assert_eq!(tall, SelectionUnbound::new_quick(3, 4, 3, 4, CursorDirection::Forward));
    assert_eq!(*tall.get_cursor(), PositionUnbound::new(3, 4));
    *tall.get_cursor_mut() = PositionUnbound::new(2, 2);
    tall.fix_direction();
    assert_eq!(tall, SelectionUnbound::new_quick(2, 2, 3, 4, CursorDirection::Backward));
    assert_eq!(SelectionUnbound::from(PositionUnbound::new(7, 8)).get_bounds().1.col.get(), 8);
}

#[test]
fn no_selection_under_where_no_line_is_long_enough() {
    let mut line_length = HashMap::new();
    line_length.insert(1, 30);
    line_length.insert(2, 5);
    line_length.insert(3, 5);
    line_length.insert(5, 30);
    let s = SelectionUnbound::new_quick(1, 10, 1, 20, CursorDirection::Forward);
    // line 4 has no length, so that the search ends there
    assert_eq!(s.create_selection_under(&line_length), None);
    line_length.insert(4, 19);
    assert_eq!(
        s.create_selection_under(&line_length),
        Some(SelectionUnbound::new_quick(5, 10, 5, 20, CursorDirection::Forward))
    );
}

#[test]
fn add_selection_reports_what_it_merges() {
    let mut storage = SelectionStorage::gen_from_tuples(&[
        (1, 10, 1, 30, true),
        (2, 10, 2, 30, false),
        (3, 10, 5, 130, true),
    ]);
    assert!(storage.set_main_selection(PositionUnbound::new(2, 10)));
    let incoming = SelectionUnbound::new_quick(1, 20, 2, 20, CursorDirection::Backward);
    let deltas = storage.add_selection(incoming);
    let merged = SelectionUnbound::new_quick(1, 10, 2, 30, CursorDirection::Backward);
    assert_eq!(
        deltas,
        vec![
            DeltaType::SelectionChanged {
                identity: PositionUnbound::new(1, 10),
                new_state: merged,
            },
            DeltaType::SelectionDeleted {
                identity: PositionUnbound::new(2, 10),
            },
            DeltaType::SelectionDeleted {
                identity: PositionUnbound::new(1, 20),
            },
        ]
    );
    assert_eq!(
        storage.iter(),
        vec![
            merged,
            SelectionUnbound::new_quick(3, 10, 5, 130, CursorDirection::Forward)
        ]
    );
    assert_eq!(storage.main_selection_ptr(), PositionUnbound::new(1, 10));
    let apart = SelectionUnbound::new_quick(2, 40, 2, 41, CursorDirection::Forward);
    assert_eq!(
        storage.add_selection(apart),
        vec![DeltaType::SelectionAdded { selection: apart }]
    );
    // a selection that holds others swallows them
    let wide = SelectionUnbound::new_quick(1, 1, 9, 9, CursorDirection::Forward);
    let deltas = storage.add_selection(wide);
    assert_eq!(deltas.len(), 4);
    assert_eq!(storage.iter(), vec![wide]);
    assert_eq!(storage.main_selection_ptr(), PositionUnbound::new(1, 1));
}

#[test]
fn a_merge_forgets_the_sticky_column() {
    let mut storage = SelectionStorage::gen_from_tuples(&[(2, 1, 2, 1, true)]);
    let incoming =
        SelectionUnbound::new_quick(2, 1, 2, 1, CursorDirection::Forward).with_sticky(6);
    storage.add_selection(incoming);
    assert_eq!(
        storage.iter(),
        vec![SelectionUnbound::new_quick(2, 1, 2, 1, CursorDirection::Forward)]
    );
}

#[test]
fn neighbours_and_replacement() {
    let mut storage = SelectionStorage::gen_from_tuples(&[
        (1, 10, 1, 30, true),
        (2, 10, 2, 30, true),
        (3, 10, 5, 130, true),
    ]);
    let second = SelectionUnbound::new_quick(2, 10, 2, 30, CursorDirection::Forward);
    assert_eq!(
        storage.get_first_before(&second),
        Some(SelectionUnbound::new_quick(1, 10, 1, 30, CursorDirection::Forward))
    );
    let first = storage.iter()[0];
    assert_eq!(storage.get_first_before(&first), None);
    assert_eq!(storage.last().from, PositionUnbound::new(3, 10));
    storage.replace_selection(SelectionUnbound::new_quick(
        2,
        10,
        2,
        10,
        CursorDirection::Forward,
    ));
    assert_eq!(storage.iter()[1].to, PositionUnbound::new(2, 10));
    storage.move_left_on_line(1, 5, 4);
    assert_eq!(
        storage.iter()[0],
        SelectionUnbound::new_quick(1, 6, 1, 26, CursorDirection::Forward)
    );
    storage.move_left_on_line(1, 6, 4);
    assert_eq!(storage.iter()[0].from, PositionUnbound::new(1, 6));
    assert_eq!(
        storage.iter_from(&PositionUnbound::new(2, 11)).len(),
        1
    );
    assert_eq!(SelectionStorage::new().iter().len(), 1);
    assert_eq!(SelectionStorage::gen_from_tuples(&[]).iter(), SelectionStorage::new().iter());
    // a tuple that overlaps one before it is left out, ends out of order are put in order
    assert_eq!(
        SelectionStorage::gen_from_tuples(&[(2, 5, 1, 5, true), (1, 9, 1, 9, true)]).iter(),
        vec![SelectionUnbound::new_quick(1, 5, 2, 5, CursorDirection::Backward)]
    );
}

#[test]
fn typed_text_pushes_the_selections_of_a_line_one_after_the_other() {
    let mut storage = SelectionStorage::gen_from_tuples(&[
        (1, 2, 1, 2, true),
        (1, 5, 1, 7, true),
        (1, 9, 1, 11, false),
        (2, 1, 2, 1, true),
    ]);
    storage.move_right_incremental(3);
    assert_eq!(
        storage.iter(),
        vec![
            SelectionUnbound::new_quick(1, 5, 1, 13, CursorDirection::Forward),
            SelectionUnbound::new_quick(1, 18, 1, 20, CursorDirection::Backward),
            SelectionUnbound::new_quick(2, 4, 2, 4, CursorDirection::Forward),
        ]
    );
    let mut storage = SelectionStorage::gen_from_tuples(&[
        (1, 2, 1, 2, true),
        (1, 5, 1, 7, true),
        (2, 3, 2, 6, false),
    ]);
    storage.move_down_incremental(2);
    assert_eq!(
        storage.iter(),
        vec![
            SelectionUnbound::new_quick(3, 1, 3, 1, CursorDirection::Forward),
            SelectionUnbound::new_quick(3, 5, 5, 1, CursorDirection::Forward),
            SelectionUnbound::new_quick(8, 1, 8, 4, CursorDirection::Backward),
        ]
    );
    let mut wide = SelectionStorage::gen_from_tuples(&[(1, usize::MAX - 1, 1, usize::MAX, true)]);
    assert!(!wide.try_move_right_incremental(2));
    assert!(!wide.try_move_down_incremental(usize::MAX));
    assert_eq!(wide.iter()[0].to.col.get(), usize::MAX);
}

#[test]
fn bytes_that_are_no_text_are_an_error() {
    let error = Buffer::from_reader(&[b'a', 0xff, b'b']).unwrap_err();
    assert!(matches!(error, Error::CreateFromReader(_)));
    assert!(error
        .to_string()
        .starts_with("Unable to create buffer with reader: "));
    assert!(error.to_string().len() > "Unable to create buffer with reader: ".len());
    let buffer = Buffer::from_reader("grüße\r\nwelt".as_bytes()).unwrap();
    assert_eq!(buffer.to_string(), "grüße\r\nwelt");
    assert_eq!(buffer.get_rope().len_chars(), 11);
    assert_eq!(buffer.lines_count(), 2);
    assert_eq!(buffer.line_length(1), Some(6));
    assert_eq!(buffer.line_length(2), Some(5));
    assert_eq!(buffer.line_length(0), None);
    assert_eq!(buffer.line_length(3), None);
}

#[test]
fn an_empty_buffer_has_one_line_of_one_slot() {
    let mut buffer = Buffer::empty();
    assert_eq!(buffer.to_string(), "");
    assert_eq!(buffer.lines_count(), 1);
    assert_eq!(buffer.line_length(1), Some(1));
    assert_eq!(
        buffer.internal_selections_iter(),
        vec![SelectionUnbound::new_quick(1, 1, 1, 1, CursorDirection::Forward)]
    );
    assert_eq!(buffer.main_selection(), PositionUnbound::new(1, 1));
    assert!(buffer.delete().0);
    assert_eq!(buffer.to_string(), "");
    buffer.move_right(3, true);
    buffer.move_down(3, true);
    assert!(buffer.internal_selections_iter()[0].is_point());
    assert!(buffer.insert("a\r\n\nb").is_some());
    assert_eq!(buffer.to_string(), "a\r\n\nb");
    assert_eq!(
        buffer.internal_selections_iter(),
        vec![SelectionUnbound::new_quick(3, 2, 3, 2, CursorDirection::Forward)]
    );
}

#[test]
fn positions_and_selections_of_a_buffer() {
    let mut buffer = Buffer::from_reader("one\ntwo\nthree".as_bytes()).unwrap();
    let other = Buffer::from_reader("one\ntwo\nthree".as_bytes()).unwrap();
    buffer.move_right(1, false);
    buffer.move_down(1, true);
    let p = buffer.create_position(1, 4);
    assert_eq!((p.line(), p.col()), (1, 4));
    assert!(p.is_line_end());
    let next = p.successor().unwrap();
    assert_eq!((next.line(), next.col()), (2, 1));
    assert!(p < next && next > p && p == p);
    assert_eq!(next.predecessor().unwrap(), p);
    assert!(buffer.create_position(1, 1).predecessor().is_none());
    // positions of two buffers are neither equal nor in order
    let elsewhere = other.create_position(1, 4);
    assert!(p != elsewhere);
    assert_eq!(p.partial_cmp(&elsewhere), None);
    assert!(buffer == buffer && buffer != other);
    let selections = buffer.selections_iter();
    assert_eq!(selections.len(), 1);
    assert!(!selections[0].is_point());
    assert_eq!(selections[0].cursor_direction(), CursorDirection::Forward);
    assert_eq!(selections[0].from(), buffer.create_position(1, 2));
    assert_eq!(selections[0].to(), buffer.create_position(2, 2));
    assert_eq!(buffer.selections_at(2), selections);
    assert!(buffer.selections_at(3).is_empty());
    assert!(selections[0] != other.selections_iter()[0]);
}

#[test]
fn the_copy_under_the_main_selection_is_the_main_selection() {
    let mut buffer = Buffer::from_reader("one\ntwo\nthree".as_bytes()).unwrap();
    buffer.move_right(2, false);
    let deltas = buffer.place_selection_under();
    assert_eq!(deltas.len(), 1);
    assert_eq!(
        deltas[0].delta_type,
        DeltaType::SelectionAdded {
            selection: SelectionUnbound::new_quick(2, 3, 2, 3, CursorDirection::Forward)
        }
    );
    assert_eq!(buffer.main_selection(), PositionUnbound::new(2, 3));
    buffer.place_selection_under();
    assert_eq!(buffer.main_selection(), PositionUnbound::new(3, 3));
    assert_eq!(buffer.internal_selections_iter().len(), 3);
    // the copies of the first two fall on the selections under them, and
    // no line is left for a copy of the third
    assert_eq!(buffer.place_selection_under().len(), 2);
    assert_eq!(buffer.internal_selections_iter().len(), 3);
    assert_eq!(buffer.main_selection(), PositionUnbound::new(3, 3));
}

#[test]
fn edits_that_cannot_be_done_change_nothing() {
    let mut buffer = Buffer::from_reader("one\ntwo".as_bytes()).unwrap();
    buffer.set_selections(SelectionStorage::gen_from_tuples(&[(1, 2, 1, 9, true)]));
    assert!(!buffer.is_coherent());
    assert!(buffer.insert("x").is_none());
    assert!(!buffer.delete().0);
    assert_eq!(buffer.to_string(), "one\ntwo");
    assert_eq!(
        buffer.internal_selections_iter(),
        vec![SelectionUnbound::new_quick(1, 2, 1, 9, CursorDirection::Forward)]
    );
    buffer.set_selections(SelectionStorage::gen_from_tuples(&[(1, 2, 1, 2, true), (5, 1, 5, 1, true)]));
    assert!(!buffer.delete().0);
    assert_eq!(buffer.to_string(), "one\ntwo");
}

#[test]
fn a_selection_over_a_line_break_can_leave_the_text_on_insertion() {
    // the second selection begins on the line of the first, and its cursor
    // stands on the next line: typed text pushes its tail as if the cursor
    // before it were on the same line
    let mut buffer = Buffer::from_reader("ab\n".as_bytes()).unwrap();
    buffer.set_selections(SelectionStorage::gen_from_tuples(&[
        (1, 1, 1, 1, true),
        (1, 2, 2, 1, true),
    ]));
    assert!(buffer.is_coherent());
    assert!(buffer.insert("xy").is_some());
    assert_eq!(buffer.to_string(), "xyab\nxy");
    assert_eq!(
        buffer.internal_selections_iter(),
        vec![SelectionUnbound::new_quick(1, 2, 2, 5, CursorDirection::Forward)]
    );
    assert_eq!(buffer.line_length(2), Some(3));
    assert!(!buffer.is_coherent());
}

#[test]
fn helpers_that_edit_the_text_alone() {
    let mut buffer = Buffer::from_reader("one\r\ntwo\nthree".as_bytes()).unwrap();
    buffer.insert_for_test(2, 4, "!");
    assert_eq!(buffer.to_string(), "one\r\ntwo!\nthree");
    buffer.delete_for_test(1, 2, 1, 4);
    assert_eq!(buffer.to_string(), "otwo!\nthree");
    buffer.delete_for_test(1, 5, 2, 2);
    assert_eq!(buffer.to_string(), "otworee");
    assert_eq!(
        buffer.internal_selections_iter(),
        vec![SelectionUnbound::new_quick(1, 1, 1, 1, CursorDirection::Forward)]
    );
}

#[test]
fn storages_are_equal_if_their_selections_are() {
    let tuples = [(1, 1, 1, 4, true), (2, 2, 2, 2, true)];
    let mut a = SelectionStorage::gen_from_tuples(&tuples);
    let b = SelectionStorage::gen_from_tuples(&tuples);
    assert_eq!(a, b);
    assert!(a.set_main_selection(PositionUnbound::new(2, 2)));
    assert_eq!(a, b);
    assert_eq!(a.duplicate(), a);
    a.swap_cursor();
    assert_ne!(a, b);
    assert_ne!(a, SelectionStorage::new());
}

#[test]
fn a_selection_is_well_formed_with_ends_in_order_and_a_forward_point() {
    assert!(SelectionUnbound::new_quick(1, 1, 2, 3, CursorDirection::Backward).is_well_formed());
    assert!(SelectionUnbound::new_quick(1, 1, 1, 1, CursorDirection::Forward).is_well_formed());
    assert!(!SelectionUnbound::new_quick(2, 3, 1, 1, CursorDirection::Forward).is_well_formed());
    assert!(!SelectionUnbound::new_quick(1, 4, 1, 4, CursorDirection::Backward).is_well_formed());
    let mut mended = SelectionUnbound::new_quick(1, 4, 1, 4, CursorDirection::Backward);
    mended.fix_direction();
    assert!(mended.is_well_formed());
}

#[test]
fn a_function_is_applied_once_to_each_selection_and_what_overlaps_is_merged() {
    let mut storage =
        SelectionStorage::gen_from_tuples(&[(1, 1, 1, 2, true), (1, 5, 1, 6, true), (3, 1, 3, 1, true)]);
    let calls = std::cell::Cell::new(0);
    let deltas = storage.apply_to_selections(|s: SelectionUnbound| {
        calls.set(calls.get() + 1);
        SelectionUnbound::new_quick(
            s.from.line.get(),
            1,
            s.to.line.get(),
            3,
            CursorDirection::Forward,
        )
    });
    assert_eq!(calls.get(), 3);
    assert_eq!(
        storage.iter(),
        vec![
            SelectionUnbound::new_quick(1, 1, 1, 3, CursorDirection::Forward),
            SelectionUnbound::new_quick(3, 1, 3, 3, CursorDirection::Forward),
        ]
    );
    assert_eq!(
        deltas,
        vec![
            DeltaType::SelectionChanged {
                identity: PositionUnbound::new(1, 1),
                new_state: SelectionUnbound::new_quick(1, 1, 1, 3, CursorDirection::Forward),
            },
            DeltaType::SelectionChanged {
                identity: PositionUnbound::new(1, 1),
                new_state: SelectionUnbound::new_quick(1, 1, 1, 3, CursorDirection::Forward),
            },
            DeltaType::SelectionDeleted {
                identity: PositionUnbound::new(1, 1),
            },
            DeltaType::SelectionChanged {
                identity: PositionUnbound::new(3, 1),
                new_state: SelectionUnbound::new_quick(3, 1, 3, 3, CursorDirection::Forward),
            },
        ]
    );
}

#[test]
fn the_rope_of_a_buffer_can_be_read() {
    let buffer = Buffer::from_reader("one\ntwo".as_bytes()).unwrap();
    let rope: &coredit::Rope = buffer.get_rope();
    assert_eq!(rope.len_chars(), 7);
    assert_eq!(rope.len_lines(), 2);
    assert_eq!(rope.line(1).to_string(), "two");
}

#[test]
fn positions_of_two_buffers_do_not_compare() {
    let a = PositionUnbound::new(2, 9);
    let b = PositionUnbound::new(3, 1);
    assert_eq!(PositionUnbound::order_where(true, &a, &b), Some(Ordering::Less));
    assert_eq!(PositionUnbound::order_where(true, &b, &a), Some(Ordering::Greater));
    assert_eq!(PositionUnbound::order_where(true, &a, &a), Some(Ordering::Equal));
    assert_eq!(PositionUnbound::order_where(false, &a, &b), None);
    assert_eq!(PositionUnbound::order_where(false, &a, &a), None);
    assert!(PositionUnbound::equal_where(true, &a, &a));
    assert!(!PositionUnbound::equal_where(true, &a, &b));
    assert!(!PositionUnbound::equal_where(false, &a, &a));
    let s = SelectionUnbound::new_quick(1, 1, 1, 4, CursorDirection::Forward);
    let t = SelectionUnbound::new_quick(1, 1, 1, 4, CursorDirection::Backward);
    assert!(SelectionUnbound::equal_where(true, &s, &s));
    assert!(!SelectionUnbound::equal_where(true, &s, &t));
    assert!(!SelectionUnbound::equal_where(false, &s, &s));

    let one = Buffer::from_reader("ab\ncd".as_bytes()).unwrap();
    let other = Buffer::from_reader("ab\ncd".as_bytes()).unwrap();
    assert_eq!(
        one.create_position(1, 2).partial_cmp(&one.create_position(2, 1)),
        Some(Ordering::Less)
    );
    assert_eq!(
        one.create_position(2, 1).partial_cmp(&one.create_position(2, 1)),
        Some(Ordering::Equal)
    );
    assert_eq!(one.create_position(1, 2).partial_cmp(&other.create_position(2, 1)), None);
    assert!(one.create_position(1, 2) == one.create_position(1, 2));
    assert!(one.create_position(1, 2) != other.create_position(1, 2));
}

#[test]
fn the_message_of_an_error_is_the_prefix_and_the_cause() {
    assert_eq!(
        Error::message_of("stream did not contain valid UTF-8"),
        "Unable to create buffer with reader: stream did not contain valid UTF-8"
    );
    assert_eq!(Error::message_of(""), "Unable to create buffer with reader: ");
    let cause = std::io::Error::new(std::io::ErrorKind::Other, "the cause");
    assert_eq!(
        Error::CreateFromReader(cause).to_string(),
        "Unable to create buffer with reader: the cause"
    );
}
