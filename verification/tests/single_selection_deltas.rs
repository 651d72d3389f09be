use coredit::{Buffer, Delta, DeltaType, SelectionUnbound};

const TEXT: &str = "This will be used to check how ropey represents empty lines\n\
    \n\
    lines. Above is one.\n\
    A rope is a tree of short strings: it takes an edit in the middle of a long text a\n\
    This line is a short one\n\
    s fast as one at its end, and it finds the start of any line without reading the te\n\
    xt before it. The selections are kept apart from it, and in order, so t\n\
    hat any one of them can be moved or edited by itself";

fn load_buffer() -> Buffer {
    Buffer::from_reader(TEXT.as_bytes()).unwrap()
}

fn assert_selections_changed(
    deltas: Vec<Delta>,
    selections_before: Vec<SelectionUnbound>,
    selections_after: Vec<SelectionUnbound>,
) {
    assert!(deltas.len() == selections_before.len() && deltas.len() == selections_after.len());
    for ((d, sb), sa) in deltas
        .into_iter()
        .zip(selections_before.into_iter())
        .zip(selections_after.into_iter())
    {
        assert_eq!(
            d.delta_type,
            DeltaType::SelectionChanged {
                identity: sb.from,
                new_state: sa
            }
        );
    }
}

#[test]
fn test_selection_changed_deltas() {
    let mut buffer = load_buffer();
    // It should be raw as buffer will be modified next
    let selections_before: Vec<SelectionUnbound> =
        buffer.selections_iter().into_iter().map(|s| s.selection).collect();
    let deltas = { buffer.move_right(30, false) };
    let selections_after: Vec<SelectionUnbound> = deltas[0]
        .buffer
        .selections_iter()
        .into_iter()
        .map(|s| s.selection)
        .collect();
    assert_selections_changed(deltas, selections_before, selections_after);
}

#[test]
fn a_movement_reports_each_selection_as_changed_from_where_it_began() {
    let mut buffer = load_buffer();
    buffer.move_right(4, false);
    buffer.place_selection_under();
    let before = buffer.internal_selections_iter();
    assert_eq!(before.len(), 2);
    let deltas = buffer.move_right(3, true);
    let after = deltas[0].buffer.internal_selections_iter();
    assert_eq!(after.len(), 2);
    assert_eq!(before[0].from.col.get(), 5);
    assert_eq!(after[0].to.col.get(), 8);
    assert_selections_changed(deltas, before, after);
}

#[test]
fn an_insertion_reports_each_selection_as_changed() {
    let mut buffer = Buffer::from_reader("one\ntwo".as_bytes()).unwrap();
    buffer.move_right(1, false);
    buffer.place_selection_under();
    let before = buffer.internal_selections_iter();
    assert_eq!(before.len(), 2);
    let deltas = buffer.insert("x\ny").unwrap();
    let after = deltas[0].buffer.internal_selections_iter();
    assert_eq!(deltas[0].buffer.to_string(), "ox\nyne\ntx\nywo");
    assert_eq!(after[0].from.line.get(), 2);
    assert_eq!(after[1].from.line.get(), 4);
    assert_selections_changed(deltas, before, after);
}

#[test]
fn a_deletion_reports_each_selection_as_changed() {
    let mut buffer = Buffer::from_reader("one\ntwo".as_bytes()).unwrap();
    buffer.move_right(1, true);
    buffer.place_selection_under();
    let before = buffer.internal_selections_iter();
    assert_eq!(before.len(), 2);
    let (done, deltas) = buffer.delete();
    assert!(done);
    let after = deltas[0].buffer.internal_selections_iter();
    assert_eq!(deltas[0].buffer.to_string(), "e\no");
    assert!(after.iter().all(|s| s.is_point()));
    assert_selections_changed(deltas, before, after);
}

#[test]
fn a_deletion_that_merges_reports_what_went_and_what_came() {
    let mut buffer = Buffer::from_reader("abcdef".as_bytes()).unwrap();
    buffer.set_selections(coredit::selections::storage::SelectionStorage::gen_from_tuples(&[
        (1, 1, 1, 1, true),
        (1, 2, 1, 2, true),
    ]));
    let (done, deltas) = buffer.delete();
    assert!(done);
    let reported: Vec<DeltaType> = deltas.into_iter().map(|d| d.delta_type).collect();
    let at = |col: usize| SelectionUnbound::new_quick(1, col, 1, col, coredit::CursorDirection::Forward);
    assert_eq!(
        reported,
        vec![
            DeltaType::SelectionDeleted { identity: at(1).from },
            DeltaType::SelectionDeleted { identity: at(2).from },
            DeltaType::SelectionAdded { selection: at(1) },
        ]
    );
    assert_eq!(buffer.to_string(), "cdef");
}

#[test]
fn an_edit_that_cannot_be_done_leaves_the_buffer_as_it_was() {
    let mut buffer = Buffer::from_reader("ab".as_bytes()).unwrap();
    buffer.set_selections(coredit::selections::storage::SelectionStorage::gen_from_tuples(&[(
        3, 1, 3, 1, true,
    )]));
    assert!(buffer.insert("x").is_none());
    let before = buffer.internal_selections_iter();
    let (done, deltas) = buffer.delete();
    assert!(!done);
    let after = deltas[0].buffer.internal_selections_iter();
    assert_eq!(before, after);
    assert_eq!(deltas[0].buffer.to_string(), "ab");
    assert_selections_changed(deltas, before, after);
}
