use coredit::selections::storage::SelectionStorage;
use coredit::Buffer;

const TEXT: &str = "This will be used to check how ropey represents empty lines\n\
    \n\
    lines. Above is one.\n\
    A rope is a tree of short strings: it takes an edit in the middle of a long text a\n\
    This line is a short one\n\
    s fast as one at its end, and it finds the start of any line without reading the te\n\
    xt before it. The selections are kept apart from it, and in order, so t\n\
    hat any one of them can be moved or edited by itself";

fn load_buffer() -> Buffer {
    Buffer::from_reader(TEXT.as_bytes()).unwrap()
}

fn load_buffer_with_selections(selections: &[(usize, usize, usize, usize, bool)]) -> Buffer {
    let mut buffer = load_buffer();
    buffer.set_selections(SelectionStorage::gen_from_tuples(selections));
    buffer
}
#[test]
fn single_selection_insert_test_insert() {
    let mut buffer = load_buffer();
    buffer.move_right(30, false);
    buffer.insert(" awesome crate named");
    let mut reference_buffer = load_buffer_with_selections(&vec![(1, 51, 1, 51, true)]);
    reference_buffer.insert_for_test(1, 31, " awesome crate named");
    assert_eq!(buffer.to_string(), reference_buffer.to_string());
    assert_eq!(
        buffer.internal_selections_iter(),
        reference_buffer.internal_selections_iter()
    );
}

#[test]
fn single_selection_insert_test_insert_before_selection() {
    let mut buffer = load_buffer();
    buffer.move_right(40, false);
    buffer.move_left(10, true);
    buffer.insert(" awesome crate named");
    let mut reference_buffer = load_buffer_with_selections(&vec![(1, 51, 1, 61, false)]);
    reference_buffer.insert_for_test(1, 31, " awesome crate named");
    assert_eq!(buffer.to_string(), reference_buffer.to_string());
    assert_eq!(
        buffer.internal_selections_iter(),
        reference_buffer.internal_selections_iter()
    );
}

#[test]
fn single_selection_insert_test_insert_after_selection() {
    let mut buffer = load_buffer();
    buffer.move_right(20, false);
    buffer.move_right(10, true);
    buffer.insert(" awesome crate named");
    let mut reference_buffer = load_buffer_with_selections(&vec![(1, 21, 1, 51, true)]);
    reference_buffer.insert_for_test(1, 31, " awesome crate named");
    assert_eq!(buffer.to_string(), reference_buffer.to_string());
    assert_eq!(
        buffer.internal_selections_iter(),
        reference_buffer.internal_selections_iter()
    );
}

#[test]
fn single_selection_insert_test_insert_with_newline() {
    let mut buffer = load_buffer();
    buffer.move_right(30, false);
    buffer.insert(" awesome\ncrate named");
    let mut reference_buffer = load_buffer_with_selections(&vec![(2, 12, 2, 12, true)]);
    reference_buffer.insert_for_test(1, 31, " awesome\ncrate named");
    assert_eq!(buffer.to_string(), reference_buffer.to_string());
    assert_eq!(
        buffer.internal_selections_iter(),
        reference_buffer.internal_selections_iter()
    );
}

#[test]
fn single_selection_insert_test_insert_before_selection_with_newline() {
    let mut buffer = load_buffer();
    buffer.move_right(40, false);
    buffer.move_left(10, true);
    buffer.insert(" awesome\ncrate named");
    let mut reference_buffer = load_buffer_with_selections(&vec![(2, 12, 2, 22, false)]);
    reference_buffer.insert_for_test(1, 31, " awesome\ncrate named");
    assert_eq!(buffer.to_string(), reference_buffer.to_string());
    assert_eq!(
        buffer.internal_selections_iter(),
        reference_buffer.internal_selections_iter()
    );
}

#[test]
fn single_selection_insert_test_insert_after_selection_with_newline() {
    let mut buffer = load_buffer();
    buffer.move_right(20, false);
    buffer.move_right(10, true);
    buffer.insert(" awesome\ncrate named");
    let mut reference_buffer = load_buffer_with_selections(&vec![(1, 21, 2, 12, true)]);
    reference_buffer.insert_for_test(1, 31, " awesome\ncrate named");
    assert_eq!(buffer.to_string(), reference_buffer.to_string());
    assert_eq!(
        buffer.internal_selections_iter(),
        reference_buffer.internal_selections_iter()
    );
}
