use coredit::selections::storage::SelectionStorage;
use coredit::Buffer;
use coredit::{CursorDirection, SelectionUnbound};

const TEXT: &str = "This will be used to check how ropey represents empty lines\n\
    \n\
    lines. Above is one.\n\
    A rope is a tree of short strings: it takes an edit in the middle of a long text a\n\
    This line is a short one\n\
    s fast as one at its end, and it finds the start of any line without reading the te\n\
    xt before it. The selections are kept apart from it, and in order, so t\n\
    hat any one of them can be moved or edited by itself";

fn load_buffer() -> Buffer {
    Buffer::from_reader(TEXT.as_bytes()).unwrap()
}

fn load_buffer_with_selections(selections: &[(usize, usize, usize, usize, bool)]) -> Buffer {
    let mut buffer = load_buffer();
    buffer.set_selections(SelectionStorage::gen_from_tuples(selections));
    buffer
}
#[test]
fn single_selection_movement_move_right_simple() {
    // First line length is 59 + newline
    let mut buffer = load_buffer();
    buffer.move_right(30, false);
    let reference_buffer = load_buffer_with_selections(&vec![(1, 31, 1, 31, true)]);
    assert_eq!(buffer.to_string(), reference_buffer.to_string());
    assert_eq!(
        buffer.internal_selections_iter(),
        reference_buffer.internal_selections_iter()
    );
}

#[test]
fn single_selection_movement_move_left_simple() {
    let mut buffer = load_buffer();
    buffer.move_right(5, false);
    buffer.move_right(30, true);
    buffer.swap_cursor();
    buffer.move_left(1, false);
    let reference_buffer = load_buffer_with_selections(&vec![(1, 5, 1, 5, true)]);
    assert_eq!(buffer.to_string(), reference_buffer.to_string());
    assert_eq!(
        buffer.internal_selections_iter(),
        reference_buffer.internal_selections_iter()
    );
}

#[test]
fn move_right_line_overflow() {
    // Actually the second line will be overflowed too
    let mut buffer = load_buffer();
    buffer.move_right(62, false);
    let reference_buffer = load_buffer_with_selections(&vec![(3, 2, 3, 2, true)]);
    assert_eq!(buffer.to_string(), reference_buffer.to_string());
    assert_eq!(
        buffer.internal_selections_iter(),
        reference_buffer.internal_selections_iter()
    );
}

#[test]
fn move_right_file_overflow() {
    // Actually the second line will be overflowed too
    let mut buffer = load_buffer();
    buffer.move_right(1337, false);
    let reference_buffer = load_buffer_with_selections(&vec![(8, 53, 8, 53, true)]);
    assert_eq!(buffer.to_string(), reference_buffer.to_string());
    assert_eq!(
        buffer.internal_selections_iter(),
        reference_buffer.internal_selections_iter()
    );
}

#[test]
fn move_left_file_overflow() {
    // Actually the second line will be overflowed too
    let mut buffer = load_buffer();
    buffer.move_right(62, false);
    let reference_buffer = load_buffer_with_selections(&vec![(3, 2, 3, 2, true)]);
    assert_eq!(buffer.to_string(), reference_buffer.to_string());
    assert_eq!(
        buffer.internal_selections_iter(),
        reference_buffer.internal_selections_iter()
    );
    buffer.move_left(420, false);
    let reference_buffer = load_buffer_with_selections(&vec![(1, 1, 1, 1, true)]);
    assert_eq!(buffer.to_string(), reference_buffer.to_string());
    assert_eq!(
        buffer.internal_selections_iter(),
        reference_buffer.internal_selections_iter()
    );
}

#[test]
fn move_up_sticky_and_overflow() {
    let mut buffer = load_buffer_with_selections(&vec![(4, 50, 4, 50, true)]);
    buffer.move_up(1, false);
    buffer.move_left(1, false);
    buffer.move_up(322, false);
    let reference_buffer = load_buffer_with_selections(&vec![(1, 20, 1, 20, true)]);
    assert_eq!(buffer.to_string(), reference_buffer.to_string());
    assert_eq!(
        buffer.internal_selections_iter(),
        reference_buffer.internal_selections_iter()
    );
}

#[test]
fn move_up_sticky_n_times() {
    let mut buffer = load_buffer_with_selections(&vec![(7, 37, 7, 37, true)]);
    buffer.move_up(1, false);
    buffer.move_up(1, false);
    buffer.move_up(1, false);
    buffer.move_up(1, false);
    buffer.move_up(1, false);
    buffer.move_up(1, false);
    let reference_buffer = load_buffer_with_selections(&vec![(1, 37, 1, 37, true)]);
    assert_eq!(buffer.to_string(), reference_buffer.to_string());
    assert_eq!(
        buffer.internal_selections_iter(),
        reference_buffer.internal_selections_iter()
    );
}

#[test]
fn move_down_sticky_n_times() {
    let mut buffer = load_buffer_with_selections(&vec![(1, 37, 1, 37, true)]);
    buffer.move_down(1, false);
    assert_eq!(
        buffer.internal_selections_iter(),
        vec![SelectionUnbound::new_quick(2, 1, 2, 1, CursorDirection::Forward).with_sticky(37)]
    );
    buffer.move_down(1, false);
    assert_eq!(
        buffer.internal_selections_iter(),
        vec![SelectionUnbound::new_quick(3, 21, 3, 21, CursorDirection::Forward).with_sticky(37)]
    );
    buffer.move_down(1, false);
    assert_eq!(
        buffer.internal_selections_iter(),
        vec![SelectionUnbound::new_quick(
            4,
            37,
            4,
            37,
            CursorDirection::Forward
        )]
    );
    buffer.move_down(1, false);
    assert_eq!(
        buffer.internal_selections_iter(),
        vec![SelectionUnbound::new_quick(5, 25, 5, 25, CursorDirection::Forward).with_sticky(37)]
    );
    buffer.move_down(1, false);
    assert_eq!(
        buffer.internal_selections_iter(),
        vec![SelectionUnbound::new_quick(
            6,
            37,
            6,
            37,
            CursorDirection::Forward
        )]
    );
    buffer.move_down(1, false);
    let reference_buffer = load_buffer_with_selections(&vec![(7, 37, 7, 37, true)]);
    assert_eq!(buffer.to_string(), reference_buffer.to_string());
    assert_eq!(
        buffer.internal_selections_iter(),
        reference_buffer.internal_selections_iter()
    );
}

#[test]
fn move_down_sticky_and_overflow() {
    let mut buffer = load_buffer_with_selections(&vec![(1, 50, 1, 50, true)]);
    buffer.move_down(2, false);
    buffer.move_left(1, false);
    buffer.move_down(420, false);
    let reference_buffer = load_buffer_with_selections(&vec![(8, 20, 8, 20, true)]);
    assert_eq!(buffer.to_string(), reference_buffer.to_string());
    assert_eq!(
        buffer.internal_selections_iter(),
        reference_buffer.internal_selections_iter()
    );
}
