use coredit::selections::storage::SelectionStorage;
use coredit::Buffer;

const TEXT: &str = "This will be used to check how ropey represents empty lines\n\
    \n\
    lines. Above is one.\n\
    A rope is a tree of short strings: it takes an edit in the middle of a long text a\n\
    This line is a short one\n\
    s fast as one at its end, and it finds the start of any line without reading the te\n\
    xt before it. The selections are kept apart from it, and in order, so t\n\
    hat any one of them can be moved or edited by itself";

fn load_buffer() -> Buffer {
    Buffer::from_reader(TEXT.as_bytes()).unwrap()
}

fn load_buffer_with_selections(selections: &[(usize, usize, usize, usize, bool)]) -> Buffer {
    let mut buffer = load_buffer();
    buffer.set_selections(SelectionStorage::gen_from_tuples(selections));
    buffer
}
#[test]
fn test_delete() {
    let mut buffer = load_buffer_with_selections(&vec![(3, 20, 3, 20, true)]);
    buffer.delete();
    let mut reference_buffer = load_buffer_with_selections(&vec![(3, 20, 3, 20, true)]);
    reference_buffer.delete_for_test(3, 20, 3, 20);
    assert_eq!(buffer.to_string(), reference_buffer.to_string());
    assert_eq!(
        buffer.internal_selections_iter(),
        reference_buffer.internal_selections_iter()
    );
}

#[test]
fn test_delete_backward_selection() {
    let mut buffer = load_buffer_with_selections(&vec![(3, 10, 3, 20, false)]);
    buffer.delete();
    let mut reference_buffer = load_buffer_with_selections(&vec![(3, 10, 3, 10, true)]);
    reference_buffer.delete_for_test(3, 10, 3, 20);
    assert_eq!(buffer.to_string(), reference_buffer.to_string());
    assert_eq!(
        buffer.internal_selections_iter(),
        reference_buffer.internal_selections_iter()
    );
}

#[test]
fn test_delete_forward_selection() {
    let mut buffer = load_buffer_with_selections(&vec![(3, 10, 3, 20, true)]);
    buffer.delete();
    let mut reference_buffer = load_buffer_with_selections(&vec![(3, 10, 3, 10, true)]);
    reference_buffer.delete_for_test(3, 10, 3, 20);
    assert_eq!(buffer.to_string(), reference_buffer.to_string());
    assert_eq!(
        buffer.internal_selections_iter(),
        reference_buffer.internal_selections_iter()
    );
}

#[test]
fn test_delete_with_newline() {
    let mut buffer = load_buffer_with_selections(&vec![(3, 20, 3, 20, true)]);
    buffer.delete();
    buffer.delete();
    let mut reference_buffer = load_buffer_with_selections(&vec![(3, 20, 3, 20, true)]);
    reference_buffer.delete_for_test(3, 20, 3, 20);
    reference_buffer.delete_for_test(3, 20, 3, 20);
    assert_eq!(buffer.to_string(), reference_buffer.to_string());
    assert_eq!(
        buffer.internal_selections_iter(),
        reference_buffer.internal_selections_iter()
    );
}

#[test]
fn test_delete_backward_selection_with_newline() {
    let mut buffer = load_buffer_with_selections(&vec![(3, 10, 3, 21, false)]);
    buffer.delete();
    let mut reference_buffer = load_buffer_with_selections(&vec![(3, 10, 3, 10, true)]);
    reference_buffer.delete_for_test(3, 10, 3, 21);
    assert_eq!(buffer.to_string(), reference_buffer.to_string());
    assert_eq!(
        buffer.internal_selections_iter(),
        reference_buffer.internal_selections_iter()
    );
}

#[test]
fn test_delete_forward_selection_with_newline() {
    let mut buffer = load_buffer_with_selections(&vec![(3, 10, 3, 21, true)]);
    buffer.delete();
    let mut reference_buffer = load_buffer_with_selections(&vec![(3, 10, 3, 10, true)]);
    reference_buffer.delete_for_test(3, 10, 3, 21);
    assert_eq!(buffer.to_string(), reference_buffer.to_string());
    assert_eq!(
        buffer.internal_selections_iter(),
        reference_buffer.internal_selections_iter()
    );
}

#[test]
fn test_delete_everything() {
    let mut buffer = load_buffer();
    for _ in 0..1337 {
        buffer.delete();
    }
    let reference_buffer = Buffer::empty();
    assert_eq!(buffer.to_string(), reference_buffer.to_string());
    assert_eq!(
        buffer.internal_selections_iter(),
        reference_buffer.internal_selections_iter()
    );
}

#[test]
fn test_delete_everything_after() {
    let mut buffer = load_buffer();
    buffer.move_right(10, false);
    for _ in 0..1337 {
        buffer.delete();
    }
    let mut reference_buffer = Buffer::from_reader("This will ".as_bytes()).unwrap();
    reference_buffer.move_right(10, false);
    assert_eq!(buffer.to_string(), reference_buffer.to_string());
    assert_eq!(
        buffer.internal_selections_iter(),
        reference_buffer.internal_selections_iter()
    );
}
