use coredit::selections::storage::SelectionStorage;
use coredit::{PositionUnbound, SelectionUnbound};
use std::collections::HashMap;

#[test]
fn test_main_selection_merge() {
    let mut line_length = HashMap::new();
    line_length.insert(1, 30);
    line_length.insert(2, 30);
    line_length.insert(3, 30);
    line_length.insert(4, 30);
    line_length.insert(5, 30);

    let mut storage = SelectionStorage::gen_from_tuples(&[
        (1, 10, 1, 20, true),
        (3, 10, 3, 20, true),
        (4, 2, 4, 3, true),
    ]);
    assert!(storage.set_main_selection(PositionUnbound {
        line: 4.into(),
        col: 2.into(),
    }));

    storage.move_down(1, true, &line_length);

    let selections_vec: Vec<SelectionUnbound> = storage.iter();

    let selections_reference_vec = vec![
        SelectionUnbound::new_quick(1, 10, 2, 20, Default::default()),
        SelectionUnbound::new_quick(3, 10, 5, 3, Default::default()),
    ];

    assert_eq!(selections_vec, selections_reference_vec);
    assert_eq!(
        storage.main_selection_ptr(),
        PositionUnbound {
            line: 3.into(),
            col: 10.into()
        }
    );
}
