use rust_game_common::utility::console::{gauge_bar, CellDraw, ConsoleMap, ConsoleText};

#[test]
fn test_console_view() {
    let width: usize = 5;
    let depth: usize = 5;
    let offset_x = 1;
    let offset_z = 1;
    let mut test = ConsoleMap::new(width, depth, offset_x, offset_z);
    for h in 0..depth {
        for i in 0..width {
            test.input(i, h, '*');
        }
    }
    let ans = vec![
        vec!['*', '*', '*', '*', '*'],
        vec!['*', '*', '*', '*', '*'],
        vec!['*', '*', '*', '*', '*'],
        vec!['*', '*', '*', '*', '*'],
        vec!['*', '*', '*', '*', '*'],
    ];
    assert_eq!(ans, test.grid);
}

#[test]
fn console_map_new_is_blank_with_offsets_from_one() {
    let map = ConsoleMap::new(3, 2, 0, 4);
    assert_eq!(map.width, 3);
    assert_eq!(map.depth, 2);
    assert_eq!(map.grid, vec![vec![' '; 3]; 2]);
    assert_eq!(map.offset_x, 1);
    assert_eq!(map.offset_z, 4);
    let mut map = map;
    assert!(map.flush().is_empty());
}

#[test]
fn console_map_input_outside_area_is_ignored() {
    let mut map = ConsoleMap::new(2, 2, 1, 1);
    map.input(2, 0, '#');
    map.input(0, 2, '#');
    assert_eq!(map.grid, vec![vec![' '; 2]; 2]);
    assert!(map.flush().is_empty());
}

#[test]
fn console_map_flush_draws_changes_latest_first() {
    let mut map = ConsoleMap::new(4, 3, 2, 5);
    map.input(1, 0, 'a');
    map.input(3, 2, 'b');
    // writing the same character again marks nothing new
    map.input(3, 2, 'b');
    assert!(map.pending_drawable());
    let draws = map.flush();
    assert_eq!(
        draws,
        vec![
            CellDraw { row: 7, column: 5, ch: 'b' },
            CellDraw { row: 5, column: 3, ch: 'a' },
        ]
    );
    assert!(map.flush().is_empty());
}

#[test]
fn console_map_flush_uses_current_character() {
    let mut map = ConsoleMap::new(2, 1, 1, 1);
    map.input(0, 0, 'x');
    map.input(0, 0, 'y');
    let draws = map.flush();
    assert_eq!(
        draws,
        vec![CellDraw { row: 1, column: 1, ch: 'y' }, CellDraw { row: 1, column: 1, ch: 'y' }]
    );
}

#[test]
fn console_map_clear_blanks_and_marks_changed_cells() {
    let mut map = ConsoleMap::new(3, 2, 1, 1);
    map.input(2, 0, '*');
    map.input(0, 1, '*');
    map.flush();
    map.clear();
    assert_eq!(map.grid, vec![vec![' '; 3]; 2]);
    let draws = map.flush();
    assert_eq!(
        draws,
        vec![CellDraw { row: 2, column: 1, ch: ' ' }, CellDraw { row: 1, column: 3, ch: ' ' }]
    );
}

#[test]
fn console_map_pending_drawable_detects_shrunk_grid() {
    let mut map = ConsoleMap::new(3, 3, 1, 1);
    map.input(2, 2, '#');
    assert!(map.pending_drawable());
    map.grid.truncate(1);
    assert!(!map.pending_drawable());
}

#[test]
fn console_text_new_keeps_position() {
    let text = ConsoleText::new(4, 9);
    assert_eq!(text.offset_x, 4);
    assert_eq!(text.offset_z, 9);
}

#[test]
fn gauge_bar_fills_leading_cells() {
    assert_eq!(gauge_bar(7), "[███████░░░]");
    assert_eq!(gauge_bar(0), "[░░░░░░░░░░]");
    assert_eq!(gauge_bar(10), "[██████████]");
    assert_eq!(gauge_bar(25), "[██████████]");
}
