use maze::AsChar;
use maze::FloorType;
use maze::Maze;
use maze::MazeCell;
use maze::MazeError;

#[test]
fn too_small_bool() {
    let r = Maze::new_from_bool_array(vec![vec![true, true], vec![true, true]], 0, 0);
    assert_eq!(r.err(), Some(MazeError::TooSmall));
}

#[test]
fn too_small_wide_but_short() {
    // Width 5 but only two rows: still too small.
    let r = Maze::new_from_str_array(vec!["     ", "     "], 0, 0);
    assert_eq!(r.err(), Some(MazeError::TooSmall));
}

#[test]
fn too_small_tall_but_narrow() {
    let r = Maze::new_from_str_array(vec![" ", " ", " ", " "], 0, 0);
    assert_eq!(r.err(), Some(MazeError::TooSmall));
}

#[test]
fn too_small_empty_text() {
    // One empty row: both dimensions are under 3.
    let r = Maze::new_from_str("", 0, 0);
    assert_eq!(r.err(), Some(MazeError::TooSmall));
}

#[test]
fn invalid_character() {
    let r = Maze::new_from_str_array(vec!["X X", "Xa ", "XXX"], 1, 1);
    assert_eq!(r.err(), Some(MazeError::InvalidCharacter('a')));
}

#[test]
fn invalid_character_beats_size_check() {
    // The character scan happens before the dimensions are judged.
    let r = Maze::new_from_str_array(vec!["ab"], 0, 0);
    assert_eq!(r.err(), Some(MazeError::InvalidCharacter('a')));
}

#[test]
fn invalid_character_first_in_row_major_order() {
    let r = Maze::new_from_str_array(vec!["X#X", "@XX", "XXX"], 0, 0);
    assert_eq!(r.err(), Some(MazeError::InvalidCharacter('#')));
}

#[test]
fn invalid_character_from_block_text() {
    let r = Maze::new_from_str("X X\n# X\nXXX", 1, 0);
    assert_eq!(r.err(), Some(MazeError::InvalidCharacter('#')));
}

#[test]
fn start_on_wall() {
    let r = Maze::new_from_str_array(vec![" X ", "X X", "  X"], 1, 0);
    assert_eq!(r.err(), Some(MazeError::StartOnWall));
}

#[test]
fn start_x_out_of_bounds() {
    let r = Maze::new_from_str_array(vec![" X ", "X X", "  X"], 3, 1);
    assert_eq!(r.err(), Some(MazeError::StartXOutOfBounds));
}

#[test]
fn start_y_out_of_bounds() {
    let r = Maze::new_from_str_array(vec![" X ", "X X", "  X"], 1, 3);
    assert_eq!(r.err(), Some(MazeError::StartYOutOfBounds));
}

#[test]
fn start_row_checked_before_column() {
    // Both coordinates out of range: the row is judged first.
    let r = Maze::new_from_str_array(vec![" X ", "X X", "  X"], 9, 9);
    assert_eq!(r.err(), Some(MazeError::StartYOutOfBounds));
}

#[test]
fn start_on_padded_cell_is_wall() {
    // The start lands on a cell that only exists through padding.
    let r = Maze::new_from_str_array(vec!["XXX", " ", "XXX"], 2, 1);
    assert_eq!(r.err(), Some(MazeError::StartOnWall));
}

#[test]
fn width_is_longest_row_and_short_rows_pad_with_walls() {
    let m = Maze::new_from_str_array(vec!["XXXX", "X   ", "XX"], 1, 1).unwrap();
    assert_eq!(m.width(), 4);
    assert_eq!(m.height(), 3);
    // The padded cells of the last row render as walls.
    assert_eq!(m.render(), "⬜⬜⬜⬜\n⬜❌⬛⬛\n⬜⬜⬜⬜\n");
}

#[test]
fn accessors_report_the_constructed_values() {
    let m = Maze::new_from_str_array(vec![" X ", "X X", "  X"], 1, 1).unwrap();
    assert_eq!(m.width(), 3);
    assert_eq!(m.height(), 3);
    assert_eq!(m.start_x(), 1);
    assert_eq!(m.start_y(), 1);
}

#[test]
fn block_text_splits_on_line_breaks() {
    let m = Maze::new_from_str("XXX\nX X\nXXX", 1, 1).unwrap();
    assert_eq!(m.height(), 3);
    assert_eq!(m.width(), 3);
    assert_eq!(m.render(), "⬜⬜⬜\n⬜❌⬜\n⬜⬜⬜\n");
}

#[test]
fn trailing_line_break_yields_an_extra_padded_row() {
    let m = Maze::new_from_str("XXX\nX X\nXXX\n", 1, 1).unwrap();
    assert_eq!(m.height(), 4);
    assert_eq!(m.width(), 3);
    assert_eq!(m.render(), "⬜⬜⬜\n⬜❌⬜\n⬜⬜⬜\n⬜⬜⬜\n");
}

#[test]
fn from_bool_maps_true_to_floor_and_false_to_wall() {
    assert_eq!(MazeCell::from_bool(true), MazeCell::Floor(FloorType::Floor));
    assert_eq!(MazeCell::from_bool(false), MazeCell::Wall);
}

#[test]
fn defaults_are_wall_and_plain_floor() {
    assert_eq!(MazeCell::default(), MazeCell::Wall);
    assert_eq!(FloorType::default(), FloorType::Floor);
}

#[test]
fn cell_symbols() {
    assert_eq!(MazeCell::Wall.as_char(), '⬜');
    assert_eq!(MazeCell::Floor(FloorType::Floor).as_char(), '⬛');
    assert_eq!(MazeCell::Floor(FloorType::Start).as_char(), '❌');
    assert_eq!(MazeCell::Floor(FloorType::Path).as_char(), '👣');
}

#[test]
fn new_from_cells_validates_like_the_other_builders() {
    let rows = vec![
        vec![MazeCell::Floor(FloorType::Floor), MazeCell::Wall, MazeCell::Wall],
        vec![MazeCell::Wall, MazeCell::Floor(FloorType::Floor), MazeCell::Wall],
        vec![MazeCell::Wall, MazeCell::Wall, MazeCell::Floor(FloorType::Floor)],
    ];
    let m = Maze::new(rows, 1, 1).unwrap();
    assert_eq!(m.width(), 3);
    assert_eq!(m.render(), "⬛⬜⬜\n⬜❌⬜\n⬜⬜⬛\n");

    let rows = vec![vec![MazeCell::Wall; 3]; 3];
    assert_eq!(Maze::new(rows, 1, 1).err(), Some(MazeError::StartOnWall));
}

#[test]
fn fresh_maze_renders_no_path_symbol() {
    let m = Maze::new_from_bool_array(
        vec![
            vec![true, false, true],
            vec![false, true, false],
            vec![true, true, false],
        ],
        1,
        1,
    )
    .unwrap();
    assert!(!m.render().contains('👣'));
}
