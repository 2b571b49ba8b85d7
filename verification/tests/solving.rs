use maze::Maze;
use maze::MazeError;
use maze::Solvable;

fn scenario_a() -> Maze {
    Maze::new_from_bool_array(
        vec![
            vec![true, false, true],
            vec![false, true, false],
            vec![true, true, false],
        ],
        1,
        1,
    )
    .unwrap()
}

#[test]
fn scenario_a_solves_downward() {
    let mut m = scenario_a();
    assert_eq!(m.render(), "⬛⬜⬛\n⬜❌⬜\n⬛⬛⬜\n");
    assert_eq!(m.solve(), Ok(true));
    // Left, right and up from the start are walls, so the first and only
    // open neighbor, below the start, carries the path; the start keeps
    // its own symbol.
    assert_eq!(m.render(), "⬛⬜⬛\n⬜❌⬜\n⬛👣⬜\n");
}

#[test]
fn scenario_a_exactly_one_neighbor_marked() {
    let mut m = scenario_a();
    m.solve().unwrap();
    let text = m.render();
    assert_eq!(text.chars().filter(|c| *c == '👣').count(), 1);
}

#[test]
fn unreachable_pocket_finds_no_path() {
    // A 10 x 10 grid of walls with an isolated 3 x 3 floor pocket in the
    // middle: no route to the edge exists and nothing is marked.
    let mut rows = vec![vec![false; 10]; 10];
    for y in 3..6 {
        for x in 3..6 {
            rows[y][x] = true;
        }
    }
    let mut m = Maze::new_from_bool_array(rows, 4, 4).unwrap();
    let before = m.render();
    assert_eq!(m.solve(), Ok(false));
    let after = m.render();
    assert_eq!(before, after);
    assert!(!after.contains('👣'));
}

#[test]
fn scenario_c_text_maze() {
    // Constructs: 3 x 3 with the start on floor. Under the fixed search
    // order (left, right, up, down) the three first neighbors are walls
    // and the cell below the start is open floor on the bottom edge, so
    // the search succeeds there.
    let mut m = Maze::new_from_str(" X \nX X\n  X", 1, 1).unwrap();
    assert_eq!(m.render(), "⬛⬜⬛\n⬜❌⬜\n⬛⬛⬜\n");
    assert_eq!(m.solve(), Ok(true));
    assert_eq!(m.render(), "⬛⬜⬛\n⬜❌⬜\n⬛👣⬜\n");
}

#[test]
fn identical_input_marks_identical_path() {
    let mut a = scenario_a();
    let mut b = scenario_a();
    let ra = a.solve();
    let rb = b.solve();
    assert_eq!(ra, rb);
    assert_eq!(a.render(), b.render());
}

#[test]
fn solving_again_keeps_the_same_marking() {
    // Earlier path marks are not cleared; a second solve walks the same
    // route and leaves the rendering unchanged.
    let mut m = scenario_a();
    assert_eq!(m.solve(), Ok(true));
    let once = m.render();
    assert_eq!(m.solve(), Ok(true));
    assert_eq!(m.render(), once);
}

#[test]
fn start_on_edge_is_already_out() {
    let mut m = Maze::new_from_str_array(vec!["X X", "X X", "XXX"], 1, 0).unwrap();
    assert_eq!(m.solve(), Ok(true));
    // The start cell itself lies on the edge; it is marked, and the start
    // symbol still covers it when rendering.
    assert_eq!(m.render(), "⬜❌⬜\n⬜⬛⬜\n⬜⬜⬜\n");
}

#[test]
fn larger_maze_escapes() {
    let text = "XXX  XX   \n".to_owned()
        + "X     X  X\n"
        + "X XX  XX X\n"
        + "X   XXX   \n"
        + "X    X  XX\n"
        + "XX  XX  X \n"
        + "X  X  X X \n"
        + "X   X   XX\n"
        + "X XXXX XXX\n"
        + "XX  XX  XX";
    let mut m = Maze::new_from_str(&text, 4, 4).unwrap();
    assert_eq!(m.width(), 10);
    assert_eq!(m.height(), 10);
    assert_eq!(m.solve(), Ok(true));
    assert!(m.render().contains('👣'));
}

#[test]
fn rebind_start_to_wall_fails_and_changes_nothing() {
    let mut m = Maze::new_from_str_array(vec![" X ", "X X", "  X"], 1, 1).unwrap();
    let before = m.render();
    assert_eq!(m.set_start(0, 1), Err(MazeError::StartOnWall));
    assert_eq!(m.start_x(), 1);
    assert_eq!(m.start_y(), 1);
    assert_eq!(m.render(), before);
}

#[test]
fn rebind_start_out_of_range_fails_and_changes_nothing() {
    let mut m = Maze::new_from_str_array(vec![" X ", "X X", "  X"], 1, 1).unwrap();
    assert_eq!(m.set_start(5, 1), Err(MazeError::StartXOutOfBounds));
    assert_eq!(m.set_start(1, 7), Err(MazeError::StartYOutOfBounds));
    assert_eq!(m.start_x(), 1);
    assert_eq!(m.start_y(), 1);
}

#[test]
fn rebind_start_to_floor_moves_the_start() {
    let mut m = Maze::new_from_str_array(vec![" X ", "X X", "  X"], 1, 1).unwrap();
    assert_eq!(m.set_start(1, 2), Ok(()));
    assert_eq!(m.start_x(), 1);
    assert_eq!(m.start_y(), 2);
    assert_eq!(m.render(), "⬛⬜⬛\n⬜⬛⬜\n⬛❌⬜\n");
}
