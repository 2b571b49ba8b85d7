//! The maze itself: construction, validation, accessors, rendering,
//! and the depth-first solver.

use vstd::prelude::*;

use crate::cell::AsChar;
use crate::cell::FloorType;
use crate::cell::MazeCell;
use crate::error::MazeError;
use crate::model::bools_to_cells;
use crate::model::lemma_bools_no_path;
use crate::model::lemma_first_newline_at;
use crate::model::lemma_padded_no_path;
use crate::model::lemma_row_cells_bad;
use crate::model::lemma_row_cells_step;
use crate::model::lemma_rows_cells_bad;
use crate::model::lemma_rows_cells_no_path;
use crate::model::lemma_rows_cells_step;
use crate::model::no_path_cells;
use crate::model::render_row;
use crate::model::render_spec;
use crate::model::rows_cells;
use crate::model::row_cells;
use crate::model::split_lines;
use crate::model::str_rows_view;
use vstd::string::StrSliceExecFns;
use crate::model::bool_view;
use crate::model::cells_view;
use crate::model::count_unvisited;
use crate::model::dfs;
use crate::model::fresh_mask;
use crate::model::grid_wf;
use crate::model::in_bounds;
use crate::model::lemma_count_fresh;
use crate::model::lemma_count_update;
use crate::model::lemma_dfs_frame;
use crate::model::lemma_dfs_fuel;
use crate::model::lemma_max_row_len;
use crate::model::lemma_set_cell;
use crate::model::lemma_set_visited;
use crate::model::mask_wf;
use crate::model::max_row_len;
use crate::model::new_check;
use crate::model::pad_row;
use crate::model::padded;
use crate::model::set_cell;
use crate::model::set_visited;
use crate::model::start_check;

verus! {

/// A rectangular maze: a row-major cell matrix with its dimensions and a
/// start coordinate. Every value of this type satisfies the structural
/// invariant: each row has exactly `width` cells, `height` is the row
/// count, both dimensions are at least 3, and the start coordinate lies
/// on a floor cell.
pub struct Maze {
    map: Vec<Vec<MazeCell>>,
    width: usize,
    height: usize,
    start_x: usize,
    start_y: usize,
}

/// Something that can search itself for a route and mark it.
pub trait Solvable {
    fn solve(&mut self) -> Result<bool, MazeError>;
}

/// Writes one cell of a cell matrix.
fn write_cell(map: &mut Vec<Vec<MazeCell>>, x: usize, y: usize, c: MazeCell)
    requires
        y < old(map)@.len(),
        x < old(map)@[y as int]@.len(),
    ensures
        cells_view(final(map)@) == set_cell(cells_view(old(map)@), x as int, y as int, c),
    no_unwind
{
    map[y][x] = c;
    proof {
        assert(cells_view(map@) =~= set_cell(cells_view(old(map)@), x as int, y as int, c));
    }
}

/// Relies on String::push: appends the one character at the end of the
/// string.
#[verifier::external_body]
fn push_char(s: &mut String, c: char)
    ensures
        final(s)@ == old(s)@.push(c),
{
    s.push(c)
}

/// Writes a new value into each of two places at once.
fn set_pair(a: &mut usize, b: &mut usize, x: usize, y: usize)
    ensures
        *final(a) == x,
        *final(b) == y,
    no_unwind
{
    *a = x;
    *b = y;
}

impl Maze {
    /// The cell matrix as a sequence of rows.
    pub closed spec fn map_view(&self) -> Seq<Seq<MazeCell>> {
        cells_view(self.map@)
    }

    /// The number of cells in each row.
    pub closed spec fn spec_width(&self) -> usize {
        self.width
    }

    /// The number of rows.
    pub closed spec fn spec_height(&self) -> usize {
        self.height
    }

    /// The start column.
    pub closed spec fn spec_start_x(&self) -> usize {
        self.start_x
    }

    /// The start row.
    pub closed spec fn spec_start_y(&self) -> usize {
        self.start_y
    }

    /// Structural validity, maintained by every operation.
    #[verifier::type_invariant]
    spec fn inv(self) -> bool {
        &&& grid_wf(self.map_view(), self.width as int, self.height as int)
        &&& self.width >= 3
        &&& self.height >= 3
        &&& self.start_x < self.width
        &&& self.start_y < self.height
        &&& self.map_view()[self.start_y as int][self.start_x as int] is Floor
    }

    /// Every maze that exists is structurally valid; callers learn the
    /// invariant without any precondition.
    pub fn validity(&self)
        ensures
            grid_wf(self.map_view(), self.spec_width() as int, self.spec_height() as int),
            self.spec_width() >= 3,
            self.spec_height() >= 3,
            self.spec_start_x() < self.spec_width(),
            self.spec_start_y() < self.spec_height(),
            self.map_view()[self.spec_start_y() as int][self.spec_start_x() as int] is Floor,
    {
        proof {
            use_type_invariant(self);
        }
    }

    /// Creates a new [`Maze`] from a matrix of cells.
    ///
    /// The height is the row count and the width the longest row's length;
    /// shorter rows are padded with walls on the right. Fails with
    /// `TooSmall` when either dimension is under 3, and otherwise with the
    /// first start-coordinate error, exactly as [`new_check`] says.
    pub fn new(map: Vec<Vec<MazeCell>>, start_x: usize, start_y: usize) -> (r: Result<
        Maze,
        MazeError,
    >)
        ensures
            ({
                let rows = cells_view(map@);
                let chk = new_check(rows, start_x as int, start_y as int);
                &&& (r is Ok <==> chk is Ok)
                &&& (r is Err ==> r->Err_0 == chk->Err_0)
                &&& (r is Ok ==> {
                    let m = r->Ok_0;
                    &&& m.map_view() == padded(rows, max_row_len(rows))
                    &&& m.spec_width() == max_row_len(rows)
                    &&& m.spec_height() == rows.len()
                    &&& m.spec_start_x() == start_x
                    &&& m.spec_start_y() == start_y
                })
            }),
    {
        let ghost rows0 = cells_view(map@);
        let mut map = map;
        let height = map.len();

        // The width is the longest row's length.
        let mut width: usize = 0;
        let mut j: usize = 0;
        while j < map.len()
            invariant
                j <= map@.len(),
                cells_view(map@) == rows0,
                width == max_row_len(rows0.take(j as int)),
            decreases map@.len() - j,
        {
            proof {
                assert(rows0.take(j + 1).drop_last() =~= rows0.take(j as int));
                assert(rows0.take(j + 1).last() == rows0[j as int]);
            }
            if map[j].len() > width {
                width = map[j].len();
            }
            j += 1;
        }
        proof {
            assert(rows0.take(rows0.len() as int) =~= rows0);
        }

        if height < 3 || width < 3 {
            return Err(MazeError::TooSmall);
        }

        proof {
            lemma_max_row_len(rows0);
        }

        // Bring every row to exactly `width` cells, padding with walls.
        let mut j: usize = 0;
        while j < map.len()
            invariant
                j <= map@.len(),
                map@.len() == rows0.len(),
                width == max_row_len(rows0),
                forall|k: int| 0 <= k < rows0.len() ==> (#[trigger] rows0[k]).len() <= width,
                forall|k: int| 0 <= k < j ==> cells_view(map@)[k] == pad_row(rows0[k], width as int),
                forall|k: int| j <= k < rows0.len() ==> cells_view(map@)[k] == rows0[k],
            decreases map@.len() - j,
        {
            let ghost before = cells_view(map@);
            proof {
                assert(cells_view(map@)[j as int] == rows0[j as int]);
                assert(rows0[j as int].len() <= width);
                assert(rows0[j as int].subrange(0, rows0[j as int].len() as int)
                    =~= rows0[j as int]);
            }
            let row = &mut map[j];
            while row.len() < width
                invariant
                    rows0[j as int].len() <= row@.len() <= width,
                    row@.subrange(0, rows0[j as int].len() as int) == rows0[j as int],
                    forall|k: int| rows0[j as int].len() <= k < row@.len()
                        ==> row@[k] == MazeCell::Wall,
                    rows0[j as int].len() <= width,
                decreases width - row@.len(),
            {
                row.push(MazeCell::Wall);
                proof {
                    assert(row@.subrange(0, rows0[j as int].len() as int)
                        =~= row@.drop_last().subrange(0, rows0[j as int].len() as int));
                }
            }
            proof {
                assert(row@ =~= pad_row(rows0[j as int], width as int));
            }
            j += 1;
            proof {
                assert(cells_view(map@) =~= before.update(j - 1, pad_row(rows0[j - 1], width as int)));
            }
        }

        match Self::validate_start(&map, start_x, start_y) {
            Ok(()) => {},
            Err(e) => {
                proof {
                    assert(cells_view(map@) =~= padded(rows0, width as int));
                }
                return Err(e);
            },
        }

        proof {
            assert(cells_view(map@) =~= padded(rows0, width as int));
        }
        Ok(Maze { map, width, height, start_x, start_y })
    }

    /// Creates a maze from a boolean matrix: `true` is floor, `false` is
    /// wall. A convenience mapping over [`Maze::new`].
    pub fn new_from_bool_array(map: Vec<Vec<bool>>, start_x: usize, start_y: usize) -> (r: Result<
        Maze,
        MazeError,
    >)
        ensures
            ({
                let rows = bools_to_cells(bool_view(map@));
                let chk = new_check(rows, start_x as int, start_y as int);
                &&& (r is Ok <==> chk is Ok)
                &&& (r is Err ==> r->Err_0 == chk->Err_0)
                &&& (r is Ok ==> {
                    let m = r->Ok_0;
                    &&& m.map_view() == padded(rows, max_row_len(rows))
                    &&& m.spec_width() == max_row_len(rows)
                    &&& m.spec_height() == rows.len()
                    &&& m.spec_start_x() == start_x
                    &&& m.spec_start_y() == start_y
                    &&& no_path_cells(m.map_view())
                })
            }),
    {
        let ghost rows = bools_to_cells(bool_view(map@));
        let mut cells: Vec<Vec<MazeCell>> = Vec::new();
        proof {
            assert(cells_view(cells@) =~= rows.take(0));
        }
        let mut j: usize = 0;
        while j < map.len()
            invariant
                j <= map@.len(),
                rows == bools_to_cells(bool_view(map@)),
                rows.len() == map@.len(),
                cells@.len() == j,
                cells_view(cells@) == rows.take(j as int),
            decreases map@.len() - j,
        {
            let brow = &map[j];
            let mut crow: Vec<MazeCell> = Vec::new();
            let mut i: usize = 0;
            while i < brow.len()
                invariant
                    i <= brow@.len(),
                    crow@.len() == i,
                    forall|k: int|
                        0 <= k < i ==> crow@[k] == MazeCell::spec_from_bool(#[trigger] brow@[k]),
                decreases brow@.len() - i,
            {
                crow.push(MazeCell::from_bool(brow[i]));
                i += 1;
            }
            proof {
                assert(crow@ =~= rows[j as int]);
            }
            cells.push(crow);
            j += 1;
            proof {
                assert(cells_view(cells@) =~= rows.take(j as int));
            }
        }
        proof {
            assert(rows.take(rows.len() as int) =~= rows);
        }
        let r = Maze::new(cells, start_x, start_y);
        proof {
            lemma_bools_no_path(bool_view(map@));
            lemma_padded_no_path(rows, max_row_len(rows));
        }
        r
    }

    /// Creates a maze from rows of text: a space is floor, an `X` is wall,
    /// and any other character fails with `InvalidCharacter` carrying the
    /// first offending character, scanning row by row, left to right.
    pub fn new_from_str_array(map: Vec<&str>, start_x: usize, start_y: usize) -> (r: Result<
        Maze,
        MazeError,
    >)
        ensures
            ({
                let conv = rows_cells(str_rows_view(map@));
                &&& (conv is Err ==> r == Err::<Maze, MazeError>(conv->Err_0))
                &&& (conv is Ok ==> {
                    let rows = conv->Ok_0;
                    let chk = new_check(rows, start_x as int, start_y as int);
                    &&& (r is Ok <==> chk is Ok)
                    &&& (r is Err ==> r->Err_0 == chk->Err_0)
                    &&& (r is Ok ==> {
                        let m = r->Ok_0;
                        &&& m.map_view() == padded(rows, max_row_len(rows))
                        &&& m.spec_width() == max_row_len(rows)
                        &&& m.spec_height() == rows.len()
                        &&& m.spec_start_x() == start_x
                        &&& m.spec_start_y() == start_y
                        &&& no_path_cells(m.map_view())
                    })
                })
            }),
    {
        let ghost srows = str_rows_view(map@);
        let mut cells: Vec<Vec<MazeCell>> = Vec::new();
        proof {
            assert(cells_view(cells@) =~= Seq::<Seq<MazeCell>>::empty());
            assert(srows.take(0) =~= Seq::<Seq<char>>::empty());
        }
        let mut j: usize = 0;
        while j < map.len()
            invariant
                j <= map@.len(),
                srows == str_rows_view(map@),
                srows.len() == map@.len(),
                cells@.len() == j,
                rows_cells(srows.take(j as int)) == Ok::<Seq<Seq<MazeCell>>, MazeError>(
                    cells_view(cells@),
                ),
            decreases map@.len() - j,
        {
            let srow: &str = map[j];
            let n = srow.unicode_len();
            let mut crow: Vec<MazeCell> = Vec::new();
            proof {
                assert(srow@.take(0) =~= Seq::<char>::empty());
                assert(crow@ =~= Seq::<MazeCell>::empty());
            }
            let mut i: usize = 0;
            while i < n
                invariant
                    i <= n,
                    n == srow@.len(),
                    srows == str_rows_view(map@),
                    j < srows.len(),
                    srow@ == srows[j as int],
                    crow@.len() == i,
                    row_cells(srow@.take(i as int)) == Ok::<Seq<MazeCell>, MazeError>(crow@),
                    rows_cells(srows.take(j as int)) == Ok::<Seq<Seq<MazeCell>>, MazeError>(
                        cells_view(cells@),
                    ),
                decreases n - i,
            {
                let c = srow.get_char(i);
                let cellv = if c == ' ' {
                    MazeCell::Floor(FloorType::Floor)
                } else if c == 'X' {
                    MazeCell::Wall
                } else {
                    proof {
                        lemma_row_cells_bad(srow@, i as int);
                        lemma_rows_cells_bad(srows, j as int);
                        assert(rows_cells(srows) == Err::<Seq<Seq<MazeCell>>, MazeError>(
                            MazeError::InvalidCharacter(c),
                        ));
                    }
                    return Err(MazeError::InvalidCharacter(c));
                };
                proof {
                    lemma_row_cells_step(srow@, i as int);
                }
                crow.push(cellv);
                i += 1;
            }
            proof {
                assert(srow@.take(n as int) =~= srow@);
                lemma_rows_cells_step(srows, j as int);
            }
            let ghost prev_cells = cells_view(cells@);
            cells.push(crow);
            j += 1;
            proof {
                assert(cells_view(cells@) =~= prev_cells.push(crow@));
            }
        }
        proof {
            assert(srows.take(srows.len() as int) =~= srows);
            lemma_rows_cells_no_path(srows);
        }
        let ghost rows = rows_cells(srows)->Ok_0;
        let r = Maze::new(cells, start_x, start_y);
        proof {
            lemma_padded_no_path(rows, max_row_len(rows));
        }
        r
    }

    /// Creates a maze from one block of text, split into rows at every
    /// line break and read as [`Maze::new_from_str_array`] reads them.
    pub fn new_from_str(map: &str, start_x: usize, start_y: usize) -> (r: Result<Maze, MazeError>)
        ensures
            ({
                let conv = rows_cells(split_lines(map@));
                &&& (conv is Err ==> r == Err::<Maze, MazeError>(conv->Err_0))
                &&& (conv is Ok ==> {
                    let rows = conv->Ok_0;
                    let chk = new_check(rows, start_x as int, start_y as int);
                    &&& (r is Ok <==> chk is Ok)
                    &&& (r is Err ==> r->Err_0 == chk->Err_0)
                    &&& (r is Ok ==> {
                        let m = r->Ok_0;
                        &&& m.map_view() == padded(rows, max_row_len(rows))
                        &&& m.spec_width() == max_row_len(rows)
                        &&& m.spec_height() == rows.len()
                        &&& m.spec_start_x() == start_x
                        &&& m.spec_start_y() == start_y
                        &&& no_path_cells(m.map_view())
                    })
                })
            }),
    {
        let n = map.unicode_len();
        let mut lines: Vec<&str> = Vec::new();
        let mut start: usize = 0;
        proof {
            assert(map@.skip(0) =~= map@);
            assert(str_rows_view(lines@) + split_lines(map@.skip(0)) =~= split_lines(map@));
        }
        let mut j: usize = 0;
        while j < n
            invariant
                start <= j <= n,
                n == map@.len(),
                str_rows_view(lines@) + split_lines(map@.skip(start as int)) == split_lines(map@),
                forall|k: int| start <= k < j ==> map@[k] != '\n',
            decreases n - j,
        {
            let c = map.get_char(j);
            if c == '\n' {
                let line = map.substring_char(start, j);
                proof {
                    let t = map@.skip(start as int);
                    assert forall|k: int| 0 <= k < j - start implies t[k] != '\n' by {
                        assert(t[k] == map@[start + k]);
                    }
                    assert(t[j - start] == map@[j as int]);
                    lemma_first_newline_at(t, j - start);
                    assert(t.take(j - start) =~= line@);
                    assert(t.skip(j - start + 1) =~= map@.skip(j + 1));
                    assert(str_rows_view(lines@.push(line)) =~= str_rows_view(lines@).push(
                        line@,
                    ));
                    assert(str_rows_view(lines@).push(line@) + split_lines(map@.skip(j + 1))
                        =~= str_rows_view(lines@) + split_lines(map@.skip(start as int)));
                }
                lines.push(line);
                start = j + 1;
            }
            j += 1;
        }
        let line = map.substring_char(start, n);
        proof {
            let t = map@.skip(start as int);
            assert forall|k: int| 0 <= k < t.len() implies t[k] != '\n' by {
                assert(t[k] == map@[start + k]);
            }
            lemma_first_newline_at(t, t.len() as int);
            assert(t =~= line@);
            assert(str_rows_view(lines@.push(line)) =~= str_rows_view(lines@).push(line@));
            assert(str_rows_view(lines@).push(line@) =~= str_rows_view(lines@) + split_lines(
                map@.skip(start as int),
            ));
        }
        lines.push(line);
        Maze::new_from_str_array(lines, start_x, start_y)
    }

    /// Checks a start coordinate against a cell matrix: the row index
    /// first, then the column index, then that the cell is not a wall.
    fn validate_start(map: &Vec<Vec<MazeCell>>, start_x: usize, start_y: usize) -> (r: Result<
        (),
        MazeError,
    >)
        ensures
            r == start_check(cells_view(map@), start_x as int, start_y as int),
    {
        if start_y < map.len() {
            let row = &map[start_y];
            if start_x < row.len() {
                match row[start_x] {
                    MazeCell::Wall => Err(MazeError::StartOnWall),
                    MazeCell::Floor(_) => Ok(()),
                }
            } else {
                Err(MazeError::StartXOutOfBounds)
            }
        } else {
            Err(MazeError::StartYOutOfBounds)
        }
    }

    /// The grid width.
    pub fn width(&self) -> (w: usize)
        ensures
            w == self.spec_width(),
    {
        self.width
    }

    /// The grid height.
    pub fn height(&self) -> (h: usize)
        ensures
            h == self.spec_height(),
    {
        self.height
    }

    /// The start column.
    pub fn start_x(&self) -> (x: usize)
        ensures
            x == self.spec_start_x(),
    {
        self.start_x
    }

    /// The start row.
    pub fn start_y(&self) -> (y: usize)
        ensures
            y == self.spec_start_y(),
    {
        self.start_y
    }

    /// Renders the maze as text: one line per grid row, top to bottom,
    /// one symbol per cell, each line ended by a line break. The start
    /// coordinate always shows the start symbol; every other cell shows
    /// its own symbol.
    pub fn render(&self) -> (s: String)
        ensures
            s@ == render_spec(
                self.map_view(),
                self.spec_start_x() as int,
                self.spec_start_y() as int,
            ),
    {
        proof {
            use_type_invariant(self);
        }
        let ghost g = self.map_view();
        let ghost sx = self.spec_start_x() as int;
        let ghost sy = self.spec_start_y() as int;
        let mut s = String::new();
        proof {
            assert(g.take(0) =~= Seq::<Seq<MazeCell>>::empty());
        }
        let mut j: usize = 0;
        while j < self.height
            invariant
                j <= self.spec_height(),
                g == self.map_view(),
                sx == self.spec_start_x() as int,
                sy == self.spec_start_y() as int,
                grid_wf(g, self.spec_width() as int, self.spec_height() as int),
                s@ == render_spec(g.take(j as int), sx, sy),
            decreases self.spec_height() - j,
        {
            let ghost pre = s@;
            let row = &self.map[j];
            proof {
                assert(row@ == g[j as int]);
                assert(render_row(g[j as int], sx, j as int == sy).take(0)
                    =~= Seq::<char>::empty());
            }
            let mut i: usize = 0;
            while i < row.len()
                invariant
                    i <= row@.len(),
                    j < g.len(),
                    row@ == g[j as int],
                    sx == self.spec_start_x() as int,
                    sy == self.spec_start_y() as int,
                    s@ == pre + render_row(g[j as int], sx, j as int == sy).take(i as int),
                decreases row@.len() - i,
            {
                let c = if i == self.start_x && j == self.start_y {
                    FloorType::Start.as_char()
                } else {
                    row[i].as_char()
                };
                push_char(&mut s, c);
                proof {
                    let full = render_row(g[j as int], sx, j as int == sy);
                    assert(full[i as int] == c);
                    assert(full.take(i as int).push(c) =~= full.take(i as int + 1));
                }
                i += 1;
            }
            push_char(&mut s, '\n');
            proof {
                let full = render_row(g[j as int], sx, j as int == sy);
                assert(full.take(row@.len() as int).push('\n') =~= full);
                assert(g.take(j as int + 1).drop_last() =~= g.take(j as int));
                assert(g.take(j as int + 1).last() == g[j as int]);
            }
            j += 1;
        }
        proof {
            assert(g.take(g.len() as int) =~= g);
        }
        s
    }

    /// Moves the start to a new coordinate after revalidating it against
    /// the current map. On failure the maze is left exactly as it was.
    pub fn set_start(&mut self, start_x: usize, start_y: usize) -> (r: Result<(), MazeError>)
        ensures
            ({
                let chk = start_check(old(self).map_view(), start_x as int, start_y as int);
                &&& (r is Ok <==> chk is Ok)
                &&& (r is Err ==> r->Err_0 == chk->Err_0)
            }),
            final(self).map_view() == old(self).map_view(),
            final(self).spec_width() == old(self).spec_width(),
            final(self).spec_height() == old(self).spec_height(),
            r is Ok ==> final(self).spec_start_x() == start_x
                && final(self).spec_start_y() == start_y,
            r is Err ==> *final(self) == *old(self),
    {
        proof {
            use_type_invariant(&*self);
        }
        match Self::validate_start(&self.map, start_x, start_y) {
            Ok(()) => {
                // Both coordinates move together, so the invariant is
                // checked only once both are in place.
                set_pair(&mut self.start_x, &mut self.start_y, start_x, start_y);
                Ok(())
            },
            Err(e) => Err(e),
        }
    }

    /// One step of the depth-first search: behaves exactly as the model
    /// search [`dfs`] from `(x, y)`, mutating the grid and the visited
    /// mask in place. The out-of-bounds guard is defensive: the search
    /// itself never steps outside the grid, so the error is unreachable
    /// from [`Solvable::solve`].
    fn solve_from(&mut self, visited: &mut Vec<Vec<bool>>, x: usize, y: usize) -> (res: Result<
        bool,
        MazeError,
    >)
        requires
            mask_wf(
                bool_view(old(visited)@),
                old(self).spec_width() as int,
                old(self).spec_height() as int,
            ),
        ensures
            final(self).spec_width() == old(self).spec_width(),
            final(self).spec_height() == old(self).spec_height(),
            final(self).spec_start_x() == old(self).spec_start_x(),
            final(self).spec_start_y() == old(self).spec_start_y(),
            mask_wf(
                bool_view(final(visited)@),
                old(self).spec_width() as int,
                old(self).spec_height() as int,
            ),
            count_unvisited(bool_view(final(visited)@)) <= count_unvisited(
                bool_view(old(visited)@),
            ),
            in_bounds(
                old(self).spec_width() as int,
                old(self).spec_height() as int,
                x as int,
                y as int,
            ) ==> ({
                let out = dfs(
                    count_unvisited(bool_view(old(visited)@)) + 1,
                    old(self).map_view(),
                    bool_view(old(visited)@),
                    old(self).spec_width() as int,
                    old(self).spec_height() as int,
                    x as int,
                    y as int,
                );
                &&& res == Ok::<bool, MazeError>(out.0)
                &&& final(self).map_view() == out.1
                &&& bool_view(final(visited)@) == out.2
            }),
            !in_bounds(
                old(self).spec_width() as int,
                old(self).spec_height() as int,
                x as int,
                y as int,
            ) ==> res == Err::<bool, MazeError>(MazeError::OutOfBounds(x, y))
                && final(self).map_view() == old(self).map_view()
                && bool_view(final(visited)@) == bool_view(old(visited)@),
        decreases count_unvisited(bool_view(visited@)),
    {
        proof {
            use_type_invariant(&*self);
        }
        let ghost g0 = self.map_view();
        let ghost v0 = bool_view(visited@);
        let ghost w = self.spec_width() as int;
        let ghost h = self.spec_height() as int;
        let ghost fuel = (count_unvisited(v0) + 1) as nat;
        let path = MazeCell::Floor(FloorType::Path);

        if !(x < self.width && y < self.height) {
            return Err(MazeError::OutOfBounds(x, y));
        }
        proof {
            assert(self.map_view()[y as int].len() == w);
            assert(self.map@[y as int]@ == self.map_view()[y as int]);
            assert(bool_view(visited@)[y as int].len() == w);
            assert(visited@[y as int]@ == bool_view(visited@)[y as int]);
        }

        if self.map[y][x] == MazeCell::Wall {
            return Ok(false);
        }
        if visited[y][x] {
            return Ok(false);
        }
        visited[y][x] = true;
        proof {
            assert(bool_view(visited@) =~= set_visited(v0, x as int, y as int));
            lemma_count_update(v0, x as int, y as int);
            lemma_set_visited(v0, x as int, y as int, w, h);
        }
        let ghost v1 = bool_view(visited@);

        if x == 0 || x >= self.width - 1 || y == 0 || y >= self.height - 1 {
            proof {
                lemma_set_cell(self.map_view(), x as int, y as int, path, w, h);
            }
            write_cell(&mut self.map, x, y, path);
            return Ok(true);
        }

        // Left neighbor.
        let found = match self.solve_from(visited, x - 1, y) {
            Ok(f) => f,
            Err(e) => {
                return Err(e);
            },
        };
        let ghost a = dfs((fuel - 1) as nat, g0, v1, w, h, x as int - 1, y as int);
        proof {
            lemma_dfs_frame((fuel - 1) as nat, g0, v1, w, h, x as int - 1, y as int);
        }
        if found {
            proof {
                use_type_invariant(&*self);
                assert(self.map_view()[y as int].len() == w);
                assert(self.map@[y as int]@ == self.map_view()[y as int]);
                lemma_set_cell(self.map_view(), x as int, y as int, path, w, h);
            }
            write_cell(&mut self.map, x, y, path);
            return Ok(true);
        }

        // Right neighbor.
        let found = match self.solve_from(visited, x + 1, y) {
            Ok(f) => f,
            Err(e) => {
                return Err(e);
            },
        };
        let ghost b = dfs((fuel - 1) as nat, a.1, a.2, w, h, x as int + 1, y as int);
        proof {
            lemma_dfs_fuel(count_unvisited(a.2) + 1, (fuel - 1) as nat, a.1, a.2, w, h, x as int + 1, y as int);
            lemma_dfs_frame((fuel - 1) as nat, a.1, a.2, w, h, x as int + 1, y as int);
        }
        if found {
            proof {
                use_type_invariant(&*self);
                assert(self.map_view()[y as int].len() == w);
                assert(self.map@[y as int]@ == self.map_view()[y as int]);
                lemma_set_cell(self.map_view(), x as int, y as int, path, w, h);
            }
            write_cell(&mut self.map, x, y, path);
            return Ok(true);
        }

        // Upper neighbor.
        let found = match self.solve_from(visited, x, y - 1) {
            Ok(f) => f,
            Err(e) => {
                return Err(e);
            },
        };
        let ghost c = dfs((fuel - 1) as nat, b.1, b.2, w, h, x as int, y as int - 1);
        proof {
            lemma_dfs_fuel(count_unvisited(b.2) + 1, (fuel - 1) as nat, b.1, b.2, w, h, x as int, y as int - 1);
            lemma_dfs_frame((fuel - 1) as nat, b.1, b.2, w, h, x as int, y as int - 1);
        }
        if found {
            proof {
                use_type_invariant(&*self);
                assert(self.map_view()[y as int].len() == w);
                assert(self.map@[y as int]@ == self.map_view()[y as int]);
                lemma_set_cell(self.map_view(), x as int, y as int, path, w, h);
            }
            write_cell(&mut self.map, x, y, path);
            return Ok(true);
        }

        // Lower neighbor.
        let found = match self.solve_from(visited, x, y + 1) {
            Ok(f) => f,
            Err(e) => {
                return Err(e);
            },
        };
        let ghost d = dfs((fuel - 1) as nat, c.1, c.2, w, h, x as int, y as int + 1);
        proof {
            lemma_dfs_fuel(count_unvisited(c.2) + 1, (fuel - 1) as nat, c.1, c.2, w, h, x as int, y as int + 1);
            lemma_dfs_frame((fuel - 1) as nat, c.1, c.2, w, h, x as int, y as int + 1);
        }
        if found {
            proof {
                use_type_invariant(&*self);
                assert(self.map_view()[y as int].len() == w);
                assert(self.map@[y as int]@ == self.map_view()[y as int]);
                lemma_set_cell(self.map_view(), x as int, y as int, path, w, h);
            }
            write_cell(&mut self.map, x, y, path);
            return Ok(true);
        }

        Ok(false)
    }
}

impl Solvable for Maze {
    /// Solves the maze: allocates a fresh visited mask and searches depth
    /// first from the start coordinate. Returns `Ok(true)` and marks the
    /// found route as path floor when one exists, `Ok(false)` when no cell
    /// of the outer edge is reachable from the start. The result and the
    /// marking equal the model search [`dfs`] on the old grid, so they are
    /// a function of the grid and the start coordinate alone. What the
    /// marking looks like is stated by
    /// [`lemma_solve_route`](crate::model::lemma_solve_route): on success
    /// the marked cells are exactly one chain of floor cells from the
    /// start to the outer edge, and on failure the grid is unchanged.
    ///
    /// Earlier path marks are never cleared: solving an already solved
    /// maze keeps them, and the new search treats them as ordinary floor.
    fn solve(&mut self) -> (res: Result<bool, MazeError>)
        ensures
            final(self).spec_width() == old(self).spec_width(),
            final(self).spec_height() == old(self).spec_height(),
            final(self).spec_start_x() == old(self).spec_start_x(),
            final(self).spec_start_y() == old(self).spec_start_y(),
            ({
                let w = old(self).spec_width() as int;
                let h = old(self).spec_height() as int;
                let out = dfs(
                    (w * h + 1) as nat,
                    old(self).map_view(),
                    fresh_mask(w, h),
                    w,
                    h,
                    old(self).spec_start_x() as int,
                    old(self).spec_start_y() as int,
                );
                &&& res == Ok::<bool, MazeError>(out.0)
                &&& final(self).map_view() == out.1
            }),
    {
        proof {
            use_type_invariant(&*self);
        }
        let w = self.width;
        let h = self.height;

        // A fresh all-false visited mask.
        let mut visited: Vec<Vec<bool>> = Vec::new();
        while visited.len() < h
            invariant
                visited@.len() <= h,
                forall|j: int|
                    0 <= j < visited@.len() ==> (#[trigger] visited@[j])@ == fresh_mask(
                        w as int,
                        h as int,
                    )[j],
            decreases h - visited@.len(),
        {
            let mut row: Vec<bool> = Vec::new();
            while row.len() < w
                invariant
                    row@.len() <= w,
                    forall|i: int| 0 <= i < row@.len() ==> !(#[trigger] row@[i]),
                decreases w - row@.len(),
            {
                row.push(false);
            }
            proof {
                assert(row@ =~= fresh_mask(w as int, h as int)[visited@.len() as int]);
            }
            visited.push(row);
        }
        proof {
            assert(bool_view(visited@) =~= fresh_mask(w as int, h as int));
            lemma_count_fresh(w as int, h as int);
        }

        let sx = self.start_x;
        let sy = self.start_y;
        self.solve_from(&mut visited, sx, sy)
    }
}

} // verus!
