//! The mathematical model of the maze: grid geometry, construction,
//! and the depth-first search, all as functions on sequences.

use vstd::prelude::*;

use crate::cell::cell_symbol;
use crate::cell::floor_symbol;
use crate::cell::FloorType;
use crate::cell::MazeCell;
use crate::error::MazeError;

verus! {

/// The rows of a cell matrix, as sequences.
pub open spec fn cells_view(rows: Seq<Vec<MazeCell>>) -> Seq<Seq<MazeCell>> {
    rows.map_values(|row: Vec<MazeCell>| row@)
}

/// The rows of a boolean matrix, as sequences.
pub open spec fn bool_view(rows: Seq<Vec<bool>>) -> Seq<Seq<bool>> {
    rows.map_values(|row: Vec<bool>| row@)
}

/// A grid of the given dimensions: `h` rows, each of exactly `w` cells.
pub open spec fn grid_wf(g: Seq<Seq<MazeCell>>, w: int, h: int) -> bool {
    &&& g.len() == h
    &&& forall|j: int| 0 <= j < h ==> (#[trigger] g[j]).len() == w
}

/// The coordinate lies inside a `w` x `h` grid.
pub open spec fn in_bounds(w: int, h: int, x: int, y: int) -> bool {
    0 <= x < w && 0 <= y < h
}

/// The coordinate lies on the outer edge of a `w` x `h` grid.
pub open spec fn on_edge(w: int, h: int, x: int, y: int) -> bool {
    x == 0 || x == w - 1 || y == 0 || y == h - 1
}

/// The length of the longest row, 0 for an empty matrix.
pub open spec fn max_row_len(rows: Seq<Seq<MazeCell>>) -> int
    decreases rows.len(),
{
    if rows.len() == 0 {
        0
    } else {
        let rest = max_row_len(rows.drop_last());
        if rows.last().len() > rest {
            rows.last().len() as int
        } else {
            rest
        }
    }
}

/// The row brought to length `w`: padded with walls on the right, or
/// truncated if it is longer (never the case when `w` is the maximum
/// row length).
pub open spec fn pad_row(row: Seq<MazeCell>, w: int) -> Seq<MazeCell> {
    Seq::new(w as nat, |i: int| if i < row.len() { row[i] } else { MazeCell::Wall })
}

/// Every row brought to length `w`.
pub open spec fn padded(rows: Seq<Seq<MazeCell>>, w: int) -> Seq<Seq<MazeCell>> {
    rows.map_values(|row: Seq<MazeCell>| pad_row(row, w))
}

/// The start validation: the row index is checked first, then the column
/// index against that row, then the cell itself, which must not be a wall.
pub open spec fn start_check(g: Seq<Seq<MazeCell>>, x: int, y: int) -> Result<(), MazeError> {
    if y >= g.len() {
        Err(MazeError::StartYOutOfBounds)
    } else if x >= g[y].len() {
        Err(MazeError::StartXOutOfBounds)
    } else if g[y][x] is Wall {
        Err(MazeError::StartOnWall)
    } else {
        Ok(())
    }
}

/// What constructing a maze from a cell matrix yields: `Ok` when the grid
/// is large enough and the start coordinate lands on a floor cell of the
/// padded grid, otherwise the first error found. The dimension check comes
/// before the start checks.
pub open spec fn new_check(rows: Seq<Seq<MazeCell>>, x: int, y: int) -> Result<(), MazeError> {
    if rows.len() < 3 || max_row_len(rows) < 3 {
        Err(MazeError::TooSmall)
    } else {
        start_check(padded(rows, max_row_len(rows)), x, y)
    }
}

/// A visited mask of the given dimensions: `h` rows of `w` flags.
pub open spec fn mask_wf(v: Seq<Seq<bool>>, w: int, h: int) -> bool {
    &&& v.len() == h
    &&& forall|j: int| 0 <= j < h ==> (#[trigger] v[j]).len() == w
}

/// An all-false visited mask, as each solve call starts with.
pub open spec fn fresh_mask(w: int, h: int) -> Seq<Seq<bool>> {
    Seq::new(h as nat, |j: int| Seq::new(w as nat, |i: int| false))
}

/// The mask with the flag at `(x, y)` raised.
pub open spec fn set_visited(v: Seq<Seq<bool>>, x: int, y: int) -> Seq<Seq<bool>> {
    v.update(y, v[y].update(x, true))
}

/// The grid with the cell at `(x, y)` replaced.
pub open spec fn set_cell(g: Seq<Seq<MazeCell>>, x: int, y: int, c: MazeCell) -> Seq<
    Seq<MazeCell>,
> {
    g.update(y, g[y].update(x, c))
}

/// How many flags of one mask row are still down.
pub open spec fn count_unvisited_row(r: Seq<bool>) -> nat
    decreases r.len(),
{
    if r.len() == 0 {
        0
    } else {
        count_unvisited_row(r.drop_last()) + if r.last() {
            0nat
        } else {
            1nat
        }
    }
}

/// How many flags of the whole mask are still down. The search raises one
/// flag per step, so this measure bounds its depth.
pub open spec fn count_unvisited(v: Seq<Seq<bool>>) -> nat
    decreases v.len(),
{
    if v.len() == 0 {
        0
    } else {
        count_unvisited(v.drop_last()) + count_unvisited_row(v.last())
    }
}

proof fn lemma_count_row_update(r: Seq<bool>, i: int)
    requires
        0 <= i < r.len(),
        !r[i],
    ensures
        count_unvisited_row(r.update(i, true)) + 1 == count_unvisited_row(r),
    decreases r.len(),
{
    let r2 = r.update(i, true);
    if i == r.len() - 1 {
        assert(r2.drop_last() =~= r.drop_last());
    } else {
        assert(r2.drop_last() =~= r.drop_last().update(i, true));
        lemma_count_row_update(r.drop_last(), i);
    }
}

/// Raising a flag that was down lowers the count by exactly one.
pub proof fn lemma_count_update(v: Seq<Seq<bool>>, x: int, y: int)
    requires
        0 <= y < v.len(),
        0 <= x < v[y].len(),
        !v[y][x],
    ensures
        count_unvisited(set_visited(v, x, y)) + 1 == count_unvisited(v),
    decreases v.len(),
{
    let v2 = set_visited(v, x, y);
    if y == v.len() - 1 {
        assert(v2.drop_last() =~= v.drop_last());
        assert(v2.last() =~= v.last().update(x, true));
        lemma_count_row_update(v.last(), x);
    } else {
        assert(v2.drop_last() =~= set_visited(v.drop_last(), x, y));
        assert(v2.last() =~= v.last());
        lemma_count_update(v.drop_last(), x, y);
    }
}

proof fn lemma_count_row_all_false(r: Seq<bool>)
    requires
        forall|i: int| 0 <= i < r.len() ==> !r[i],
    ensures
        count_unvisited_row(r) == r.len(),
    decreases r.len(),
{
    if r.len() > 0 {
        lemma_count_row_all_false(r.drop_last());
    }
}

/// A fresh mask has one lowered flag per cell.
pub proof fn lemma_count_fresh(w: int, h: int)
    requires
        w >= 0,
        h >= 0,
    ensures
        count_unvisited(fresh_mask(w, h)) == w * h,
    decreases h,
{
    if h > 0 {
        assert(fresh_mask(w, h).drop_last() =~= fresh_mask(w, h - 1));
        lemma_count_fresh(w, h - 1);
        lemma_count_row_all_false(fresh_mask(w, h).last());
        assert(w * h == w * (h - 1) + w) by (nonlinear_arith);
    } else {
        assert(w * h == 0) by (nonlinear_arith)
            requires h == 0;
    }
}

/// The depth-first search itself, as a function: from `(x, y)` on grid `g`
/// with visited mask `v`, it yields whether a route to the edge was found,
/// the grid with the found route marked as path floor, and the mask grown
/// by every cell the search stepped on.
///
/// A wall or an already visited cell is a dead end. The cell is marked
/// visited before anything else; a cell on the outer edge is the goal.
/// Otherwise the four neighbors are tried in the fixed order left, right,
/// up, down, and the first success marks the current cell and returns at
/// once. `fuel` only bounds the recursion; any value above the number of
/// unvisited cells gives the same result (see [`lemma_dfs_fuel`]).
pub open spec fn dfs(
    fuel: nat,
    g: Seq<Seq<MazeCell>>,
    v: Seq<Seq<bool>>,
    w: int,
    h: int,
    x: int,
    y: int,
) -> (bool, Seq<Seq<MazeCell>>, Seq<Seq<bool>>)
    decreases fuel,
{
    if fuel == 0 {
        (false, g, v)
    } else if g[y][x] is Wall {
        (false, g, v)
    } else if v[y][x] {
        (false, g, v)
    } else {
        let v1 = set_visited(v, x, y);
        if on_edge(w, h, x, y) {
            (true, set_cell(g, x, y, MazeCell::Floor(FloorType::Path)), v1)
        } else {
            let a = dfs((fuel - 1) as nat, g, v1, w, h, x - 1, y);
            if a.0 {
                (true, set_cell(a.1, x, y, MazeCell::Floor(FloorType::Path)), a.2)
            } else {
                let b = dfs((fuel - 1) as nat, a.1, a.2, w, h, x + 1, y);
                if b.0 {
                    (true, set_cell(b.1, x, y, MazeCell::Floor(FloorType::Path)), b.2)
                } else {
                    let c = dfs((fuel - 1) as nat, b.1, b.2, w, h, x, y - 1);
                    if c.0 {
                        (true, set_cell(c.1, x, y, MazeCell::Floor(FloorType::Path)), c.2)
                    } else {
                        let d = dfs((fuel - 1) as nat, c.1, c.2, w, h, x, y + 1);
                        if d.0 {
                            (true, set_cell(d.1, x, y, MazeCell::Floor(FloorType::Path)), d.2)
                        } else {
                            (false, d.1, d.2)
                        }
                    }
                }
            }
        }
    }
}

/// Between two states of the grid, cells have at most been marked as path.
pub open spec fn only_path_marked(g1: Seq<Seq<MazeCell>>, g2: Seq<Seq<MazeCell>>, w: int, h: int) -> bool {
    forall|i: int, j: int|
        0 <= j < h && 0 <= i < w && (#[trigger] g2[j][i]) != g1[j][i]
            ==> g2[j][i] == MazeCell::Floor(FloorType::Path)
}

/// Between two states of the mask, flags have at most been raised.
pub open spec fn mask_grows(v1: Seq<Seq<bool>>, v2: Seq<Seq<bool>>, w: int, h: int) -> bool {
    forall|i: int, j: int| 0 <= j < h && 0 <= i < w && (#[trigger] v1[j][i]) ==> v2[j][i]
}

proof fn lemma_only_path_marked_trans(
    g1: Seq<Seq<MazeCell>>,
    g2: Seq<Seq<MazeCell>>,
    g3: Seq<Seq<MazeCell>>,
    w: int,
    h: int,
)
    requires
        only_path_marked(g1, g2, w, h),
        only_path_marked(g2, g3, w, h),
    ensures
        only_path_marked(g1, g3, w, h),
{
    assert forall|i: int, j: int|
        0 <= j < h && 0 <= i < w && (#[trigger] g3[j][i]) != g1[j][i] implies
        g3[j][i] == MazeCell::Floor(FloorType::Path) by {
        if g3[j][i] == g2[j][i] {
            assert(g2[j][i] != g1[j][i]);
        }
    }
}

proof fn lemma_mask_grows_trans(
    v1: Seq<Seq<bool>>,
    v2: Seq<Seq<bool>>,
    v3: Seq<Seq<bool>>,
    w: int,
    h: int,
)
    requires
        mask_grows(v1, v2, w, h),
        mask_grows(v2, v3, w, h),
    ensures
        mask_grows(v1, v3, w, h),
{
    assert forall|i: int, j: int|
        0 <= j < h && 0 <= i < w && (#[trigger] v1[j][i]) implies v3[j][i] by {
        assert(v2[j][i]);
    }
}

/// Replacing one cell changes nothing else and keeps the dimensions.
pub proof fn lemma_set_cell(g: Seq<Seq<MazeCell>>, x: int, y: int, c: MazeCell, w: int, h: int)
    requires
        grid_wf(g, w, h),
        in_bounds(w, h, x, y),
    ensures
        grid_wf(set_cell(g, x, y, c), w, h),
        set_cell(g, x, y, c)[y][x] == c,
        forall|i: int, j: int|
            0 <= j < h && 0 <= i < w && !(i == x && j == y)
                ==> (#[trigger] set_cell(g, x, y, c)[j][i]) == g[j][i],
{
}

/// Raising one flag changes nothing else and keeps the dimensions.
pub proof fn lemma_set_visited(v: Seq<Seq<bool>>, x: int, y: int, w: int, h: int)
    requires
        mask_wf(v, w, h),
        in_bounds(w, h, x, y),
    ensures
        mask_wf(set_visited(v, x, y), w, h),
        set_visited(v, x, y)[y][x],
        mask_grows(v, set_visited(v, x, y), w, h),
        forall|i: int, j: int|
            0 <= j < h && 0 <= i < w && !(i == x && j == y)
                ==> (#[trigger] set_visited(v, x, y)[j][i]) == v[j][i],
{
}

/// What every search preserves: the dimensions of grid and mask, that the
/// mask only grows and its count never rises, and that a cell changes only
/// by becoming path floor.
pub proof fn lemma_dfs_frame(
    fuel: nat,
    g: Seq<Seq<MazeCell>>,
    v: Seq<Seq<bool>>,
    w: int,
    h: int,
    x: int,
    y: int,
)
    requires
        grid_wf(g, w, h),
        mask_wf(v, w, h),
        in_bounds(w, h, x, y),
    ensures
        ({
            let out = dfs(fuel, g, v, w, h, x, y);
            &&& grid_wf(out.1, w, h)
            &&& mask_wf(out.2, w, h)
            &&& count_unvisited(out.2) <= count_unvisited(v)
            &&& only_path_marked(g, out.1, w, h)
            &&& mask_grows(v, out.2, w, h)
        }),
    decreases fuel,
{
    let out = dfs(fuel, g, v, w, h, x, y);
    let path = MazeCell::Floor(FloorType::Path);
    if fuel == 0 || g[y][x] is Wall || v[y][x] {
    } else {
        let v1 = set_visited(v, x, y);
        lemma_count_update(v, x, y);
        lemma_set_visited(v, x, y, w, h);
        if on_edge(w, h, x, y) {
            lemma_set_cell(g, x, y, path, w, h);
        } else {
            let a = dfs((fuel - 1) as nat, g, v1, w, h, x - 1, y);
            lemma_dfs_frame((fuel - 1) as nat, g, v1, w, h, x - 1, y);
            lemma_mask_grows_trans(v, v1, a.2, w, h);
            if a.0 {
                lemma_set_cell(a.1, x, y, path, w, h);
                lemma_only_path_marked_trans(g, a.1, out.1, w, h);
            } else {
                let b = dfs((fuel - 1) as nat, a.1, a.2, w, h, x + 1, y);
                lemma_dfs_frame((fuel - 1) as nat, a.1, a.2, w, h, x + 1, y);
                lemma_only_path_marked_trans(g, a.1, b.1, w, h);
                lemma_mask_grows_trans(v, a.2, b.2, w, h);
                if b.0 {
                    lemma_set_cell(b.1, x, y, path, w, h);
                    lemma_only_path_marked_trans(g, b.1, out.1, w, h);
                } else {
                    let c = dfs((fuel - 1) as nat, b.1, b.2, w, h, x, y - 1);
                    lemma_dfs_frame((fuel - 1) as nat, b.1, b.2, w, h, x, y - 1);
                    lemma_only_path_marked_trans(g, b.1, c.1, w, h);
                    lemma_mask_grows_trans(v, b.2, c.2, w, h);
                    if c.0 {
                        lemma_set_cell(c.1, x, y, path, w, h);
                        lemma_only_path_marked_trans(g, c.1, out.1, w, h);
                    } else {
                        let d = dfs((fuel - 1) as nat, c.1, c.2, w, h, x, y + 1);
                        lemma_dfs_frame((fuel - 1) as nat, c.1, c.2, w, h, x, y + 1);
                        lemma_only_path_marked_trans(g, c.1, d.1, w, h);
                        lemma_mask_grows_trans(v, c.2, d.2, w, h);
                        if d.0 {
                            lemma_set_cell(d.1, x, y, path, w, h);
                            lemma_only_path_marked_trans(g, d.1, out.1, w, h);
                        }
                    }
                }
            }
        }
    }
}

/// The result does not depend on the fuel, as long as the fuel exceeds the
/// number of unvisited cells: each step of the search visits a new cell.
pub proof fn lemma_dfs_fuel(
    f1: nat,
    f2: nat,
    g: Seq<Seq<MazeCell>>,
    v: Seq<Seq<bool>>,
    w: int,
    h: int,
    x: int,
    y: int,
)
    requires
        grid_wf(g, w, h),
        mask_wf(v, w, h),
        in_bounds(w, h, x, y),
        f1 >= count_unvisited(v) + 1,
        f2 >= f1,
    ensures
        dfs(f1, g, v, w, h, x, y) == dfs(f2, g, v, w, h, x, y),
    decreases f1,
{
    if g[y][x] is Wall || v[y][x] {
    } else {
        let v1 = set_visited(v, x, y);
        lemma_count_update(v, x, y);
        if on_edge(w, h, x, y) {
        } else {
            let a = dfs((f1 - 1) as nat, g, v1, w, h, x - 1, y);
            lemma_dfs_fuel((f1 - 1) as nat, (f2 - 1) as nat, g, v1, w, h, x - 1, y);
            lemma_dfs_frame((f1 - 1) as nat, g, v1, w, h, x - 1, y);
            if a.0 {
            } else {
                let b = dfs((f1 - 1) as nat, a.1, a.2, w, h, x + 1, y);
                lemma_dfs_fuel((f1 - 1) as nat, (f2 - 1) as nat, a.1, a.2, w, h, x + 1, y);
                lemma_dfs_frame((f1 - 1) as nat, a.1, a.2, w, h, x + 1, y);
                if b.0 {
                } else {
                    let c = dfs((f1 - 1) as nat, b.1, b.2, w, h, x, y - 1);
                    lemma_dfs_fuel((f1 - 1) as nat, (f2 - 1) as nat, b.1, b.2, w, h, x, y - 1);
                    lemma_dfs_frame((f1 - 1) as nat, b.1, b.2, w, h, x, y - 1);
                    if c.0 {
                    } else {
                        lemma_dfs_fuel((f1 - 1) as nat, (f2 - 1) as nat, c.1, c.2, w, h, x, y + 1);
                    }
                }
            }
        }
    }
}

/// One rendered line: the start coordinate shows the start symbol, every
/// other cell its own symbol, and a line break ends the line.
pub open spec fn render_row(row: Seq<MazeCell>, sx: int, start_here: bool) -> Seq<char> {
    Seq::new(
        row.len(),
        |i: int|
            if start_here && i == sx {
                floor_symbol(FloorType::Start)
            } else {
                cell_symbol(row[i])
            },
    ).push('\n')
}

/// The rendered text of a grid with start coordinate `(sx, sy)`: one line
/// per row, top to bottom.
pub open spec fn render_spec(g: Seq<Seq<MazeCell>>, sx: int, sy: int) -> Seq<char>
    decreases g.len(),
{
    if g.len() == 0 {
        Seq::empty()
    } else {
        render_spec(g.drop_last(), sx, sy) + render_row(g.last(), sx, sy == g.len() - 1)
    }
}

/// No cell of the grid is marked as path floor.
pub open spec fn no_path_cells(g: Seq<Seq<MazeCell>>) -> bool {
    forall|j: int, i: int|
        0 <= j < g.len() && 0 <= i < g[j].len() ==> (#[trigger] g[j][i]) != MazeCell::Floor(
            FloorType::Path,
        )
}

/// Rendering a grid that holds no path cell never emits the path symbol.
pub proof fn lemma_render_no_path(g: Seq<Seq<MazeCell>>, sx: int, sy: int)
    requires
        no_path_cells(g),
    ensures
        forall|k: int|
            0 <= k < render_spec(g, sx, sy).len() ==> (#[trigger] render_spec(g, sx, sy)[k])
                != floor_symbol(FloorType::Path),
    decreases g.len(),
{
    if g.len() > 0 {
        let rest = g.drop_last();
        assert(no_path_cells(rest)) by {
            assert forall|j: int, i: int|
                0 <= j < rest.len() && 0 <= i < rest[j].len() implies (#[trigger] rest[j][i])
                != MazeCell::Floor(FloorType::Path) by {
                assert(rest[j] == g[j]);
            }
        }
        lemma_render_no_path(rest, sx, sy);
        let row = render_row(g.last(), sx, sy == g.len() - 1);
        let pre = render_spec(rest, sx, sy);
        assert forall|k: int|
            0 <= k < render_spec(g, sx, sy).len() implies (#[trigger] render_spec(g, sx, sy)[k])
            != floor_symbol(FloorType::Path) by {
            if k >= pre.len() {
                let i = k - pre.len();
                assert(render_spec(g, sx, sy)[k] == row[i]);
                if i < g.last().len() {
                    assert(g[g.len() - 1][i] != MazeCell::Floor(FloorType::Path));
                }
            }
        }
    }
}

/// Booleans as cells: `true` is plain floor, `false` a wall.
pub open spec fn bools_to_cells(rows: Seq<Seq<bool>>) -> Seq<Seq<MazeCell>> {
    rows.map_values(|r: Seq<bool>| r.map_values(|b: bool| MazeCell::spec_from_bool(b)))
}

/// A boolean matrix never yields a path cell.
pub proof fn lemma_bools_no_path(rows: Seq<Seq<bool>>)
    ensures
        no_path_cells(bools_to_cells(rows)),
{
    let cells = bools_to_cells(rows);
    assert forall|j: int, i: int|
        0 <= j < cells.len() && 0 <= i < cells[j].len() implies (#[trigger] cells[j][i])
        != MazeCell::Floor(FloorType::Path) by {
        assert(cells[j][i] == MazeCell::spec_from_bool(rows[j][i]));
    }
}

/// Padding with walls never adds a path cell.
pub proof fn lemma_padded_no_path(rows: Seq<Seq<MazeCell>>, w: int)
    requires
        no_path_cells(rows),
    ensures
        no_path_cells(padded(rows, w)),
{
    let p = padded(rows, w);
    assert forall|j: int, i: int|
        0 <= j < p.len() && 0 <= i < p[j].len() implies (#[trigger] p[j][i]) != MazeCell::Floor(
        FloorType::Path,
    ) by {
        if i < rows[j].len() {
            assert(p[j][i] == rows[j][i]);
        }
    }
}

/// What one character of text input means: floor, wall, or nothing.
pub open spec fn char_cell(c: char) -> Option<MazeCell> {
    if c == ' ' {
        Option::Some(MazeCell::Floor(FloorType::Floor))
    } else if c == 'X' {
        Option::Some(MazeCell::Wall)
    } else {
        Option::None
    }
}

/// One text row as cells; the leftmost unknown character is the error.
pub open spec fn row_cells(s: Seq<char>) -> Result<Seq<MazeCell>, MazeError>
    decreases s.len(),
{
    if s.len() == 0 {
        Ok(Seq::empty())
    } else {
        match row_cells(s.drop_last()) {
            Err(e) => Err(e),
            Ok(cells) => match char_cell(s.last()) {
                Option::None => Err(MazeError::InvalidCharacter(s.last())),
                Option::Some(c) => Ok(cells.push(c)),
            },
        }
    }
}

/// All text rows as cells; the first unknown character, scanning row by
/// row and left to right within a row, is the error.
pub open spec fn rows_cells(rows: Seq<Seq<char>>) -> Result<Seq<Seq<MazeCell>>, MazeError>
    decreases rows.len(),
{
    if rows.len() == 0 {
        Ok(Seq::empty())
    } else {
        match rows_cells(rows.drop_last()) {
            Err(e) => Err(e),
            Ok(grid) => match row_cells(rows.last()) {
                Err(e) => Err(e),
                Ok(cells) => Ok(grid.push(cells)),
            },
        }
    }
}

/// Converting one more valid character extends the converted row.
pub proof fn lemma_row_cells_step(s: Seq<char>, i: int)
    requires
        0 <= i < s.len(),
        row_cells(s.take(i)) is Ok,
        char_cell(s[i]) is Some,
    ensures
        row_cells(s.take(i + 1)) == Ok::<Seq<MazeCell>, MazeError>(
            row_cells(s.take(i))->Ok_0.push(char_cell(s[i])->Some_0),
        ),
{
    assert(s.take(i + 1).drop_last() =~= s.take(i));
    assert(s.take(i + 1).last() == s[i]);
}

/// An unknown character after a valid prefix decides the row's error.
pub proof fn lemma_row_cells_bad(s: Seq<char>, i: int)
    requires
        0 <= i < s.len(),
        row_cells(s.take(i)) is Ok,
        char_cell(s[i]) is None,
    ensures
        row_cells(s) == Err::<Seq<MazeCell>, MazeError>(MazeError::InvalidCharacter(s[i])),
    decreases s.len(),
{
    if i == s.len() - 1 {
        assert(s.take(i) =~= s.drop_last());
    } else {
        assert(s.drop_last().take(i) =~= s.take(i));
        lemma_row_cells_bad(s.drop_last(), i);
    }
}

/// Converting one more valid row extends the converted matrix.
pub proof fn lemma_rows_cells_step(rows: Seq<Seq<char>>, j: int)
    requires
        0 <= j < rows.len(),
        rows_cells(rows.take(j)) is Ok,
        row_cells(rows[j]) is Ok,
    ensures
        rows_cells(rows.take(j + 1)) == Ok::<Seq<Seq<MazeCell>>, MazeError>(
            rows_cells(rows.take(j))->Ok_0.push(row_cells(rows[j])->Ok_0),
        ),
{
    assert(rows.take(j + 1).drop_last() =~= rows.take(j));
    assert(rows.take(j + 1).last() == rows[j]);
}

/// A bad row after valid rows decides the matrix's error.
pub proof fn lemma_rows_cells_bad(rows: Seq<Seq<char>>, j: int)
    requires
        0 <= j < rows.len(),
        rows_cells(rows.take(j)) is Ok,
        row_cells(rows[j]) is Err,
    ensures
        rows_cells(rows) == Err::<Seq<Seq<MazeCell>>, MazeError>(row_cells(rows[j])->Err_0),
    decreases rows.len(),
{
    if j == rows.len() - 1 {
        assert(rows.take(j) =~= rows.drop_last());
    } else {
        assert(rows.drop_last().take(j) =~= rows.take(j));
        lemma_rows_cells_bad(rows.drop_last(), j);
    }
}

/// Text input never yields a path cell.
pub proof fn lemma_rows_cells_no_path(rows: Seq<Seq<char>>)
    requires
        rows_cells(rows) is Ok,
    ensures
        no_path_cells(rows_cells(rows)->Ok_0),
    decreases rows.len(),
{
    let cells = rows_cells(rows)->Ok_0;
    if rows.len() > 0 {
        lemma_rows_cells_no_path(rows.drop_last());
        lemma_row_cells_plain(rows.last());
        let pre = rows_cells(rows.drop_last())->Ok_0;
        assert forall|j: int, i: int|
            0 <= j < cells.len() && 0 <= i < cells[j].len() implies (#[trigger] cells[j][i])
            != MazeCell::Floor(FloorType::Path) by {
            if j < cells.len() - 1 {
                assert(cells[j] == pre[j]);
            } else {
                assert(cells[j] == row_cells(rows.last())->Ok_0);
            }
        }
    }
}

proof fn lemma_row_cells_plain(s: Seq<char>)
    requires
        row_cells(s) is Ok,
    ensures
        forall|i: int|
            0 <= i < row_cells(s)->Ok_0.len() ==> (#[trigger] row_cells(s)->Ok_0[i])
                != MazeCell::Floor(FloorType::Path),
        row_cells(s)->Ok_0.len() == s.len(),
    decreases s.len(),
{
    if s.len() > 0 {
        lemma_row_cells_plain(s.drop_last());
    }
}

/// The rows of text input, as character sequences.
pub open spec fn str_rows_view(rows: Seq<&str>) -> Seq<Seq<char>> {
    rows.map_values(|s: &str| s@)
}

/// Where the first line break sits, or the length if there is none.
pub open spec fn first_newline(s: Seq<char>) -> int
    decreases s.len(),
{
    if s.len() == 0 {
        0
    } else if s[0] == '\n' {
        0
    } else {
        1 + first_newline(s.skip(1))
    }
}

/// The first line break's position lies inside the text or just past it.
pub proof fn lemma_first_newline_bounds(s: Seq<char>)
    ensures
        0 <= first_newline(s) <= s.len(),
    decreases s.len(),
{
    if s.len() > 0 && s[0] != '\n' {
        lemma_first_newline_bounds(s.skip(1));
    }
}

/// The position the name promises: a line break there, none before it.
pub proof fn lemma_first_newline_at(s: Seq<char>, i: int)
    requires
        0 <= i <= s.len(),
        forall|k: int| 0 <= k < i ==> s[k] != '\n',
        i < s.len() ==> s[i] == '\n',
    ensures
        first_newline(s) == i,
    decreases s.len(),
{
    if s.len() > 0 && s[0] != '\n' {
        let t = s.skip(1);
        assert forall|k: int| 0 <= k < i - 1 implies t[k] != '\n' by {
            assert(t[k] == s[k + 1]);
        }
        assert(i >= 1);
        assert(i - 1 < t.len() ==> t[i - 1] == '\n');
        lemma_first_newline_at(t, i - 1);
    }
}

/// The text split at every line break; a break at the very end yields a
/// final empty row.
pub open spec fn split_lines(s: Seq<char>) -> Seq<Seq<char>>
    decreases s.len(),
    via split_lines_decreases
{
    let i = first_newline(s);
    if i >= s.len() {
        seq![s]
    } else {
        seq![s.take(i)] + split_lines(s.skip(i + 1))
    }
}

#[via_fn]
proof fn split_lines_decreases(s: Seq<char>) {
    lemma_first_newline_bounds(s);
}

/// Two coordinates are axis-aligned neighbors.
pub open spec fn adjacent(a: (int, int), b: (int, int)) -> bool {
    ||| a.0 == b.0 && (a.1 == b.1 + 1 || a.1 + 1 == b.1)
    ||| a.1 == b.1 && (a.0 == b.0 + 1 || a.0 + 1 == b.0)
}

/// A route from `(x, y)` to the outer edge of the grid: it starts at
/// `(x, y)`, each step moves to an axis-aligned neighbor, every cell on it
/// is a floor cell inside the grid, no cell repeats, and the last cell
/// lies on the outer edge.
pub open spec fn valid_route(
    g: Seq<Seq<MazeCell>>,
    w: int,
    h: int,
    p: Seq<(int, int)>,
    x: int,
    y: int,
) -> bool {
    &&& p.len() >= 1
    &&& p[0] == (x, y)
    &&& forall|k: int| 0 <= k < p.len() ==> in_bounds(w, h, (#[trigger] p[k]).0, p[k].1)
    &&& forall|k: int| 0 <= k < p.len() ==> g[(#[trigger] p[k]).1][p[k].0] is Floor
    &&& forall|k: int| 0 <= k < p.len() - 1 ==> adjacent(p[k], #[trigger] p[k + 1])
    &&& forall|k1: int, k2: int| 0 <= k1 < k2 < p.len() ==> p[k1] != p[k2]
    &&& on_edge(w, h, p.last().0, p.last().1)
}

/// The grid with exactly the cells on `p` marked as path floor.
pub open spec fn mark_route(g: Seq<Seq<MazeCell>>, p: Seq<(int, int)>) -> Seq<Seq<MazeCell>> {
    Seq::new(
        g.len(),
        |j: int|
            Seq::new(
                g[j].len(),
                |i: int|
                    if p.contains((i, j)) {
                        MazeCell::Floor(FloorType::Path)
                    } else {
                        g[j][i]
                    },
            ),
    )
}

/// No cell of the route carries a raised flag in the mask.
pub open spec fn route_unvisited(v: Seq<Seq<bool>>, p: Seq<(int, int)>) -> bool {
    forall|k: int| 0 <= k < p.len() ==> !v[(#[trigger] p[k]).1][p[k].0]
}

/// The witness a successful search leaves behind: a route, untouched by
/// the starting mask, whose marking is the final grid.
pub open spec fn dfs_route_witness(
    g: Seq<Seq<MazeCell>>,
    v: Seq<Seq<bool>>,
    out_map: Seq<Seq<MazeCell>>,
    w: int,
    h: int,
    x: int,
    y: int,
    p: Seq<(int, int)>,
) -> bool {
    &&& valid_route(g, w, h, p, x, y)
    &&& route_unvisited(v, p)
    &&& out_map == mark_route(g, p)
}

proof fn lemma_mark_route_none(g: Seq<Seq<MazeCell>>, p: Seq<(int, int)>)
    requires
        forall|k: int| 0 <= k < p.len() ==> !(0 <= (#[trigger] p[k]).1 < g.len()
            && 0 <= p[k].0 < g[p[k].1].len()),
    ensures
        mark_route(g, p) == g,
{
    assert forall|j: int| 0 <= j < g.len() implies mark_route(g, p)[j] == g[j] by {
        assert forall|i: int| 0 <= i < g[j].len() implies !p.contains((i, j)) by {
            if p.contains((i, j)) {
                let k = choose|k: int| 0 <= k < p.len() && p[k] == (i, j);
                assert(!(0 <= p[k].1 < g.len() && 0 <= p[k].0 < g[p[k].1].len()));
            }
        }
        assert(mark_route(g, p)[j] =~= g[j]);
    }
    assert(mark_route(g, p) =~= g);
}

proof fn lemma_mark_route_prepend(
    g: Seq<Seq<MazeCell>>,
    w: int,
    h: int,
    x: int,
    y: int,
    p: Seq<(int, int)>,
)
    requires
        grid_wf(g, w, h),
        in_bounds(w, h, x, y),
        !p.contains((x, y)),
    ensures
        set_cell(mark_route(g, p), x, y, MazeCell::Floor(FloorType::Path)) == mark_route(
            g,
            seq![(x, y)] + p,
        ),
{
    let full = seq![(x, y)] + p;
    let lhs = set_cell(mark_route(g, p), x, y, MazeCell::Floor(FloorType::Path));
    let rhs = mark_route(g, full);
    assert(full[0] == (x, y));
    assert forall|j: int| 0 <= j < g.len() implies lhs[j] == rhs[j] by {
        assert forall|i: int| 0 <= i < g[j].len() implies lhs[j][i] == rhs[j][i] by {
            if i == x && j == y {
                assert(full.contains((x, y)));
            } else {
                if p.contains((i, j)) {
                    let k = choose|k: int| 0 <= k < p.len() && p[k] == (i, j);
                    assert(full[k + 1] == (i, j));
                    assert(full.contains((i, j)));
                } else if full.contains((i, j)) {
                    let k = choose|k: int| 0 <= k < full.len() && full[k] == (i, j);
                    assert(k > 0);
                    assert(p[k - 1] == (i, j));
                    assert(p.contains((i, j)));
                }
            }
        }
        assert(lhs[j] =~= rhs[j]);
    }
    assert(lhs =~= rhs);
}

/// Stepping back from a found route: the current floor cell, prepended to
/// a route from a neighbor, is a route again, and it avoids everything
/// the mask had already seen.
proof fn lemma_route_extend(
    g: Seq<Seq<MazeCell>>,
    v: Seq<Seq<bool>>,
    vc: Seq<Seq<bool>>,
    w: int,
    h: int,
    x: int,
    y: int,
    nx: int,
    ny: int,
    p: Seq<(int, int)>,
)
    requires
        grid_wf(g, w, h),
        mask_wf(v, w, h),
        in_bounds(w, h, x, y),
        g[y][x] is Floor,
        !v[y][x],
        adjacent((x, y), (nx, ny)),
        valid_route(g, w, h, p, nx, ny),
        route_unvisited(vc, p),
        mask_grows(set_visited(v, x, y), vc, w, h),
    ensures
        valid_route(g, w, h, seq![(x, y)] + p, x, y),
        route_unvisited(v, seq![(x, y)] + p),
        !p.contains((x, y)),
    decreases p.len(),
{
    lemma_set_visited(v, x, y, w, h);
    let v1 = set_visited(v, x, y);
    let full = seq![(x, y)] + p;

    // The route avoids the current cell: its flag is raised in `v1`,
    // which only grows into `vc`.
    assert forall|k: int| 0 <= k < p.len() implies p[k] != (x, y) by {
        if p[k] == (x, y) {
            assert(v1[y][x]);
            assert(vc[p[k].1][p[k].0]);
        }
    }
    if p.contains((x, y)) {
        let k = choose|k: int| 0 <= k < p.len() && p[k] == (x, y);
        assert(p[k] != (x, y));
    }

    // The extended route is untouched by the starting mask.
    assert forall|k: int| 0 <= k < full.len() implies !v[(#[trigger] full[k]).1][full[k].0] by {
        if k > 0 {
            assert(full[k] == p[k - 1]);
            assert(!vc[p[k - 1].1][p[k - 1].0]);
            if v[p[k - 1].1][p[k - 1].0] {
                assert(v1[p[k - 1].1][p[k - 1].0]);
                assert(vc[p[k - 1].1][p[k - 1].0]);
            }
        }
    }

    // The extended route is a route.
    assert(full[0] == (x, y));
    assert(full.len() >= 2);
    assert(full.last() == p.last());
    assert forall|k: int| 0 <= k < full.len() implies in_bounds(
        w,
        h,
        (#[trigger] full[k]).0,
        full[k].1,
    ) && g[full[k].1][full[k].0] is Floor by {
        if k > 0 {
            assert(full[k] == p[k - 1]);
            assert(in_bounds(w, h, p[k - 1].0, p[k - 1].1));
            assert(g[p[k - 1].1][p[k - 1].0] is Floor);
        }
    }
    assert forall|k: int| 0 <= k < full.len() - 1 implies adjacent(full[k], #[trigger] full[k + 1]) by {
        if k == 0 {
            assert(full[1] == p[0]);
        } else {
            assert(full[k] == p[k - 1]);
            assert(full[k + 1] == p[k]);
            assert(adjacent(p[k - 1], p[(k - 1) + 1]));
        }
    }
    assert forall|k1: int, k2: int| 0 <= k1 < k2 < full.len() implies full[k1] != full[k2] by {
        if k1 == 0 {
            assert(full[k2] == p[k2 - 1]);
            assert(p[k2 - 1] != (x, y));
        } else {
            assert(full[k1] == p[k1 - 1]);
            assert(full[k2] == p[k2 - 1]);
        }
    }
}

/// What a search run leaves behind. A failed search leaves the grid
/// untouched. A successful one has found a route of floor cells from
/// `(x, y)` to the outer edge, none of whose cells the mask had seen, and
/// the final grid is the old grid with exactly that route marked as path
/// floor.
pub proof fn lemma_dfs_route(
    fuel: nat,
    g: Seq<Seq<MazeCell>>,
    v: Seq<Seq<bool>>,
    w: int,
    h: int,
    x: int,
    y: int,
)
    requires
        grid_wf(g, w, h),
        mask_wf(v, w, h),
        in_bounds(w, h, x, y),
    ensures
        ({
            let out = dfs(fuel, g, v, w, h, x, y);
            &&& (!out.0 ==> out.1 == g)
            &&& (out.0 ==> exists|p: Seq<(int, int)>|
                #[trigger] dfs_route_witness(g, v, out.1, w, h, x, y, p))
        }),
    decreases fuel,
{
    let out = dfs(fuel, g, v, w, h, x, y);
    let path = MazeCell::Floor(FloorType::Path);
    if fuel == 0 || g[y][x] is Wall || v[y][x] {
    } else {
        let v1 = set_visited(v, x, y);
        lemma_set_visited(v, x, y, w, h);
        if on_edge(w, h, x, y) {
            let p = seq![(x, y)];
            assert(p.last() == (x, y));
            lemma_mark_route_none(g, Seq::<(int, int)>::empty());
            assert(seq![(x, y)] + Seq::<(int, int)>::empty() =~= p);
            lemma_mark_route_prepend(g, w, h, x, y, Seq::<(int, int)>::empty());
            assert(out.1 == mark_route(g, p));
            assert(dfs_route_witness(g, v, out.1, w, h, x, y, p));
        } else {
            let a = dfs((fuel - 1) as nat, g, v1, w, h, x - 1, y);
            lemma_dfs_frame((fuel - 1) as nat, g, v1, w, h, x - 1, y);
            lemma_dfs_route((fuel - 1) as nat, g, v1, w, h, x - 1, y);
            if a.0 {
                let p = choose|p: Seq<(int, int)>|
                    #[trigger] dfs_route_witness(g, v1, a.1, w, h, x - 1, y, p);
                lemma_route_extend(g, v, v1, w, h, x, y, x - 1, y, p);
                lemma_mark_route_prepend(g, w, h, x, y, p);
                assert(dfs_route_witness(g, v, out.1, w, h, x, y, seq![(x, y)] + p));
            } else {
                let b = dfs((fuel - 1) as nat, a.1, a.2, w, h, x + 1, y);
                lemma_dfs_frame((fuel - 1) as nat, a.1, a.2, w, h, x + 1, y);
                lemma_dfs_route((fuel - 1) as nat, a.1, a.2, w, h, x + 1, y);
                if b.0 {
                    let p = choose|p: Seq<(int, int)>|
                        #[trigger] dfs_route_witness(g, a.2, b.1, w, h, x + 1, y, p);
                    lemma_mask_grows_trans(v1, a.2, a.2, w, h);
                    lemma_route_extend(g, v, a.2, w, h, x, y, x + 1, y, p);
                    lemma_mark_route_prepend(g, w, h, x, y, p);
                    assert(dfs_route_witness(g, v, out.1, w, h, x, y, seq![(x, y)] + p));
                } else {
                    let c = dfs((fuel - 1) as nat, b.1, b.2, w, h, x, y - 1);
                    lemma_dfs_frame((fuel - 1) as nat, b.1, b.2, w, h, x, y - 1);
                    lemma_dfs_route((fuel - 1) as nat, b.1, b.2, w, h, x, y - 1);
                    if c.0 {
                        let p = choose|p: Seq<(int, int)>|
                            #[trigger] dfs_route_witness(g, b.2, c.1, w, h, x, y - 1, p);
                        lemma_mask_grows_trans(v1, a.2, b.2, w, h);
                        lemma_route_extend(g, v, b.2, w, h, x, y, x, y - 1, p);
                        lemma_mark_route_prepend(g, w, h, x, y, p);
                        assert(dfs_route_witness(g, v, out.1, w, h, x, y, seq![(x, y)] + p));
                    } else {
                        let d = dfs((fuel - 1) as nat, c.1, c.2, w, h, x, y + 1);
                        lemma_dfs_frame((fuel - 1) as nat, c.1, c.2, w, h, x, y + 1);
                        lemma_dfs_route((fuel - 1) as nat, c.1, c.2, w, h, x, y + 1);
                        if d.0 {
                            let p = choose|p: Seq<(int, int)>|
                                #[trigger] dfs_route_witness(g, c.2, d.1, w, h, x, y + 1, p);
                            lemma_mask_grows_trans(v1, a.2, b.2, w, h);
                            lemma_mask_grows_trans(v1, b.2, c.2, w, h);
                            lemma_route_extend(g, v, c.2, w, h, x, y, x, y + 1, p);
                            lemma_mark_route_prepend(g, w, h, x, y, p);
                            assert(dfs_route_witness(g, v, out.1, w, h, x, y, seq![(x, y)] + p));
                        }
                    }
                }
            }
        }
    }
}

/// The law a successful solve establishes: when the search from `(x, y)`
/// on a fresh mask reports a route, the cells it marked as path floor are
/// exactly one chain of floor cells that starts at `(x, y)`, steps only
/// between axis-aligned neighbors, never repeats a cell, and ends on the
/// outer edge of the grid. When it reports none, the grid is unchanged.
pub proof fn lemma_solve_route(g: Seq<Seq<MazeCell>>, w: int, h: int, x: int, y: int)
    requires
        grid_wf(g, w, h),
        in_bounds(w, h, x, y),
    ensures
        ({
            let out = dfs((w * h + 1) as nat, g, fresh_mask(w, h), w, h, x, y);
            &&& (!out.0 ==> out.1 == g)
            &&& (out.0 ==> exists|p: Seq<(int, int)>|
                {
                    &&& #[trigger] valid_route(g, w, h, p, x, y)
                    &&& out.1 == mark_route(g, p)
                })
        }),
{
    let out = dfs((w * h + 1) as nat, g, fresh_mask(w, h), w, h, x, y);
    assert(mask_wf(fresh_mask(w, h), w, h));
    lemma_dfs_route((w * h + 1) as nat, g, fresh_mask(w, h), w, h, x, y);
    if out.0 {
        let p = choose|p: Seq<(int, int)>|
            #[trigger] dfs_route_witness(g, fresh_mask(w, h), out.1, w, h, x, y, p);
        assert(valid_route(g, w, h, p, x, y) && out.1 == mark_route(g, p));
    }
}

/// Every row's length is at most the maximum row length.
pub proof fn lemma_max_row_len(rows: Seq<Seq<MazeCell>>)
    ensures
        forall|j: int| 0 <= j < rows.len() ==> (#[trigger] rows[j]).len() <= max_row_len(rows),
        max_row_len(rows) >= 0,
    decreases rows.len(),
{
    if rows.len() > 0 {
        lemma_max_row_len(rows.drop_last());
        assert forall|j: int| 0 <= j < rows.len() implies
            (#[trigger] rows[j]).len() <= max_row_len(rows) by {
            if j < rows.len() - 1 {
                assert(rows[j] == rows.drop_last()[j]);
            }
        }
    }
}

} // verus!
