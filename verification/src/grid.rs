//! The occupancy grid and the rules that find its entry and exit.
//!
//! A grid is a row-major rectangle of cell states. Contracts speak of it as
//! a `Seq<Seq<u8>>`, the deep view of the executable `[Vec<u8>]`.

use crate::constants::{PATH, WALL};
use crate::error::SolveError;
use vstd::prelude::*;

verus! {

/// A cell position: row first, then column, both from zero.
pub type Coord = (usize, usize);

/// A grid has at least one row and one column, and all its rows are equally
/// long.
pub open spec fn is_grid(g: Seq<Seq<u8>>) -> bool {
    &&& g.len() > 0
    &&& g[0].len() > 0
    &&& forall|r: int| 0 <= r < g.len() ==> (#[trigger] g[r]).len() == g[0].len()
}

/// Whether `p` names a cell of the grid.
pub open spec fn in_grid(g: Seq<Seq<u8>>, p: Coord) -> bool {
    p.0 < g.len() && p.1 < g[0].len()
}

/// The state of the cell at `p`.
pub open spec fn cell_at(g: Seq<Seq<u8>>, p: Coord) -> u8 {
    g[p.0 as int][p.1 as int]
}

/// Whether `p` is a cell of the grid that is not a wall.
pub open spec fn is_open(g: Seq<Seq<u8>>, p: Coord) -> bool {
    in_grid(g, p) && cell_at(g, p) != WALL
}

/// Whether `p` is a path cell of the grid.
pub open spec fn is_path(g: Seq<Seq<u8>>, p: Coord) -> bool {
    in_grid(g, p) && cell_at(g, p) == PATH
}

/// Whether none of `cells` is a wall or lies outside the grid.
pub open spec fn all_open(g: Seq<Seq<u8>>, cells: Seq<Coord>) -> bool {
    forall|i: int| 0 <= i < cells.len() ==> is_open(g, #[trigger] cells[i])
}

/// `p` is the start: the leftmost cell of the top row that is not a wall,
/// or, when the whole top row is wall, the topmost such cell of the left
/// column.
pub open spec fn is_start(g: Seq<Seq<u8>>, p: Coord) -> bool {
    ||| {
        &&& p.0 == 0
        &&& p.1 < g[0].len()
        &&& g[0][p.1 as int] != WALL
        &&& forall|c: int| 0 <= c < p.1 ==> #[trigger] g[0][c] == WALL
    }
    ||| {
        &&& p.1 == 0
        &&& p.0 < g.len()
        &&& g[p.0 as int][0] != WALL
        &&& forall|c: int| 0 <= c < g[0].len() ==> #[trigger] g[0][c] == WALL
        &&& forall|r: int| 0 <= r < p.0 ==> (#[trigger] g[r])[0] == WALL
    }
}

/// `p` is the end: the leftmost path cell of the bottom row, or, when that
/// row has none, the topmost path cell of the right column.
pub open spec fn is_end(g: Seq<Seq<u8>>, p: Coord) -> bool {
    let bottom = g[g.len() - 1];
    let right = g[0].len() - 1;
    ||| {
        &&& p.0 == g.len() - 1
        &&& p.1 < bottom.len()
        &&& bottom[p.1 as int] == PATH
        &&& forall|c: int| 0 <= c < p.1 ==> #[trigger] bottom[c] != PATH
    }
    ||| {
        &&& p.1 == right
        &&& p.0 < g.len()
        &&& g[p.0 as int][right] == PATH
        &&& forall|c: int| 0 <= c < bottom.len() ==> #[trigger] bottom[c] != PATH
        &&& forall|r: int| 0 <= r < p.0 ==> (#[trigger] g[r])[right] != PATH
    }
}

/// Whether the grid has a start.
pub open spec fn has_start(g: Seq<Seq<u8>>) -> bool {
    exists|p: Coord| is_start(g, p)
}

/// Whether the grid has an end.
pub open spec fn has_end(g: Seq<Seq<u8>>) -> bool {
    exists|p: Coord| is_end(g, p)
}

/// The start of a grid that has one.
pub open spec fn start_of(g: Seq<Seq<u8>>) -> Coord {
    choose|p: Coord| is_start(g, p)
}

/// The end of a grid that has one.
pub open spec fn end_of(g: Seq<Seq<u8>>) -> Coord {
    choose|p: Coord| is_end(g, p)
}

/// The first reason, if any, for which no solve can begin on `g`.
pub open spec fn setup_error(g: Seq<Seq<u8>>) -> Option<SolveError> {
    if !is_grid(g) {
        Some(SolveError::MalformedGrid)
    } else if !has_start(g) {
        Some(SolveError::StartNotFound)
    } else if !has_end(g) {
        Some(SolveError::EndNotFound)
    } else {
        None
    }
}

/// A grid has at most one start: detecting it again gives the same cell.
pub proof fn lemma_start_unique(g: Seq<Seq<u8>>, p: Coord, q: Coord)
    requires
        is_start(g, p),
        is_start(g, q),
    ensures
        p == q,
        start_of(g) == p,
{
    lemma_start_unique_pair(g, p, q);
    let s = start_of(g);
    assert(is_start(g, s));
    lemma_start_unique_pair(g, s, p);
}

proof fn lemma_start_unique_pair(g: Seq<Seq<u8>>, p: Coord, q: Coord)
    requires
        is_start(g, p),
        is_start(g, q),
    ensures
        p == q,
{
    if p.0 == 0 && p.1 < g[0].len() && g[0][p.1 as int] != WALL {
        if q.0 == 0 && q.1 < g[0].len() && g[0][q.1 as int] != WALL {
            if p.1 < q.1 {
                assert(g[0][p.1 as int] == WALL);
            }
            if q.1 < p.1 {
                assert(g[0][q.1 as int] == WALL);
            }
        } else {
            assert(g[0][p.1 as int] == WALL);
        }
    } else {
        if q.0 == 0 && q.1 < g[0].len() && g[0][q.1 as int] != WALL {
            assert(g[0][q.1 as int] == WALL);
        } else {
            if p.0 < q.0 {
                assert(g[p.0 as int][0] == WALL);
            }
            if q.0 < p.0 {
                assert(g[q.0 as int][0] == WALL);
            }
        }
    }
}

/// A grid has at most one end: detecting it again gives the same cell.
pub proof fn lemma_end_unique(g: Seq<Seq<u8>>, p: Coord, q: Coord)
    requires
        is_end(g, p),
        is_end(g, q),
    ensures
        p == q,
        end_of(g) == p,
{
    lemma_end_unique_pair(g, p, q);
    let s = end_of(g);
    assert(is_end(g, s));
    lemma_end_unique_pair(g, s, p);
}

proof fn lemma_end_unique_pair(g: Seq<Seq<u8>>, p: Coord, q: Coord)
    requires
        is_end(g, p),
        is_end(g, q),
    ensures
        p == q,
{
    let bottom = g[g.len() - 1];
    let right = g[0].len() - 1;
    if p.0 == g.len() - 1 && p.1 < bottom.len() && bottom[p.1 as int] == PATH {
        if q.0 == g.len() - 1 && q.1 < bottom.len() && bottom[q.1 as int] == PATH {
            if p.1 < q.1 {
                assert(bottom[p.1 as int] != PATH);
            }
            if q.1 < p.1 {
                assert(bottom[q.1 as int] != PATH);
            }
        } else {
            assert(bottom[p.1 as int] != PATH);
        }
    } else {
        if q.0 == g.len() - 1 && q.1 < bottom.len() && bottom[q.1 as int] == PATH {
            assert(bottom[q.1 as int] != PATH);
        } else {
            if p.0 < q.0 {
                assert(g[p.0 as int][right] != PATH);
            }
            if q.0 < p.0 {
                assert(g[q.0 as int][right] != PATH);
            }
        }
    }
}

/// The start is a cell of the grid that is not a wall.
pub proof fn lemma_start_is_open(g: Seq<Seq<u8>>, p: Coord)
    requires
        is_grid(g),
        is_start(g, p),
    ensures
        is_open(g, p),
{
}

/// The deep view of a grid holds, row by row, the views of its rows.
pub proof fn lemma_grid_rows(maze: &[Vec<u8>])
    ensures
        maze.deep_view().len() == maze@.len(),
        forall|r: int| 0 <= r < maze@.len() ==> (#[trigger] maze.deep_view()[r]) == maze@[r]@,
{
    assert forall|r: int| 0 <= r < maze@.len() implies (#[trigger] maze.deep_view()[r])
        == maze@[r]@ by {
        assert(maze.deep_view()[r] =~= maze@[r]@);
    }
}

/// Whether `maze` is a grid.
pub fn check_grid(maze: &[Vec<u8>]) -> (ok: bool)
    ensures
        ok == is_grid(maze.deep_view()),
{
    proof {
        lemma_grid_rows(maze);
    }
    let ghost g = maze.deep_view();
    if maze.len() == 0 {
        return false;
    }
    let cols = maze[0].len();
    if cols == 0 {
        return false;
    }
    let mut r: usize = 0;
    while r < maze.len()
        invariant
            g == maze.deep_view(),
            g.len() == maze@.len(),
            forall|k: int| 0 <= k < maze@.len() ==> (#[trigger] g[k]) == maze@[k]@,
            r <= maze@.len(),
            cols == g[0].len(),
            forall|k: int| 0 <= k < r ==> (#[trigger] g[k]).len() == cols,
        decreases maze@.len() - r,
    {
        if maze[r].len() != cols {
            assert(g[r as int].len() != g[0].len());
            return false;
        }
        r += 1;
    }
    true
}

/// Finds the start of the grid: the first cell of the top row, from the
/// left, that is not a wall; failing that, the first such cell of the left
/// column, from the top.
pub fn get_start(maze: &[Vec<u8>]) -> (r: Result<Coord, SolveError>)
    ensures
        !is_grid(maze.deep_view()) ==> r == Err::<Coord, SolveError>(SolveError::MalformedGrid),
        is_grid(maze.deep_view()) && !has_start(maze.deep_view()) ==> r == Err::<
            Coord,
            SolveError,
        >(SolveError::StartNotFound),
        is_grid(maze.deep_view()) && has_start(maze.deep_view()) ==> r == Ok::<Coord, SolveError>(
            start_of(maze.deep_view()),
        ),
        r matches Ok(p) ==> is_start(maze.deep_view(), p),
{
    if !check_grid(maze) {
        return Err(SolveError::MalformedGrid);
    }
    proof {
        lemma_grid_rows(maze);
    }
    let ghost g = maze.deep_view();
    let cols = maze[0].len();
    let mut col: usize = 0;
    while col < cols
        invariant
            g == maze.deep_view(),
            is_grid(g),
            g.len() == maze@.len(),
            forall|k: int| 0 <= k < maze@.len() ==> (#[trigger] g[k]) == maze@[k]@,
            cols == g[0].len(),
            col <= cols,
            forall|c: int| 0 <= c < col ==> #[trigger] g[0][c] == WALL,
        decreases cols - col,
    {
        if maze[0][col] != WALL {
            let p: Coord = (0, col);
            proof {
                assert(is_start(g, p));
                lemma_start_unique(g, p, p);
            }
            return Ok(p);
        }
        col += 1;
    }
    let mut line: usize = 0;
    while line < maze.len()
        invariant
            g == maze.deep_view(),
            is_grid(g),
            g.len() == maze@.len(),
            forall|k: int| 0 <= k < maze@.len() ==> (#[trigger] g[k]) == maze@[k]@,
            line <= maze@.len(),
            forall|c: int| 0 <= c < g[0].len() ==> #[trigger] g[0][c] == WALL,
            forall|k: int| 0 <= k < line ==> (#[trigger] g[k])[0] == WALL,
        decreases maze@.len() - line,
    {
        assert(g[line as int].len() == g[0].len());
        if maze[line][0] != WALL {
            let p: Coord = (line, 0);
            proof {
                assert(is_start(g, p));
                lemma_start_unique(g, p, p);
            }
            return Ok(p);
        }
        line += 1;
    }
    proof {
        assert forall|p: Coord| !is_start(g, p) by {
            if is_start(g, p) {
                if p.0 == 0 && p.1 < g[0].len() && g[0][p.1 as int] != WALL {
                    assert(g[0][p.1 as int] == WALL);
                } else {
                    assert(g[p.0 as int][0] == WALL);
                }
            }
        }
    }
    Err(SolveError::StartNotFound)
}

/// Finds the end of the grid: the first path cell of the bottom row, from
/// the left; failing that, the first path cell of the right column, from
/// the top.
pub fn get_end(maze: &[Vec<u8>]) -> (r: Result<Coord, SolveError>)
    ensures
        !is_grid(maze.deep_view()) ==> r == Err::<Coord, SolveError>(SolveError::MalformedGrid),
        is_grid(maze.deep_view()) && !has_end(maze.deep_view()) ==> r == Err::<Coord, SolveError>(
            SolveError::EndNotFound,
        ),
        is_grid(maze.deep_view()) && has_end(maze.deep_view()) ==> r == Ok::<Coord, SolveError>(
            end_of(maze.deep_view()),
        ),
        r matches Ok(p) ==> is_end(maze.deep_view(), p),
{
    if !check_grid(maze) {
        return Err(SolveError::MalformedGrid);
    }
    proof {
        lemma_grid_rows(maze);
    }
    let ghost g = maze.deep_view();
    let last = maze.len() - 1;
    let cols = maze[0].len();
    let right = cols - 1;
    assert(g[last as int].len() == g[0].len());
    let mut col: usize = 0;
    while col < cols
        invariant
            g == maze.deep_view(),
            is_grid(g),
            g.len() == maze@.len(),
            forall|k: int| 0 <= k < maze@.len() ==> (#[trigger] g[k]) == maze@[k]@,
            cols == g[0].len(),
            last == g.len() - 1,
            g[last as int].len() == cols,
            col <= cols,
            forall|c: int| 0 <= c < col ==> #[trigger] g[last as int][c] != PATH,
        decreases cols - col,
    {
        if maze[last][col] == PATH {
            let p: Coord = (last, col);
            proof {
                assert(is_end(g, p));
                lemma_end_unique(g, p, p);
            }
            return Ok(p);
        }
        col += 1;
    }
    let mut line: usize = 0;
    while line < maze.len()
        invariant
            g == maze.deep_view(),
            is_grid(g),
            g.len() == maze@.len(),
            forall|k: int| 0 <= k < maze@.len() ==> (#[trigger] g[k]) == maze@[k]@,
            line <= maze@.len(),
            cols == g[0].len(),
            right == cols - 1,
            last == g.len() - 1,
            g[last as int].len() == cols,
            forall|c: int| 0 <= c < cols ==> #[trigger] g[last as int][c] != PATH,
            forall|k: int| 0 <= k < line ==> (#[trigger] g[k])[right as int] != PATH,
        decreases maze@.len() - line,
    {
        assert(g[line as int].len() == g[0].len());
        if maze[line][right] == PATH {
            let p: Coord = (line, right);
            proof {
                assert(is_end(g, p));
                lemma_end_unique(g, p, p);
            }
            return Ok(p);
        }
        line += 1;
    }
    proof {
        assert forall|p: Coord| !is_end(g, p) by {
            if is_end(g, p) {
                let bottom = g[g.len() - 1];
                if p.0 == g.len() - 1 && p.1 < bottom.len() && bottom[p.1 as int] == PATH {
                    assert(g[last as int][p.1 as int] != PATH);
                } else {
                    assert(g[p.0 as int][right as int] != PATH);
                }
            }
        }
    }
    Err(SolveError::EndNotFound)
}

} // verus!
