//! Direction-aware move predicates: whether the neighbour of a cell in one
//! direction exists, is a path cell and has not been visited.

use crate::constants::PATH;
use crate::grid::{in_grid, is_grid, is_path, lemma_grid_rows, Coord};
use crate::mask::{in_mask, is_marked, lemma_mark, lemma_mask_rows, mark, mask_fits, unmarked};
use vstd::prelude::*;

verus! {

/// The four directions, in the order in which the walkers try them.
#[derive(Debug, Clone, Copy, PartialEq, Eq, Structural)]
pub enum Direction {
    Left,
    Down,
    Right,
    Up,
}

/// Whether a walker may step onto `p`: it is a path cell that the mask has
/// not marked.
pub open spec fn can_enter(g: Seq<Seq<u8>>, m: Seq<Seq<bool>>, p: Coord) -> bool {
    is_path(g, p) && in_mask(m, p) && !m[p.0 as int][p.1 as int]
}

/// The cell to the left of `p`.
pub open spec fn left_of(p: Coord) -> Coord {
    (p.0, (p.1 - 1) as usize)
}

/// The cell below `p`.
pub open spec fn down_of(p: Coord) -> Coord {
    ((p.0 + 1) as usize, p.1)
}

/// The cell to the right of `p`.
pub open spec fn right_of(p: Coord) -> Coord {
    (p.0, (p.1 + 1) as usize)
}

/// The cell above `p`.
pub open spec fn up_of(p: Coord) -> Coord {
    ((p.0 - 1) as usize, p.1)
}

/// Whether `p` has a neighbour in direction `d` at all.
pub open spec fn has_neighbour(p: Coord, d: Direction) -> bool {
    match d {
        Direction::Left => p.1 > 0,
        Direction::Down => p.0 < usize::MAX,
        Direction::Right => p.1 < usize::MAX,
        Direction::Up => p.0 > 0,
    }
}

/// The neighbour of `p` in direction `d`.
pub open spec fn neighbour(p: Coord, d: Direction) -> Coord {
    match d {
        Direction::Left => left_of(p),
        Direction::Down => down_of(p),
        Direction::Right => right_of(p),
        Direction::Up => up_of(p),
    }
}

/// Whether a walker at `p` may move in direction `d`.
pub open spec fn can_move(g: Seq<Seq<u8>>, m: Seq<Seq<bool>>, p: Coord, d: Direction) -> bool {
    has_neighbour(p, d) && can_enter(g, m, neighbour(p, d))
}

/// Whether the cell above `(x, y)` is an unvisited path cell.
pub fn path_up(maze: &[Vec<u8>], x: usize, y: usize, visited_square: &[Vec<bool>]) -> (b: bool)
    requires
        is_grid(maze.deep_view()),
        in_grid(maze.deep_view(), (x, y)),
        mask_fits(maze.deep_view(), visited_square.deep_view()),
    ensures
        b == can_move(maze.deep_view(), visited_square.deep_view(), (x, y), Direction::Up),
{
    proof {
        lemma_grid_rows(maze);
        lemma_mask_rows(visited_square);
        if x > 0 {
            assert(maze.deep_view()[x - 1].len() == maze.deep_view()[0].len());
            assert(visited_square.deep_view()[x - 1].len() == maze.deep_view()[x - 1].len());
        }
    }
    x != 0 && maze[x - 1][y] == PATH && !visited_square[x - 1][y]
}

/// Whether the cell to the right of `(x, y)` is an unvisited path cell.
pub fn path_right(maze: &[Vec<u8>], x: usize, y: usize, visited_square: &[Vec<bool>]) -> (b: bool)
    requires
        is_grid(maze.deep_view()),
        in_grid(maze.deep_view(), (x, y)),
        mask_fits(maze.deep_view(), visited_square.deep_view()),
    ensures
        b == can_move(maze.deep_view(), visited_square.deep_view(), (x, y), Direction::Right),
{
    proof {
        lemma_grid_rows(maze);
        lemma_mask_rows(visited_square);
        assert(maze.deep_view()[x as int].len() == maze.deep_view()[0].len());
        assert(visited_square.deep_view()[x as int].len() == maze.deep_view()[x as int].len());
    }
    y != (maze[x].len() - 1) && maze[x][y + 1] == PATH && !visited_square[x][y + 1]
}

/// Whether the cell to the left of `(x, y)` is an unvisited path cell.
pub fn path_left(maze: &[Vec<u8>], x: usize, y: usize, visited_square: &[Vec<bool>]) -> (b: bool)
    requires
        is_grid(maze.deep_view()),
        in_grid(maze.deep_view(), (x, y)),
        mask_fits(maze.deep_view(), visited_square.deep_view()),
    ensures
        b == can_move(maze.deep_view(), visited_square.deep_view(), (x, y), Direction::Left),
{
    proof {
        lemma_grid_rows(maze);
        lemma_mask_rows(visited_square);
        assert(maze.deep_view()[x as int].len() == maze.deep_view()[0].len());
        assert(visited_square.deep_view()[x as int].len() == maze.deep_view()[x as int].len());
    }
    y != 0 && maze[x][y - 1] == PATH && !visited_square[x][y - 1]
}

/// Whether the cell below `(x, y)` is an unvisited path cell.
pub fn path_down(maze: &[Vec<u8>], x: usize, y: usize, visited_square: &[Vec<bool>]) -> (b: bool)
    requires
        is_grid(maze.deep_view()),
        in_grid(maze.deep_view(), (x, y)),
        mask_fits(maze.deep_view(), visited_square.deep_view()),
    ensures
        b == can_move(maze.deep_view(), visited_square.deep_view(), (x, y), Direction::Down),
{
    proof {
        lemma_grid_rows(maze);
        lemma_mask_rows(visited_square);
        if x + 1 < maze@.len() {
            assert(maze.deep_view()[x + 1].len() == maze.deep_view()[0].len());
            assert(visited_square.deep_view()[x + 1].len() == maze.deep_view()[x + 1].len());
        }
    }
    x != (maze.len() - 1) && maze[x + 1][y] == PATH && !visited_square[x + 1][y]
}

/// The first direction, in the order left, down, right, up, in which a
/// walker at `p` may move.
pub open spec fn preferred_move(g: Seq<Seq<u8>>, m: Seq<Seq<bool>>, p: Coord) -> Option<
    Direction,
> {
    if can_move(g, m, p, Direction::Left) {
        Some(Direction::Left)
    } else if can_move(g, m, p, Direction::Down) {
        Some(Direction::Down)
    } else if can_move(g, m, p, Direction::Right) {
        Some(Direction::Right)
    } else if can_move(g, m, p, Direction::Up) {
        Some(Direction::Up)
    } else {
        None
    }
}

/// A move leads to a path cell of the grid other than the one it leaves,
/// and marking both cells leaves fewer cells unmarked than marking the
/// first alone.
pub proof fn lemma_move(g: Seq<Seq<u8>>, m: Seq<Seq<bool>>, p: Coord, d: Direction)
    requires
        can_move(g, m, p, d),
    ensures
        neighbour(p, d) != p,
        is_path(g, neighbour(p, d)),
        unmarked(mark(mark(m, p), neighbour(p, d))) < unmarked(mark(m, p)),
{
    let n = neighbour(p, d);
    lemma_mark(m, p);
    assert(!is_marked(mark(m, p), n));
    assert(in_mask(mark(m, p), n));
    lemma_mark(mark(m, p), n);
}

/// Picks the direction in which a walker at `p` moves next, if there is
/// one. The directions are tried in a fixed order: left, down, right, up.
pub fn pick_move(maze: &[Vec<u8>], visited_square: &[Vec<bool>], p: Coord) -> (d: Option<
    Direction,
>)
    requires
        is_grid(maze.deep_view()),
        in_grid(maze.deep_view(), p),
        mask_fits(maze.deep_view(), visited_square.deep_view()),
    ensures
        d == preferred_move(maze.deep_view(), visited_square.deep_view(), p),
{
    if path_left(maze, p.0, p.1, visited_square) {
        Some(Direction::Left)
    } else if path_down(maze, p.0, p.1, visited_square) {
        Some(Direction::Down)
    } else if path_right(maze, p.0, p.1, visited_square) {
        Some(Direction::Right)
    } else if path_up(maze, p.0, p.1, visited_square) {
        Some(Direction::Up)
    } else {
        None
    }
}

/// The neighbour of `p` in direction `d`.
pub fn step(p: Coord, d: Direction) -> (n: Coord)
    requires
        has_neighbour(p, d),
    ensures
        n == neighbour(p, d),
{
    match d {
        Direction::Left => (p.0, p.1 - 1),
        Direction::Down => (p.0 + 1, p.1),
        Direction::Right => (p.0, p.1 + 1),
        Direction::Up => (p.0 - 1, p.1),
    }
}

} // verus!
