//! The greedy walker: from each cell it takes the first free direction and
//! never turns back.

use crate::algorithms::moves::{
    lemma_move, neighbour, pick_move, preferred_move, step,
};
use crate::error::SolveError;
use crate::graph::{is_trail, linked, next_to};
use crate::grid::{
    all_open, end_of, get_end, get_start, in_grid, is_grid, is_open, setup_error, start_of, Coord,
};
use crate::mask::{
    blank_mask, is_marked, lemma_blank_mask, lemma_mark, mark, mask_fits, new_mask, set_mark,
    unmarked,
};
use vstd::prelude::*;

verus! {

/// The cells that the greedy walker steps onto after `cur`, with `m` the
/// cells it has left behind. It stops at `end`, or where no direction is
/// free.
pub open spec fn walk_left(g: Seq<Seq<u8>>, end: Coord, m: Seq<Seq<bool>>, cur: Coord) -> Seq<
    Coord,
>
    decreases unmarked(mark(m, cur)),
{
    if cur == end {
        Seq::empty()
    } else {
        match preferred_move(g, m, cur) {
            Some(d) => {
                proof {
                    lemma_move(g, m, cur, d);
                }
                seq![neighbour(cur, d)] + walk_left(g, end, mark(m, cur), neighbour(cur, d))
            },
            None => Seq::empty(),
        }
    }
}

/// The walk of the greedy walker over `g`: the start, then each cell it
/// moves to, in order.
pub open spec fn always_left_path(g: Seq<Seq<u8>>) -> Seq<Coord> {
    seq![start_of(g)] + walk_left(g, end_of(g), blank_mask(g), start_of(g))
}

proof fn lemma_walk_left_trail(g: Seq<Seq<u8>>, end: Coord, m: Seq<Seq<bool>>, cur: Coord)
    ensures
        is_trail(g, seq![cur] + walk_left(g, end, m, cur)),
    decreases unmarked(mark(m, cur)),
{
    let t = seq![cur] + walk_left(g, end, m, cur);
    if cur != end {
        match preferred_move(g, m, cur) {
            Some(d) => {
                lemma_move(g, m, cur, d);
                let n = neighbour(cur, d);
                lemma_walk_left_trail(g, end, mark(m, cur), n);
                let u = seq![n] + walk_left(g, end, mark(m, cur), n);
                assert forall|i: int| 0 <= i < t.len() - 1 implies #[trigger] next_to(g, t, i) by {
                    if i == 0 {
                        assert(t[0] == cur && t[1] == n);
                        assert(linked(g, cur, n));
                    } else {
                        assert(next_to(g, u, i - 1));
                        assert(t[i] == u[i - 1] && t[i + 1] == u[i]);
                    }
                }
            },
            None => {},
        }
    }
}

/// The walk of the greedy walker begins at the start of the grid, and
/// each of its cells but the first is a path cell next to the cell before
/// it.
pub proof fn lemma_always_left_trail(g: Seq<Seq<u8>>)
    ensures
        always_left_path(g).first() == start_of(g),
        is_trail(g, always_left_path(g)),
{
    lemma_walk_left_trail(g, end_of(g), blank_mask(g), start_of(g));
}

/// Walks the maze from its start, always taking the first free direction
/// in the order left, down, right, up, and returns the cells in the order
/// in which it stood on them. The walk ends at the end of the maze, or
/// earlier at a cell from which no direction is free.
pub fn simple_always_left(maze: &[Vec<u8>]) -> (r: Result<Vec<Coord>, SolveError>)
    ensures
        match r {
            Ok(path) => setup_error(maze.deep_view()) is None && path@ == always_left_path(
                maze.deep_view(),
            ),
            Err(e) => setup_error(maze.deep_view()) == Some(e),
        },
        r matches Ok(path) ==> all_open(maze.deep_view(), path@),
        r matches Ok(path) ==> path@.no_duplicates(),
        r matches Ok(path) ==> path@.first() == start_of(maze.deep_view()) && is_trail(
            maze.deep_view(),
            path@,
        ),
{
    let start = match get_start(maze) {
        Ok(p) => p,
        Err(e) => {
            return Err(e);
        },
    };
    let end = match get_end(maze) {
        Ok(p) => p,
        Err(e) => {
            return Err(e);
        },
    };
    let ghost g = maze.deep_view();
    let mut visited_square = new_mask(maze);
    let mut solved_path: Vec<Coord> = Vec::new();
    solved_path.push(start);
    let mut current_path = start;
    proof {
        lemma_blank_mask(g);
        assert(solved_path@ =~= seq![start]);
    }
    loop
        invariant_except_break
            g == maze.deep_view(),
            is_grid(g),
            mask_fits(g, visited_square.deep_view()),
            in_grid(g, current_path),
            always_left_path(g) == solved_path@ + walk_left(
                g,
                end,
                visited_square.deep_view(),
                current_path,
            ),
            forall|i: int| 0 <= i < solved_path@.len() ==> is_open(g, #[trigger] solved_path@[i]),
            solved_path@.len() > 0,
            solved_path@.last() == current_path,
            !is_marked(visited_square.deep_view(), current_path),
            forall|i: int|
                0 <= i < solved_path@.len() - 1 ==> is_marked(
                    visited_square.deep_view(),
                    #[trigger] solved_path@[i],
                ),
        invariant
            solved_path@.no_duplicates(),
        ensures
            solved_path@ == always_left_path(g),
            forall|i: int| 0 <= i < solved_path@.len() ==> is_open(g, #[trigger] solved_path@[i]),
        decreases unmarked(mark(visited_square.deep_view(), current_path)),
    {
        let ghost m = visited_square.deep_view();
        if current_path.0 == end.0 && current_path.1 == end.1 {
            assert(solved_path@ + Seq::<Coord>::empty() =~= solved_path@);
            break ;
        }
        match pick_move(maze, &visited_square, current_path) {
            Some(d) => {
                proof {
                    lemma_move(g, m, current_path, d);
                    lemma_mark(m, current_path);
                }
                let next = step(current_path, d);
                set_mark(&mut visited_square, current_path);
                proof {
                    let rest = walk_left(g, end, mark(m, current_path), next);
                    assert(solved_path@ + (seq![next] + rest) =~= solved_path@.push(next) + rest);
                }
                solved_path.push(next);
                current_path = next;
            },
            None => {
                assert(solved_path@ + Seq::<Coord>::empty() =~= solved_path@);
                break ;
            },
        }
    }
    proof {
        lemma_always_left_trail(g);
    }
    Ok(solved_path)
}

} // verus!
