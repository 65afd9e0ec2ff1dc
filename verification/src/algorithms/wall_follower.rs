//! The wall follower: it walks like the greedy walker, but remembers the
//! directions it did not take and resumes from them at a dead end.

use crate::algorithms::moves::{
    can_move, lemma_move, neighbour, path_down, path_left, path_right, path_up, pick_move,
    preferred_move, step, Direction,
};
use crate::data_structures::Stack;
use crate::error::SolveError;
use crate::grid::{
    all_open, end_of, get_end, get_start, in_grid, is_grid, is_open, is_path, setup_error,
    start_of, Coord,
};
use crate::mask::{
    blank_mask, lemma_blank_mask, lemma_mark, mark, mask_fits, new_mask, set_mark, unmarked,
};
use vstd::prelude::*;

verus! {

/// The neighbour of `p` in direction `d` as a one-element sequence, if a
/// walker that leaves `p` in direction `taken` could also have gone there;
/// the empty sequence otherwise.
pub open spec fn side_move(
    g: Seq<Seq<u8>>,
    m: Seq<Seq<bool>>,
    p: Coord,
    taken: Direction,
    d: Direction,
) -> Seq<Coord> {
    if d != taken && can_move(g, m, p, d) {
        seq![neighbour(p, d)]
    } else {
        Seq::empty()
    }
}

/// The cells that a walker leaving `p` in direction `taken` keeps for
/// later: the free neighbours in the other directions, in the order left,
/// down, right, up.
pub open spec fn later_moves(g: Seq<Seq<u8>>, m: Seq<Seq<bool>>, p: Coord, taken: Direction) -> Seq<
    Coord,
> {
    side_move(g, m, p, taken, Direction::Left) + side_move(g, m, p, taken, Direction::Down)
        + side_move(g, m, p, taken, Direction::Right) + side_move(g, m, p, taken, Direction::Up)
}

/// The cells that the wall follower records from `cur` on, with `m` the
/// cells it has left behind and `later` the cells it kept for later, the
/// most recent last. The end itself is not among them.
pub open spec fn follow_wall(
    g: Seq<Seq<u8>>,
    end: Coord,
    m: Seq<Seq<bool>>,
    cur: Coord,
    later: Seq<Coord>,
) -> Seq<Coord>
    decreases unmarked(mark(m, cur)), later.len(),
{
    if cur == end {
        Seq::empty()
    } else {
        match preferred_move(g, m, cur) {
            Some(d) => {
                proof {
                    lemma_move(g, m, cur, d);
                }
                seq![cur] + follow_wall(
                    g,
                    end,
                    mark(m, cur),
                    neighbour(cur, d),
                    later + later_moves(g, m, cur, d),
                )
            },
            None => {
                if later.len() == 0 {
                    seq![cur]
                } else {
                    proof {
                        lemma_mark(mark(m, cur), later.last());
                    }
                    seq![cur] + follow_wall(
                        g,
                        end,
                        mark(m, cur),
                        later.last(),
                        later.drop_last(),
                    )
                }
            },
        }
    }
}

/// What the wall follower records on `g`: each cell it leaves, in order,
/// and at last the end.
pub open spec fn wall_follower_path(g: Seq<Seq<u8>>) -> Seq<Coord> {
    follow_wall(g, end_of(g), blank_mask(g), start_of(g), Seq::empty()).push(end_of(g))
}

/// What the wall follower records begins at the start of the grid and
/// ends with its end.
pub proof fn lemma_wall_follower_ends(g: Seq<Seq<u8>>)
    ensures
        wall_follower_path(g).first() == start_of(g),
        wall_follower_path(g).last() == end_of(g),
{
    let start = start_of(g);
    let end = end_of(g);
    let left = follow_wall(g, end, blank_mask(g), start, Seq::empty());
    if start != end {
        assert(left.len() > 0 && left[0] == start);
        assert(left.push(end)[0] == left[0]);
    }
}

/// Every cell kept for later is a path cell.
pub proof fn lemma_later_moves(g: Seq<Seq<u8>>, m: Seq<Seq<bool>>, p: Coord, taken: Direction)
    ensures
        forall|i: int|
            0 <= i < later_moves(g, m, p, taken).len() ==> is_path(
                g,
                #[trigger] later_moves(g, m, p, taken)[i],
            ),
{
}

/// Puts on `visit_later` every free neighbour of `current_path` but the
/// one in `direction`, in the order left, down, right, up.
pub fn check_visit_later(
    maze: &[Vec<u8>],
    visited_square: &[Vec<bool>],
    current_path: Coord,
    visit_later: &mut Stack<Coord>,
    direction: Direction,
)
    requires
        is_grid(maze.deep_view()),
        in_grid(maze.deep_view(), current_path),
        mask_fits(maze.deep_view(), visited_square.deep_view()),
    ensures
        final(visit_later)@ == old(visit_later)@ + later_moves(
            maze.deep_view(),
            visited_square.deep_view(),
            current_path,
            direction,
        ),
{
    let (x, y) = current_path;
    let ghost g = maze.deep_view();
    let ghost m = visited_square.deep_view();
    let ghost before = visit_later@;
    if direction != Direction::Left && path_left(maze, x, y, visited_square) {
        visit_later.push((x, y - 1));
    }
    assert(visit_later@ =~= before + side_move(g, m, current_path, direction, Direction::Left));
    if direction != Direction::Down && path_down(maze, x, y, visited_square) {
        visit_later.push((x + 1, y));
    }
    assert(visit_later@ =~= before + side_move(g, m, current_path, direction, Direction::Left)
        + side_move(g, m, current_path, direction, Direction::Down));
    if direction != Direction::Right && path_right(maze, x, y, visited_square) {
        visit_later.push((x, y + 1));
    }
    assert(visit_later@ =~= before + side_move(g, m, current_path, direction, Direction::Left)
        + side_move(g, m, current_path, direction, Direction::Down) + side_move(
        g,
        m,
        current_path,
        direction,
        Direction::Right,
    ));
    if direction != Direction::Up && path_up(maze, x, y, visited_square) {
        visit_later.push((x - 1, y));
    }
    assert(visit_later@ =~= before + later_moves(g, m, current_path, direction));
}

/// Walks the maze from its start with the direction priority left, down,
/// right, up. Before each move it keeps the other free neighbours of the
/// cell for later; at a dead end it resumes from the cell it kept last.
/// It returns the cells in the order in which it left them, followed by
/// the end of the maze, which is appended once in every case.
#[verifier::rlimit(40)]
pub fn wall_follower(maze: &[Vec<u8>]) -> (r: Result<Vec<Coord>, SolveError>)
    ensures
        match r {
            Ok(path) => setup_error(maze.deep_view()) is None && path@ == wall_follower_path(
                maze.deep_view(),
            ),
            Err(e) => setup_error(maze.deep_view()) == Some(e),
        },
        r matches Ok(path) ==> all_open(maze.deep_view(), path@),
        r matches Ok(path) ==> path@.first() == start_of(maze.deep_view()) && path@.last()
            == end_of(maze.deep_view()),
{
    let start = match get_start(maze) {
        Ok(p) => p,
        Err(e) => {
            return Err(e);
        },
    };
    let end = match get_end(maze) {
        Ok(p) => p,
        Err(e) => {
            return Err(e);
        },
    };
    let ghost g = maze.deep_view();
    let mut visited_square = new_mask(maze);
    let mut solved_path: Vec<Coord> = Vec::new();
    let mut visit_later: Stack<Coord> = Stack::new();
    let mut current_path = start;
    proof {
        lemma_blank_mask(g);
        assert(solved_path@ + follow_wall(g, end, blank_mask(g), start, Seq::empty())
            =~= follow_wall(g, end, blank_mask(g), start, Seq::empty()));
    }
    loop
        invariant_except_break
            g == maze.deep_view(),
            is_grid(g),
            mask_fits(g, visited_square.deep_view()),
            is_open(g, current_path),
            is_path(g, end),
            forall|i: int| 0 <= i < visit_later@.len() ==> is_path(g, #[trigger] visit_later@[i]),
            wall_follower_path(g) == (solved_path@ + follow_wall(
                g,
                end,
                visited_square.deep_view(),
                current_path,
                visit_later@,
            )).push(end),
            forall|i: int| 0 <= i < solved_path@.len() ==> is_open(g, #[trigger] solved_path@[i]),
        ensures
            is_path(g, end),
            solved_path@.push(end) == wall_follower_path(g),
            forall|i: int| 0 <= i < solved_path@.len() ==> is_open(g, #[trigger] solved_path@[i]),
        decreases unmarked(mark(visited_square.deep_view(), current_path)), visit_later@.len(),
    {
        let ghost m = visited_square.deep_view();
        let ghost later = visit_later@;
        if current_path.0 == end.0 && current_path.1 == end.1 {
            assert(solved_path@ + Seq::<Coord>::empty() =~= solved_path@);
            break ;
        }
        match pick_move(maze, &visited_square, current_path) {
            Some(d) => {
                proof {
                    lemma_move(g, m, current_path, d);
                    lemma_mark(m, current_path);
                    lemma_later_moves(g, m, current_path, d);
                }
                check_visit_later(maze, &visited_square, current_path, &mut visit_later, d);
                set_mark(&mut visited_square, current_path);
                proof {
                    let rest = follow_wall(
                        g,
                        end,
                        mark(m, current_path),
                        neighbour(current_path, d),
                        later + later_moves(g, m, current_path, d),
                    );
                    assert(solved_path@ + (seq![current_path] + rest) =~= solved_path@.push(
                        current_path,
                    ) + rest);
                }
                solved_path.push(current_path);
                current_path = step(current_path, d);
            },
            None => {
                proof {
                    lemma_mark(m, current_path);
                }
                set_mark(&mut visited_square, current_path);
                match visit_later.pop() {
                    Some(path) => {
                        proof {
                            lemma_mark(mark(m, current_path), path);
                            let rest = follow_wall(
                                g,
                                end,
                                mark(m, current_path),
                                path,
                                later.drop_last(),
                            );
                            assert(solved_path@ + (seq![current_path] + rest)
                                =~= solved_path@.push(current_path) + rest);
                        }
                        solved_path.push(current_path);
                        current_path = path;
                    },
                    None => {
                        assert(solved_path@ + seq![current_path] =~= solved_path@.push(
                            current_path,
                        ));
                        solved_path.push(current_path);
                        break ;
                    },
                }
            },
        }
    }
    solved_path.push(end);
    proof {
        lemma_wall_follower_ends(g);
    }
    Ok(solved_path)
}

} // verus!
