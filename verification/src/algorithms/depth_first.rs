//! Depth-first search over the adjacency structure of a grid.

use crate::data_structures::Stack;
use crate::error::SolveError;
use crate::graph::{
    adjacency, is_walk, lemma_neighbours_are_paths, lemma_walk_extend, reachable, sound_graph,
    AdjacencyList,
};
use crate::grid::{
    all_open, end_of, get_end, get_start, in_grid, is_grid, is_open, is_path, setup_error,
    start_of, Coord,
};
use crate::mask::{
    blank_mask, in_mask, is_marked, lemma_blank_mask, lemma_mark, mark, marked_at, mask_fits,
    new_mask, set_mark, unmarked,
};
use vstd::prelude::*;

verus! {

/// The cells that the search records from a state on: `stack` holds the
/// cells still to be looked at, the next one last, `m` the cells already
/// expanded and `out` the cells recorded so far. The end is recorded
/// without being looked up. `None` says that the search met another cell
/// without an entry in `adj`, or one outside the mask.
pub open spec fn dfs_from(
    adj: Map<Coord, Seq<Coord>>,
    end: Coord,
    stack: Seq<Coord>,
    m: Seq<Seq<bool>>,
    out: Seq<Coord>,
) -> Option<Seq<Coord>>
    decreases unmarked(m), stack.len(),
{
    if stack.len() == 0 {
        Some(out)
    } else {
        let square = stack.last();
        let rest = stack.drop_last();
        if square == end {
            Some(out.push(square))
        } else if !adj.contains_key(square) {
            None
        } else if !in_mask(m, square) {
            None
        } else if m[square.0 as int][square.1 as int] {
            dfs_from(adj, end, rest, m, out)
        } else {
            proof {
                lemma_mark(m, square);
            }
            dfs_from(adj, end, rest + adj[square].reverse(), mark(m, square), out.push(square))
        }
    }
}

/// The cells in the order in which a depth-first search from the start of
/// `g` over `adj` records them, up to and with the end.
pub open spec fn depth_first_order(g: Seq<Seq<u8>>, adj: Map<Coord, Seq<Coord>>) -> Option<
    Seq<Coord>,
> {
    dfs_from(adj, end_of(g), seq![start_of(g)], blank_mask(g), Seq::empty())
}

/// What a depth-first search on `g` over `adj` comes to.
pub open spec fn depth_first_outcome(g: Seq<Seq<u8>>, adj: Map<Coord, Seq<Coord>>) -> Result<
    Seq<Coord>,
    SolveError,
> {
    match setup_error(g) {
        Some(e) => Err(e),
        None => match depth_first_order(g, adj) {
            Some(order) => Ok(order),
            None => Err(SolveError::BrokenAdjacency),
        },
    }
}

/// A search whose stack holds only cells that can be reached from
/// `start`, over a sound graph in which `end` cannot be reached from
/// `start`, never fails and never records `end`.
proof fn lemma_dfs_misses_end(
    g: Seq<Seq<u8>>,
    adj: Map<Coord, Seq<Coord>>,
    start: Coord,
    end: Coord,
    stack: Seq<Coord>,
    m: Seq<Seq<bool>>,
    out: Seq<Coord>,
)
    requires
        is_grid(g),
        sound_graph(g, adj),
        mask_fits(g, m),
        !reachable(adj, start, end),
        forall|i: int|
            0 <= i < stack.len() ==> reachable(adj, start, #[trigger] stack[i]) && in_grid(
                g,
                stack[i],
            ),
        !out.contains(end),
    ensures
        dfs_from(adj, end, stack, m, out) matches Some(order) && !order.contains(end),
    decreases unmarked(m), stack.len(),
{
    if stack.len() > 0 {
        let square = stack.last();
        let rest = stack.drop_last();
        assert(stack[stack.len() - 1] == square);
        assert(reachable(adj, start, square));
        let w = choose|w: Seq<Coord>| #[trigger]
            is_walk(adj, w) && w.first() == start && w.last() == square;
        assert(adj.contains_key(w[w.len() - 1]));
        assert(in_mask(m, square)) by {
            assert(m[square.0 as int].len() == g[square.0 as int].len());
            assert(g[square.0 as int].len() == g[0].len());
        }
        assert forall|i: int| 0 <= i < rest.len() implies reachable(
            adj,
            start,
            #[trigger] rest[i],
        ) && in_grid(g, rest[i]) by {
            assert(rest[i] == stack[i]);
        }
        if m[square.0 as int][square.1 as int] {
            lemma_dfs_misses_end(g, adj, start, end, rest, m, out);
        } else {
            lemma_mark(m, square);
            let list = adj[square];
            let next = rest + list.reverse();
            assert forall|i: int| 0 <= i < next.len() implies reachable(
                adj,
                start,
                #[trigger] next[i],
            ) && in_grid(g, next[i]) by {
                if i < rest.len() {
                    assert(next[i] == rest[i]);
                } else {
                    let j = list.len() - 1 - (i - rest.len());
                    assert(next[i] == list[j]);
                    assert(in_grid(g, adj[square][j]) && adj.contains_key(adj[square][j]));
                    assert(list.contains(list[j]));
                    lemma_walk_extend(adj, w, list[j]);
                    assert(is_walk(adj, w.push(list[j])));
                }
            }
            let longer = out.push(square);
            assert(!longer.contains(end)) by {
                if longer.contains(end) {
                    let x = choose|x: int| 0 <= x < longer.len() && longer[x] == end;
                    if x < out.len() {
                        assert(out[x] == end);
                    }
                }
            }
            lemma_dfs_misses_end(g, adj, start, end, next, mark(m, square), longer);
        }
    }
}

/// Over a sound graph in which no walk leads from the start of the grid
/// to its end, the depth-first search runs until its stack is empty: it
/// never fails and never records the end.
pub proof fn lemma_search_misses_end(g: Seq<Seq<u8>>, adj: Map<Coord, Seq<Coord>>)
    requires
        is_grid(g),
        in_grid(g, start_of(g)),
        sound_graph(g, adj),
        adj.contains_key(start_of(g)),
        !reachable(adj, start_of(g), end_of(g)),
    ensures
        depth_first_order(g, adj) matches Some(order) && !order.contains(end_of(g)),
{
    let start = start_of(g);
    let stack = seq![start];
    lemma_blank_mask(g);
    assert(is_walk(adj, seq![start]));
    assert(seq![start].first() == start && seq![start].last() == start);
    assert(reachable(adj, start, start));
    assert forall|i: int| 0 <= i < stack.len() implies reachable(adj, start, #[trigger] stack[i])
        && in_grid(g, stack[i]) by {
        assert(stack[i] == start);
    }
    lemma_dfs_misses_end(g, adj, start, end_of(g), stack, blank_mask(g), Seq::empty());
}

/// Searches depth first from the start of the maze. A cell is marked and
/// recorded when it is taken off the stack for the first time; its
/// neighbours then go on the stack in reverse, so that the first of its
/// list is looked at first. The search stops at the end of the maze, which
/// it records, or when the stack runs empty.
#[verifier::rlimit(40)]
pub fn depth_first(maze: &[Vec<u8>], adj_list: &AdjacencyList) -> (r: Result<
    Vec<Coord>,
    SolveError,
>)
    ensures
        match r {
            Ok(path) => depth_first_outcome(maze.deep_view(), adj_list@) == Ok::<
                Seq<Coord>,
                SolveError,
            >(path@),
            Err(e) => depth_first_outcome(maze.deep_view(), adj_list@) == Err::<
                Seq<Coord>,
                SolveError,
            >(e),
        },
        adj_list@ == adjacency(maze.deep_view()) ==> (r matches Ok(path) ==> all_open(
            maze.deep_view(),
            path@,
        )),
        r matches Ok(path) ==> path@.no_duplicates(),
{
    let maze_start = match get_start(maze) {
        Ok(p) => p,
        Err(e) => {
            return Err(e);
        },
    };
    let maze_end = match get_end(maze) {
        Ok(p) => p,
        Err(e) => {
            return Err(e);
        },
    };
    let ghost g = maze.deep_view();
    let ghost adj = adj_list@;
    let ghost walls_kept = adj == adjacency(g);
    let mut marked = new_mask(maze);
    let mut stack: Stack<Coord> = Stack::new();
    let mut results: Vec<Coord> = Vec::new();
    stack.push(maze_start);
    proof {
        lemma_blank_mask(g);
        assert(stack@ =~= seq![maze_start]);
    }
    while !stack.empty()
        invariant_except_break
            depth_first_order(g, adj) == dfs_from(
                adj,
                maze_end,
                stack@,
                marked.deep_view(),
                results@,
            ),
            walls_kept ==> forall|i: int|
                0 <= i < stack@.len() ==> is_open(g, #[trigger] stack@[i]),
            results@.no_duplicates(),
            forall|i: int|
                0 <= i < results@.len() ==> is_marked(marked.deep_view(), #[trigger] results@[i]),
            !is_marked(marked.deep_view(), maze_end),
        invariant
            g == maze.deep_view(),
            adj == adj_list@,
            walls_kept == (adj == adjacency(g)),
            is_grid(g),
            setup_error(g) is None,
            is_path(g, maze_end),
            mask_fits(g, marked.deep_view()),
            walls_kept ==> forall|i: int|
                0 <= i < results@.len() ==> is_open(g, #[trigger] results@[i]),
        ensures
            depth_first_order(g, adj) == Some(results@),
            results@.no_duplicates(),
        decreases unmarked(marked.deep_view()), stack@.len(),
    {
        let ghost m = marked.deep_view();
        let square = stack.pop().unwrap();
        if square.0 == maze_end.0 && square.1 == maze_end.1 {
            results.push(square);
            break ;
        }
        let nodes = match adj_list.get(square) {
            Some(list) => list,
            None => {
                return Err(SolveError::BrokenAdjacency);
            },
        };
        match marked_at(&marked, square) {
            None => {
                return Err(SolveError::BrokenAdjacency);
            },
            Some(true) => {},
            Some(false) => {
                results.push(square);
                set_mark(&mut marked, square);
                proof {
                    lemma_mark(m, square);
                    if walls_kept {
                        lemma_neighbours_are_paths(g, square);
                    }
                }
                let ghost rest = stack@;
                let mut k: usize = nodes.len();
                while k > 0
                    invariant
                        k <= nodes@.len(),
                        stack@ == rest + nodes@.reverse().take(nodes@.len() - k),
                    decreases k,
                {
                    k -= 1;
                    stack.push(nodes[k]);
                    assert(stack@ =~= rest + nodes@.reverse().take(nodes@.len() - k));
                }
                assert(stack@ =~= rest + nodes@.reverse());
            },
        }
    }
    Ok(results)
}

} // verus!
