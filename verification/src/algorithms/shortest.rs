//! Why the route that the breadth-first scan keeps for the end is a
//! shortest one, and why it is no longer than the list of cells that the
//! plain search records.

use crate::algorithms::breadth_first::{
    breadth_first_outcome, breadth_scan, dequeued, discover, discover_all, initial_scan,
    lemma_discover_all_measure, scan_from, shortest_route_outcome, Scan,
};
use crate::algorithms::depth_first::{depth_first_outcome, lemma_search_misses_end};
use crate::error::SolveError;
use crate::graph::{
    adjacency, is_walk, lemma_adjacency_sound, linked_at, reachable, sound_graph,
};
use crate::grid::{
    end_of, in_grid, is_grid, is_start, lemma_start_is_open, setup_error, start_of, Coord,
};
use crate::mask::{
    blank_mask, in_mask, is_marked, lemma_blank_mask, lemma_mark, mark, mask_fits, unmarked,
};
use vstd::prelude::*;

verus! {

/// Whether the scan has discovered `p`.
spec fn known(s: Scan, p: Coord) -> bool {
    s.route.contains_key(p)
}

/// The number of cells on the route by which the scan discovered `p`.
spec fn depth(s: Scan, p: Coord) -> int {
    s.route[p].len() as int
}

/// The discovered cells are the marked ones, and each of them is a key.
spec fn inv_keys(g: Seq<Seq<u8>>, adj: Map<Coord, Seq<Coord>>, s: Scan) -> bool {
    &&& mask_fits(g, s.marked)
    &&& forall|p: Coord| #[trigger] known(s, p) <==> is_marked(s.marked, p)
    &&& forall|p: Coord| #[trigger] known(s, p) ==> adj.contains_key(p)
}

/// The discovered cells are those that wait and those that were recorded.
spec fn inv_lists(s: Scan) -> bool {
    &&& forall|i: int| 0 <= i < s.queue.len() ==> known(s, #[trigger] s.queue[i])
    &&& forall|i: int| 0 <= i < s.out.len() ==> known(s, #[trigger] s.out[i])
    &&& forall|p: Coord| #[trigger] known(s, p) ==> s.out.contains(p) || s.queue.contains(p)
}

/// Cells leave the queue in the order of their depth, and the queue spans
/// at most two depths.
spec fn inv_order(s: Scan) -> bool {
    &&& forall|i: int, j: int|
        0 <= i < j < s.queue.len() ==> depth(s, #[trigger] s.queue[i]) <= depth(
            s,
            #[trigger] s.queue[j],
        )
    &&& forall|i: int|
        0 <= i < s.out.len() ==> depth(s, #[trigger] s.out[i]) <= depth(s, s.out.last())
    &&& forall|i: int, j: int|
        0 <= i < j < s.out.len() ==> depth(s, #[trigger] s.out[i]) <= depth(
            s,
            #[trigger] s.out[j],
        )
    &&& forall|i: int, j: int|
        0 <= i < s.out.len() && 0 <= j < s.queue.len() ==> depth(s, #[trigger] s.out[i]) <= depth(
            s,
            #[trigger] s.queue[j],
        )
    &&& s.out.len() > 0 ==> forall|j: int|
        0 <= j < s.queue.len() ==> depth(s, #[trigger] s.queue[j]) <= depth(s, s.out.last()) + 1
    &&& s.out.len() == 0 ==> s.queue.len() <= 1
}

/// Every neighbour of a recorded cell is discovered, at most one step
/// deeper than the cell; of the cell recorded last, this holds for the
/// first `k` neighbours.
spec fn inv_expanded(adj: Map<Coord, Seq<Coord>>, s: Scan, k: int) -> bool {
    forall|i: int, j: int|
        0 <= i < s.out.len() && 0 <= j < adj[s.out[i]].len() && (i < s.out.len() - 1 || j < k)
            ==> known(s, #[trigger] adj[s.out[i]][j]) && depth(s, adj[s.out[i]][j]) <= depth(
            s,
            s.out[i],
        ) + 1
}

/// No recorded cell but the last is the end.
spec fn inv_end(end: Coord, s: Scan) -> bool {
    forall|i: int| 0 <= i < s.out.len() - 1 ==> #[trigger] s.out[i] != end
}

/// The route of each discovered cell is a walk from the start to it.
spec fn inv_walks(adj: Map<Coord, Seq<Coord>>, start: Coord, s: Scan) -> bool {
    &&& known(s, start)
    &&& s.route[start] == seq![start]
    &&& forall|p: Coord| #[trigger]
        known(s, p) ==> is_walk(adj, s.route[p]) && s.route[p].first() == start
            && s.route[p].last() == p
}

/// The route of `p` repeats no cell, holds discovered cells only, and all
/// its cells before `p` are recorded.
spec fn route_kept(s: Scan, p: Coord) -> bool {
    &&& s.route[p].no_duplicates()
    &&& forall|i: int| 0 <= i < s.route[p].len() ==> known(s, #[trigger] s.route[p][i])
    &&& forall|i: int| 0 <= i < s.route[p].len() - 1 ==> s.out.contains(#[trigger] s.route[p][i])
}

spec fn inv_routes(s: Scan) -> bool {
    forall|p: Coord| #[trigger] known(s, p) ==> route_kept(s, p)
}

/// What holds of a scan in which the first `k` neighbours of the cell
/// recorded last have been looked at.
spec fn scan_inv(g: Seq<Seq<u8>>, adj: Map<Coord, Seq<Coord>>, s: Scan, k: int) -> bool {
    &&& inv_keys(g, adj, s)
    &&& inv_lists(s)
    &&& inv_order(s)
    &&& inv_expanded(adj, s, k)
    &&& inv_end(end_of(g), s)
    &&& inv_walks(adj, start_of(g), s)
    &&& inv_routes(s)
}

/// The number of neighbours of the cell recorded last.
spec fn width(adj: Map<Coord, Seq<Coord>>, s: Scan) -> int {
    if s.out.len() > 0 {
        adj[s.out.last()].len() as int
    } else {
        0
    }
}

proof fn lemma_initial(g: Seq<Seq<u8>>, adj: Map<Coord, Seq<Coord>>)
    requires
        is_grid(g),
        in_grid(g, start_of(g)),
        adj.contains_key(start_of(g)),
    ensures
        scan_inv(g, adj, initial_scan(g), 0),
{
    let s = initial_scan(g);
    let start = start_of(g);
    lemma_blank_mask(g);
    lemma_mark(blank_mask(g), start);
    assert forall|p: Coord| #[trigger] known(s, p) <==> is_marked(s.marked, p) by {
        assert(!is_marked(blank_mask(g), p));
    }
    assert(in_mask(blank_mask(g), start));
    assert(s.queue[0] == start);
    assert(s.queue.contains(start));
    assert(is_walk(adj, seq![start]));
    assert(route_kept(s, start));
}

proof fn lemma_dequeue_lists(s: Scan)
    requires
        inv_lists(s),
        s.queue.len() > 0,
    ensures
        inv_lists(dequeued(s)),
{
    let t = dequeued(s);
    assert forall|i: int| 0 <= i < t.queue.len() implies known(t, #[trigger] t.queue[i]) by {
        assert(known(s, s.queue[i + 1]));
    }
    assert forall|i: int| 0 <= i < t.out.len() implies known(t, #[trigger] t.out[i]) by {
        if i < s.out.len() {
            assert(known(s, s.out[i]));
        } else {
            assert(known(s, s.queue[0]));
        }
    }
    assert forall|p: Coord| #[trigger] known(t, p) implies t.out.contains(p) || t.queue.contains(
        p,
    ) by {
        assert(known(s, p));
        if s.out.contains(p) {
            let i = choose|i: int| 0 <= i < s.out.len() && s.out[i] == p;
            assert(t.out[i] == p);
        } else {
            let j = choose|j: int| 0 <= j < s.queue.len() && s.queue[j] == p;
            if j == 0 {
                assert(t.out[s.out.len() as int] == p);
            } else {
                assert(t.queue[j - 1] == p);
            }
        }
    }
}

proof fn lemma_dequeue_order(s: Scan)
    requires
        inv_order(s),
        s.queue.len() > 0,
    ensures
        inv_order(dequeued(s)),
{
    let t = dequeued(s);
    let sq = s.queue[0];
    assert forall|p: Coord| depth(t, p) == depth(s, p) by {}
    assert forall|i: int, j: int| 0 <= i < j < t.queue.len() implies depth(
        t,
        #[trigger] t.queue[i],
    ) <= depth(t, #[trigger] t.queue[j]) by {
        assert(depth(s, s.queue[i + 1]) <= depth(s, s.queue[j + 1]));
    }
    assert(t.out.last() == sq);
    assert forall|i: int| 0 <= i < t.out.len() implies depth(t, #[trigger] t.out[i]) <= depth(
        t,
        t.out.last(),
    ) by {
        if i < s.out.len() {
            assert(depth(s, s.out[i]) <= depth(s, s.queue[0]));
        }
    }
    assert forall|i: int, j: int| 0 <= i < t.out.len() && 0 <= j < t.queue.len() implies depth(
        t,
        #[trigger] t.out[i],
    ) <= depth(t, #[trigger] t.queue[j]) by {
        if i < s.out.len() {
            assert(depth(s, s.out[i]) <= depth(s, s.queue[j + 1]));
        } else {
            assert(depth(s, s.queue[0]) <= depth(s, s.queue[j + 1]));
        }
    }
    assert forall|i: int, j: int| 0 <= i < j < t.out.len() implies depth(
        t,
        #[trigger] t.out[i],
    ) <= depth(t, #[trigger] t.out[j]) by {
        if j < s.out.len() {
            assert(depth(s, s.out[i]) <= depth(s, s.out[j]));
        } else {
            assert(depth(s, s.out[i]) <= depth(s, s.queue[0]));
        }
    }
    assert forall|j: int| 0 <= j < t.queue.len() implies depth(t, #[trigger] t.queue[j]) <= depth(
        t,
        t.out.last(),
    ) + 1 by {
        if s.out.len() > 0 {
            assert(depth(s, s.queue[j + 1]) <= depth(s, s.out.last()) + 1);
            assert(depth(s, s.out[s.out.len() - 1]) <= depth(s, s.queue[0]));
        }
    }
}

proof fn lemma_dequeue_rest(g: Seq<Seq<u8>>, adj: Map<Coord, Seq<Coord>>, s: Scan)
    requires
        inv_keys(g, adj, s),
        inv_expanded(adj, s, width(adj, s)),
        inv_end(end_of(g), s),
        inv_walks(adj, start_of(g), s),
        inv_routes(s),
        s.queue.len() > 0,
        s.out.len() > 0 ==> s.out.last() != end_of(g),
    ensures
        inv_keys(g, adj, dequeued(s)),
        inv_expanded(adj, dequeued(s), 0),
        inv_end(end_of(g), dequeued(s)),
        inv_walks(adj, start_of(g), dequeued(s)),
        inv_routes(dequeued(s)),
{
    let t = dequeued(s);
    assert forall|p: Coord| known(t, p) == known(s, p) by {}
    assert forall|p: Coord| depth(t, p) == depth(s, p) by {}
    assert forall|i: int, j: int|
        0 <= i < t.out.len() && 0 <= j < adj[t.out[i]].len() && (i < t.out.len() - 1 || j
            < 0) implies known(t, #[trigger] adj[t.out[i]][j]) && depth(t, adj[t.out[i]][j])
        <= depth(t, t.out[i]) + 1 by {
        assert(t.out[i] == s.out[i]);
        assert(known(s, adj[s.out[i]][j]));
    }
    assert forall|i: int| 0 <= i < t.out.len() - 1 implies #[trigger] t.out[i] != end_of(g) by {
        assert(t.out[i] == s.out[i]);
    }
    assert forall|p: Coord| #[trigger] known(t, p) implies route_kept(t, p) by {
        assert(known(s, p));
        assert(route_kept(s, p));
        assert forall|i: int| 0 <= i < t.route[p].len() - 1 implies t.out.contains(
            #[trigger] t.route[p][i],
        ) by {
            let c = s.route[p][i];
            assert(s.out.contains(c));
            let x = choose|x: int| 0 <= x < s.out.len() && s.out[x] == c;
            assert(t.out[x] == c);
        }
        assert forall|i: int| 0 <= i < t.route[p].len() implies known(
            t,
            #[trigger] t.route[p][i],
        ) by {
            assert(known(s, s.route[p][i]));
        }
    }
    assert forall|p: Coord| #[trigger] known(t, p) implies is_walk(adj, t.route[p])
        && t.route[p].first() == start_of(g) && t.route[p].last() == p by {
        assert(known(s, p));
    }
}

/// Taking the first cell off the queue keeps what holds of the scan.
proof fn lemma_dequeue(g: Seq<Seq<u8>>, adj: Map<Coord, Seq<Coord>>, s: Scan)
    requires
        scan_inv(g, adj, s, width(adj, s)),
        s.queue.len() > 0,
        s.out.len() > 0 ==> s.out.last() != end_of(g),
    ensures
        scan_inv(g, adj, dequeued(s), 0),
{
    lemma_dequeue_lists(s);
    lemma_dequeue_order(s);
    lemma_dequeue_rest(g, adj, s);
}

/// What looking at the neighbour `n` of the cell recorded last does to a
/// scan that has not discovered `n`.
spec fn found(t: Scan, n: Coord) -> Scan {
    Scan {
        queue: t.queue.push(n),
        marked: mark(t.marked, n),
        out: t.out,
        route: t.route.insert(n, t.route[t.out.last()].push(n)),
    }
}

proof fn lemma_found_keys(g: Seq<Seq<u8>>, adj: Map<Coord, Seq<Coord>>, t: Scan, n: Coord)
    requires
        inv_keys(g, adj, t),
        in_mask(t.marked, n),
        adj.contains_key(n),
    ensures
        inv_keys(g, adj, found(t, n)),
{
    let u = found(t, n);
    lemma_mark(t.marked, n);
    assert forall|p: Coord| #[trigger] known(u, p) <==> is_marked(u.marked, p) by {
        assert(known(t, p) <==> is_marked(t.marked, p));
        assert(is_marked(mark(t.marked, n), p) == (is_marked(t.marked, p) || (p == n && in_mask(
            t.marked,
            n,
        ))));
    }
    assert forall|p: Coord| #[trigger] known(u, p) implies adj.contains_key(p) by {
        if p != n {
            assert(known(t, p));
        }
    }
}

proof fn lemma_found_lists(t: Scan, n: Coord)
    requires
        inv_lists(t),
    ensures
        inv_lists(found(t, n)),
{
    let u = found(t, n);
    assert forall|i: int| 0 <= i < u.queue.len() implies known(u, #[trigger] u.queue[i]) by {
        if i < t.queue.len() {
            assert(known(t, t.queue[i]));
        }
    }
    assert forall|i: int| 0 <= i < u.out.len() implies known(u, #[trigger] u.out[i]) by {
        assert(known(t, t.out[i]));
    }
    assert forall|p: Coord| #[trigger] known(u, p) implies u.out.contains(p) || u.queue.contains(
        p,
    ) by {
        if p == n {
            assert(u.queue[t.queue.len() as int] == n);
        } else {
            assert(known(t, p));
            if !t.out.contains(p) {
                let j = choose|j: int| 0 <= j < t.queue.len() && t.queue[j] == p;
                assert(u.queue[j] == p);
            }
        }
    }
}

#[verifier::rlimit(40)]
proof fn lemma_found_order(t: Scan, n: Coord)
    requires
        inv_lists(t),
        inv_order(t),
        t.out.len() > 0,
        !known(t, n),
    ensures
        inv_order(found(t, n)),
{
    let u = found(t, n);
    let from = t.out.last();
    assert(known(t, t.out[t.out.len() - 1]));
    assert(depth(u, n) == depth(t, from) + 1);
    assert forall|i: int| 0 <= i < t.queue.len() implies depth(u, #[trigger] t.queue[i]) == depth(
        t,
        t.queue[i],
    ) by {
        assert(known(t, t.queue[i]));
    }
    assert forall|i: int| 0 <= i < t.out.len() implies depth(u, #[trigger] t.out[i]) == depth(
        t,
        t.out[i],
    ) by {
        assert(known(t, t.out[i]));
    }
    assert forall|i: int, j: int| 0 <= i < j < u.queue.len() implies depth(
        u,
        #[trigger] u.queue[i],
    ) <= depth(u, #[trigger] u.queue[j]) by {
        assert(u.queue[i] == t.queue[i]);
        assert(depth(t, t.queue[i]) <= depth(t, from) + 1);
        if j < t.queue.len() {
            assert(u.queue[j] == t.queue[j]);
        }
    }
    assert forall|i: int| 0 <= i < u.out.len() implies depth(u, #[trigger] u.out[i]) <= depth(
        u,
        u.out.last(),
    ) by {
        assert(depth(t, t.out[i]) <= depth(t, t.out.last()));
    }
    assert forall|i: int, j: int| 0 <= i < j < u.out.len() implies depth(
        u,
        #[trigger] u.out[i],
    ) <= depth(u, #[trigger] u.out[j]) by {
        assert(depth(t, t.out[i]) <= depth(t, t.out[j]));
    }
    assert forall|i: int, j: int| 0 <= i < u.out.len() && 0 <= j < u.queue.len() implies depth(
        u,
        #[trigger] u.out[i],
    ) <= depth(u, #[trigger] u.queue[j]) by {
        assert(depth(t, t.out[i]) <= depth(t, t.out.last()));
        if j < t.queue.len() {
            assert(u.queue[j] == t.queue[j]);
            assert(depth(t, t.out[i]) <= depth(t, t.queue[j]));
        }
    }
    assert forall|j: int| 0 <= j < u.queue.len() implies depth(u, #[trigger] u.queue[j]) <= depth(
        u,
        u.out.last(),
    ) + 1 by {
        if j < t.queue.len() {
            assert(u.queue[j] == t.queue[j]);
            assert(depth(t, t.queue[j]) <= depth(t, t.out.last()) + 1);
        }
    }
}

proof fn lemma_found_expanded(adj: Map<Coord, Seq<Coord>>, t: Scan, n: Coord, k: int)
    requires
        inv_lists(t),
        inv_expanded(adj, t, k),
        t.out.len() > 0,
        !known(t, n),
        0 <= k < adj[t.out.last()].len(),
        adj[t.out.last()][k] == n,
    ensures
        inv_expanded(adj, found(t, n), k + 1),
{
    let u = found(t, n);
    assert(known(t, t.out[t.out.len() - 1]));
    assert forall|i: int, j: int|
        0 <= i < u.out.len() && 0 <= j < adj[u.out[i]].len() && (i < u.out.len() - 1 || j < k
            + 1) implies known(u, #[trigger] adj[u.out[i]][j]) && depth(u, adj[u.out[i]][j])
        <= depth(u, u.out[i]) + 1 by {
        let c = adj[u.out[i]][j];
        assert(known(t, t.out[i]));
        assert(depth(u, t.out[i]) == depth(t, t.out[i]));
        if i == u.out.len() - 1 && j == k {
            assert(c == n);
        } else {
            assert(known(t, adj[t.out[i]][j]));
            if c != n {
                assert(depth(u, c) == depth(t, c));
            }
        }
    }
}

proof fn lemma_found_walks(adj: Map<Coord, Seq<Coord>>, start: Coord, t: Scan, n: Coord, k: int)
    requires
        inv_lists(t),
        inv_walks(adj, start, t),
        t.out.len() > 0,
        !known(t, n),
        adj.contains_key(n),
        0 <= k < adj[t.out.last()].len(),
        adj[t.out.last()][k] == n,
    ensures
        inv_walks(adj, start, found(t, n)),
{
    let u = found(t, n);
    let from = t.out.last();
    assert(known(t, t.out[t.out.len() - 1]));
    let old_route = t.route[from];
    let route = old_route.push(n);
    assert(is_walk(adj, old_route));
    assert(is_walk(adj, route)) by {
        assert forall|i: int| 0 <= i < route.len() implies adj.contains_key(
            #[trigger] route[i],
        ) by {
            if i < old_route.len() {
                assert(adj.contains_key(old_route[i]));
            }
        }
        assert forall|i: int| 0 <= i < route.len() - 1 implies #[trigger] linked_at(
            adj,
            route,
            i,
        ) by {
            if i < old_route.len() - 1 {
                assert(linked_at(adj, old_route, i));
                assert(route[i] == old_route[i]);
                assert(route[i + 1] == old_route[i + 1]);
            } else {
                assert(route[i] == from);
                assert(route[i + 1] == n);
            }
        }
    }
    assert forall|p: Coord| #[trigger] known(u, p) implies is_walk(adj, u.route[p])
        && u.route[p].first() == start && u.route[p].last() == p by {
        if p != n {
            assert(known(t, p));
        } else {
            assert(route[0] == old_route[0]);
        }
    }
}

#[verifier::rlimit(40)]
proof fn lemma_found_routes(t: Scan, n: Coord)
    requires
        inv_lists(t),
        inv_routes(t),
        t.out.len() > 0,
        !known(t, n),
        t.route[t.out.last()].len() > 0,
        t.route[t.out.last()].last() == t.out.last(),
    ensures
        inv_routes(found(t, n)),
{
    let u = found(t, n);
    let from = t.out.last();
    assert(known(t, t.out[t.out.len() - 1]));
    assert(route_kept(t, from));
    let old_route = t.route[from];
    let route = old_route.push(n);
    assert forall|p: Coord| #[trigger] known(u, p) implies route_kept(u, p) by {
        if p != n {
            assert(known(t, p));
            assert(route_kept(t, p));
            assert forall|i: int| 0 <= i < u.route[p].len() implies known(
                u,
                #[trigger] u.route[p][i],
            ) by {
                assert(known(t, t.route[p][i]));
            }
        } else {
            assert forall|i: int| 0 <= i < route.len() implies known(u, #[trigger] route[i]) by {
                if i < old_route.len() {
                    assert(known(t, old_route[i]));
                }
            }
            assert forall|i: int| 0 <= i < route.len() - 1 implies u.out.contains(
                #[trigger] route[i],
            ) by {
                assert(route[i] == old_route[i]);
                if i < old_route.len() - 1 {
                    assert(t.out.contains(old_route[i]));
                } else {
                    assert(t.out[t.out.len() - 1] == from);
                }
            }
            assert forall|i: int, j: int|
                0 <= i < route.len() && 0 <= j < route.len() && i != j implies route[i]
                != route[j] by {
                if i < old_route.len() {
                    assert(known(t, old_route[i]));
                }
                if j < old_route.len() {
                    assert(known(t, old_route[j]));
                }
            }
        }
    }
}

/// Looking at the next neighbour of the cell recorded last keeps what
/// holds of the scan.
#[verifier::rlimit(40)]
proof fn lemma_discover(g: Seq<Seq<u8>>, adj: Map<Coord, Seq<Coord>>, t: Scan, k: int)
    requires
        is_grid(g),
        sound_graph(g, adj),
        scan_inv(g, adj, t, k),
        t.out.len() > 0,
        0 <= k < adj[t.out.last()].len(),
    ensures
        discover(t, t.out.last(), adj[t.out.last()][k]) matches Some(u) && scan_inv(
            g,
            adj,
            u,
            k + 1,
        ) && u.out == t.out,
{
    let from = t.out.last();
    let n = adj[from][k];
    assert(known(t, t.out[t.out.len() - 1]));
    assert(adj.contains_key(from));
    assert(in_grid(g, n) && adj.contains_key(n));
    assert(in_mask(t.marked, n)) by {
        assert(t.marked[n.0 as int].len() == g[n.0 as int].len());
        assert(g[n.0 as int].len() == g[0].len());
    }
    if t.marked[n.0 as int][n.1 as int] {
        assert(is_marked(t.marked, n));
        assert(known(t, n));
        assert forall|i: int, j: int|
            0 <= i < t.out.len() && 0 <= j < adj[t.out[i]].len() && (i < t.out.len() - 1 || j < k
                + 1) implies known(t, #[trigger] adj[t.out[i]][j]) && depth(t, adj[t.out[i]][j])
            <= depth(t, t.out[i]) + 1 by {
            if i == t.out.len() - 1 && j == k {
                if t.out.contains(n) {
                    let x = choose|x: int| 0 <= x < t.out.len() && t.out[x] == n;
                    assert(depth(t, t.out[x]) <= depth(t, t.out.last()));
                } else {
                    let y = choose|y: int| 0 <= y < t.queue.len() && t.queue[y] == n;
                    assert(depth(t, t.queue[y]) <= depth(t, t.out.last()) + 1);
                }
            }
        }
    } else {
        assert(!is_marked(t.marked, n));
        assert(!known(t, n));
        assert(discover(t, from, n) == Some(found(t, n)));
        assert(known(t, from));
        lemma_found_keys(g, adj, t, n);
        lemma_found_lists(t, n);
        lemma_found_order(t, n);
        lemma_found_expanded(adj, t, n, k);
        lemma_found_walks(adj, start_of(g), t, n, k);
        lemma_found_routes(t, n);
    }
}

/// Looking at the first `k` neighbours of the cell recorded last keeps
/// what holds of the scan.
proof fn lemma_discover_all(g: Seq<Seq<u8>>, adj: Map<Coord, Seq<Coord>>, t: Scan, k: int)
    requires
        is_grid(g),
        sound_graph(g, adj),
        scan_inv(g, adj, t, 0),
        t.out.len() > 0,
        0 <= k <= adj[t.out.last()].len(),
    ensures
        discover_all(t, t.out.last(), adj[t.out.last()].take(k)) matches Some(u) && scan_inv(
            g,
            adj,
            u,
            k,
        ) && u.out == t.out,
    decreases k,
{
    let from = t.out.last();
    let nodes = adj[from];
    if k > 0 {
        lemma_discover_all(g, adj, t, k - 1);
        assert(nodes.take(k).drop_last() =~= nodes.take(k - 1));
        assert(nodes.take(k).last() == nodes[k - 1]);
        let u = discover_all(t, from, nodes.take(k - 1)).unwrap();
        lemma_discover(g, adj, u, k - 1);
    }
}

/// Whether the cell recorded last, if there is one, is not the end.
spec fn scanning(end: Coord, s: Scan) -> bool {
    s.out.len() > 0 ==> s.out.last() != end
}

/// What holds of the state in which a scan ends: the end was recorded
/// last, or the queue ran empty before the end was recorded.
spec fn scan_done(g: Seq<Seq<u8>>, adj: Map<Coord, Seq<Coord>>, f: Scan) -> bool {
    ||| f.out.len() > 0 && f.out.last() == end_of(g) && scan_inv(g, adj, f, 0)
    ||| f.queue.len() == 0 && scanning(end_of(g), f) && scan_inv(g, adj, f, width(adj, f))
}

/// Over a sound graph a scan never fails, and it ends in a state of which
/// `scan_done` holds.
proof fn lemma_scan(g: Seq<Seq<u8>>, adj: Map<Coord, Seq<Coord>>, s: Scan)
    requires
        is_grid(g),
        sound_graph(g, adj),
        scan_inv(g, adj, s, width(adj, s)),
        scanning(end_of(g), s),
    ensures
        scan_from(adj, end_of(g), s) matches Some(f) && scan_done(g, adj, f),
    decreases unmarked(s.marked) + s.queue.len(),
{
    let end = end_of(g);
    if s.queue.len() > 0 {
        let square = s.queue[0];
        assert(known(s, s.queue[0]));
        assert(adj.contains_key(square));
        lemma_dequeue(g, adj, s);
        let t = dequeued(s);
        assert(t.out.last() == square);
        if square != end {
            let nodes = adj[square];
            lemma_discover_all(g, adj, t, nodes.len() as int);
            assert(nodes.take(nodes.len() as int) =~= nodes);
            lemma_discover_all_measure(t, square, nodes);
            let u = discover_all(t, square, nodes).unwrap();
            assert(width(adj, u) == nodes.len());
            lemma_scan(g, adj, u);
        }
    }
}

/// In a scan that recorded the end, each cell of a walk from the start is
/// discovered no deeper than its place in the walk, unless the end is no
/// deeper than that place.
proof fn lemma_walk_bound(
    g: Seq<Seq<u8>>,
    adj: Map<Coord, Seq<Coord>>,
    f: Scan,
    w: Seq<Coord>,
    i: int,
)
    requires
        scan_inv(g, adj, f, 0),
        f.out.len() > 0,
        f.out.last() == end_of(g),
        is_walk(adj, w),
        w[0] == start_of(g),
        0 <= i < w.len(),
    ensures
        (known(f, w[i]) && depth(f, w[i]) <= i + 1) || depth(f, end_of(g)) <= i + 1,
    decreases i,
{
    let end = end_of(g);
    if i > 0 {
        lemma_walk_bound(g, adj, f, w, i - 1);
        if !(depth(f, end) <= i) {
            let c = w[i - 1];
            assert(known(f, c));
            assert(linked_at(adj, w, i - 1));
            let j = choose|j: int| 0 <= j < adj[c].len() && adj[c][j] == w[i];
            if f.out.contains(c) {
                let x = choose|x: int| 0 <= x < f.out.len() && f.out[x] == c;
                if x < f.out.len() - 1 {
                    assert(known(f, adj[f.out[x]][j]));
                }
            } else {
                let y = choose|y: int| 0 <= y < f.queue.len() && f.queue[y] == c;
                assert(depth(f, f.out[f.out.len() - 1]) <= depth(f, f.queue[y]));
            }
        }
    }
}

/// In a scan whose queue ran empty, every cell of a walk from the start
/// is recorded.
proof fn lemma_walk_recorded(
    g: Seq<Seq<u8>>,
    adj: Map<Coord, Seq<Coord>>,
    f: Scan,
    w: Seq<Coord>,
    i: int,
)
    requires
        scan_inv(g, adj, f, width(adj, f)),
        f.queue.len() == 0,
        is_walk(adj, w),
        w[0] == start_of(g),
        0 <= i < w.len(),
    ensures
        known(f, w[i]),
        f.out.contains(w[i]),
    decreases i,
{
    if i > 0 {
        lemma_walk_recorded(g, adj, f, w, i - 1);
        let c = w[i - 1];
        assert(linked_at(adj, w, i - 1));
        let j = choose|j: int| 0 <= j < adj[c].len() && adj[c][j] == w[i];
        let x = choose|x: int| 0 <= x < f.out.len() && f.out[x] == c;
        assert(known(f, adj[f.out[x]][j]));
    }
    assert(known(f, w[i]));
    if !f.out.contains(w[i]) {
        let y = choose|y: int| 0 <= y < f.queue.len() && f.queue[y] == w[i];
    }
}

/// A sequence without repeats whose cells all occur in another is no
/// longer than the other.
proof fn lemma_no_longer(a: Seq<Coord>, b: Seq<Coord>)
    requires
        a.no_duplicates(),
        forall|i: int| 0 <= i < a.len() ==> b.contains(#[trigger] a[i]),
    ensures
        a.len() <= b.len(),
{
    a.unique_seq_to_set();
    b.lemma_cardinality_of_set();
    vstd::seq_lib::seq_to_set_is_finite(b);
    assert(a.to_set().subset_of(b.to_set())) by {
        assert forall|c: Coord| a.to_set().contains(c) implies b.to_set().contains(c) by {
            let i = choose|i: int| 0 <= i < a.len() && a[i] == c;
            assert(b.contains(a[i]));
        }
    }
    vstd::set_lib::lemma_len_subset(a.to_set(), b.to_set());
}

/// Over a sound graph in which a walk leads from the start of the grid to
/// its end, the breadth-first scan records the end, and the route it keeps
/// for the end is a walk from the start to the end that is no longer than
/// the given walk, nor than the list of the cells that the scan records.
pub proof fn lemma_scan_finds_shortest(
    g: Seq<Seq<u8>>,
    adj: Map<Coord, Seq<Coord>>,
    w: Seq<Coord>,
)
    requires
        is_grid(g),
        in_grid(g, start_of(g)),
        sound_graph(g, adj),
        is_walk(adj, w),
        w.first() == start_of(g),
        w.last() == end_of(g),
    ensures
        breadth_scan(g, adj) matches Some(f) && {
            &&& f.out.len() > 0
            &&& f.out.last() == end_of(g)
            &&& f.route.contains_key(end_of(g))
            &&& is_walk(adj, f.route[end_of(g)])
            &&& f.route[end_of(g)].first() == start_of(g)
            &&& f.route[end_of(g)].last() == end_of(g)
            &&& f.route[end_of(g)].no_duplicates()
            &&& f.route[end_of(g)].len() <= w.len()
            &&& f.route[end_of(g)].len() <= f.out.len()
        },
{
    let end = end_of(g);
    assert(adj.contains_key(w[0]));
    lemma_initial(g, adj);
    lemma_scan(g, adj, initial_scan(g));
    let f = breadth_scan(g, adj).unwrap();
    if f.out.len() > 0 && f.out.last() == end && scan_inv(g, adj, f, 0) {
        assert(known(f, f.out[f.out.len() - 1]));
        lemma_walk_bound(g, adj, f, w, w.len() - 1);
        let route = f.route[end];
        assert(route_kept(f, end));
        assert forall|i: int| 0 <= i < route.len() implies f.out.contains(#[trigger] route[i]) by {
            if i == route.len() - 1 {
                assert(f.out[f.out.len() - 1] == end);
            }
        }
        lemma_no_longer(route, f.out);
    } else {
        lemma_walk_recorded(g, adj, f, w, w.len() - 1);
        let x = choose|x: int| 0 <= x < f.out.len() && f.out[x] == end;
        assert(f.out[x] == end);
        assert(false);
    }
}

/// On a grid whose end can be reached from its start, the plain search
/// and the shortest-path search both succeed; the route of the second is
/// a walk from the start to the end that repeats no cell, it has no more
/// cells than the first records, and no walk from the start to the end has
/// fewer cells than it. `w` stands for any such walk.
pub proof fn lemma_shortest_route(g: Seq<Seq<u8>>, w: Seq<Coord>)
    requires
        setup_error(g) is None,
        is_walk(adjacency(g), w),
        w.first() == start_of(g),
        w.last() == end_of(g),
    ensures
        shortest_route_outcome(g, adjacency(g)) matches Ok(route) && breadth_first_outcome(
            g,
            adjacency(g),
        ) matches Ok(order) && {
            &&& is_walk(adjacency(g), route)
            &&& route.first() == start_of(g)
            &&& route.last() == end_of(g)
            &&& route.no_duplicates()
            &&& route.len() <= w.len()
            &&& route.len() <= order.len()
        },
{
    assert(is_start(g, start_of(g)));
    lemma_start_is_open(g, start_of(g));
    lemma_adjacency_sound(g);
    lemma_scan_finds_shortest(g, adjacency(g), w);
}

/// Over a sound graph in which no walk leads from the start of the grid
/// to its end, the breadth-first scan runs until its queue is empty: it
/// never fails, and it neither records nor discovers the end.
pub proof fn lemma_scan_misses_end(g: Seq<Seq<u8>>, adj: Map<Coord, Seq<Coord>>)
    requires
        is_grid(g),
        in_grid(g, start_of(g)),
        sound_graph(g, adj),
        adj.contains_key(start_of(g)),
        !reachable(adj, start_of(g), end_of(g)),
    ensures
        breadth_scan(g, adj) matches Some(f) && !f.out.contains(end_of(g))
            && !f.route.contains_key(end_of(g)),
{
    let end = end_of(g);
    lemma_initial(g, adj);
    lemma_scan(g, adj, initial_scan(g));
    let f = breadth_scan(g, adj).unwrap();
    if f.out.len() > 0 && f.out.last() == end && scan_inv(g, adj, f, 0) {
        assert(known(f, f.out[f.out.len() - 1]));
        assert(is_walk(adj, f.route[end]));
        assert(false);
    }
    if f.out.contains(end) {
        let x = choose|x: int| 0 <= x < f.out.len() && f.out[x] == end;
        assert(f.out[x] == end);
        assert(false);
    }
    if f.route.contains_key(end) {
        assert(known(f, end));
        if !f.out.contains(end) {
            let y = choose|y: int| 0 <= y < f.queue.len() && f.queue[y] == end;
        }
        assert(false);
    }
}

/// On a grid whose end cannot be reached from its start, the depth-first
/// and the breadth-first search run to their end and record a list
/// without the end of the grid, and the shortest-path search reports that
/// the end has no predecessor.
pub proof fn lemma_unreachable_end(g: Seq<Seq<u8>>)
    requires
        setup_error(g) is None,
        !reachable(adjacency(g), start_of(g), end_of(g)),
    ensures
        depth_first_outcome(g, adjacency(g)) matches Ok(order) && !order.contains(end_of(g)),
        breadth_first_outcome(g, adjacency(g)) matches Ok(order) && !order.contains(end_of(g)),
        shortest_route_outcome(g, adjacency(g)) == Err::<Seq<Coord>, SolveError>(
            SolveError::MissingParent,
        ),
{
    let start = start_of(g);
    assert(is_start(g, start));
    lemma_start_is_open(g, start);
    lemma_adjacency_sound(g);
    lemma_scan_misses_end(g, adjacency(g));
    lemma_search_misses_end(g, adjacency(g));
}

/// Over a sound graph with the start as a key, the breadth-first scan
/// never fails and records the cells level by level: each recorded cell
/// has a route, which is a walk from the start to it, and a cell that is
/// recorded later has a route of at least as many cells.
pub proof fn lemma_level_order(g: Seq<Seq<u8>>, adj: Map<Coord, Seq<Coord>>)
    requires
        is_grid(g),
        in_grid(g, start_of(g)),
        sound_graph(g, adj),
        adj.contains_key(start_of(g)),
    ensures
        breadth_scan(g, adj) matches Some(f) && {
            &&& forall|i: int|
                0 <= i < f.out.len() ==> f.route.contains_key(#[trigger] f.out[i]) && is_walk(
                    adj,
                    f.route[f.out[i]],
                ) && f.route[f.out[i]].first() == start_of(g) && f.route[f.out[i]].last()
                    == f.out[i]
            &&& forall|i: int, j: int|
                0 <= i < j < f.out.len() ==> f.route[#[trigger] f.out[i]].len()
                    <= f.route[#[trigger] f.out[j]].len()
        },
{
    lemma_initial(g, adj);
    lemma_scan(g, adj, initial_scan(g));
    let f = breadth_scan(g, adj).unwrap();
    assert forall|i: int| 0 <= i < f.out.len() implies f.route.contains_key(#[trigger] f.out[i])
        && is_walk(adj, f.route[f.out[i]]) && f.route[f.out[i]].first() == start_of(g)
        && f.route[f.out[i]].last() == f.out[i] by {
        assert(known(f, f.out[i]));
    }
    assert forall|i: int, j: int|
        0 <= i < j < f.out.len() implies f.route[#[trigger] f.out[i]].len()
        <= f.route[#[trigger] f.out[j]].len() by {
        assert(depth(f, f.out[i]) <= depth(f, f.out[j]));
    }
}

} // verus!
