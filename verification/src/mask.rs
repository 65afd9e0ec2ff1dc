//! Visited masks: one boolean per grid cell, and the count of cells that a
//! traversal has not consumed yet, by which the traversals terminate.

use crate::grid::Coord;
use vstd::prelude::*;

verus! {

/// Whether `p` names an entry of the mask.
pub open spec fn in_mask(m: Seq<Seq<bool>>, p: Coord) -> bool {
    p.0 < m.len() && p.1 < m[p.0 as int].len()
}

/// Whether the mask has `p` marked.
pub open spec fn is_marked(m: Seq<Seq<bool>>, p: Coord) -> bool {
    in_mask(m, p) && m[p.0 as int][p.1 as int]
}

/// The mask with `p` marked. A position outside the mask changes nothing.
pub open spec fn mark(m: Seq<Seq<bool>>, p: Coord) -> Seq<Seq<bool>> {
    if in_mask(m, p) {
        m.update(p.0 as int, m[p.0 as int].update(p.1 as int, true))
    } else {
        m
    }
}

/// Whether the mask has one entry for each cell of `g`.
pub open spec fn mask_fits(g: Seq<Seq<u8>>, m: Seq<Seq<bool>>) -> bool {
    &&& m.len() == g.len()
    &&& forall|r: int| 0 <= r < m.len() ==> (#[trigger] m[r]).len() == g[r].len()
}

/// The mask of `g` with nothing marked.
pub open spec fn blank_mask(g: Seq<Seq<u8>>) -> Seq<Seq<bool>> {
    Seq::new(g.len(), |r: int| Seq::new(g[r].len(), |c: int| false))
}

/// How many entries of a row are not marked.
pub open spec fn unmarked_in_row(row: Seq<bool>) -> nat
    decreases row.len(),
{
    if row.len() == 0 {
        0
    } else {
        unmarked_in_row(row.drop_last()) + if row.last() {
            0nat
        } else {
            1nat
        }
    }
}

/// How many entries of a mask are not marked.
pub open spec fn unmarked(m: Seq<Seq<bool>>) -> nat
    decreases m.len(),
{
    if m.len() == 0 {
        0
    } else {
        unmarked(m.drop_last()) + unmarked_in_row(m.last())
    }
}

proof fn lemma_row_mark(row: Seq<bool>, c: int)
    requires
        0 <= c < row.len(),
    ensures
        unmarked_in_row(row.update(c, true)) + (if row[c] {
            0nat
        } else {
            1nat
        }) == unmarked_in_row(row),
    decreases row.len(),
{
    let marked = row.update(c, true);
    if c == row.len() - 1 {
        assert(marked.drop_last() =~= row.drop_last());
    } else {
        assert(marked.drop_last() =~= row.drop_last().update(c, true));
        lemma_row_mark(row.drop_last(), c);
    }
}

proof fn lemma_row_replace(m: Seq<Seq<bool>>, r: int, row: Seq<bool>)
    requires
        0 <= r < m.len(),
    ensures
        unmarked(m.update(r, row)) + unmarked_in_row(m[r]) == unmarked(m) + unmarked_in_row(row),
    decreases m.len(),
{
    let replaced = m.update(r, row);
    if r == m.len() - 1 {
        assert(replaced.drop_last() =~= m.drop_last());
    } else {
        assert(replaced.drop_last() =~= m.drop_last().update(r, row));
        lemma_row_replace(m.drop_last(), r, row);
    }
}

/// Marking keeps the shape of the mask, marks `p` and nothing else, and
/// lowers the count of unmarked entries by one exactly when `p` was an
/// unmarked entry.
pub proof fn lemma_mark(m: Seq<Seq<bool>>, p: Coord)
    ensures
        mark(m, p).len() == m.len(),
        forall|r: int| 0 <= r < m.len() ==> (#[trigger] mark(m, p)[r]).len() == m[r].len(),
        forall|q: Coord| #[trigger] in_mask(mark(m, p), q) == in_mask(m, q),
        forall|q: Coord| #[trigger]
            is_marked(mark(m, p), q) == (is_marked(m, q) || (q == p && in_mask(m, p))),
        in_mask(m, p) && !is_marked(m, p) ==> unmarked(mark(m, p)) + 1 == unmarked(m),
        is_marked(m, p) || !in_mask(m, p) ==> mark(m, p) == m,
        unmarked(mark(m, p)) <= unmarked(m),
{
    if in_mask(m, p) {
        let row = m[p.0 as int];
        lemma_row_mark(row, p.1 as int);
        lemma_row_replace(m, p.0 as int, row.update(p.1 as int, true));
        if is_marked(m, p) {
            assert(row.update(p.1 as int, true) =~= row);
            assert(mark(m, p) =~= m);
        }
    }
}

/// A blank mask fits its grid and has nothing marked.
pub proof fn lemma_blank_mask(g: Seq<Seq<u8>>)
    ensures
        mask_fits(g, blank_mask(g)),
        forall|q: Coord| !#[trigger] is_marked(blank_mask(g), q),
{
}

/// The deep view of a mask holds, row by row, the views of its rows.
pub proof fn lemma_mask_rows(visited: &[Vec<bool>])
    ensures
        visited.deep_view().len() == visited@.len(),
        forall|r: int|
            0 <= r < visited@.len() ==> (#[trigger] visited.deep_view()[r]) == visited@[r]@,
{
    assert forall|r: int| 0 <= r < visited@.len() implies (#[trigger] visited.deep_view()[r])
        == visited@[r]@ by {
        assert(visited.deep_view()[r] =~= visited@[r]@);
    }
}

/// A mask for `maze` with nothing marked.
pub fn new_mask(maze: &[Vec<u8>]) -> (m: Vec<Vec<bool>>)
    ensures
        m.deep_view() == blank_mask(maze.deep_view()),
{
    let mut m: Vec<Vec<bool>> = Vec::new();
    let mut r: usize = 0;
    while r < maze.len()
        invariant
            r <= maze@.len(),
            m@.len() == r,
            forall|k: int|
                0 <= k < r ==> (#[trigger] m@[k])@ == Seq::new(
                    maze@[k]@.len(),
                    |c: int| false,
                ),
        decreases maze@.len() - r,
    {
        let mut row: Vec<bool> = Vec::new();
        let mut c: usize = 0;
        while c < maze[r].len()
            invariant
                r < maze@.len(),
                c <= maze@[r as int]@.len(),
                row@.len() == c,
                forall|k: int| 0 <= k < c ==> !#[trigger] row@[k],
            decreases maze@[r as int]@.len() - c,
        {
            row.push(false);
            c += 1;
        }
        assert(row@ =~= Seq::new(maze@[r as int]@.len(), |c: int| false));
        m.push(row);
        r += 1;
    }
    assert(m.deep_view() =~~= blank_mask(maze.deep_view()));
    m
}

/// Reads the mask at `p`: whether `p` is marked, or `None` where `p` lies
/// outside the mask.
pub fn marked_at(visited: &[Vec<bool>], p: Coord) -> (b: Option<bool>)
    ensures
        b == (if in_mask(visited.deep_view(), p) {
            Some(visited.deep_view()[p.0 as int][p.1 as int])
        } else {
            None
        }),
{
    proof {
        lemma_mask_rows(visited);
    }
    if p.0 < visited.len() && p.1 < visited[p.0].len() {
        Some(visited[p.0][p.1])
    } else {
        None
    }
}

/// Marks `p` in the mask.
pub fn set_mark(visited: &mut Vec<Vec<bool>>, p: Coord)
    requires
        in_mask(old(visited).deep_view(), p),
    ensures
        final(visited).deep_view() == mark(old(visited).deep_view(), p),
{
    visited[p.0][p.1] = true;
    assert(visited.deep_view() =~~= mark(old(visited).deep_view(), p));
}

} // verus!
