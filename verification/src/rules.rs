//! The mathematical model of the board and of the per-generation rule.
//!
//! A grid is a sequence of rows of cell values, `0` for dead and `1` for
//! alive.  Everything the executable engine promises is stated in terms of the
//! spec functions here: [`next_alive`] is the standard Game of Life transition
//! applied to one cell, with the grid boundary acting as a hard wall of dead
//! cells.

use crate::coord::Cordinates;
use vstd::prelude::*;

verus! {

/// The width of a rectangular grid: the length of its first row.
pub open spec fn grid_width(g: Seq<Seq<i32>>) -> int {
    g[0].len() as int
}

/// Whether `(r, c)` addresses a cell of the grid.
pub open spec fn in_bounds(g: Seq<Seq<i32>>, r: int, c: int) -> bool {
    0 <= r < g.len() && 0 <= c < grid_width(g)
}

/// A well-formed grid: at least one row, every row as long as the first,
/// every cell `0` or `1`, and dimensions small enough that a neighbor of any
/// cell still fits in an `i32`.
pub open spec fn grid_wf(g: Seq<Seq<i32>>) -> bool {
    &&& g.len() >= 1
    &&& g.len() + 1 <= i32::MAX
    &&& grid_width(g) + 1 <= i32::MAX
    &&& forall|r: int| 0 <= r < g.len() ==> #[trigger] g[r].len() == grid_width(g)
    &&& forall|r: int, c: int| in_bounds(g, r, c) ==> #[trigger] g[r][c] == 0 || g[r][c] == 1
}

/// The value of cell `(r, c)`, reading `0` beyond the boundary.
pub open spec fn cell_at(g: Seq<Seq<i32>>, r: int, c: int) -> int {
    if in_bounds(g, r, c) {
        g[r][c] as int
    } else {
        0
    }
}

/// Whether cell `(r, c)` is alive (in bounds and nonzero).
pub open spec fn live_at(g: Seq<Seq<i32>>, r: int, c: int) -> bool {
    in_bounds(g, r, c) && g[r][c] != 0
}

/// The number of live cells among the eight neighbors of `(r, c)`; cells
/// beyond the boundary count as dead.
pub open spec fn neighbor_count(g: Seq<Seq<i32>>, r: int, c: int) -> int {
    cell_at(g, r - 1, c - 1) + cell_at(g, r - 1, c) + cell_at(g, r - 1, c + 1) + cell_at(
        g,
        r,
        c - 1,
    ) + cell_at(g, r, c + 1) + cell_at(g, r + 1, c - 1) + cell_at(g, r + 1, c) + cell_at(
        g,
        r + 1,
        c + 1,
    )
}

/// The transition rule for one cell: a live cell survives with two or three
/// live neighbors, a dead cell is born with exactly three, and everything
/// else is dead in the next generation.
pub open spec fn next_alive(g: Seq<Seq<i32>>, r: int, c: int) -> bool {
    if live_at(g, r, c) {
        neighbor_count(g, r, c) == 2 || neighbor_count(g, r, c) == 3
    } else {
        in_bounds(g, r, c) && neighbor_count(g, r, c) == 3
    }
}

/// Whether some entry of `cs` addresses `(r, c)`.
pub open spec fn in_list(cs: Seq<Cordinates>, r: int, c: int) -> bool {
    exists|i: int| 0 <= i < cs.len() && cs[i].y == r && cs[i].x == c
}

/// Whether no two entries of the list share an address.
pub open spec fn distinct_coords(cs: Seq<Cordinates>) -> bool {
    forall|i: int, j: int|
        0 <= i < j < cs.len() ==> !((#[trigger] cs[i]).y == (#[trigger] cs[j]).y && cs[i].x
            == cs[j].x)
}

/// Appending an entry to a coordinate list adds exactly its own address to
/// the addresses the list holds.
pub proof fn lemma_in_list_push(cs: Seq<Cordinates>, e: Cordinates, r: int, c: int)
    ensures
        in_list(cs.push(e), r, c) <==> (in_list(cs, r, c) || (e.y == r && e.x == c)),
{
    if in_list(cs, r, c) {
        let i = choose|i: int| 0 <= i < cs.len() && cs[i].y == r && cs[i].x == c;
        assert(cs.push(e)[i].y == r && cs.push(e)[i].x == c);
    }
    if e.y == r && e.x == c {
        assert(cs.push(e)[cs.len() as int].y == r && cs.push(e)[cs.len() as int].x == c);
    }
    if in_list(cs.push(e), r, c) {
        let i = choose|i: int|
            0 <= i < cs.push(e).len() && cs.push(e)[i].y == r && cs.push(e)[i].x == c;
        if i < cs.len() {
            assert(cs[i].y == r && cs[i].x == c);
        }
    }
}

/// Whether `(r, c)` lies in the 3x3 neighborhood centered on `a` (including
/// `a` itself).
pub open spec fn near(a: Cordinates, r: int, c: int) -> bool {
    a.y - 1 <= r <= a.y + 1 && a.x - 1 <= c <= a.x + 1
}

/// Whether `(r, c)` lies in the neighborhood of one of the first `k` entries
/// of `cs`: the cells the update pass has to consider.
pub open spec fn near_prefix(cs: Seq<Cordinates>, k: int, r: int, c: int) -> bool {
    exists|i: int| 0 <= i < k && near(cs[i], r, c)
}

/// A cell alive in the next generation lies in the neighborhood of some
/// entry of the live list: either it is live itself (and listed), or it was
/// born from three live neighbors, one of which is listed.  This is why an
/// update pass that only visits the neighborhoods of live cells misses
/// nothing.
pub proof fn lemma_next_alive_near(g: Seq<Seq<i32>>, cs: Seq<Cordinates>, r: int, c: int)
    requires
        grid_wf(g),
        forall|rr: int, cc: int|
            #[trigger] in_bounds(g, rr, cc) ==> (live_at(g, rr, cc) <==> in_list(cs, rr, cc)),
        in_bounds(g, r, c),
        next_alive(g, r, c),
    ensures
        near_prefix(cs, cs.len() as int, r, c),
{
    if live_at(g, r, c) {
        let i = choose|i: int| 0 <= i < cs.len() && cs[i].y == r && cs[i].x == c;
        assert(near(cs[i], r, c));
    } else {
        let (nr, nc): (int, int) = if cell_at(g, r - 1, c - 1) != 0 {
            (r - 1, c - 1)
        } else if cell_at(g, r - 1, c) != 0 {
            (r - 1, c)
        } else if cell_at(g, r - 1, c + 1) != 0 {
            (r - 1, c + 1)
        } else if cell_at(g, r, c - 1) != 0 {
            (r, c - 1)
        } else if cell_at(g, r, c + 1) != 0 {
            (r, c + 1)
        } else if cell_at(g, r + 1, c - 1) != 0 {
            (r + 1, c - 1)
        } else if cell_at(g, r + 1, c) != 0 {
            (r + 1, c)
        } else {
            (r + 1, c + 1)
        };
        assert(cell_at(g, nr, nc) != 0);
        assert(live_at(g, nr, nc));
        assert(in_list(cs, nr, nc));
        let i = choose|i: int| 0 <= i < cs.len() && cs[i].y == nr && cs[i].x == nc;
        assert(near(cs[i], r, c));
    }
}

} // verus!
