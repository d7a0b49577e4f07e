//! Proved properties of the engine: invariants of the simulation state,
//! classic behaviors of the transition rule (still life, blinker, isolation,
//! birth), boundary behavior, and the parse/render round trip.

use crate::game::Game;
use crate::pattern::{
    lines_of, max_line_len, pattern_alive, render_cell, render_grid, render_row, valid_char,
    valid_pattern,
};
use crate::rules::{
    cell_at, grid_wf, grid_width, in_bounds, in_list, live_at, neighbor_count, next_alive,
};
use vstd::prelude::*;

verus! {

/// Bounds invariant: in a well-formed simulation every live-list coordinate
/// addresses a cell of the grid.  Every constructor establishes `wf` and
/// every mutator preserves it, so this holds of all reachable states.
pub proof fn lemma_live_cells_in_bounds(game: Game)
    requires
        game.wf(),
    ensures
        forall|i: int|
            0 <= i < game.live_cells@.len() ==> {
                &&& 0 <= (#[trigger] game.live_cells@[i]).y < game.height()
                &&& 0 <= game.live_cells@[i].x < game.width()
            },
{
}

/// Grid/live-list consistency: in a well-formed simulation (in particular
/// after any `step`) a grid cell is nonzero exactly when the live list holds
/// its coordinate.
pub proof fn lemma_grid_live_list_consistent(game: Game)
    requires
        game.wf(),
    ensures
        forall|r: int, c: int|
            #[trigger] in_bounds(game.grid(), r, c) ==> (game.grid()[r][c] != 0 <==> in_list(
                game.live_cells@,
                r,
                c,
            )),
{
}

/// Birth from neighbors: a dead in-bounds cell with exactly three live
/// neighbors is alive in the next generation.
pub proof fn lemma_birth(g: Seq<Seq<i32>>, r: int, c: int)
    requires
        in_bounds(g, r, c),
        !live_at(g, r, c),
        neighbor_count(g, r, c) == 3,
    ensures
        next_alive(g, r, c),
{
}

/// Death by isolation: when a single cell is the only live cell on the
/// board, every cell (that one included) is dead in the next generation.
pub proof fn lemma_isolated_cell_dies(g: Seq<Seq<i32>>, r0: int, c0: int)
    requires
        grid_wf(g),
        in_bounds(g, r0, c0),
        forall|r: int, c: int|
            #[trigger] in_bounds(g, r, c) ==> (live_at(g, r, c) <==> (r == r0 && c == c0)),
    ensures
        forall|r: int, c: int| #[trigger] in_bounds(g, r, c) ==> !next_alive(g, r, c),
{
    assert forall|a: int, b: int| #[trigger]
        cell_at(g, a, b) == (if a == r0 && b == c0 {
            1int
        } else {
            0int
        }) by {
        if in_bounds(g, a, b) {
            assert(g[a][b] == 0 || g[a][b] == 1);
        }
    }
}

/// Stable still life: a 2x2 block of live cells on an otherwise empty board
/// is unchanged by a step.  Each block cell has exactly three live neighbors
/// and survives; every other cell has at most two and stays dead.
pub proof fn lemma_block_still_life(g: Seq<Seq<i32>>, r0: int, c0: int)
    requires
        grid_wf(g),
        0 <= r0 && r0 + 1 < g.len(),
        0 <= c0 && c0 + 1 < grid_width(g),
        forall|r: int, c: int|
            #[trigger] in_bounds(g, r, c) ==> (live_at(g, r, c) <==> (r0 <= r <= r0 + 1 && c0 <= c
                <= c0 + 1)),
    ensures
        forall|r: int, c: int|
            #[trigger] in_bounds(g, r, c) ==> (next_alive(g, r, c) <==> live_at(g, r, c)),
{
    assert forall|a: int, b: int| #[trigger]
        cell_at(g, a, b) == (if r0 <= a <= r0 + 1 && c0 <= b <= c0 + 1 {
            1int
        } else {
            0int
        }) by {
        if in_bounds(g, a, b) {
            assert(g[a][b] == 0 || g[a][b] == 1);
        }
    }
}

/// Blinker, first half-period: three horizontally adjacent live cells at
/// `(1,1),(1,2),(1,3)` on an otherwise empty board of height and width at
/// least four become the three vertically adjacent cells `(0,2),(1,2),(2,2)`.
pub proof fn lemma_blinker_horizontal_to_vertical(g: Seq<Seq<i32>>)
    requires
        grid_wf(g),
        g.len() >= 4,
        grid_width(g) >= 4,
        forall|r: int, c: int|
            #[trigger] in_bounds(g, r, c) ==> (live_at(g, r, c) <==> (r == 1 && 1 <= c <= 3)),
    ensures
        forall|r: int, c: int|
            #[trigger] in_bounds(g, r, c) ==> (next_alive(g, r, c) <==> (c == 2 && 0 <= r <= 2)),
{
    assert forall|a: int, b: int| #[trigger]
        cell_at(g, a, b) == (if a == 1 && 1 <= b <= 3 {
            1int
        } else {
            0int
        }) by {
        if in_bounds(g, a, b) {
            assert(g[a][b] == 0 || g[a][b] == 1);
        }
    }
}

/// Blinker, second half-period: the three vertically adjacent live cells
/// `(0,2),(1,2),(2,2)` on an otherwise empty board of height and width at
/// least four return to the horizontal cells `(1,1),(1,2),(1,3)`.  Together
/// with [`lemma_blinker_horizontal_to_vertical`] this is the period-2
/// oscillation.
pub proof fn lemma_blinker_vertical_to_horizontal(g: Seq<Seq<i32>>)
    requires
        grid_wf(g),
        g.len() >= 4,
        grid_width(g) >= 4,
        forall|r: int, c: int|
            #[trigger] in_bounds(g, r, c) ==> (live_at(g, r, c) <==> (c == 2 && 0 <= r <= 2)),
    ensures
        forall|r: int, c: int|
            #[trigger] in_bounds(g, r, c) ==> (next_alive(g, r, c) <==> (r == 1 && 1 <= c <= 3)),
{
    assert forall|a: int, b: int| #[trigger]
        cell_at(g, a, b) == (if b == 2 && 0 <= a <= 2 {
            1int
        } else {
            0int
        }) by {
        if in_bounds(g, a, b) {
            assert(g[a][b] == 0 || g[a][b] == 1);
        }
    }
}

/// Boundary clipping: the neighbor count of the top-left corner cell reads
/// only its three in-bounds neighbors, so it never exceeds three; cells
/// beyond the wall contribute nothing.
pub proof fn lemma_corner_neighbor_count(g: Seq<Seq<i32>>)
    requires
        grid_wf(g),
    ensures
        neighbor_count(g, 0, 0) == cell_at(g, 0, 1) + cell_at(g, 1, 0) + cell_at(g, 1, 1),
        0 <= neighbor_count(g, 0, 0) <= 3,
{
    assert forall|a: int, b: int| 0 <= #[trigger] cell_at(g, a, b) <= 1 by {
        if in_bounds(g, a, b) {
            assert(g[a][b] == 0 || g[a][b] == 1);
        }
    }
}

/// The lines of a valid pattern hold only `' '` and `'#'`: the newlines all
/// went into splitting.
proof fn lemma_lines_chars(s: Seq<char>)
    requires
        valid_pattern(s),
    ensures
        forall|r: int, c: int|
            0 <= r < lines_of(s).len() && 0 <= c < lines_of(s)[r].len() ==> #[trigger] lines_of(
                s,
            )[r][c] == ' ' || lines_of(s)[r][c] == '#',
    decreases s.len(),
{
    if s.len() != 0 {
        assert(valid_pattern(s.drop_last())) by {
            assert(forall|i: int| 0 <= i < s.len() - 1 ==> s.drop_last()[i] == #[trigger] s[i]);
        }
        lemma_lines_chars(s.drop_last());
        crate::pattern::lemma_lines_of_len(s.drop_last());
        assert(valid_char(s.last()));
        let rest = lines_of(s.drop_last());
        if s.last() == '\n' {
            assert forall|r: int, c: int|
                0 <= r < lines_of(s).len() && 0 <= c < lines_of(s)[r].len() implies (#[trigger] lines_of(
            s,
            )[r][c] == ' ' || lines_of(s)[r][c] == '#') by {
                assert(lines_of(s) == rest.push(Seq::<char>::empty()));
                if r < rest.len() {
                    assert(lines_of(s)[r] == rest[r]);
                }
            }
        } else {
            assert forall|r: int, c: int|
                0 <= r < lines_of(s).len() && 0 <= c < lines_of(s)[r].len() implies (#[trigger] lines_of(
            s,
            )[r][c] == ' ' || lines_of(s)[r][c] == '#') by {
                assert(lines_of(s) == rest.update(rest.len() - 1, rest.last().push(s.last())));
                if r < rest.len() - 1 {
                    assert(lines_of(s)[r] == rest[r]);
                } else {
                    assert(lines_of(s)[r] == rest.last().push(s.last()));
                }
            }
        }
    }
}

/// A row of cell values that encodes a line of `' '`/`'#'` characters renders
/// back to exactly that line.
proof fn lemma_render_row_line(row: Seq<i32>, line: Seq<char>)
    requires
        row.len() == line.len(),
        forall|c: int|
            0 <= c < row.len() ==> #[trigger] row[c] == (if line[c] == '#' {
                1int
            } else {
                0int
            }),
        forall|c: int| 0 <= c < line.len() ==> #[trigger] line[c] == ' ' || line[c] == '#',
    ensures
        render_row(row) == line,
    decreases row.len(),
{
    if row.len() != 0 {
        assert(forall|c: int|
            0 <= c < row.len() - 1 ==> #[trigger] row.drop_last()[c] == row[c]);
        assert(forall|c: int|
            0 <= c < line.len() - 1 ==> #[trigger] line.drop_last()[c] == line[c]);
        lemma_render_row_line(row.drop_last(), line.drop_last());
        assert(render_cell(row.last()) == line.last());
        assert(render_row(row) =~= line);
    }
}

/// Joining lines with a newline after each: the inverse of [`lines_of`].
spec fn join_lines(lines: Seq<Seq<char>>) -> Seq<char>
    decreases lines.len(),
{
    if lines.len() == 0 {
        Seq::<char>::empty()
    } else {
        join_lines(lines.drop_last()) + lines.last() + seq!['\n']
    }
}

/// Splitting a text on newlines and joining the lines again appends exactly
/// one trailing newline.
proof fn lemma_join_lines_of(s: Seq<char>)
    ensures
        join_lines(lines_of(s)) == s.push('\n'),
    decreases s.len(),
{
    if s.len() == 0 {
        assert(lines_of(s) == seq![Seq::<char>::empty()]);
        assert(lines_of(s).drop_last() =~= Seq::<Seq<char>>::empty());
        assert(join_lines(lines_of(s)) == join_lines(Seq::<Seq<char>>::empty())
            + Seq::<char>::empty() + seq!['\n']);
        assert(join_lines(lines_of(s)) =~= s.push('\n'));
    } else {
        lemma_join_lines_of(s.drop_last());
        crate::pattern::lemma_lines_of_len(s.drop_last());
        let rest = lines_of(s.drop_last());
        if s.last() == '\n' {
            assert(lines_of(s) == rest.push(Seq::<char>::empty()));
            assert(lines_of(s).drop_last() =~= rest);
            assert(join_lines(lines_of(s)) == join_lines(rest) + Seq::<char>::empty()
                + seq!['\n']);
            assert(join_lines(lines_of(s)) =~= s.push('\n'));
        } else {
            let updated = rest.update(rest.len() - 1, rest.last().push(s.last()));
            assert(lines_of(s) == updated);
            assert(updated.drop_last() =~= rest.drop_last());
            assert(updated.last() == rest.last().push(s.last()));
            assert(join_lines(updated) == join_lines(rest.drop_last()) + rest.last().push(s.last())
                + seq!['\n']);
            assert(join_lines(rest) == join_lines(rest.drop_last()) + rest.last() + seq!['\n']);
            assert(join_lines(rest) == s.drop_last().push('\n'));
            assert forall|idx: int|
                0 <= idx < join_lines(rest.drop_last()).len() + rest.last().len() implies (
            join_lines(rest.drop_last()) + rest.last())[idx] == s.drop_last()[idx] by {
                assert((join_lines(rest.drop_last()) + rest.last())[idx] == (join_lines(
                    rest.drop_last(),
                ) + rest.last() + seq!['\n'])[idx]);
                assert((s.drop_last().push('\n'))[idx] == s.drop_last()[idx]);
            }
            assert(join_lines(rest.drop_last()).len() + rest.last().len() == s.drop_last().len());
            assert(join_lines(rest.drop_last()) + rest.last() =~= s.drop_last());
            assert(join_lines(rest.drop_last()) + rest.last().push(s.last()) =~= (join_lines(
                rest.drop_last(),
            ) + rest.last()).push(s.last()));
            assert(s.drop_last().push(s.last()) =~= s);
            assert(join_lines(updated) == s + seq!['\n']);
            assert(s + seq!['\n'] =~= s.push('\n'));
        }
    }
}

/// Rendering the first `k` rows of a grid that encodes the lines yields the
/// first `k` lines joined.
proof fn lemma_render_prefix(lines: Seq<Seq<char>>, g: Seq<Seq<i32>>, k: int)
    requires
        0 <= k <= g.len(),
        g.len() == lines.len(),
        forall|r: int| 0 <= r < g.len() ==> (#[trigger] g[r]).len() == lines[r].len(),
        forall|r: int, c: int|
            0 <= r < g.len() && 0 <= c < g[r].len() ==> #[trigger] g[r][c] == (if lines[r][c]
                == '#' {
                1int
            } else {
                0int
            }),
        forall|r: int, c: int|
            0 <= r < lines.len() && 0 <= c < lines[r].len() ==> #[trigger] lines[r][c] == ' '
                || lines[r][c] == '#',
    ensures
        render_grid(g.take(k)) == join_lines(lines.take(k)),
    decreases k,
{
    if k == 0 {
        assert(g.take(0) =~= Seq::<Seq<i32>>::empty());
        assert(lines.take(0) =~= Seq::<Seq<char>>::empty());
    } else {
        lemma_render_prefix(lines, g, k - 1);
        assert(g.take(k).drop_last() =~= g.take(k - 1));
        assert(lines.take(k).drop_last() =~= lines.take(k - 1));
        assert(g.take(k).last() == g[k - 1]);
        assert(lines.take(k).last() == lines[k - 1]);
        lemma_render_row_line(g[k - 1], lines[k - 1]);
        assert(render_grid(g.take(k)) == render_grid(g.take(k - 1)) + render_row(g[k - 1])
            + seq!['\n']);
        assert(join_lines(lines.take(k)) == join_lines(lines.take(k - 1)) + lines[k - 1]
            + seq!['\n']);
    }
}

/// Pattern round trip: a grid parsed from a valid pattern whose lines all
/// have the same length renders back to the pattern text followed by one
/// trailing newline (rendering always ends each row, the last included, with
/// a newline).  For a ragged pattern the render differs only by the dead
/// cells that padding added.
pub proof fn lemma_pattern_round_trip(t: Seq<char>, g: Seq<Seq<i32>>)
    requires
        valid_pattern(t),
        forall|r: int|
            0 <= r < lines_of(t).len() ==> (#[trigger] lines_of(t)[r]).len() == max_line_len(
                lines_of(t),
            ),
        grid_wf(g),
        g.len() == lines_of(t).len(),
        grid_width(g) == max_line_len(lines_of(t)),
        forall|r: int, c: int|
            #[trigger] in_bounds(g, r, c) ==> (live_at(g, r, c) <==> pattern_alive(
                lines_of(t),
                r,
                c,
            )),
    ensures
        render_grid(g) == t.push('\n'),
{
    let lines = lines_of(t);
    lemma_lines_chars(t);
    assert forall|r: int, c: int|
        0 <= r < g.len() && 0 <= c < g[r].len() implies #[trigger] g[r][c] == (if lines[r][c]
        == '#' {
        1int
    } else {
        0int
    }) by {
        assert(in_bounds(g, r, c));
        assert(g[r][c] == 0 || g[r][c] == 1);
    }
    lemma_render_prefix(lines, g, g.len() as int);
    assert(g.take(g.len() as int) =~= g);
    assert(lines.take(lines.len() as int) =~= lines);
    lemma_join_lines_of(t);
}

} // verus!
