//! The board and the per-generation update pass.

use crate::coord::Cordinates;
use crate::rules::{
    cell_at, distinct_coords, grid_wf, grid_width, in_bounds, in_list, lemma_in_list_push, live_at,
    near, near_prefix, neighbor_count, next_alive,
};
use vstd::prelude::*;

verus! {

/// A bounded Game of Life board: a dense grid of cell values (`0` dead, `1`
/// alive) together with the list of currently-live coordinates.
#[derive(Debug)]
pub struct Game {
    pub board: Vec<Vec<i32>>,
    pub live_cells: Vec<Cordinates>,
}

impl Game {
    /// The grid as a sequence of rows of cell values.
    pub open spec fn grid(self) -> Seq<Seq<i32>> {
        self.board.deep_view()
    }

    /// The number of rows.
    pub open spec fn height(self) -> int {
        self.grid().len() as int
    }

    /// The number of columns.
    pub open spec fn width(self) -> int {
        grid_width(self.grid())
    }

    /// Whether cell `(r, c)` is alive.
    pub open spec fn live(self, r: int, c: int) -> bool {
        live_at(self.grid(), r, c)
    }

    /// Well-formedness: the grid is rectangular with `0`/`1` cells, every
    /// entry of the live list addresses a cell of the grid, and a cell is
    /// alive exactly when the live list holds its coordinate.  The live list
    /// may hold duplicates; as a set it always matches the grid.
    pub open spec fn wf(self) -> bool {
        &&& grid_wf(self.grid())
        &&& forall|i: int|
            0 <= i < self.live_cells@.len() ==> {
                &&& 0 <= (#[trigger] self.live_cells@[i]).y < self.height()
                &&& 0 <= self.live_cells@[i].x < self.width()
            }
        &&& forall|r: int, c: int|
            #[trigger] in_bounds(self.grid(), r, c) ==> (live_at(self.grid(), r, c) <==> in_list(
                self.live_cells@,
                r,
                c,
            ))
    }

    /// Allocates a `height x width` board, marks each coordinate of
    /// `live_cells` alive, and keeps `live_cells` as the live list.
    ///
    /// Every coordinate must lie on the board: an out-of-range entry would be
    /// an index fault, a caller error rather than a recoverable condition.
    pub fn new(height: usize, width: usize, live_cells: Vec<Cordinates>) -> (game: Game)
        requires
            1 <= height,
            height + 1 <= i32::MAX,
            width + 1 <= i32::MAX,
            forall|i: int|
                0 <= i < live_cells@.len() ==> {
                    &&& 0 <= (#[trigger] live_cells@[i]).y < height
                    &&& 0 <= live_cells@[i].x < width
                },
        ensures
            game.wf(),
            game.height() == height,
            game.width() == width,
            game.live_cells == live_cells,
            forall|r: int, c: int|
                #[trigger] in_bounds(game.grid(), r, c) ==> (game.live(r, c) <==> in_list(
                    live_cells@,
                    r,
                    c,
                )),
    {
        let board = fill_board(height, width, &live_cells);
        Game { board, live_cells }
    }

    /// Marks one cell alive: appends the coordinate to the live list and sets
    /// the grid cell to `1`.  Repeated seeding of the same cell is permitted:
    /// it leaves the grid unchanged and adds a redundant list entry.
    pub fn set_alive(&mut self, y: usize, x: usize)
        requires
            old(self).wf(),
            y < old(self).height(),
            x < old(self).width(),
        ensures
            final(self).wf(),
            final(self).height() == old(self).height(),
            final(self).width() == old(self).width(),
            final(self).live_cells@ == old(self).live_cells@.push(
                Cordinates { x: x as i32, y: y as i32 },
            ),
            forall|r: int, c: int|
                #[trigger] in_bounds(final(self).grid(), r, c) ==> (final(self).live(r, c) <==> (
                old(self).live(r, c) || (r == y && c == x))),
    {
        let ghost g0 = self.grid();
        let ghost lc0 = self.live_cells@;
        let coordinate = Cordinates::new(y as i32, x as i32);
        self.live_cells.push(coordinate);
        proof {
            assert(self.board@.len() == g0.len());
            assert(self.board@[y as int]@ == g0[y as int]);
        }
        self.board[y][x] = 1;
        proof {
            let g1 = self.grid();
            assert(g1.len() == g0.len());
            assert(forall|r: int| 0 <= r < g0.len() && r != y ==> #[trigger] g1[r] == g0[r]);
            assert(g1[y as int] == g0[y as int].update(x as int, 1i32));
            assert forall|r: int, c: int| #[trigger]
                in_bounds(g1, r, c) implies (live_at(g1, r, c) <==> in_list(
                self.live_cells@,
                r,
                c,
            )) by {
                crate::rules::lemma_in_list_push(lc0, coordinate, r, c);
                assert(in_bounds(g0, r, c));
                if !(r == y && c == x) {
                    assert(g1[r][c] == g0[r][c]);
                }
            }
        }
    }

    /// Advances the board one generation in place.
    ///
    /// Only cells within one step of a currently-live cell are examined; the
    /// proof that this misses nothing is [`crate::rules::lemma_next_alive_near`].
    /// Afterwards the grid is rebuilt from scratch at the original dimensions
    /// from the next-generation live list, so no stale cells survive, and the
    /// new live list holds each live coordinate exactly once.
    #[verifier::loop_isolation(false)]
    pub fn update_board(&mut self)
        requires
            old(self).wf(),
        ensures
            final(self).wf(),
            final(self).height() == old(self).height(),
            final(self).width() == old(self).width(),
            forall|r: int, c: int|
                #[trigger] in_bounds(old(self).grid(), r, c) ==> (final(self).live(r, c)
                    <==> next_alive(old(self).grid(), r, c)),
            distinct_coords(final(self).live_cells@),
    {
        let ghost g = self.grid();
        let ghost lc = self.live_cells@;
        let mut new_live_cells: Vec<Cordinates> = Vec::new();
        let mut checked_cells: Vec<Cordinates> = Vec::new();
        let n = self.live_cells.len();
        let mut k: usize = 0;
        while k < n
            invariant
                k <= n,
                forall|i: int|
                    0 <= i < checked_cells@.len() ==> in_bounds(
                        g,
                        (#[trigger] checked_cells@[i]).y as int,
                        checked_cells@[i].x as int,
                    ),
                distinct_coords(checked_cells@),
                forall|i: int|
                    0 <= i < new_live_cells@.len() ==> in_list(
                        checked_cells@,
                        (#[trigger] new_live_cells@[i]).y as int,
                        new_live_cells@[i].x as int,
                    ),
                forall|r: int, c: int|
                    #[trigger] in_list(checked_cells@, r, c) ==> (in_list(new_live_cells@, r, c)
                        <==> next_alive(g, r, c)),
                forall|r: int, c: int|
                    in_bounds(g, r, c) && #[trigger] near_prefix(lc, k as int, r, c) ==> in_list(
                        checked_cells@,
                        r,
                        c,
                    ),
                distinct_coords(new_live_cells@),
            decreases n - k,
        {
            let cell = self.live_cells[k];
            let cy = cell.y;
            let cx = cell.x;
            let mut yy = cy - 1;
            while yy < cy + 2
                invariant
                    cy - 1 <= yy <= cy + 2,
                    forall|i: int|
                        0 <= i < checked_cells@.len() ==> in_bounds(
                            g,
                            (#[trigger] checked_cells@[i]).y as int,
                            checked_cells@[i].x as int,
                        ),
                    distinct_coords(checked_cells@),
                    forall|i: int|
                        0 <= i < new_live_cells@.len() ==> in_list(
                            checked_cells@,
                            (#[trigger] new_live_cells@[i]).y as int,
                            new_live_cells@[i].x as int,
                        ),
                    forall|r: int, c: int|
                        #[trigger] in_list(checked_cells@, r, c) ==> (in_list(new_live_cells@, r, c)
                            <==> next_alive(g, r, c)),
                    forall|r: int, c: int|
                        in_bounds(g, r, c) && #[trigger] near_prefix(lc, k as int, r, c)
                            ==> in_list(checked_cells@, r, c),
                    distinct_coords(new_live_cells@),
                    forall|r: int, c: int|
                        #[trigger] in_bounds(g, r, c) && cy - 1 <= r < yy && cx - 1 <= c <= cx + 1
                            ==> in_list(checked_cells@, r, c),
                decreases cy + 2 - yy,
            {
                let mut xx = cx - 1;
                while xx < cx + 2
                    invariant
                        cx - 1 <= xx <= cx + 2,
                        cy - 1 <= yy <= cy + 1,
                        forall|i: int|
                            0 <= i < checked_cells@.len() ==> in_bounds(
                                g,
                                (#[trigger] checked_cells@[i]).y as int,
                                checked_cells@[i].x as int,
                            ),
                        distinct_coords(checked_cells@),
                        forall|i: int|
                            0 <= i < new_live_cells@.len() ==> in_list(
                                checked_cells@,
                                (#[trigger] new_live_cells@[i]).y as int,
                                new_live_cells@[i].x as int,
                            ),
                        forall|r: int, c: int|
                            #[trigger] in_list(checked_cells@, r, c) ==> (in_list(
                                new_live_cells@,
                                r,
                                c,
                            ) <==> next_alive(g, r, c)),
                        forall|r: int, c: int|
                            in_bounds(g, r, c) && #[trigger] near_prefix(lc, k as int, r, c)
                                ==> in_list(checked_cells@, r, c),
                        distinct_coords(new_live_cells@),
                        forall|r: int, c: int|
                            #[trigger] in_bounds(g, r, c) && cy - 1 <= r < yy && cx - 1 <= c <= cx
                                + 1 ==> in_list(checked_cells@, r, c),
                        forall|c: int|
                            #[trigger] in_bounds(g, yy as int, c) && cx - 1 <= c < xx ==> in_list(
                                checked_cells@,
                                yy as int,
                                c,
                            ),
                    decreases cx + 2 - xx,
                {
                    if !contains_coord(&checked_cells, yy, xx) && is_valid_index(
                        yy,
                        xx,
                        &self.board,
                    ) {
                        let ghost checked0 = checked_cells@;
                        let ghost nl0 = new_live_cells@;
                        let here = Cordinates::new(yy, xx);
                        checked_cells.push(here);
                        let alive_now = contains_coord(&self.live_cells, yy, xx);
                        let mut new_cell = if alive_now {
                            Cell::new(yy, xx, State::Alive)
                        } else {
                            Cell::new(yy, xx, State::Dead)
                        };
                        new_cell.find_neighbours(&self.board);
                        new_cell.update_cell();
                        proof {
                            assert((new_cell.state == State::Alive) == next_alive(
                                g,
                                yy as int,
                                xx as int,
                            ));
                        }
                        match new_cell.state {
                            State::Alive => new_live_cells.push(new_cell.cordinates),
                            State::Dead => (),
                        }
                        proof {
                            assert forall|r: int, c: int| #[trigger]
                                in_list(checked_cells@, r, c) implies (in_list(
                                new_live_cells@,
                                r,
                                c,
                            ) <==> next_alive(g, r, c)) by {
                                lemma_in_list_push(checked0, here, r, c);
                                if new_live_cells@.len() > nl0.len() {
                                    lemma_in_list_push(nl0, here, r, c);
                                }
                                if r == yy && c == xx && !next_alive(g, r, c) {
                                    if in_list(nl0, r, c) {
                                        let i = choose|i: int|
                                            0 <= i < nl0.len() && nl0[i].y == r && nl0[i].x == c;
                                        assert(in_list(checked0, nl0[i].y as int, nl0[i].x as int));
                                    }
                                }
                            }
                            assert forall|i: int, j: int|
                                0 <= i < j < new_live_cells@.len() implies !((
                            #[trigger] new_live_cells@[i]).y == (#[trigger] new_live_cells@[j]).y
                                && new_live_cells@[i].x == new_live_cells@[j].x) by {
                                if j == nl0.len() && new_live_cells@.len() > nl0.len() {
                                    if nl0[i].y == here.y && nl0[i].x == here.x {
                                        assert(in_list(checked0, nl0[i].y as int, nl0[i].x as int));
                                    }
                                }
                            }
                            assert(distinct_coords(new_live_cells@));
                            assert forall|i: int| 0 <= i < new_live_cells@.len() implies in_list(
                                checked_cells@,
                                (#[trigger] new_live_cells@[i]).y as int,
                                new_live_cells@[i].x as int,
                            ) by {
                                lemma_in_list_push(
                                    checked0,
                                    here,
                                    new_live_cells@[i].y as int,
                                    new_live_cells@[i].x as int,
                                );
                                if i < nl0.len() {
                                    assert(nl0[i] == new_live_cells@[i]);
                                }
                            }
                            assert forall|r: int, c: int|
                                in_bounds(g, r, c) && #[trigger] near_prefix(
                                    lc,
                                    k as int,
                                    r,
                                    c,
                                ) implies in_list(checked_cells@, r, c) by {
                                lemma_in_list_push(checked0, here, r, c);
                            }
                            assert forall|r: int, c: int|
                                #[trigger] in_bounds(g, r, c) && cy - 1 <= r < yy && cx - 1 <= c
                                    <= cx + 1 implies in_list(checked_cells@, r, c) by {
                                lemma_in_list_push(checked0, here, r, c);
                            }
                            assert forall|c: int|
                                #[trigger] in_bounds(g, yy as int, c) && cx - 1 <= c
                                    <= xx implies in_list(checked_cells@, yy as int, c) by {
                                lemma_in_list_push(checked0, here, yy as int, c);
                            }
                        }
                    }
                    xx = xx + 1;
                }
                yy = yy + 1;
            }
            proof {
                assert forall|r: int, c: int|
                    in_bounds(g, r, c) && #[trigger] near_prefix(
                        lc,
                        k as int + 1,
                        r,
                        c,
                    ) implies in_list(checked_cells@, r, c) by {
                    let i = choose|i: int| 0 <= i < k as int + 1 && near(lc[i], r, c);
                    if i < k {
                        assert(near_prefix(lc, k as int, r, c));
                    } else {
                        assert(near(lc[k as int], r, c));
                        assert(cy - 1 <= r <= cy + 1 && cx - 1 <= c <= cx + 1);
                    }
                }
            }
            k = k + 1;
        }
        proof {
            assert forall|r: int, c: int| #[trigger]
                in_bounds(g, r, c) implies (in_list(new_live_cells@, r, c) <==> next_alive(
                g,
                r,
                c,
            )) by {
                if next_alive(g, r, c) {
                    crate::rules::lemma_next_alive_near(g, lc, r, c);
                    assert(in_list(checked_cells@, r, c));
                }
                if in_list(new_live_cells@, r, c) {
                    let i = choose|i: int|
                        0 <= i < new_live_cells@.len() && new_live_cells@[i].y == r
                            && new_live_cells@[i].x == c;
                    assert(in_list(
                        checked_cells@,
                        new_live_cells@[i].y as int,
                        new_live_cells@[i].x as int,
                    ));
                }
            }
        }
        let height = self.board.len();
        let width = self.board[0].len();
        proof {
            assert(self.board@[0]@ == g[0]);
        }
        self.board = fill_board(height, width, &new_live_cells);
        self.live_cells = new_live_cells;
    }
}

/// The two liveness states a cell can take.
#[derive(Debug, Copy, Clone, PartialEq, Eq, Structural)]
enum State {
    Alive,
    Dead,
}

/// One cell under consideration during an update pass: its address, its
/// current state, and (once [`Cell::find_neighbours`] has run) its count of
/// live neighbors.
#[derive(Debug, Copy, Clone, PartialEq, Eq, Structural)]
pub struct Cell {
    cordinates: Cordinates,
    neighbours: i32,
    state: State,
}

impl Cell {
    /// A cell at row `y`, column `x` in the given state, with no neighbors
    /// counted yet.
    fn new(y: i32, x: i32, state: State) -> (cell: Cell)
        ensures
            cell.cordinates.y == y,
            cell.cordinates.x == x,
            cell.state == state,
            cell.neighbours == 0,
    {
        Cell { cordinates: Cordinates::new(y, x), state, neighbours: 0 }
    }

    /// Applies the transition rule to this cell: a live cell with a neighbor
    /// count other than two or three dies, a dead cell with exactly three
    /// live neighbors is born, and every other cell keeps its state.
    fn update_cell(&mut self)
        ensures
            final(self).cordinates == old(self).cordinates,
            final(self).neighbours == old(self).neighbours,
            (final(self).state == State::Alive) == (if old(self).state == State::Alive {
                old(self).neighbours == 2 || old(self).neighbours == 3
            } else {
                old(self).neighbours == 3
            }),
    {
        match self.state {
            State::Alive => {
                if self.neighbours != 2 && self.neighbours != 3 {
                    self.state = State::Dead
                }
            },
            State::Dead => {
                if self.neighbours == 3 {
                    self.state = State::Alive
                }
            },
        }
    }

    /// Counts the live cells among the eight neighbors of this cell against
    /// the grid, reading cells beyond the boundary as dead.
    fn find_neighbours(&mut self, board: &Vec<Vec<i32>>)
        requires
            grid_wf(board.deep_view()),
            in_bounds(
                board.deep_view(),
                old(self).cordinates.y as int,
                old(self).cordinates.x as int,
            ),
        ensures
            final(self).cordinates == old(self).cordinates,
            final(self).state == old(self).state,
            final(self).neighbours == neighbor_count(
                board.deep_view(),
                old(self).cordinates.y as int,
                old(self).cordinates.x as int,
            ),
    {
        let y = self.cordinates.y;
        let x = self.cordinates.x;
        let mut n: i32 = 0;
        n = n + cell_value(board, y - 1, x - 1);
        n = n + cell_value(board, y - 1, x);
        n = n + cell_value(board, y - 1, x + 1);
        n = n + cell_value(board, y, x - 1);
        n = n + cell_value(board, y, x + 1);
        n = n + cell_value(board, y + 1, x - 1);
        n = n + cell_value(board, y + 1, x);
        n = n + cell_value(board, y + 1, x + 1);
        self.neighbours = n;
    }
}

/// The value of cell `(y, x)`, or `0` beyond the boundary: the executable
/// form of [`cell_at`].
fn cell_value(board: &Vec<Vec<i32>>, y: i32, x: i32) -> (v: i32)
    requires
        grid_wf(board.deep_view()),
    ensures
        v == cell_at(board.deep_view(), y as int, x as int),
        0 <= v <= 1,
{
    if is_valid_index(y, x, board) {
        proof {
            assert(board@.len() == board.deep_view().len());
            assert(board@[y as int]@ == board.deep_view()[y as int]);
        }
        board[y as usize][x as usize]
    } else {
        0
    }
}

/// Whether `(y, x)` addresses a cell of `board`: the executable form of
/// [`in_bounds`].
fn is_valid_index(y: i32, x: i32, board: &Vec<Vec<i32>>) -> (b: bool)
    requires
        board@.len() >= 1,
        board@.len() <= i32::MAX,
        board.deep_view()[0].len() <= i32::MAX,
    ensures
        b == in_bounds(board.deep_view(), y as int, x as int),
{
    if y < 0 || y >= board.len() as i32 {
        return false;
    }
    if x < 0 || x >= board[0].len() as i32 {
        return false;
    }
    true
}

/// Whether the list holds an entry for row `y`, column `x`: the executable
/// form of [`in_list`].
fn contains_coord(cs: &Vec<Cordinates>, y: i32, x: i32) -> (b: bool)
    ensures
        b == in_list(cs@, y as int, x as int),
{
    let n = cs.len();
    let mut i: usize = 0;
    while i < n
        invariant
            n == cs@.len(),
            0 <= i <= n,
            forall|j: int| 0 <= j < i ==> !((#[trigger] cs@[j]).y == y && cs@[j].x == x),
        decreases n - i,
    {
        if cs[i].y == y && cs[i].x == x {
            return true;
        }
        i = i + 1;
    }
    false
}

/// Builds a `height x width` grid whose cells are `1` exactly where
/// `live_cells` holds the coordinate and `0` everywhere else.
fn fill_board(height: usize, width: usize, live_cells: &Vec<Cordinates>) -> (board: Vec<
    Vec<i32>,
>)
    requires
        height + 1 <= i32::MAX,
        width + 1 <= i32::MAX,
    ensures
        board.deep_view().len() == height,
        forall|r: int|
            0 <= r < height ==> #[trigger] board.deep_view()[r].len() == width,
        forall|r: int, c: int|
            0 <= r < height && 0 <= c < width ==> #[trigger] board.deep_view()[r][c] == (if in_list(
                live_cells@,
                r,
                c,
            ) {
                1int
            } else {
                0int
            }),
    {
    let mut board: Vec<Vec<i32>> = Vec::new();
    let mut r: usize = 0;
    while r < height
        invariant
            0 <= r <= height,
            height + 1 <= i32::MAX,
            width + 1 <= i32::MAX,
            board.deep_view().len() == r,
            forall|rr: int| 0 <= rr < r ==> #[trigger] board.deep_view()[rr].len() == width,
            forall|rr: int, c: int|
                0 <= rr < r && 0 <= c < width ==> #[trigger] board.deep_view()[rr][c] == (
                if in_list(live_cells@, rr, c) {
                    1int
                } else {
                    0int
                }),
        decreases height - r,
    {
        let mut row: Vec<i32> = Vec::new();
        let mut c: usize = 0;
        while c < width
            invariant
                0 <= c <= width,
                width + 1 <= i32::MAX,
                height + 1 <= i32::MAX,
                r < height,
                row@.len() == c,
                forall|cc: int|
                    0 <= cc < c ==> #[trigger] row@[cc] == (if in_list(live_cells@, r as int, cc) {
                        1int
                    } else {
                        0int
                    }),
            decreases width - c,
        {
            if contains_coord(live_cells, r as i32, c as i32) {
                row.push(1);
            } else {
                row.push(0);
            }
            c = c + 1;
        }
        let ghost prev = board.deep_view();
        board.push(row);
        proof {
            assert(board.deep_view() =~~= prev.push(row@));
        }
        r = r + 1;
    }
    board
}

} // verus!

