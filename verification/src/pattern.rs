//! Text patterns: parsing `' '`/`'#'` pictures into boards and rendering
//! boards back to text.

use crate::coord::Cordinates;
use crate::game::Game;
use crate::rules::{in_bounds, in_list};
use vstd::prelude::*;
use vstd::string::StringExecFns;

verus! {

/// A character a pattern may hold: `' '` for a dead cell, `'#'` for a live
/// one, `'\n'` between rows.
pub open spec fn valid_char(ch: char) -> bool {
    ch == ' ' || ch == '#' || ch == '\n'
}

/// Whether every character of the text is one a pattern may hold.
pub open spec fn valid_pattern(s: Seq<char>) -> bool {
    forall|i: int| 0 <= i < s.len() ==> valid_char(#[trigger] s[i])
}

/// The lines of the text, split on `'\n'`: the empty text has one empty
/// line, and every newline ends the current line and opens a new one.
pub open spec fn lines_of(s: Seq<char>) -> Seq<Seq<char>>
    decreases s.len(),
{
    if s.len() == 0 {
        seq![Seq::<char>::empty()]
    } else {
        let rest = lines_of(s.drop_last());
        if s.last() == '\n' {
            rest.push(Seq::<char>::empty())
        } else {
            rest.update(rest.len() - 1, rest.last().push(s.last()))
        }
    }
}

/// The length of the longest line.
pub open spec fn max_line_len(lines: Seq<Seq<char>>) -> int
    decreases lines.len(),
{
    if lines.len() == 0 {
        0
    } else {
        let rest = max_line_len(lines.drop_last());
        if lines.last().len() > rest {
            lines.last().len() as int
        } else {
            rest
        }
    }
}

/// Splitting always yields at least one line.
pub proof fn lemma_lines_of_len(s: Seq<char>)
    ensures
        lines_of(s).len() >= 1,
    decreases s.len(),
{
    if s.len() != 0 {
        lemma_lines_of_len(s.drop_last());
    }
}

/// A text of `n` characters has at most `n + 1` lines, none longer than `n`.
pub proof fn lemma_lines_of_bounds(s: Seq<char>)
    ensures
        lines_of(s).len() <= s.len() + 1,
        forall|r: int| 0 <= r < lines_of(s).len() ==> (#[trigger] lines_of(s)[r]).len() <= s.len(),
    decreases s.len(),
{
    if s.len() != 0 {
        lemma_lines_of_bounds(s.drop_last());
        lemma_lines_of_len(s.drop_last());
    }
}

/// No line is longer than the longest line.
pub proof fn lemma_max_line_len_ge(lines: Seq<Seq<char>>)
    ensures
        0 <= max_line_len(lines),
        forall|r: int|
            0 <= r < lines.len() ==> (#[trigger] lines[r]).len() <= max_line_len(lines),
    decreases lines.len(),
{
    if lines.len() != 0 {
        lemma_max_line_len_ge(lines.drop_last());
        assert forall|r: int|
            0 <= r < lines.len() implies (#[trigger] lines[r]).len() <= max_line_len(lines) by {
            if r < lines.len() - 1 {
                assert(lines.drop_last()[r] == lines[r]);
                assert(lines.drop_last()[r].len() <= max_line_len(lines.drop_last()));
            }
        }
    }
}

/// Whether the pattern marks cell `(r, c)` alive: line `r` reaches column `c`
/// and holds `'#'` there.
pub open spec fn pattern_alive(lines: Seq<Seq<char>>, r: int, c: int) -> bool {
    0 <= r < lines.len() && 0 <= c < lines[r].len() && lines[r][c] == '#'
}

/// The character a cell value renders to: `'#'` alive, `' '` dead.
pub open spec fn render_cell(v: i32) -> char {
    if v == 0 {
        ' '
    } else {
        '#'
    }
}

/// One row of the grid rendered as text.
pub open spec fn render_row(row: Seq<i32>) -> Seq<char>
    decreases row.len(),
{
    if row.len() == 0 {
        Seq::<char>::empty()
    } else {
        render_row(row.drop_last()).push(render_cell(row.last()))
    }
}

/// The whole grid rendered as text: each row in order, a newline after every
/// row.
pub open spec fn render_grid(g: Seq<Seq<i32>>) -> Seq<char>
    decreases g.len(),
{
    if g.len() == 0 {
        Seq::<char>::empty()
    } else {
        render_grid(g.drop_last()) + render_row(g.last()) + seq!['\n']
    }
}

/// The position of the first character of a pattern that is not `' '`, `'#'`
/// or `'\n'`: `row` is the number of complete lines before it, `col` its
/// offset within its line.
#[derive(Debug, Copy, Clone, PartialEq, Eq, Structural)]
pub struct PatternError {
    pub row: usize,
    pub col: usize,
}

impl Game {
    /// Parses a newline-delimited pattern (`' '` dead, `'#'` alive) into a
    /// board with one row per pattern line.  Shorter lines are padded with
    /// dead cells to the longest line's width, so the grid stays rectangular.
    /// Any other character is a fatal parse error reporting the offending row
    /// and column.
    #[verifier::loop_isolation(false)]
    pub fn from_pattern(text: &str) -> (res: Result<Game, PatternError>)
        requires
            text@.len() + 2 <= i32::MAX,
        ensures
            res is Ok <==> valid_pattern(text@),
            match res {
                Ok(game) => {
                    &&& game.wf()
                    &&& game.height() == lines_of(text@).len()
                    &&& game.width() == max_line_len(lines_of(text@))
                    &&& forall|r: int, c: int|
                        #[trigger] in_bounds(game.grid(), r, c) ==> (game.live(r, c)
                            <==> pattern_alive(lines_of(text@), r, c))
                },
                Err(e) => exists|i: int|
                    {
                        &&& 0 <= i < text@.len()
                        &&& !valid_char(#[trigger] text@[i])
                        &&& forall|j: int| 0 <= j < i ==> valid_char(#[trigger] text@[j])
                        &&& e.row + 1 == lines_of(text@.take(i)).len()
                        &&& e.col == lines_of(text@.take(i)).last().len()
                    },
            },
    {
        let ghost s = text@;
        let n = text.unicode_len();
        let mut lines: Vec<Vec<char>> = Vec::new();
        let mut cur: Vec<char> = Vec::new();
        let mut i: usize = 0;
        while i < n
            invariant
                i <= n,
                lines.deep_view().push(cur@) == lines_of(s.take(i as int)),
                forall|j: int| 0 <= j < i ==> valid_char(#[trigger] s[j]),
            decreases n - i,
        {
            let ch = text.get_char(i);
            let ghost prev_lines = lines.deep_view();
            let ghost prev_cur = cur@;
            let ghost prev = lines_of(s.take(i as int));
            proof {
                assert(s.take(i as int + 1).drop_last() =~= s.take(i as int));
                assert(s.take(i as int + 1).last() == s[i as int]);
            }
            if ch == '\n' {
                lines.push(cur);
                cur = Vec::new();
                proof {
                    assert(lines.deep_view() =~~= prev_lines.push(prev_cur));
                    assert(lines.deep_view().push(cur@) =~= lines_of(s.take(i as int + 1)));
                }
            } else if ch == ' ' || ch == '#' {
                cur.push(ch);
                proof {
                    assert(lines_of(s.take(i as int + 1)) == prev.update(
                        prev.len() - 1,
                        prev.last().push(s[i as int]),
                    ));
                    assert(lines.deep_view().push(cur@) =~= lines_of(s.take(i as int + 1)));
                }
            } else {
                proof {
                    assert(!valid_char(s[i as int]));
                    assert(prev.len() == lines.deep_view().len() + 1);
                    assert(prev.last() == cur@);
                }
                return Err(PatternError { row: lines.len(), col: cur.len() });
            }
            i = i + 1;
        }
        let ghost all = lines_of(s);
        proof {
            assert(s.take(n as int) =~= s);
            lemma_lines_of_bounds(s);
            lemma_lines_of_len(s);
            lemma_max_line_len_ge(all);
        }
        let ghost before_last = lines.deep_view();
        lines.push(cur);
        proof {
            assert(lines.deep_view() =~~= before_last.push(cur@));
            assert(lines.deep_view() == all);
        }
        let height = lines.len();
        proof {
            assert(height == all.len());
            assert(1 <= height);
            assert(height + 1 <= i32::MAX);
        }
        let mut width: usize = 0;
        let mut r: usize = 0;
        while r < height
            invariant
                r <= height,
                width as int == max_line_len(all.take(r as int)),
                width <= n,
            decreases height - r,
        {
            proof {
                assert(lines@[r as int]@ == all[r as int]);
                assert(all.take(r as int + 1).drop_last() =~= all.take(r as int));
                assert(all.take(r as int + 1).last() == all[r as int]);
                assert(all[r as int].len() <= s.len());
            }
            let len_r = lines[r].len();
            if len_r > width {
                width = len_r;
            }
            r = r + 1;
        }
        proof {
            assert(all.take(height as int) =~= all);
            assert(width as int == max_line_len(all));
            assert(width + 1 <= i32::MAX);
        }
        let mut live_cells: Vec<Cordinates> = Vec::new();
        let mut board: Vec<Vec<i32>> = Vec::new();
        let mut r: usize = 0;
        while r < height
            invariant
                r <= height,
                board.deep_view().len() == r,
                forall|rr: int| 0 <= rr < r ==> (#[trigger] board.deep_view()[rr]).len() == width,
                forall|rr: int, cc: int|
                    0 <= rr < r && 0 <= cc < width ==> #[trigger] board.deep_view()[rr][cc] == (
                    if pattern_alive(all, rr, cc) {
                        1int
                    } else {
                        0int
                    }),
                forall|idx: int|
                    0 <= idx < live_cells@.len() ==> {
                        &&& 0 <= (#[trigger] live_cells@[idx]).y < r
                        &&& 0 <= live_cells@[idx].x < width
                    },
                forall|rr: int, cc: int|
                    #[trigger] in_list(live_cells@, rr, cc) ==> (0 <= rr < r && pattern_alive(
                        all,
                        rr,
                        cc,
                    )),
                forall|rr: int, cc: int|
                    0 <= rr < r && #[trigger] pattern_alive(all, rr, cc) ==> in_list(
                        live_cells@,
                        rr,
                        cc,
                    ),
            decreases height - r,
        {
            proof {
                assert(lines@[r as int]@ == all[r as int]);
            }
            let line_len = lines[r].len();
            let mut row: Vec<i32> = Vec::new();
            let mut c: usize = 0;
            while c < width
                invariant
                    c <= width,
                    r < height,
                    line_len == all[r as int].len(),
                    row@.len() == c,
                    forall|cc: int|
                        0 <= cc < c ==> #[trigger] row@[cc] == (if pattern_alive(all, r as int, cc) {
                            1int
                        } else {
                            0int
                        }),
                    forall|idx: int|
                        0 <= idx < live_cells@.len() ==> {
                            &&& 0 <= (#[trigger] live_cells@[idx]).y <= r
                            &&& 0 <= live_cells@[idx].x < width
                        },
                    forall|rr: int, cc: int|
                        #[trigger] in_list(live_cells@, rr, cc) ==> ((0 <= rr < r || (rr == r && cc
                            < c)) && pattern_alive(all, rr, cc)),
                    forall|rr: int, cc: int|
                        (0 <= rr < r || (rr == r && 0 <= cc < c)) && #[trigger] pattern_alive(
                            all,
                            rr,
                            cc,
                        ) ==> in_list(live_cells@, rr, cc),
                decreases width - c,
            {
                let alive = c < line_len && lines[r][c] == '#';
                let ghost lc0 = live_cells@;
                if alive {
                    row.push(1);
                    live_cells.push(Cordinates::new(r as i32, c as i32));
                } else {
                    row.push(0);
                }
                proof {
                    assert(alive == pattern_alive(all, r as int, c as int));
                    if alive {
                        assert forall|rr: int, cc: int| #[trigger]
                            in_list(live_cells@, rr, cc) implies ((0 <= rr < r || (rr == r && cc < c
                            + 1)) && pattern_alive(all, rr, cc)) by {
                            crate::rules::lemma_in_list_push(
                                lc0,
                                Cordinates { x: c as i32, y: r as i32 },
                                rr,
                                cc,
                            );
                        }
                        assert forall|rr: int, cc: int|
                            (0 <= rr < r || (rr == r && 0 <= cc < c + 1)) && #[trigger] pattern_alive(
                                all,
                                rr,
                                cc,
                            ) implies in_list(live_cells@, rr, cc) by {
                            crate::rules::lemma_in_list_push(
                                lc0,
                                Cordinates { x: c as i32, y: r as i32 },
                                rr,
                                cc,
                            );
                        }
                    }
                }
                c = c + 1;
            }
            let ghost prev_board = board.deep_view();
            board.push(row);
            proof {
                assert(board.deep_view() =~~= prev_board.push(row@));
            }
            r = r + 1;
        }
        let game = Game { board, live_cells };
        proof {
            assert(game.grid().len() == height);
            assert(crate::rules::grid_width(game.grid()) == width);
            assert forall|rr: int, cc: int| #[trigger]
                in_bounds(game.grid(), rr, cc) implies (crate::rules::live_at(game.grid(), rr, cc)
                <==> in_list(game.live_cells@, rr, cc)) by {
                assert(game.grid()[rr][cc] == (if pattern_alive(all, rr, cc) {
                    1int
                } else {
                    0int
                }));
            }
            assert(game.wf());
        }
        Ok(game)
    }

    /// Renders the grid as text: one character per cell (`'#'` alive, `' '`
    /// dead), rows in order, a newline after every row.
    #[verifier::loop_isolation(false)]
    pub fn render_text(&self) -> (text: String)
        ensures
            text@ == render_grid(self.grid()),
    {
        let ghost g = self.grid();
        let mut result = String::new();
        let height = self.board.len();
        let mut r: usize = 0;
        while r < height
            invariant
                r <= height,
                result@ == render_grid(g.take(r as int)),
            decreases height - r,
        {
            proof {
                assert(self.board@[r as int]@ == g[r as int]);
            }
            let width = self.board[r].len();
            let mut c: usize = 0;
            while c < width
                invariant
                    c <= width,
                    r < height,
                    width == g[r as int].len(),
                    result@ == render_grid(g.take(r as int)) + render_row(
                        g[r as int].take(c as int),
                    ),
                decreases width - c,
            {
                if self.board[r][c] == 0 {
                    result.append(" ");
                } else {
                    result.append("#");
                }
                proof {
                    reveal_strlit(" ");
                    reveal_strlit("#");
                    let row = g[r as int];
                    assert(row.take(c as int + 1).drop_last() =~= row.take(c as int));
                    assert(row.take(c as int + 1).last() == row[c as int]);
                    assert(render_row(row.take(c as int + 1)) == render_row(
                        row.take(c as int),
                    ).push(render_cell(row[c as int])));
                    assert(result@ =~= render_grid(g.take(r as int)) + render_row(
                        row.take(c as int + 1),
                    ));
                }
                c = c + 1;
            }
            result.append("\n");
            proof {
                reveal_strlit("\n");
                assert(g.take(r as int + 1).drop_last() =~= g.take(r as int));
                assert(g.take(r as int + 1).last() == g[r as int]);
                assert(g[r as int].take(width as int) =~= g[r as int]);
                assert(result@ =~= render_grid(g.take(r as int + 1)));
            }
            r = r + 1;
        }
        proof {
            assert(g.take(height as int) =~= g);
        }
        result
    }
}

} // verus!
