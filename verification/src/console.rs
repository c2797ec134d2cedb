//! A text console: a grid of characters with a cursor, line wrapping and scrolling. Drawing
//! is left to a `Surface`, so the same logic serves the framebuffer and a screen in memory.

use crate::text;
use crate::text::{is_control, string_of};
use vstd::prelude::*;

verus! {

pub const TAB_WIDTH: usize = 8;

/// One character cell that was drawn.
pub struct Drawn {
    pub col: usize,
    pub row: usize,
    /// The character's number.
    pub code: u32,
}

/// Something that can show one character cell.
pub trait Surface {
    /// Everything that was drawn, in order.
    open spec fn drawn(&self) -> Seq<Drawn> {
        Seq::empty()
    }

    fn draw_cell(&mut self, col: usize, row: usize, c: char)
        ensures
            final(self).drawn() == old(self).drawn().push(Drawn { col, row, code: c as u32 }),
    ;
}

/// What a [`Console`] holds.
pub struct Grid {
    pub cols: int,
    pub rows: int,
    /// Row by row.
    pub cells: Seq<char>,
    pub col: int,
    pub row: int,
}

impl Grid {
    pub open spec fn wf(self) -> bool {
        &&& 1 <= self.cols <= usize::MAX - TAB_WIDTH
        &&& 1 <= self.rows <= usize::MAX
        &&& self.cells.len() == self.cols * self.rows
        &&& self.cells.len() <= usize::MAX
        &&& 0 <= self.col <= self.cols
        &&& 0 <= self.row < self.rows
    }

    pub open spec fn cell(self, col: int, row: int) -> char {
        self.cells[row * self.cols + col]
    }

    /// Cell `i`, counted row by row.
    pub open spec fn nth(self, i: int) -> char {
        self.cells[i]
    }

    /// Drawing every cell, row by row: the first `n` of them.
    pub open spec fn redrawn(self, n: nat) -> Seq<Drawn>
        decreases n,
    {
        if n == 0 {
            Seq::empty()
        } else {
            self.redrawn((n - 1) as nat).push(
                Drawn {
                    col: ((n - 1) % self.cols) as usize,
                    row: ((n - 1) / self.cols) as usize,
                    code: self.nth(n - 1) as u32,
                },
            )
        }
    }

    /// With every row moved up one, and the last one empty.
    pub open spec fn scrolled(self) -> Grid {
        Grid {
            cells: Seq::new(
                self.cells.len(),
                |i: int|
                    if i < (self.rows - 1) * self.cols {
                        self.cells[i + self.cols]
                    } else {
                        ' '
                    },
            ),
            ..self
        }
    }

    /// A new line, and what is drawn for it.
    pub open spec fn newline(self) -> (Grid, Seq<Drawn>) {
        if self.row + 1 < self.rows {
            (Grid { col: 0, row: self.row + 1, ..self }, Seq::empty())
        } else {
            let after = Grid { col: 0, ..self }.scrolled();
            (after, after.redrawn(after.cells.len()))
        }
    }

    /// `c` in the next cell, and what is drawn for it.
    pub open spec fn put(self, c: char) -> (Grid, Seq<Drawn>) {
        let (on, drawn) = if self.col == self.cols {
            self.newline()
        } else {
            (self, Seq::empty())
        };
        (
            Grid {
                cells: on.cells.update(on.row * on.cols + on.col, c),
                col: on.col + 1,
                ..on
            },
            drawn.push(Drawn { col: on.col as usize, row: on.row as usize, code: c as u32 }),
        )
    }

    /// What writing `c` does, and what is drawn for it.
    pub open spec fn written(self, c: char) -> (Grid, Seq<Drawn>) {
        if c == '\n' {
            self.newline()
        } else if c == '\r' {
            (Grid { col: 0, ..self }, Seq::empty())
        } else if c == '\x08' {
            (
                Grid {
                    col: if self.col > 0 {
                        self.col - 1
                    } else {
                        0
                    },
                    ..self
                },
                Seq::empty(),
            )
        } else if c == '\t' {
            let stop = (self.col / TAB_WIDTH as int + 1) * TAB_WIDTH;
            (
                Grid {
                    col: if stop < self.cols {
                        stop
                    } else {
                        self.cols
                    },
                    ..self
                },
                Seq::empty(),
            )
        } else if text::is_control_char(c) {
            (self, Seq::empty())
        } else {
            self.put(c)
        }
    }

    /// What writing a text does, one character after the other.
    pub open spec fn written_all(self, s: Seq<char>) -> (Grid, Seq<Drawn>)
        decreases s.len(),
    {
        if s.len() == 0 {
            (self, Seq::empty())
        } else {
            let (before, drawn) = self.written_all(s.drop_last());
            let (after, more) = before.written(s.last());
            (after, drawn + more)
        }
    }

    /// An empty grid of the same size, with the cursor at the top left.
    pub open spec fn cleared(self) -> Grid {
        Grid { cells: Seq::new(self.cells.len(), |i: int| ' '), col: 0, row: 0, ..self }
    }
}

pub struct Console {
    cols: usize,
    rows: usize,
    cells: Vec<char>,
    col: usize,
    row: usize,
}

proof fn lemma_cell_index(cols: int, rows: int, col: int, row: int)
    requires
        1 <= cols,
        0 <= col < cols,
        0 <= row < rows,
    ensures
        0 <= row * cols + col < cols * rows,
        (row * cols + col) % cols == col,
        (row * cols + col) / cols == row,
        row * cols + cols <= cols * rows,
        0 <= row * cols,
{
    assert(row * cols + cols <= cols * rows) by (nonlinear_arith)
        requires
            0 <= row < rows,
            1 <= cols,
    ;
    assert(0 <= row * cols) by (nonlinear_arith)
        requires
            0 <= row,
            1 <= cols,
    ;
    vstd::arithmetic::div_mod::lemma_fundamental_div_mod_converse(
        row * cols + col,
        cols,
        row,
        col,
    );
}

impl Console {
    pub closed spec fn view(&self) -> Grid {
        Grid {
            cols: self.cols as int,
            rows: self.rows as int,
            cells: self.cells@,
            col: self.col as int,
            row: self.row as int,
        }
    }

    /// An empty console of `cols` by `rows` cells (at least one of each).
    pub fn new(cols: usize, rows: usize) -> (r: Self)
        requires
            cols <= usize::MAX - TAB_WIDTH,
            (if cols > 0 {
                cols as int
            } else {
                1
            }) * (if rows > 0 {
                rows as int
            } else {
                1
            }) <= usize::MAX,
        ensures
            r@.wf(),
            r@.cols == if cols > 0 {
                cols as int
            } else {
                1
            },
            r@.rows == if rows > 0 {
                rows as int
            } else {
                1
            },
            r@ == r@.cleared(),
    {
        let cols: usize = if cols > 0 {
            cols
        } else {
            1
        };
        let rows: usize = if rows > 0 {
            rows
        } else {
            1
        };
        let cells: Vec<char> = vec![' '; cols * rows];
        let r = Console { cols, rows, cells, col: 0, row: 0 };
        assert(r@.cells =~= r@.cleared().cells);
        r
    }

    pub fn cols(&self) -> (r: usize)
        ensures
            r == self@.cols,
    {
        self.cols
    }

    pub fn rows(&self) -> (r: usize)
        ensures
            r == self@.rows,
    {
        self.rows
    }

    /// The character in a cell.
    pub fn cell(&self, col: usize, row: usize) -> (r: char)
        requires
            self@.wf(),
            col < self@.cols,
            row < self@.rows,
        ensures
            r == self@.cell(col as int, row as int),
    {
        proof {
            lemma_cell_index(self.cols as int, self.rows as int, col as int, row as int);
        }
        self.cells[row * self.cols + col]
    }

    /// Writes `s`, drawing every cell that changes. Handles `\n`, `\r`, `\t` and backspace
    /// (`\x08`, which moves back a cell without erasing it, like a terminal); other control
    /// characters are ignored.
    pub fn write_str<S: Surface>(&mut self, s: &str, surface: &mut S)
        requires
            old(self)@.wf(),
        ensures
            final(self)@.wf(),
            final(self)@ == old(self)@.written_all(s@).0,
            final(surface).drawn() == old(surface).drawn() + old(self)@.written_all(s@).1,
    {
        let chars = text::chars_of(s);
        let mut i: usize = 0;
        assert(s@.subrange(0, 0) =~= Seq::<char>::empty());
        assert(surface.drawn() =~= old(surface).drawn() + old(self)@.written_all(Seq::empty()).1);
        while i < chars.len()
            invariant
                i <= chars@.len(),
                chars@ == s@,
                self@.wf(),
                self@ == old(self)@.written_all(s@.subrange(0, i as int)).0,
                surface.drawn() == old(surface).drawn() + old(self)@.written_all(
                    s@.subrange(0, i as int),
                ).1,
            decreases chars@.len() - i,
        {
            let ghost shown = surface.drawn();
            let ghost before = self@;
            self.write_char(chars[i], surface);
            i += 1;
            proof {
                let done = s@.subrange(0, i as int);
                assert(done.drop_last() =~= s@.subrange(0, i - 1));
                assert(surface.drawn() =~= old(surface).drawn() + old(self)@.written_all(done).1);
            }
        }
        assert(s@.subrange(0, i as int) =~= s@);
    }

    fn write_char<S: Surface>(&mut self, c: char, surface: &mut S)
        requires
            old(self)@.wf(),
        ensures
            final(self)@.wf(),
            final(self)@ == old(self)@.written(c).0,
            final(surface).drawn() == old(surface).drawn() + old(self)@.written(c).1,
    {
        if c == '\n' {
            self.newline(surface);
            return;
        }
        if c == '\r' {
            self.col = 0;
        } else if c == '\x08' {
            self.col = if self.col > 0 {
                self.col - 1
            } else {
                0
            };
        } else if c == '\t' {
            // Like a terminal, a tab moves the cursor without erasing what it passes.
            let stop: usize = (self.col / TAB_WIDTH + 1) * TAB_WIDTH;
            self.col = if stop < self.cols {
                stop
            } else {
                self.cols
            };
        } else if !is_control(c) {
            self.put(c, surface);
            return;
        }
        assert(surface.drawn() =~= old(surface).drawn() + Seq::<Drawn>::empty());
    }

    /// Draws every cell again, e.g. after something else drew over the surface.
    pub fn redraw<S: Surface>(&self, surface: &mut S)
        requires
            self@.wf(),
        ensures
            final(surface).drawn() == old(surface).drawn() + self@.redrawn(self@.cells.len()),
    {
        let mut row: usize = 0;
        assert(surface.drawn() =~= old(surface).drawn() + self@.redrawn(0));
        while row < self.rows
            invariant
                self@.wf(),
                row <= self.rows,
                surface.drawn() == old(surface).drawn() + self@.redrawn((row * self.cols) as nat),
            decreases self.rows - row,
        {
            let mut col: usize = 0;
            while col < self.cols
                invariant
                    self@.wf(),
                    row < self.rows,
                    col <= self.cols,
                    surface.drawn() == old(surface).drawn() + self@.redrawn(
                        (row * self.cols + col) as nat,
                    ),
                decreases self.cols - col,
            {
                proof {
                    lemma_cell_index(self.cols as int, self.rows as int, col as int, row as int);
                }
                surface.draw_cell(col, row, self.cell(col, row));
                proof {
                    let n = (row * self.cols + col + 1) as nat;
                    assert(surface.drawn() =~= old(surface).drawn() + self@.redrawn(n));
                }
                col += 1;
            }
            assert(row * self.cols + self.cols == (row + 1) * self.cols) by (nonlinear_arith);
            row += 1;
        }
        assert(self.rows * self.cols == self.cols * self.rows) by (nonlinear_arith);
    }

    /// Empties the console and moves the cursor to the top left.
    pub fn clear<S: Surface>(&mut self, surface: &mut S)
        requires
            old(self)@.wf(),
        ensures
            final(self)@.wf(),
            final(self)@ == old(self)@.cleared(),
            final(surface).drawn() == old(surface).drawn() + final(self)@.redrawn(
                final(self)@.cells.len(),
            ),
    {
        self.cells = vec![' '; self.cells.len()];
        self.col = 0;
        self.row = 0;
        assert(self@.cells =~= old(self)@.cleared().cells);
        self.redraw(surface);
    }

    fn put<S: Surface>(&mut self, c: char, surface: &mut S)
        requires
            old(self)@.wf(),
        ensures
            final(self)@.wf(),
            final(self)@ == old(self)@.put(c).0,
            final(surface).drawn() == old(surface).drawn() + old(self)@.put(c).1,
    {
        let ghost shown = surface.drawn();
        if self.col == self.cols {
            self.newline(surface);
        }
        let ghost on = self@;
        let ghost scrolled = surface.drawn();
        proof {
            lemma_cell_index(
                self.cols as int,
                self.rows as int,
                self.col as int,
                self.row as int,
            );
        }
        let at: usize = self.row * self.cols + self.col;
        self.cells[at] = c;
        surface.draw_cell(self.col, self.row, c);
        self.col += 1;
        assert(surface.drawn() =~= shown + old(self)@.put(c).1);
    }

    fn newline<S: Surface>(&mut self, surface: &mut S)
        requires
            old(self)@.wf(),
        ensures
            final(self)@.wf(),
            final(self)@ == old(self)@.newline().0,
            final(self)@.col == 0,
            final(surface).drawn() == old(surface).drawn() + old(self)@.newline().1,
    {
        self.col = 0;
        if self.row + 1 < self.rows {
            self.row += 1;
            assert(surface.drawn() =~= old(surface).drawn() + Seq::<Drawn>::empty());
            return;
        }
        // Scroll: move every row up one and start the last one empty.
        proof {
            lemma_cell_index(self.cols as int, self.rows as int, 0, self.rows - 1);
            assert((self.rows - 1) * self.cols + self.cols == self.cols * self.rows)
                by (nonlinear_arith);
        }
        let last: usize = (self.rows - 1) * self.cols;
        let ghost before = self.cells@;
        let mut i: usize = 0;
        while i < self.cells.len()
            invariant
                i <= self.cells@.len(),
                self.cells@.len() == before.len(),
                last + self.cols == before.len(),
                self.col == 0,
                self.row == old(self).row,
                self.cols == old(self).cols,
                self.rows == old(self).rows,
                forall|k: int|
                    0 <= k < before.len() ==> #[trigger] self.cells@[k] == if k >= i {
                        before[k]
                    } else if k < last {
                        before[k + self.cols]
                    } else {
                        ' '
                    },
            decreases self.cells@.len() - i,
        {
            if i < last {
                let moved = self.cells[i + self.cols];
                self.cells[i] = moved;
            } else {
                self.cells[i] = ' ';
            }
            i += 1;
        }
        assert(self@.cells =~= old(self)@.scrolled().cells);
        self.redraw(surface);
    }
}

/// A screen in memory: records the grid as drawn, and how many cells were drawn.
pub struct Screen {
    pub cols: usize,
    pub cells: Vec<char>,
    pub draws: usize,
    pub log: Ghost<Seq<Drawn>>,
}

impl Screen {
    /// An empty screen for `console`.
    pub fn new(console: &Console) -> (r: Self)
        requires
            console@.wf(),
        ensures
            r.drawn() == Seq::<Drawn>::empty(),
            r.cols == console@.cols,
            r.cells@ == Seq::new(console@.cells.len(), |i: int| ' '),
            r.draws == 0,
    {
        let r = Screen {
            cols: console.cols,
            cells: vec![' '; console.cells.len()],
            draws: 0,
            log: Ghost(Seq::empty()),
        };
        assert(r.cells@ =~= Seq::new(console@.cells.len(), |i: int| ' '));
        r
    }

    /// What a row shows.
    pub fn row(&self, row: usize) -> (r: String)
        requires
            (row + 1) * self.cols <= self.cells@.len(),
        ensures
            r@ == self.cells@.subrange(row * self.cols, (row + 1) * self.cols),
    {
        assert((row + 1) * self.cols == row * self.cols + self.cols) by (nonlinear_arith);
        assert(0 <= row * self.cols) by (nonlinear_arith);
        assert(self.cells.len() == self.cells@.len());
        let from: usize = row * self.cols;
        let cells: &[char] = &self.cells;
        string_of(&cells[from..from + self.cols])
    }
}

impl Surface for Screen {
    open spec fn drawn(&self) -> Seq<Drawn> {
        self.log@
    }

    fn draw_cell(&mut self, col: usize, row: usize, c: char)
        ensures
            final(self).cols == old(self).cols,
            final(self).draws == old(self).draws.wrapping_add(1),
            final(self).cells@ == if col < old(self).cols && row * old(self).cols + col < old(
                self).cells@.len() {
                old(self).cells@.update(row * old(self).cols + col, c)
            } else {
                old(self).cells@
            },
    {
        self.draws = self.draws.wrapping_add(1);
        assert(0 <= row * self.cols) by (nonlinear_arith);
        if col < self.cols {
            match row.checked_mul(self.cols) {
                Some(start) => {
                    if start < self.cells.len() && col < self.cells.len() - start {
                        self.cells[start + col] = c;
                    }
                },
                None => {
                    assert(self.cells.len() == self.cells@.len());
                },
            }
        }
        self.log = Ghost(self.log@.push(Drawn { col, row, code: c as u32 }));
    }
}

/// What a surface shows of cell (`col`, `row`): what was drawn there last.
pub open spec fn shown(drawn: Seq<Drawn>, col: usize, row: usize) -> Option<u32>
    decreases drawn.len(),
{
    if drawn.len() == 0 {
        None
    } else if drawn.last().col == col && drawn.last().row == row {
        Some(drawn.last().code)
    } else {
        shown(drawn.drop_last(), col, row)
    }
}

proof fn lemma_shown_of_two(a: Seq<Drawn>, b: Seq<Drawn>, col: usize, row: usize)
    ensures
        shown(a + b, col, row) == match shown(b, col, row) {
            Some(c) => Some(c),
            None => shown(a, col, row),
        },
    decreases b.len(),
{
    if b.len() == 0 {
        assert(a + b =~= a);
    } else {
        assert((a + b).drop_last() =~= a + b.drop_last());
        lemma_shown_of_two(a, b.drop_last(), col, row);
    }
}

proof fn lemma_redraw_shows_everything(grid: Grid, n: nat, col: usize, row: usize)
    requires
        grid.wf(),
        n <= grid.cells.len(),
        col < grid.cols,
        row < grid.rows,
        row * grid.cols + col < n,
    ensures
        shown(grid.redrawn(n), col, row) == Some(grid.cell(col as int, row as int) as u32),
    decreases n,
{
    lemma_cell_index(grid.cols, grid.rows, col as int, row as int);
    let drawn = grid.redrawn(n);
    assert(n > 0);
    assert(drawn.drop_last() =~= grid.redrawn((n - 1) as nat));
    if row * grid.cols + col != n - 1 {
        lemma_redraw_shows_everything(grid, (n - 1) as nat, col, row);
        let c = (n - 1) % grid.cols;
        let r = (n - 1) / grid.cols;
        vstd::arithmetic::div_mod::lemma_fundamental_div_mod(n - 1, grid.cols);
        vstd::arithmetic::mul::lemma_mul_is_commutative(grid.cols, r);
        vstd::arithmetic::div_mod::lemma_mod_bound(n - 1, grid.cols);
        assert(0 <= r <= usize::MAX) by {
            vstd::arithmetic::div_mod::lemma_div_pos_is_pos(n - 1, grid.cols);
            assert(r <= n - 1) by (nonlinear_arith)
                requires
                    n - 1 == r * grid.cols + c,
                    0 <= c,
                    1 <= grid.cols,
                    0 <= r,
            ;
        }
        assert(!(c == col && r == row));
    }
}

/// What the surface shows stays what the console holds: a character that is written, with all
/// that scrolling moves, is drawn.
pub proof fn the_surface_shows_the_console(
    grid: Grid,
    drawn: Seq<Drawn>,
    c: char,
    col: usize,
    row: usize,
)
    requires
        grid.wf(),
        col < grid.cols,
        row < grid.rows,
        shown(drawn, col, row) == Some(grid.cell(col as int, row as int) as u32),
    ensures
        shown(drawn + grid.written(c).1, col, row) == Some(
            grid.written(c).0.cell(col as int, row as int) as u32,
        ),
{
    let (after, more) = grid.written(c);
    lemma_shown_of_two(drawn, more, col, row);
    assert(shown(Seq::<Drawn>::empty(), col, row) is None);
    lemma_cell_index(grid.cols, grid.rows, col as int, row as int);
    let full = grid.col == grid.cols;
    let plain = c != '\n' && c != '\r' && c != '\x08' && c != '\t' && !text::is_control_char(c);
    let (on, moved) = grid.newline();
    if c == '\n' || (plain && full) {
        if grid.row + 1 >= grid.rows {
            let scrolled = Grid { col: 0, ..grid }.scrolled();
            lemma_redraw_shows_everything(scrolled, scrolled.cells.len(), col, row);
        }
    }
    if plain {
        let before = if full {
            on
        } else {
            grid
        };
        let shift = if full {
            moved
        } else {
            Seq::<Drawn>::empty()
        };
        let last = Drawn { col: before.col as usize, row: before.row as usize, code: c as u32 };
        assert(more == shift.push(last));
        assert(more.drop_last() =~= shift);
        lemma_cell_index(before.cols, before.rows, before.col, before.row);
        if before.col == col && before.row == row {
        } else {
            assert(before.row * before.cols + before.col != row * grid.cols + col);
        }
    }
}

proof fn lemma_cells_differ(cols: int, rows: int, x: int, y: int, u: int, v: int)
    requires
        1 <= cols,
        0 <= x < cols,
        0 <= y < rows,
        0 <= u < cols,
        0 <= v < rows,
    ensures
        (y * cols + x == v * cols + u) == (x == u && y == v),
{
    lemma_cell_index(cols, rows, x, y);
    lemma_cell_index(cols, rows, u, v);
}

/// A new line starts at the left of the next row, and nothing else changes; below the last row,
/// every row moves up one, and the last one is blank.
pub proof fn lines_scroll_up(g: Grid, x: int, y: int)
    requires
        g.wf(),
        0 <= x < g.cols,
        0 <= y < g.rows,
    ensures
        ({
            let after = g.written('\n').0;
            &&& after.col == 0
            &&& after.row == (if g.row < g.rows - 1 {
                g.row + 1
            } else {
                g.row
            })
            &&& after.cell(x, y) == (if g.row < g.rows - 1 {
                g.cell(x, y)
            } else if y < g.rows - 1 {
                g.cell(x, y + 1)
            } else {
                ' '
            })
            &&& after.cols == g.cols && after.rows == g.rows
        }),
{
    lemma_cell_index(g.cols, g.rows, x, y);
    assert((y + 1) * g.cols + x == y * g.cols + x + g.cols) by (nonlinear_arith);
    if y < g.rows - 1 {
        lemma_cell_index(g.cols, g.rows, x, y + 1);
        assert(y * g.cols + x < (g.rows - 1) * g.cols) by (nonlinear_arith)
            requires
                y < g.rows - 1,
                0 <= x < g.cols,
        ;
    } else {
        assert(y * g.cols + x >= (g.rows - 1) * g.cols) by (nonlinear_arith)
            requires
                y == g.rows - 1,
                0 <= x,
        ;
    }
}

/// A character goes in the cell at the cursor, which moves on by one, and no other cell changes;
/// past the end of a row it goes at the start of a new line.
pub proof fn characters_fill_cells(g: Grid, c: char, x: int, y: int)
    requires
        g.wf(),
        (c as u32) >= 0x20,
        !(0x7F <= c as u32 <= 0x9F),
        0 <= x < g.cols,
        0 <= y < g.rows,
    ensures
        ({
            let start = if g.col == g.cols {
                g.written('\n').0
            } else {
                g
            };
            let after = g.written(c).0;
            &&& after.row == start.row
            &&& after.col == start.col + 1
            &&& after.cell(x, y) == (if x == start.col && y == start.row {
                c
            } else {
                start.cell(x, y)
            })
            &&& after.cols == g.cols && after.rows == g.rows
        }),
{
    let start = if g.col == g.cols {
        g.written('\n').0
    } else {
        g
    };
    lemma_cell_index(g.cols, g.rows, x, y);
    lemma_cell_index(g.cols, g.rows, start.col, start.row);
    lemma_cells_differ(g.cols, g.rows, x, y, start.col, start.row);
}

/// What moves the cursor only: back to the start of the row, one back (but not past its start),
/// or on to the next column that is a multiple of 8 (or the end of the row). Other control
/// characters do nothing.
pub proof fn control_characters_move_the_cursor(g: Grid, c: char)
    requires
        g.wf(),
    ensures
        g.written('\r').0 == (Grid { col: 0, ..g }),
        g.col > 0 ==> g.written('\x08').0 == (Grid { col: g.col - 1, ..g }),
        g.col == 0 ==> g.written('\x08').0 == g,
        ({
            let after = g.written('\t').0;
            &&& after == (Grid { col: after.col, ..g })
            &&& after.col == g.cols || (after.col % 8 == 0 && g.col < after.col <= g.col + 8
                && after.col < g.cols)
            &&& after.col == g.cols ==> forall|k: int|
                g.col < 8 * k ==> g.cols <= #[trigger] (8 * k)
        }),
        ((c as u32) < 0x20 || 0x7F <= c as u32 <= 0x9F) && c != '\n' && c != '\r' && c != '\x08' && c
            != '\t' ==> g.written(c).0 == g,
        c != '\n' && ((c as u32) < 0x20 || 0x7F <= c as u32 <= 0x9F) ==> g.written(c).1 == Seq::<
            Drawn,
        >::empty(),
{
}

/// Texts are written one after the other.
pub proof fn texts_follow_each_other(g: Grid, a: Seq<char>, b: Seq<char>)
    ensures
        g.written_all(a + b).0 == g.written_all(a).0.written_all(b).0,
    decreases b.len(),
{
    if b.len() == 0 {
        assert(a + b =~= a);
    } else {
        assert((a + b).drop_last() =~= a + b.drop_last());
        assert((a + b).last() == b.last());
        texts_follow_each_other(g, a, b.drop_last());
    }
}

} // verus!
