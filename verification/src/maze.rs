use vstd::prelude::*;
use vstd::arithmetic::div_mod::lemma_mod_bound;
use crate::cell::Cell;
use crate::model::{
    MazeView, total, in_grid, row_of, col_of, dir_ok, has_nbr, nbr, eligible, cands_upto,
    candidates, spec_complete, wf, dims_ok, init_view, mark_head, carve_cells, advance, backtrack,
    step_spec, render_spec, rows_upto, row_text, glyph,
};
use crate::laws::{
    lemma_rowcol, lemma_nbr, lemma_cands, lemma_cands_empty, lemma_cands_mark, lemma_init_wf,
    lemma_mark_wf, lemma_step_wf, lemma_dir_of,
};
use crate::model::dir_of;

verus! {

/// Relies on rand::Rng::gen_range over rand::thread_rng: for the non-empty
/// range `0..n` it returns a uniformly distributed value of that range.
#[verifier::external_body]
fn random_below(n: usize) -> (r: usize)
    requires
        n > 0,
    ensures
        r < n,
{
    rand::Rng::gen_range(&mut rand::thread_rng(), 0..n)
}

/// Why construction can fail.
#[derive(Clone, Copy, Debug, PartialEq, Eq, Structural)]
pub enum MazeError {
    /// A zero width or height was asked for.
    InvalidDimensions,
}

/// An incrementally generated maze: a rectangular grid of cells, the
/// depth-first traversal stack, the head cell being extended, the number of
/// visited cells, and the ordered log of carved edges.
#[derive(Clone, Debug)]
pub struct Maze {
    width: u32,
    height: u32,
    cells: Vec<Cell>,
    stack: Vec<usize>,
    next: usize,
    visited: u32,
    carve_log: Vec<(usize, usize)>,
}

impl View for Maze {
    type V = MazeView;

    closed spec fn view(&self) -> MazeView {
        MazeView {
            width: self.width as int,
            height: self.height as int,
            cells: self.cells@,
            stack: self.stack@.map_values(|x: usize| x as int),
            head: self.next as int,
            visited: self.visited as int,
            carved: self.carve_log@.map_values(|p: (usize, usize)| (p.0 as int, p.1 as int)),
        }
    }
}

impl Maze {
    /// A maze value is well formed when its model is.
    pub open spec fn wf(&self) -> bool {
        wf(self@)
    }

    /// Builds a maze of `width x height` cells, all walls closed, no cell
    /// visited, with the start cell (index 0) pushed as the head. Rejects a
    /// zero dimension.
    pub fn new(width: u32, height: u32) -> (r: Result<Maze, MazeError>)
        requires
            width as int * height as int <= u32::MAX as int,
        ensures
            r is Err <==> (width == 0 || height == 0),
            r is Err ==> r == Result::<Maze, MazeError>::Err(MazeError::InvalidDimensions),
            r matches Ok(m) ==> m.wf() && m@ == init_view(width as int, height as int),
    {
        if width == 0 || height == 0 {
            return Err(MazeError::InvalidDimensions);
        }
        let n_cells: u32 = width * height;
        let mut cells: Vec<Cell> = Vec::new();
        let mut i: u32 = 0;
        while i < n_cells
            invariant
                i <= n_cells,
                cells@.len() == i as int,
                forall|j: int|
                    0 <= j < i as int ==> #[trigger] cells@[j] == (Cell {
                        visited: false,
                        wall_up: true,
                        wall_right: true,
                        wall_down: true,
                        wall_left: true,
                    }),
            decreases n_cells - i,
        {
            cells.push(Cell::closed());
            i = i + 1;
        }
        let mut stack: Vec<usize> = Vec::new();
        stack.push(0);
        let m = Maze { width, height, cells, stack, next: 0, visited: 0, carve_log: Vec::new() };
        proof {
            let iv = init_view(width as int, height as int);
            lemma_init_wf(width as int, height as int);
            assert(m@.cells =~= iv.cells);
            assert(m@.stack =~= iv.stack);
            assert(m@.carved =~= iv.carved);
            assert(m@ =~= iv);
        }
        Ok(m)
    }

    /// The full grid, row-major, for rendering.
    pub fn cells(&self) -> (r: &Vec<Cell>)
        ensures
            r@ == self@.cells,
    {
        &self.cells
    }

    /// Maze width in cells.
    pub fn width(&self) -> (r: u32)
        ensures
            r as int == self@.width,
    {
        self.width
    }

    /// Maze height in cells.
    pub fn height(&self) -> (r: u32)
        ensures
            r as int == self@.height,
    {
        self.height
    }

    /// The index of the cell the traversal is currently extending.
    pub fn get_head(&self) -> (r: usize)
        ensures
            r as int == self@.head,
    {
        self.next
    }

    /// The row-major index of the cell at `row`, `column`.
    pub fn get_index(&self, row: u32, column: u32) -> (r: usize)
        requires
            dims_ok(self@),
            (row as int) < self@.height,
            (column as int) < self@.width,
        ensures
            r as int == row as int * self@.width + column as int,
            in_grid(self@, r as int),
    {
        proof {
            assert((row as int * self@.width + column as int) < total(self@)) by (nonlinear_arith)
                requires
                    (row as int) < self@.height,
                    (column as int) < self@.width,
                    1 <= self@.width,
                    total(self@) == self@.width * self@.height,
            ;
        }
        (row * self.width + column) as usize
    }

    /// How many cells have been visited so far.
    pub fn visited_count(&self) -> (r: u32)
        ensures
            r as int == self@.visited,
    {
        self.visited
    }

    /// Whether generation is complete: every cell visited.
    pub fn is_complete(&self) -> (r: bool)
        requires
            dims_ok(self@),
        ensures
            r == spec_complete(self@),
    {
        self.visited == self.width * self.height
    }

    /// The carved edges in carve order, each as (from, to) cell indices.
    pub fn carves(&self) -> (r: &Vec<(usize, usize)>)
        ensures
            r@.map_values(|p: (usize, usize)| (p.0 as int, p.1 as int)) == self@.carved,
    {
        &self.carve_log
    }

    /// The index of the neighbor of `c` on side `d`.
    fn neighbor_index(&self, c: usize, d: usize) -> (b: usize)
        requires
            dims_ok(self@),
            in_grid(self@, c as int),
            dir_ok(d as int),
            has_nbr(self@, c as int, d as int),
        ensures
            b as int == nbr(self@, c as int, d as int),
    {
        proof {
            lemma_rowcol(self@, c as int);
            lemma_nbr(self@, c as int, d as int);
            if d == 0 {
                assert(c as int >= self@.width) by (nonlinear_arith)
                    requires
                        c as int == row_of(self@, c as int) * self@.width + col_of(
                            self@,
                            c as int,
                        ),
                        row_of(self@, c as int) >= 1,
                        col_of(self@, c as int) >= 0,
                        self@.width >= 1,
                ;
            }
        }
        let w = self.width as usize;
        if d == 0 {
            c - w
        } else if d == 1 {
            c + 1
        } else if d == 2 {
            c + w
        } else {
            c - 1
        }
    }

    /// The sides of `c` whose neighbor is in bounds and unvisited, in
    /// up, right, down, left order.
    fn candidate_dirs(&self, c: usize) -> (r: Vec<usize>)
        requires
            dims_ok(self@),
            self@.cells.len() == total(self@),
            in_grid(self@, c as int),
        ensures
            r@.map_values(|d: usize| d as int) == candidates(self@, c as int),
            forall|i: int| 0 <= i < r@.len() ==> (#[trigger] r@[i]) < 4,
    {
        let ghost v = self@;
        let ghost ci = c as int;
        proof {
            lemma_rowcol(v, ci);
        }
        let w = self.width as usize;
        let row = c / w;
        let col = c % w;
        let mut r: Vec<usize> = Vec::new();
        proof {
            assert(r@.map_values(|d: usize| d as int) =~= cands_upto(v, ci, 0));
        }
        if row >= 1 {
            proof {
                lemma_nbr(v, ci, 0);
            }
            let b = self.neighbor_index(c, 0);
            if !self.cells[b].visited {
                r.push(0);
            }
        }
        proof {
            assert(r@.map_values(|d: usize| d as int) =~= cands_upto(v, ci, 1));
        }
        if col + 1 < w {
            proof {
                lemma_nbr(v, ci, 1);
            }
            let b = self.neighbor_index(c, 1);
            if !self.cells[b].visited {
                r.push(1);
            }
        }
        proof {
            assert(r@.map_values(|d: usize| d as int) =~= cands_upto(v, ci, 2));
        }
        if row + 1 < self.height as usize {
            proof {
                lemma_nbr(v, ci, 2);
            }
            let b = self.neighbor_index(c, 2);
            if !self.cells[b].visited {
                r.push(2);
            }
        }
        proof {
            assert(r@.map_values(|d: usize| d as int) =~= cands_upto(v, ci, 3));
        }
        if col >= 1 {
            proof {
                lemma_nbr(v, ci, 3);
            }
            let b = self.neighbor_index(c, 3);
            if !self.cells[b].visited {
                r.push(3);
            }
        }
        proof {
            assert(r@.map_values(|d: usize| d as int) =~= cands_upto(v, ci, 4));
        }
        r
    }

    /// Opens the wall between the grid-adjacent cells `current` and
    /// `next_cell`, on both sides, by the index offset between them.
    fn set_walls(&mut self, current: usize, next_cell: usize)
        requires
            dims_ok(old(self)@),
            old(self)@.cells.len() == total(old(self)@),
            in_grid(old(self)@, current as int),
            exists|d: int|
                dir_ok(d) && #[trigger] has_nbr(old(self)@, current as int, d) && next_cell as int
                    == nbr(old(self)@, current as int, d),
        ensures
            final(self)@ == (MazeView {
                cells: carve_cells(
                    old(self)@,
                    current as int,
                    dir_of(old(self)@, current as int, next_cell as int),
                ),
                ..old(self)@
            }),
    {
        let ghost v = old(self)@;
        let ghost a = current as int;
        let ghost dd = choose|d: int|
            dir_ok(d) && #[trigger] has_nbr(v, a, d) && next_cell as int == nbr(v, a, d);
        proof {
            lemma_nbr(v, a, dd);
            lemma_dir_of(v, a, dd);
            assert(dir_of(v, a, next_cell as int) == dd);
        }
        let w = self.width as usize;
        if next_cell > current {
            if next_cell - current == w {
                proof {
                    assert(dd == 2);
                }
                let mut cc = self.cells[current];
                cc.wall_down = false;
                self.cells.set(current, cc);
                let mut cn = self.cells[next_cell];
                cn.wall_up = false;
                self.cells.set(next_cell, cn);
            } else {
                proof {
                    assert(dd == 1);
                }
                let mut cc = self.cells[current];
                cc.wall_right = false;
                self.cells.set(current, cc);
                let mut cn = self.cells[next_cell];
                cn.wall_left = false;
                self.cells.set(next_cell, cn);
            }
        } else {
            if current - next_cell == w {
                proof {
                    assert(dd == 0);
                }
                let mut cc = self.cells[current];
                cc.wall_up = false;
                self.cells.set(current, cc);
                let mut cn = self.cells[next_cell];
                cn.wall_down = false;
                self.cells.set(next_cell, cn);
            } else {
                proof {
                    assert(dd == 3);
                }
                let mut cc = self.cells[current];
                cc.wall_left = false;
                self.cells.set(current, cc);
                let mut cn = self.cells[next_cell];
                cn.wall_right = false;
                self.cells.set(next_cell, cn);
            }
        }
        proof {
            assert(self@.cells =~= carve_cells(v, a, dd));
            assert(self@ =~= (MazeView { cells: carve_cells(v, a, dd), ..v }));
        }
    }

    /// Advances generation by one unit, drawing the random choice from the
    /// process random number generator: ties among eligible neighbors are
    /// broken by a fair draw. A no-op once generation is complete.
    pub fn gen_maze(&mut self)
        requires
            old(self).wf(),
        ensures
            final(self).wf(),
            exists|pick: int|
                0 <= pick && final(self)@ == #[trigger] step_spec(old(self)@, pick),
            spec_complete(old(self)@) ==> final(self)@ == old(self)@,
    {
        let ghost v0 = self@;
        let h = self.next;
        proof {
            assert(v0.stack[v0.stack.len() - 1] == v0.head);
            assert(in_grid(v0, v0.head));
        }
        let cands = self.candidate_dirs(h);
        proof {
            // the draw is over the same candidate list the step will use:
            // marking the head does not change its eligible sides
            if !spec_complete(v0) {
                lemma_cands_mark(v0);
            }
        }
        let pick = if cands.len() > 0 {
            random_below(cands.len())
        } else {
            0
        };
        proof {
            lemma_step_wf(v0, pick as int);
        }
        self.step_with_choice(pick);
        proof {
            assert(self@ == step_spec(v0, pick as int));
        }
    }

    /// A text dump of the grid: one line per row, a filled square for a
    /// visited cell, an open square for an unvisited one.
    pub fn render(&self) -> (r: String)
        requires
            self.wf(),
        ensures
            r@ == render_spec(self@),
    {
        let ghost v = self@;
        let mut s = String::new();
        let mut row: u32 = 0;
        proof {
            assert(s@ =~= rows_upto(v, 0));
        }
        while row < self.height
            invariant
                self.wf(),
                v == self@,
                row <= self.height,
                s@ == rows_upto(v, row as int),
            decreases self@.height - row,
        {
            let mut col: u32 = 0;
            proof {
                assert(s@ =~= rows_upto(v, row as int) + Seq::new(0, |i: int| glyph(
                    v.cells[row as int * v.width + i],
                )));
            }
            while col < self.width
                invariant
                    self.wf(),
                    v == self@,
                    row < self.height,
                    col <= self.width,
                    s@ == rows_upto(v, row as int) + Seq::new(col as nat, |i: int| glyph(
                        v.cells[row as int * v.width + i],
                    )),
                decreases self@.width - col,
            {
                let idx = self.get_index(row, col);
                let ghost prev = s@;
                if self.cells[idx].visited {
                    s.append("\u{25fc}");
                } else {
                    s.append("\u{25fb}");
                }
                proof {
                    reveal_strlit("\u{25fc}");
                    reveal_strlit("\u{25fb}");
                    assert(s@ =~= prev.push(glyph(v.cells[row as int * v.width + col as int])));
                    assert(s@ =~= rows_upto(v, row as int) + Seq::new((col + 1) as nat, |i: int|
                        glyph(v.cells[row as int * v.width + i])));
                }
                col = col + 1;
            }
            let ghost prev = s@;
            s.append("\n");
            proof {
                reveal_strlit("\n");
                assert(s@ =~= prev.push('\n'));
                assert(s@ =~= rows_upto(v, row as int) + row_text(v, row as int));
                assert(s@ =~= rows_upto(v, row as int + 1));
            }
            row = row + 1;
        }
        s
    }

    /// Advances generation by one unit, with the random draw passed in as
    /// `pick`: the whole transition is a function of the state and `pick`.
    /// Once complete, the state never changes again.
    pub fn step_with_choice(&mut self, pick: usize)
        requires
            old(self).wf(),
        ensures
            final(self).wf(),
            final(self)@ == step_spec(old(self)@, pick as int),
    {
        let ghost v0 = old(self)@;
        proof {
            lemma_step_wf(v0, pick as int);
        }
        let n_cells: u32 = self.width * self.height;
        if self.visited == n_cells {
            return ;
        }
        proof {
            assert(v0.stack[v0.stack.len() - 1] == v0.head);
            assert(in_grid(v0, v0.head));
        }
        let h = self.next;
        let mut c = self.cells[h];
        let was_visited = c.visited;
        c.visited = true;
        self.cells.set(h, c);
        if !was_visited {
            proof {
                crate::laws::lemma_count_bounds(v0.cells);
            }
            self.visited = self.visited + 1;
        }
        let ghost v1 = mark_head(v0);
        proof {
            lemma_mark_wf(v0);
            assert(self@.cells =~= v1.cells);
            assert(self@ =~= v1);
        }
        if self.visited == n_cells {
            return ;
        }
        let cands = self.candidate_dirs(h);
        let ghost cs = candidates(v1, v1.head);
        proof {
            lemma_cands(v1, v1.head, 4);
        }
        if cands.len() > 0 {
            let d = cands[pick % cands.len()];
            proof {
                lemma_mod_bound(pick as int, cs.len() as int);
                assert(cands@.map_values(|x: usize| x as int)[pick as int % cs.len() as int]
                    == cs[pick as int % cs.len() as int]);
                assert(d as int == cs[pick as int % cs.len() as int]);
                assert(eligible(v1, v1.head, d as int));
                lemma_nbr(v1, v1.head, d as int);
            }
            let b = self.neighbor_index(h, d);
            self.set_walls(h, b);
            proof {
                lemma_dir_of(v1, v1.head, d as int);
            }
            self.stack.push(b);
            self.carve_log.push((h, b));
            self.next = b;
            proof {
                assert(self@.stack =~= v1.stack.push(b as int));
                assert(self@.carved =~= v1.carved.push((h as int, b as int)));
                assert(self@ =~= advance(v1, d as int));
            }
        } else {
            proof {
                assert(cs.len() == 0);
                assert(v1.stack.len() == self.stack@.len());
                crate::laws::lemma_cands_empty(v1, v1.head);
                crate::laws::lemma_no_underflow(v1);
            }
            self.stack.pop();
            let t = self.stack[self.stack.len() - 1];
            self.next = t;
            proof {
                assert(self@.stack =~= v1.stack.drop_last());
                assert(self@.head == v1.stack[v1.stack.len() - 2]);
                assert(self@ =~= backtrack(v1));
            }
        }
    }
}

} // verus!
