use vstd::prelude::*;
use crate::cell::{Cell, wall_at, with_wall_open};

verus! {

/// The mathematical model of a maze generator: the grid as a sequence of
/// cells in row-major order, the depth-first traversal stack, the head index,
/// the count of visited cells, and the ordered log of carved edges.
#[verifier::ext_equal]
pub struct MazeView {
    pub width: int,
    pub height: int,
    pub cells: Seq<Cell>,
    pub stack: Seq<int>,
    pub head: int,
    pub visited: int,
    pub carved: Seq<(int, int)>,
}

/// Number of cells in the grid.
pub open spec fn total(v: MazeView) -> int {
    v.width * v.height
}

pub open spec fn in_grid(v: MazeView, c: int) -> bool {
    0 <= c < total(v)
}

pub open spec fn row_of(v: MazeView, c: int) -> int {
    c / v.width
}

pub open spec fn col_of(v: MazeView, c: int) -> int {
    c % v.width
}

pub open spec fn dir_ok(d: int) -> bool {
    0 <= d < 4
}

/// The side opposite to `d`: up <-> down, right <-> left.
pub open spec fn opp(d: int) -> int {
    if d < 2 {
        d + 2
    } else {
        d - 2
    }
}

/// Whether the grid has a neighbor of `c` on side `d` (bounds check).
pub open spec fn has_nbr(v: MazeView, c: int, d: int) -> bool {
    if d == 0 {
        row_of(v, c) >= 1
    } else if d == 1 {
        col_of(v, c) + 1 < v.width
    } else if d == 2 {
        row_of(v, c) + 1 < v.height
    } else {
        col_of(v, c) >= 1
    }
}

/// The index of the neighbor of `c` on side `d`.
pub open spec fn nbr(v: MazeView, c: int, d: int) -> int {
    if d == 0 {
        c - v.width
    } else if d == 1 {
        c + 1
    } else if d == 2 {
        c + v.width
    } else {
        c - 1
    }
}

/// The side of `a` that faces `b`, for grid-adjacent `a` and `b`: recovered
/// from the index offset. The vertical offsets are tested first so that a
/// one-column grid, where `a + 1 == a + width`, still resolves correctly.
pub open spec fn dir_of(v: MazeView, a: int, b: int) -> int {
    if b == a + v.width {
        2
    } else if b == a - v.width {
        0
    } else if b == a + 1 {
        1
    } else {
        3
    }
}

/// The wall flag of cell `c` on side `d`.
pub open spec fn wall(v: MazeView, c: int, d: int) -> bool {
    wall_at(v.cells[c], d)
}

/// A neighbor on side `d` of `c` exists and has not been visited yet.
pub open spec fn eligible(v: MazeView, c: int, d: int) -> bool {
    dir_ok(d) && has_nbr(v, c, d) && !v.cells[nbr(v, c, d)].visited
}

/// The eligible sides of `c` among sides `0 .. k`, in side order.
pub open spec fn cands_upto(v: MazeView, c: int, k: int) -> Seq<int>
    decreases k,
{
    if k <= 0 {
        Seq::empty()
    } else {
        cands_upto(v, c, k - 1) + (if eligible(v, c, k - 1) {
            seq![k - 1]
        } else {
            Seq::empty()
        })
    }
}

/// The eligible sides of `c` (up, right, down, left order): the sides whose
/// neighbor is in bounds and unvisited.
pub open spec fn candidates(v: MazeView, c: int) -> Seq<int> {
    cands_upto(v, c, 4)
}

/// How many cells of `cells` carry `visited == true`.
pub open spec fn count_visited(cells: Seq<Cell>) -> int
    decreases cells.len(),
{
    if cells.len() == 0 {
        0
    } else {
        count_visited(cells.drop_last()) + (if cells.last().visited {
            1int
        } else {
            0int
        })
    }
}

/// The cells connected to the start cell by the carved edges, following the
/// carve order: an edge extends the set only if its source is already in it.
pub open spec fn reached(carved: Seq<(int, int)>) -> Set<int>
    decreases carved.len(),
{
    if carved.len() == 0 {
        Set::empty().insert(0)
    } else {
        let r = reached(carved.drop_last());
        if r.contains(carved.last().0) {
            r.insert(carved.last().1)
        } else {
            r
        }
    }
}

/// Generation is complete exactly when every cell has been visited; this is
/// the single source of truth for completion.
pub open spec fn spec_complete(v: MazeView) -> bool {
    v.visited == total(v)
}

pub open spec fn dims_ok(v: MazeView) -> bool {
    &&& 1 <= v.width
    &&& 1 <= v.height
    &&& v.width * v.height <= u32::MAX as int
}

pub open spec fn cells_ok(v: MazeView) -> bool {
    &&& v.cells.len() == total(v)
    &&& v.visited == count_visited(v.cells)
}

pub open spec fn stack_ok(v: MazeView) -> bool {
    &&& v.stack.len() >= 1
    &&& v.stack[0] == 0
    &&& v.stack.last() == v.head
    &&& forall|i: int| 0 <= i < v.stack.len() ==> in_grid(v, #[trigger] v.stack[i])
    &&& forall|i: int|
        0 <= i < v.stack.len() - 1 ==> v.cells[#[trigger] v.stack[i]].visited
}

/// Walls are symmetric across each internal edge, and every wall on the grid
/// boundary is closed.
pub open spec fn walls_ok(v: MazeView) -> bool {
    &&& forall|c: int, d: int|
        in_grid(v, c) && dir_ok(d) && #[trigger] has_nbr(v, c, d) ==> wall(v, c, d) == wall(
            v,
            nbr(v, c, d),
            opp(d),
        )
    &&& forall|c: int, d: int|
        in_grid(v, c) && dir_ok(d) && !(#[trigger] has_nbr(v, c, d)) ==> wall(v, c, d)
}

/// An internal wall is open exactly when the carve log holds that edge, in
/// one direction or the other.
pub open spec fn open_iff_carved(v: MazeView) -> bool {
    forall|c: int, d: int|
        in_grid(v, c) && dir_ok(d) && #[trigger] has_nbr(v, c, d) ==> (!wall(v, c, d) <==> exists|
            i: int,
        |
            0 <= i < v.carved.len() && (#[trigger] v.carved[i] == (c, nbr(v, c, d)) || v.carved[i]
                == (nbr(v, c, d), c)))
}

/// Each logged edge joins two adjacent cells; its source was visited when it
/// was carved; its target is visited, or is the head that the carve moved to;
/// and no two edges enter the same cell.
pub open spec fn carved_ok(v: MazeView) -> bool {
    &&& forall|i: int|
        0 <= i < v.carved.len() ==> exists|d: int|
            dir_ok(d) && in_grid(v, (#[trigger] v.carved[i]).0) && has_nbr(v, v.carved[i].0, d)
                && v.carved[i].1 == nbr(v, v.carved[i].0, d)
    &&& forall|i: int| 0 <= i < v.carved.len() ==> v.cells[(#[trigger] v.carved[i]).0].visited
    &&& forall|i: int|
        0 <= i < v.carved.len() ==> v.cells[(#[trigger] v.carved[i]).1].visited || v.carved[i].1
            == v.head
    &&& forall|i: int| 0 <= i < v.carved.len() ==> (#[trigger] v.carved[i]).1 != v.carved[i].0
    &&& forall|i: int, j: int|
        0 <= j < i < v.carved.len() ==> (#[trigger] v.carved[i]).1 != (#[trigger] v.carved[j]).1
            && v.carved[i].1 != v.carved[j].0
    &&& v.visited == v.carved.len() + (if v.cells[v.head].visited {
        1int
    } else {
        0int
    })
}

/// The edge `e` joins two grid-adjacent cells and the wall between them is
/// open on both sides.
pub open spec fn edge_open(v: MazeView, e: (int, int)) -> bool {
    exists|d: int|
        dir_ok(d) && in_grid(v, e.0) && #[trigger] has_nbr(v, e.0, d) && e.1 == nbr(v, e.0, d)
            && !wall(v, e.0, d) && !wall(v, e.1, opp(d))
}

/// Every visited cell is connected to the start cell through carved edges,
/// and so is the head.
pub open spec fn reach_ok(v: MazeView) -> bool {
    &&& forall|c: int|
        in_grid(v, c) && (#[trigger] v.cells[c]).visited ==> reached(v.carved).contains(c)
    &&& reached(v.carved).contains(v.head)
}

/// A visited cell that has left the stack is finished: all of its in-bounds
/// neighbors are visited. This is what makes backtracking safe.
pub open spec fn frontier_ok(v: MazeView) -> bool {
    forall|c: int, d: int|
        in_grid(v, c) && v.cells[c].visited && !v.stack.contains(c) && dir_ok(d)
            && #[trigger] has_nbr(v, c, d) ==> v.cells[nbr(v, c, d)].visited
}

/// Well-formedness of a maze state: established by construction and preserved
/// by every step.
pub open spec fn wf(v: MazeView) -> bool {
    &&& dims_ok(v)
    &&& cells_ok(v)
    &&& stack_ok(v)
    &&& walls_ok(v)
    &&& open_iff_carved(v)
    &&& carved_ok(v)
    &&& reach_ok(v)
    &&& frontier_ok(v)
}

/// The state right after construction: every wall closed, no cell visited,
/// the start cell pushed as the head.
pub open spec fn init_view(w: int, h: int) -> MazeView {
    MazeView {
        width: w,
        height: h,
        cells: Seq::new((w * h) as nat, |i: int| Cell {
            visited: false,
            wall_up: true,
            wall_right: true,
            wall_down: true,
            wall_left: true,
        }),
        stack: seq![0],
        head: 0,
        visited: 0,
        carved: Seq::empty(),
    }
}

/// The head cell marked visited, with the visited count kept in step.
pub open spec fn mark_head(v: MazeView) -> MazeView {
    MazeView {
        cells: v.cells.update(v.head, Cell { visited: true, ..v.cells[v.head] }),
        visited: v.visited + (if v.cells[v.head].visited {
            0int
        } else {
            1int
        }),
        ..v
    }
}

/// The grid after carving the edge from `a` toward side `d`: the wall of `a`
/// on side `d` and the facing wall of the neighbor both open.
pub open spec fn carve_cells(v: MazeView, a: int, d: int) -> Seq<Cell> {
    let b = nbr(v, a, d);
    v.cells.update(a, with_wall_open(v.cells[a], d)).update(
        b,
        with_wall_open(v.cells.update(a, with_wall_open(v.cells[a], d))[b], opp(d)),
    )
}

/// Carve from the head toward side `d`, log the edge, and move the head to
/// the neighbor, pushing it onto the stack.
pub open spec fn advance(v: MazeView, d: int) -> MazeView {
    let b = nbr(v, v.head, d);
    MazeView {
        cells: carve_cells(v, v.head, d),
        stack: v.stack.push(b),
        head: b,
        carved: v.carved.push((v.head, b)),
        ..v
    }
}

/// Pop the dead-end head and return to the previous stack entry. A stack of
/// one entry is left alone: under `wf` that situation never arises while
/// generation is incomplete.
pub open spec fn backtrack(v: MazeView) -> MazeView {
    if v.stack.len() >= 2 {
        MazeView { stack: v.stack.drop_last(), head: v.stack[v.stack.len() - 2], ..v }
    } else {
        v
    }
}

/// One step of generation, as a function of the state and of the random draw
/// `pick`. Completed states are terminal. Otherwise the head is marked
/// visited; if that completes the grid the step ends (so the stack is never
/// popped below the start cell); otherwise `pick` chooses among the eligible
/// sides and the step carves and moves, or backtracks at a dead end.
pub open spec fn step_spec(v: MazeView, pick: int) -> MazeView {
    if spec_complete(v) {
        v
    } else {
        let v1 = mark_head(v);
        if spec_complete(v1) {
            v1
        } else {
            let cs = candidates(v1, v1.head);
            if cs.len() > 0 {
                advance(v1, cs[pick % (cs.len() as int)])
            } else {
                backtrack(v1)
            }
        }
    }
}

/// The state after a whole sequence of steps, one per entry of `picks`.
pub open spec fn run_spec(v: MazeView, picks: Seq<int>) -> MazeView
    decreases picks.len(),
{
    if picks.len() == 0 {
        v
    } else {
        run_spec(step_spec(v, picks[0]), picks.drop_first())
    }
}

/// The glyph `render` prints for one cell.
pub open spec fn glyph(c: Cell) -> char {
    if c.visited {
        '\u{25fc}'
    } else {
        '\u{25fb}'
    }
}

/// One rendered row: a glyph per cell, then a newline.
pub open spec fn row_text(v: MazeView, r: int) -> Seq<char> {
    Seq::new(v.width as nat, |i: int| glyph(v.cells[r * v.width + i])).push('\n')
}

/// The first `r` rendered rows.
pub open spec fn rows_upto(v: MazeView, r: int) -> Seq<char>
    decreases r,
{
    if r <= 0 {
        Seq::empty()
    } else {
        rows_upto(v, r - 1) + row_text(v, r - 1)
    }
}

/// The full rendered grid: one line per row, visited cells as filled
/// squares, unvisited cells as open squares.
pub open spec fn render_spec(v: MazeView) -> Seq<char> {
    rows_upto(v, v.height)
}

} // verus!
