use vstd::prelude::*;
use vstd::arithmetic::div_mod::{
    lemma_fundamental_div_mod, lemma_fundamental_div_mod_converse,
};
use crate::cell::Cell;
use vstd::arithmetic::div_mod::lemma_mod_bound;
use crate::model::{
    MazeView, total, in_grid, row_of, col_of, dir_ok, opp, has_nbr, nbr, eligible, cands_upto,
    candidates, count_visited, reached, spec_complete, wf, dims_ok, cells_ok, stack_ok, walls_ok,
    open_iff_carved, carved_ok, reach_ok, frontier_ok, init_view, mark_head, advance, backtrack,
    step_spec, wall, run_spec, edge_open,
};

verus! {

/// Every in-bounds index splits into its row and column.
pub proof fn lemma_rowcol(v: MazeView, c: int)
    requires
        1 <= v.width,
        1 <= v.height,
        in_grid(v, c),
    ensures
        c == row_of(v, c) * v.width + col_of(v, c),
        0 <= col_of(v, c) < v.width,
        0 <= row_of(v, c) < v.height,
{
    lemma_fundamental_div_mod(c, v.width);
    assert(v.width * (c / v.width) == (c / v.width) * v.width) by (nonlinear_arith);
    assert(0 <= c % v.width < v.width) by (nonlinear_arith)
        requires
            1 <= v.width,
            0 <= c,
    ;
    assert(0 <= c / v.width) by (nonlinear_arith)
        requires
            1 <= v.width,
            0 <= c,
    ;
    assert(c / v.width < v.height) by (nonlinear_arith)
        requires
            1 <= v.width,
            c < v.width * v.height,
            c == v.width * (c / v.width) + c % v.width,
            0 <= c % v.width,
    ;
}

/// The row and column of the neighbor on side `d`, and the facts that the
/// neighbor is in bounds, differs from `c`, and looks back at `c` through the
/// opposite side.
pub proof fn lemma_nbr(v: MazeView, c: int, d: int)
    requires
        1 <= v.width,
        1 <= v.height,
        in_grid(v, c),
        dir_ok(d),
        has_nbr(v, c, d),
    ensures
        in_grid(v, nbr(v, c, d)),
        nbr(v, c, d) != c,
        row_of(v, nbr(v, c, d)) == row_of(v, c) + (if d == 0 {
            -1int
        } else if d == 2 {
            1int
        } else {
            0int
        }),
        col_of(v, nbr(v, c, d)) == col_of(v, c) + (if d == 1 {
            1int
        } else if d == 3 {
            -1int
        } else {
            0int
        }),
        dir_ok(opp(d)),
        has_nbr(v, nbr(v, c, d), opp(d)),
        nbr(v, nbr(v, c, d), opp(d)) == c,
{
    lemma_rowcol(v, c);
    let r: int = row_of(v, c);
    let k: int = col_of(v, c);
    let b: int = nbr(v, c, d);
    let rb: int = r + (if d == 0 {
        -1int
    } else if d == 2 {
        1int
    } else {
        0int
    });
    let kb: int = k + (if d == 1 {
        1int
    } else if d == 3 {
        -1int
    } else {
        0int
    });
    if d == 0 {
        assert(c - v.width == (r - 1) * v.width + k) by (nonlinear_arith)
            requires
                c == r * v.width + k,
        ;
    } else if d == 1 {
        assert(c + 1 == r * v.width + (k + 1));
    } else if d == 2 {
        assert(c + v.width == (r + 1) * v.width + k) by (nonlinear_arith)
            requires
                c == r * v.width + k,
        ;
    } else {
        assert(c - 1 == r * v.width + (k - 1));
    }
    assert(b == rb * v.width + kb);
    lemma_fundamental_div_mod_converse(b, v.width, rb, kb);
    assert(0 <= b) by (nonlinear_arith)
        requires
            b == rb * v.width + kb,
            0 <= rb,
            0 <= kb < v.width,
    ;
    assert(b < v.width * v.height) by (nonlinear_arith)
        requires
            b == rb * v.width + kb,
            rb < v.height,
            0 <= kb < v.width,
            1 <= v.width,
    ;
}

/// Distinct sides lead to distinct neighbors.
pub proof fn lemma_nbr_inj(v: MazeView, c: int, d1: int, d2: int)
    requires
        1 <= v.width,
        1 <= v.height,
        in_grid(v, c),
        dir_ok(d1),
        dir_ok(d2),
        has_nbr(v, c, d1),
        has_nbr(v, c, d2),
        nbr(v, c, d1) == nbr(v, c, d2),
    ensures
        d1 == d2,
{
    lemma_nbr(v, c, d1);
    lemma_nbr(v, c, d2);
}

/// The side recovered from an index offset is the side that actually leads
/// from `a` to `b`.
pub proof fn lemma_dir_of(v: MazeView, a: int, d: int)
    requires
        1 <= v.width,
        1 <= v.height,
        in_grid(v, a),
        dir_ok(d),
        has_nbr(v, a, d),
    ensures
        crate::model::dir_of(v, a, nbr(v, a, d)) == d,
{
    lemma_nbr(v, a, d);
    let b = nbr(v, a, d);
    if d == 0 {
        assert(b == a - v.width);
        assert(b != a + v.width);
    } else if d == 1 {
        assert(b == a + 1);
        if v.width == 1 {
            assert(col_of(v, a) + 1 < 1);
        }
        assert(b != a + v.width);
        assert(b != a - v.width);
    } else if d == 2 {
        assert(b == a + v.width);
    } else {
        assert(b == a - 1);
        if v.width == 1 {
            lemma_rowcol(v, a);
            assert(col_of(v, a) >= 1);
            assert(false);
        }
        assert(b != a + v.width);
        assert(b != a - v.width);
        assert(b != a + 1);
    }
}

/// A visited count never exceeds the number of cells and is never negative.
pub proof fn lemma_count_bounds(cells: Seq<Cell>)
    ensures
        0 <= count_visited(cells) <= cells.len(),
    decreases cells.len(),
{
    if cells.len() > 0 {
        lemma_count_bounds(cells.drop_last());
    }
}

/// How the visited count changes when one cell is replaced.
pub proof fn lemma_count_update(cells: Seq<Cell>, i: int, c: Cell)
    requires
        0 <= i < cells.len(),
    ensures
        count_visited(cells.update(i, c)) == count_visited(cells) - (if cells[i].visited {
            1int
        } else {
            0int
        }) + (if c.visited {
            1int
        } else {
            0int
        }),
    decreases cells.len(),
{
    let u = cells.update(i, c);
    if i == cells.len() - 1 {
        assert(u.drop_last() =~= cells.drop_last());
    } else {
        assert(u.drop_last() =~= cells.drop_last().update(i, c));
        lemma_count_update(cells.drop_last(), i, c);
    }
}

/// When the visited count has reached the number of cells, every cell is
/// visited.
pub proof fn lemma_count_full(cells: Seq<Cell>)
    requires
        count_visited(cells) == cells.len(),
    ensures
        forall|i: int| 0 <= i < cells.len() ==> cells[i].visited,
    decreases cells.len(),
{
    if cells.len() > 0 {
        lemma_count_bounds(cells.drop_last());
        lemma_count_full(cells.drop_last());
        assert forall|i: int| 0 <= i < cells.len() implies cells[i].visited by {
            if i < cells.len() - 1 {
                assert(cells.drop_last()[i].visited);
            }
        }
    }
}

/// A grid with no visited cell has count zero.
pub proof fn lemma_count_none(cells: Seq<Cell>)
    requires
        forall|i: int| 0 <= i < cells.len() ==> !cells[i].visited,
    ensures
        count_visited(cells) == 0,
    decreases cells.len(),
{
    if cells.len() > 0 {
        lemma_count_none(cells.drop_last());
    }
}

/// Every entry of the candidate list is an eligible side below `k`, and every
/// eligible side below `k` appears in it.
pub proof fn lemma_cands(v: MazeView, c: int, k: int)
    requires
        0 <= k <= 4,
    ensures
        forall|i: int|
            0 <= i < cands_upto(v, c, k).len() ==> 0 <= #[trigger] cands_upto(v, c, k)[i] < k
                && eligible(v, c, cands_upto(v, c, k)[i]),
        forall|d: int| 0 <= d < k && eligible(v, c, d) ==> cands_upto(v, c, k).contains(d),
    decreases k,
{
    if k > 0 {
        lemma_cands(v, c, k - 1);
        let cs = cands_upto(v, c, k);
        let prev = cands_upto(v, c, k - 1);
        assert forall|d: int| 0 <= d < k && eligible(v, c, d) implies cs.contains(d) by {
            if d < k - 1 {
                let i = choose|i: int| 0 <= i < prev.len() && prev[i] == d;
                assert(cs[i] == d);
            } else {
                assert(cs[cs.len() - 1] == d);
            }
        }
    }
}

/// An empty candidate list means every in-bounds neighbor is visited.
pub proof fn lemma_cands_empty(v: MazeView, c: int)
    requires
        candidates(v, c).len() == 0,
    ensures
        forall|d: int| dir_ok(d) && #[trigger] has_nbr(v, c, d) ==> v.cells[nbr(v, c, d)].visited,
{
    lemma_cands(v, c, 4);
    assert forall|d: int| dir_ok(d) && #[trigger] has_nbr(v, c, d) implies v.cells[nbr(
        v,
        c,
        d,
    )].visited by {
        if !v.cells[nbr(v, c, d)].visited {
            assert(eligible(v, c, d));
            assert(candidates(v, c).contains(d));
        }
    }
}

/// Two states whose grids agree on eligibility at `c` list the same
/// candidate sides.
pub proof fn lemma_cands_agree(v1: MazeView, v2: MazeView, c: int, k: int)
    requires
        0 <= k <= 4,
        forall|d: int| dir_ok(d) ==> eligible(v1, c, d) == eligible(v2, c, d),
    ensures
        cands_upto(v1, c, k) == cands_upto(v2, c, k),
    decreases k,
{
    if k > 0 {
        lemma_cands_agree(v1, v2, c, k - 1);
        assert(eligible(v1, c, k - 1) == eligible(v2, c, k - 1));
        assert(cands_upto(v1, c, k) =~= cands_upto(v2, c, k));
    }
}

/// The state right after construction is well formed.
pub proof fn lemma_init_wf(w: int, h: int)
    requires
        1 <= w,
        1 <= h,
        w * h <= u32::MAX as int,
    ensures
        wf(init_view(w, h)),
        !init_view(w, h).cells[0].visited,
{
    let v = init_view(w, h);
    assert(1 <= w * h) by (nonlinear_arith)
        requires
            1 <= w,
            1 <= h,
    ;
    assert forall|i: int| 0 <= i < v.cells.len() implies !(#[trigger] v.cells[i]).visited by {}
    lemma_count_none(v.cells);
    assert(v.stack.last() == 0);
    assert(forall|i: int| 0 <= i < v.stack.len() ==> #[trigger] v.stack[i] == 0);
    assert(reached(v.carved).contains(0));
    assert(dims_ok(v));
    assert(cells_ok(v));
    assert(stack_ok(v));
    assert(walls_ok(v)) by {
        assert forall|c: int, d: int|
            in_grid(v, c) && dir_ok(d) && #[trigger] has_nbr(v, c, d) implies wall(v, c, d)
            == wall(v, nbr(v, c, d), opp(d)) by {
            lemma_nbr(v, c, d);
            assert(wall(v, c, d));
            assert(wall(v, nbr(v, c, d), opp(d)));
        }
    }
    assert(open_iff_carved(v));
    assert(carved_ok(v));
    assert(reach_ok(v));
    assert(frontier_ok(v));
}

/// Marking the head visited keeps the state well formed, as long as the grid
/// still has an unvisited cell somewhere.
pub proof fn lemma_mark_wf(v: MazeView)
    requires
        wf(v),
        !spec_complete(v),
    ensures
        wf(mark_head(v)),
        mark_head(v).cells[mark_head(v).head].visited,
{
    let m = mark_head(v);
    assert(v.stack[v.stack.len() - 1] == v.head);
    assert(in_grid(v, v.head));
    lemma_count_update(v.cells, v.head, Cell { visited: true, ..v.cells[v.head] });
    assert(v.stack.contains(v.head));
    // walls are untouched
    assert forall|c: int, d: int| in_grid(v, c) && dir_ok(d) implies #[trigger] wall(m, c, d)
        == wall(v, c, d) by {
        if c == v.head {
            assert(m.cells[c].wall_up == v.cells[c].wall_up);
        } else {
            assert(m.cells[c] == v.cells[c]);
        }
    }
    assert(walls_ok(m)) by {
        assert forall|c: int, d: int|
            in_grid(m, c) && dir_ok(d) && #[trigger] has_nbr(m, c, d) implies wall(m, c, d)
            == wall(m, nbr(m, c, d), opp(d)) by {
            lemma_nbr(v, c, d);
            assert(has_nbr(v, c, d));
            assert(wall(m, c, d) == wall(v, c, d));
            assert(wall(m, nbr(v, c, d), opp(d)) == wall(v, nbr(v, c, d), opp(d)));
        }
        assert forall|c: int, d: int|
            in_grid(m, c) && dir_ok(d) && !(#[trigger] has_nbr(m, c, d)) implies wall(
            m,
            c,
            d,
        ) by {
            assert(!has_nbr(v, c, d));
            assert(wall(m, c, d) == wall(v, c, d));
        }
    }
    assert(open_iff_carved(m)) by {
        assert forall|c: int, d: int|
            in_grid(m, c) && dir_ok(d) && #[trigger] has_nbr(m, c, d) implies (!wall(m, c, d)
            <==> exists|i: int|
                0 <= i < m.carved.len() && (#[trigger] m.carved[i] == (c, nbr(m, c, d))
                    || m.carved[i] == (nbr(m, c, d), c))) by {
            lemma_nbr(v, c, d);
            assert(has_nbr(v, c, d));
            assert(wall(m, c, d) == wall(v, c, d));
            assert(nbr(m, c, d) == nbr(v, c, d));
            assert(m.carved == v.carved);
            assert(!wall(v, c, d) <==> exists|i: int|
                0 <= i < v.carved.len() && (#[trigger] v.carved[i] == (c, nbr(v, c, d))
                    || v.carved[i] == (nbr(v, c, d), c)));
        }
    }
    assert(carved_ok(m)) by {
        assert forall|i: int| 0 <= i < m.carved.len() implies exists|d: int|
            dir_ok(d) && in_grid(m, (#[trigger] m.carved[i]).0) && has_nbr(m, m.carved[i].0, d)
                && m.carved[i].1 == nbr(m, m.carved[i].0, d) by {
            let d = choose|d: int|
                dir_ok(d) && in_grid(v, (v.carved[i]).0) && has_nbr(v, v.carved[i].0, d)
                    && v.carved[i].1 == nbr(v, v.carved[i].0, d);
            assert(dir_ok(d) && in_grid(m, m.carved[i].0) && has_nbr(m, m.carved[i].0, d)
                && m.carved[i].1 == nbr(m, m.carved[i].0, d));
        }
        assert forall|i: int|
            0 <= i < m.carved.len() implies m.cells[(#[trigger] m.carved[i]).0].visited by {
            let d = choose|d: int|
                dir_ok(d) && in_grid(v, (v.carved[i]).0) && has_nbr(v, v.carved[i].0, d)
                    && v.carved[i].1 == nbr(v, v.carved[i].0, d);
            assert(in_grid(v, v.carved[i].0));
            assert(v.cells[v.carved[i].0].visited);
            if v.carved[i].0 != v.head {
                assert(m.cells[v.carved[i].0] == v.cells[v.carved[i].0]);
            }
        }
        assert forall|i: int|
            0 <= i < m.carved.len() implies m.cells[(#[trigger] m.carved[i]).1].visited
            || m.carved[i].1 == m.head by {
            let d = choose|d: int|
                dir_ok(d) && in_grid(v, (v.carved[i]).0) && has_nbr(v, v.carved[i].0, d)
                    && v.carved[i].1 == nbr(v, v.carved[i].0, d);
            lemma_nbr(v, v.carved[i].0, d);
            assert(in_grid(v, v.carved[i].1));
            if v.cells[v.carved[i].1].visited && v.carved[i].1 != v.head {
                assert(m.cells[v.carved[i].1] == v.cells[v.carved[i].1]);
            }
        }
        assert(m.visited == m.carved.len() + 1);
    }
    assert(frontier_ok(m)) by {
        assert forall|c: int, d: int|
            in_grid(m, c) && m.cells[c].visited && !m.stack.contains(c) && dir_ok(d)
                && #[trigger] has_nbr(m, c, d) implies m.cells[nbr(m, c, d)].visited by {
            lemma_nbr(v, c, d);
            assert(has_nbr(v, c, d));
            if c == v.head {
                assert(v.stack.contains(c));
            }
            if c != v.head {
                assert(v.cells[c].visited);
                assert(!v.stack.contains(c)) by {
                    if v.stack.contains(c) {
                        let i = choose|i: int| 0 <= i < v.stack.len() && v.stack[i] == c;
                        assert(m.stack[i] == c);
                    }
                }
                assert(v.cells[nbr(v, c, d)].visited);
                if nbr(v, c, d) != v.head {
                    assert(m.cells[nbr(v, c, d)] == v.cells[nbr(v, c, d)]);
                }
            }
        }
    }
    assert(dims_ok(m));
    assert(cells_ok(m));
    assert(stack_ok(m)) by {
        assert forall|i: int|
            0 <= i < m.stack.len() - 1 implies m.cells[#[trigger] m.stack[i]].visited by {
            assert(in_grid(v, v.stack[i]));
            if v.stack[i] != v.head {
                assert(m.cells[v.stack[i]] == v.cells[v.stack[i]]);
            }
        }
    }
    assert(reach_ok(m)) by {
        assert(m.carved == v.carved);
        assert forall|c: int|
            in_grid(m, c) && m.cells[c].visited implies reached(m.carved).contains(c) by {
            if c != v.head {
                assert(m.cells[c] == v.cells[c]);
                assert(v.cells[c].visited);
                assert(reached(v.carved).contains(c));
            } else {
                assert(reached(v.carved).contains(v.head));
            }
        }
    }
}

/// Marking the head does not change which of its sides are eligible, since a
/// cell is never its own neighbor.
pub proof fn lemma_cands_mark(v: MazeView)
    requires
        1 <= v.width,
        1 <= v.height,
        in_grid(v, v.head),
        v.cells.len() == total(v),
    ensures
        candidates(mark_head(v), v.head) == candidates(v, v.head),
{
    let m = mark_head(v);
    assert forall|d: int| dir_ok(d) implies eligible(m, v.head, d) == eligible(v, v.head, d) by {
        if has_nbr(v, v.head, d) {
            lemma_nbr(v, v.head, d);
            assert(m.cells[nbr(v, v.head, d)] == v.cells[nbr(v, v.head, d)]);
        }
    }
    lemma_cands_agree(m, v, v.head, 4);
}

/// Carving toward an eligible side and moving the head there keeps the state
/// well formed.
#[verifier::rlimit(60)]
pub proof fn lemma_advance_wf(v: MazeView, d: int)
    requires
        wf(v),
        !spec_complete(v),
        v.cells[v.head].visited,
        eligible(v, v.head, d),
    ensures
        wf(advance(v, d)),
{
    let h = v.head;
    let b = nbr(v, h, d);
    let w = advance(v, d);
    let n = v.carved.len() as int;
    assert(v.stack[v.stack.len() - 1] == h);
    assert(in_grid(v, h));
    lemma_nbr(v, h, d);
    assert(b != h);
    assert(!v.cells[b].visited);
    let ca = crate::cell::with_wall_open(v.cells[h], d);
    let cells1 = v.cells.update(h, ca);
    let cb = crate::cell::with_wall_open(cells1[b], opp(d));
    assert(w.cells == cells1.update(b, cb));
    assert(w.carved == v.carved.push((h, b)));
    assert(w.carved[n] == (h, b));
    assert(forall|i: int| 0 <= i < n ==> #[trigger] w.carved[i] == v.carved[i]);
    assert(forall|i: int| 0 <= i < v.stack.len() ==> #[trigger] w.stack[i] == v.stack[i]);
    // the carve changes no visited flag
    assert forall|x: int| 0 <= x < v.cells.len() implies (#[trigger] w.cells[x]).visited
        == v.cells[x].visited by {}
    // the carve changes exactly the two facing walls
    assert(!wall(w, h, d));
    assert(!wall(w, b, opp(d)));
    assert forall|c: int, d2: int|
        in_grid(v, c) && dir_ok(d2) && !(c == h && d2 == d) && !(c == b && d2 == opp(
            d,
        )) implies #[trigger] wall(w, c, d2) == wall(v, c, d2) by {}
    assert(dims_ok(w));
    // counting
    assert(cells_ok(w)) by {
        lemma_count_update(v.cells, h, ca);
        lemma_count_update(cells1, b, cb);
        assert(cells1[b] == v.cells[b]);
    }
    assert(stack_ok(w)) by {
        assert(w.stack.last() == b);
        assert(w.stack[0] == v.stack[0]);
        assert forall|i: int| 0 <= i < w.stack.len() implies in_grid(w, #[trigger] w.stack[i]) by {
            if i < v.stack.len() {
                assert(in_grid(v, v.stack[i]));
            }
        }
        assert forall|i: int|
            0 <= i < w.stack.len() - 1 implies w.cells[#[trigger] w.stack[i]].visited by {
            assert(in_grid(v, v.stack[i]));
            if i < v.stack.len() - 1 {
                assert(v.cells[v.stack[i]].visited);
            } else {
                assert(w.stack[i] == h);
            }
        }
    }
    assert(walls_ok(w)) by {
        assert forall|c: int, d2: int|
            in_grid(w, c) && dir_ok(d2) && #[trigger] has_nbr(w, c, d2) implies wall(w, c, d2)
            == wall(w, nbr(w, c, d2), opp(d2)) by {
            lemma_nbr(v, c, d2);
            let m = nbr(v, c, d2);
            assert(wall(v, c, d2) == wall(v, m, opp(d2)));
            if c == h && d2 == d {
                assert(!wall(w, c, d2));
                assert(!wall(w, m, opp(d2)));
            } else if c == b && d2 == opp(d) {
                assert(m == h);
                assert(opp(d2) == d);
                assert(!wall(w, c, d2));
                assert(!wall(w, m, opp(d2)));
            } else {
                assert(wall(w, c, d2) == wall(v, c, d2));
                if m == h && opp(d2) == d {
                    assert(nbr(v, m, opp(d2)) == c);
                    assert(c == b && d2 == opp(d));
                } else if m == b && opp(d2) == opp(d) {
                    lemma_nbr_inj(v, c, d2, d);
                    assert(false);
                } else {
                    assert(wall(w, m, opp(d2)) == wall(v, m, opp(d2)));
                }
            }
        }
        assert forall|c: int, d2: int|
            in_grid(w, c) && dir_ok(d2) && !(#[trigger] has_nbr(w, c, d2)) implies wall(
            w,
            c,
            d2,
        ) by {
            assert(!has_nbr(v, c, d2));
            assert(wall(v, c, d2));
            assert(!(c == h && d2 == d));
            assert(!(c == b && d2 == opp(d)));
            assert(wall(w, c, d2) == wall(v, c, d2));
        }
    }
    assert(open_iff_carved(w)) by {
        assert forall|c: int, d2: int|
            in_grid(w, c) && dir_ok(d2) && #[trigger] has_nbr(w, c, d2) implies (!wall(w, c, d2)
            <==> exists|i: int|
                0 <= i < w.carved.len() && (#[trigger] w.carved[i] == (c, nbr(w, c, d2))
                    || w.carved[i] == (nbr(w, c, d2), c))) by {
            lemma_nbr(v, c, d2);
            let m = nbr(v, c, d2);
            assert(nbr(w, c, d2) == m);
            if c == h && d2 == d {
                assert(w.carved[n] == (c, m));
                assert(!wall(w, c, d2));
            } else if c == b && d2 == opp(d) {
                assert(m == h);
                assert(w.carved[n] == (m, c));
                assert(!wall(w, c, d2));
            } else {
                assert(wall(w, c, d2) == wall(v, c, d2));
                if !wall(v, c, d2) {
                    let i = choose|i: int|
                        0 <= i < v.carved.len() && (#[trigger] v.carved[i] == (c, nbr(v, c, d2))
                            || v.carved[i] == (nbr(v, c, d2), c));
                    assert(w.carved[i] == (c, m) || w.carved[i] == (m, c));
                }
                if exists|i: int|
                    0 <= i < w.carved.len() && (#[trigger] w.carved[i] == (c, nbr(w, c, d2))
                        || w.carved[i] == (nbr(w, c, d2), c)) {
                    let i = choose|i: int|
                        0 <= i < w.carved.len() && (#[trigger] w.carved[i] == (c, nbr(w, c, d2))
                            || w.carved[i] == (nbr(w, c, d2), c));
                    if i < n {
                        assert(v.carved[i] == (c, m) || v.carved[i] == (m, c));
                        assert(!wall(v, c, d2));
                    } else {
                        assert(w.carved[i] == (h, b));
                        if (c, m) == (h, b) {
                            lemma_nbr_inj(v, c, d2, d);
                            assert(false);
                        } else {
                            assert((m, c) == (h, b));
                            assert(nbr(v, m, opp(d2)) == c);
                            lemma_nbr_inj(v, h, opp(d2), d);
                            assert(false);
                        }
                    }
                }
            }
        }
    }
    assert(carved_ok(w)) by {
        assert forall|i: int| 0 <= i < w.carved.len() implies exists|d3: int|
            dir_ok(d3) && in_grid(w, (#[trigger] w.carved[i]).0) && has_nbr(w, w.carved[i].0, d3)
                && w.carved[i].1 == nbr(w, w.carved[i].0, d3) by {
            if i < n {
                let d3 = choose|d3: int|
                    dir_ok(d3) && in_grid(v, (v.carved[i]).0) && has_nbr(v, v.carved[i].0, d3)
                        && v.carved[i].1 == nbr(v, v.carved[i].0, d3);
                assert(dir_ok(d3) && in_grid(w, w.carved[i].0) && has_nbr(w, w.carved[i].0, d3)
                    && w.carved[i].1 == nbr(w, w.carved[i].0, d3));
            } else {
                assert(dir_ok(d) && in_grid(w, h) && has_nbr(w, h, d) && b == nbr(w, h, d));
            }
        }
        assert forall|i: int|
            0 <= i < w.carved.len() implies w.cells[(#[trigger] w.carved[i]).0].visited by {
            if i < n {
                let d3 = choose|d3: int|
                    dir_ok(d3) && in_grid(v, (v.carved[i]).0) && has_nbr(v, v.carved[i].0, d3)
                        && v.carved[i].1 == nbr(v, v.carved[i].0, d3);
                assert(in_grid(v, v.carved[i].0));
                assert(v.cells[v.carved[i].0].visited);
            } else {
                assert(w.carved[i].0 == h);
            }
        }
        assert forall|i: int|
            0 <= i < w.carved.len() implies w.cells[(#[trigger] w.carved[i]).1].visited
            || w.carved[i].1 == w.head by {
            if i < n {
                let d3 = choose|d3: int|
                    dir_ok(d3) && in_grid(v, (v.carved[i]).0) && has_nbr(v, v.carved[i].0, d3)
                        && v.carved[i].1 == nbr(v, v.carved[i].0, d3);
                lemma_nbr(v, v.carved[i].0, d3);
                assert(in_grid(v, v.carved[i].1));
                assert(v.cells[v.carved[i].1].visited || v.carved[i].1 == v.head);
            }
        }
        assert forall|i: int|
            0 <= i < w.carved.len() implies (#[trigger] w.carved[i]).1 != w.carved[i].0 by {
            if i >= n {
                assert(w.carved[i] == (h, b));
            }
        }
        assert forall|i: int, j: int|
            0 <= j < i < w.carved.len() implies (#[trigger] w.carved[i]).1
            != (#[trigger] w.carved[j]).1 && w.carved[i].1 != w.carved[j].0 by {
            if i < n {
                assert(v.carved[i].1 != v.carved[j].1 && v.carved[i].1 != v.carved[j].0);
            } else {
                let d3 = choose|d3: int|
                    dir_ok(d3) && in_grid(v, (v.carved[j]).0) && has_nbr(v, v.carved[j].0, d3)
                        && v.carved[j].1 == nbr(v, v.carved[j].0, d3);
                lemma_nbr(v, v.carved[j].0, d3);
                assert(v.cells[v.carved[j].0].visited);
                assert(v.cells[v.carved[j].1].visited || v.carved[j].1 == v.head);
                assert(w.carved[i].1 == b);
            }
        }
        assert(w.cells[b].visited == false);
        assert(v.visited == n + 1);
        assert(w.visited == w.carved.len() + 0);
    }
    assert(reach_ok(w)) by {
        lemma_reached_push(v.carved, (h, b));
        assert(reached(v.carved).contains(h));
        assert(reached(w.carved) == reached(v.carved).insert(b));
        assert forall|c: int|
            in_grid(w, c) && (#[trigger] w.cells[c]).visited implies reached(w.carved).contains(
            c,
        ) by {
            assert(v.cells[c].visited);
            assert(reached(v.carved).contains(c));
        }
    }
    assert(frontier_ok(w)) by {
        assert forall|c: int, d2: int|
            in_grid(w, c) && w.cells[c].visited && !w.stack.contains(c) && dir_ok(d2)
                && #[trigger] has_nbr(w, c, d2) implies w.cells[nbr(w, c, d2)].visited by {
            lemma_nbr(v, c, d2);
            assert(v.cells[c].visited);
            assert(!v.stack.contains(c)) by {
                if v.stack.contains(c) {
                    let i = choose|i: int| 0 <= i < v.stack.len() && v.stack[i] == c;
                    assert(w.stack[i] == c);
                }
            }
            assert(has_nbr(v, c, d2));
            assert(v.cells[nbr(v, c, d2)].visited);
        }
    }
}

/// Backtracking from a dead end keeps the state well formed. A dead end is a
/// head whose every in-bounds neighbor is already visited.
pub proof fn lemma_backtrack_wf(v: MazeView)
    requires
        wf(v),
        !spec_complete(v),
        v.cells[v.head].visited,
        forall|d: int|
            dir_ok(d) && #[trigger] has_nbr(v, v.head, d) ==> v.cells[nbr(v, v.head, d)].visited,
    ensures
        wf(backtrack(v)),
{
    if v.stack.len() >= 2 {
        let w = backtrack(v);
        let n = v.stack.len() as int;
        assert(v.stack[n - 1] == v.head);
        assert(forall|i: int| 0 <= i < n - 1 ==> #[trigger] w.stack[i] == v.stack[i]);
        assert(w.cells == v.cells);
        assert(w.carved == v.carved);
        assert(stack_ok(w)) by {
            assert(w.stack.last() == v.stack[n - 2]);
            assert(in_grid(v, v.stack[n - 2]));
            assert(v.cells[v.stack[n - 2]].visited);
        }
        assert(walls_ok(w)) by {
            assert forall|c: int, d2: int|
                in_grid(w, c) && dir_ok(d2) && #[trigger] has_nbr(w, c, d2) implies wall(w, c, d2)
                == wall(w, nbr(w, c, d2), opp(d2)) by {
                assert(has_nbr(v, c, d2));
            }
            assert forall|c: int, d2: int|
                in_grid(w, c) && dir_ok(d2) && !(#[trigger] has_nbr(w, c, d2)) implies wall(
                w,
                c,
                d2,
            ) by {
                assert(!has_nbr(v, c, d2));
            }
        }
        assert(open_iff_carved(w)) by {
            assert forall|c: int, d2: int|
                in_grid(w, c) && dir_ok(d2) && #[trigger] has_nbr(w, c, d2) implies (!wall(
                w,
                c,
                d2,
            ) <==> exists|i: int|
                0 <= i < w.carved.len() && (#[trigger] w.carved[i] == (c, nbr(w, c, d2))
                    || w.carved[i] == (nbr(w, c, d2), c))) by {
                assert(has_nbr(v, c, d2));
                assert(!wall(v, c, d2) <==> exists|i: int|
                    0 <= i < v.carved.len() && (#[trigger] v.carved[i] == (c, nbr(v, c, d2))
                        || v.carved[i] == (nbr(v, c, d2), c)));
            }
        }
        assert(carved_ok(w)) by {
            assert(v.visited == v.carved.len() + 1);
            assert(w.cells[w.head].visited) by {
                assert(v.cells[v.stack[n - 2]].visited);
            }
            assert forall|i: int| 0 <= i < w.carved.len() implies exists|d3: int|
                dir_ok(d3) && in_grid(w, (#[trigger] w.carved[i]).0) && has_nbr(
                    w,
                    w.carved[i].0,
                    d3,
                ) && w.carved[i].1 == nbr(w, w.carved[i].0, d3) by {
                let d3 = choose|d3: int|
                    dir_ok(d3) && in_grid(v, (v.carved[i]).0) && has_nbr(v, v.carved[i].0, d3)
                        && v.carved[i].1 == nbr(v, v.carved[i].0, d3);
                assert(dir_ok(d3) && in_grid(w, w.carved[i].0) && has_nbr(w, w.carved[i].0, d3)
                    && w.carved[i].1 == nbr(w, w.carved[i].0, d3));
            }
            assert forall|i: int|
                0 <= i < w.carved.len() implies w.cells[(#[trigger] w.carved[i]).1].visited
                || w.carved[i].1 == w.head by {
                assert(v.cells[v.carved[i].1].visited || v.carved[i].1 == v.head);
            }
        }
        assert(reach_ok(w)) by {
            assert(w.cells[w.head].visited);
            assert(in_grid(v, w.head));
        }
        assert(frontier_ok(w)) by {
            assert forall|c: int, d2: int|
                in_grid(w, c) && w.cells[c].visited && !w.stack.contains(c) && dir_ok(d2)
                    && #[trigger] has_nbr(w, c, d2) implies w.cells[nbr(w, c, d2)].visited by {
                assert(has_nbr(v, c, d2));
                if v.stack.contains(c) {
                    let i = choose|i: int| 0 <= i < v.stack.len() && v.stack[i] == c;
                    if i < n - 1 {
                        assert(w.stack[i] == c);
                        assert(false);
                    } else {
                        assert(c == v.head);
                        assert(v.cells[nbr(v, c, d2)].visited);
                    }
                } else {
                    assert(v.cells[nbr(v, c, d2)].visited);
                }
            }
        }
    }
}

/// One step from any well-formed state leaves a well-formed state; and a
/// completed state is left exactly as it is, whatever the random draw.
pub proof fn lemma_step_wf(v: MazeView, pick: int)
    requires
        wf(v),
    ensures
        wf(step_spec(v, pick)),
        spec_complete(v) ==> step_spec(v, pick) == v,
{
    if !spec_complete(v) {
        lemma_mark_wf(v);
        let v1 = mark_head(v);
        if !spec_complete(v1) {
            let cs = candidates(v1, v1.head);
            if cs.len() > 0 {
                lemma_cands(v1, v1.head, 4);
                lemma_mod_bound(pick, cs.len() as int);
                let d = cs[pick % (cs.len() as int)];
                assert(eligible(v1, v1.head, d));
                lemma_advance_wf(v1, d);
            } else {
                lemma_cands_empty(v1, v1.head);
                lemma_backtrack_wf(v1);
            }
        }
    }
}

/// A grid with every cell visited has a visited count equal to its size.
pub proof fn lemma_count_all_visited(cells: Seq<Cell>)
    requires
        forall|i: int| 0 <= i < cells.len() ==> (#[trigger] cells[i]).visited,
    ensures
        count_visited(cells) == cells.len(),
    decreases cells.len(),
{
    if cells.len() > 0 {
        lemma_count_all_visited(cells.drop_last());
    }
}

/// The cell at row `r`, column 0 of a visitation-closed grid is visited,
/// walking down from the visited start cell.
proof fn lemma_walk_col0(v: MazeView, r: int)
    requires
        dims_ok(v),
        v.cells.len() == total(v),
        v.cells[0].visited,
        forall|c: int, d: int|
            in_grid(v, c) && dir_ok(d) && #[trigger] has_nbr(v, c, d) && v.cells[c].visited
                ==> v.cells[nbr(v, c, d)].visited,
        0 <= r < v.height,
    ensures
        v.cells[r * v.width].visited,
    decreases r,
{
    if r > 0 {
        lemma_walk_col0(v, r - 1);
        let a = (r - 1) * v.width;
        assert(0 <= a < total(v) && a + v.width == r * v.width) by (nonlinear_arith)
            requires
                1 <= v.width,
                1 <= v.height,
                0 <= r - 1 < v.height,
                a == (r - 1) * v.width,
                total(v) == v.width * v.height,
        ;
        lemma_fundamental_div_mod_converse(a, v.width, r - 1, 0);
        assert(has_nbr(v, a, 2));
        assert(v.cells[nbr(v, a, 2)].visited);
    } else {
        assert(r * v.width == 0) by (nonlinear_arith)
            requires
                r == 0,
        ;
    }
}

/// Every cell of a visitation-closed grid is visited, walking right from
/// column 0.
proof fn lemma_walk_cell(v: MazeView, r: int, k: int)
    requires
        dims_ok(v),
        v.cells.len() == total(v),
        v.cells[0].visited,
        forall|c: int, d: int|
            in_grid(v, c) && dir_ok(d) && #[trigger] has_nbr(v, c, d) && v.cells[c].visited
                ==> v.cells[nbr(v, c, d)].visited,
        0 <= r < v.height,
        0 <= k < v.width,
    ensures
        v.cells[r * v.width + k].visited,
    decreases k,
{
    let a = r * v.width + k;
    assert(0 <= r * v.width && a < total(v)) by (nonlinear_arith)
        requires
            1 <= v.width,
            0 <= r < v.height,
            0 <= k < v.width,
            a == r * v.width + k,
            total(v) == v.width * v.height,
    ;
    lemma_fundamental_div_mod_converse(a, v.width, r, k);
    if k > 0 {
        lemma_walk_cell(v, r, k - 1);
        let b = r * v.width + (k - 1);
        lemma_fundamental_div_mod_converse(b, v.width, r, k - 1);
        assert(has_nbr(v, b, 1));
        assert(v.cells[nbr(v, b, 1)].visited);
    } else {
        lemma_walk_col0(v, r);
    }
}

/// While generation is incomplete, a dead-end head always has a stack entry
/// beneath it to backtrack to: the traversal never pops its start cell early.
pub proof fn lemma_no_underflow(v: MazeView)
    requires
        wf(v),
        !spec_complete(v),
        v.cells[v.head].visited,
        forall|d: int|
            dir_ok(d) && #[trigger] has_nbr(v, v.head, d) ==> v.cells[nbr(v, v.head, d)].visited,
    ensures
        v.stack.len() >= 2,
{
    if v.stack.len() < 2 {
        assert(v.stack[0] == 0);
        assert(v.head == 0);
        assert(v.cells[0].visited);
        assert forall|c: int, d: int|
            in_grid(v, c) && dir_ok(d) && #[trigger] has_nbr(v, c, d)
                && v.cells[c].visited implies v.cells[nbr(v, c, d)].visited by {
            if c == v.head {
            } else {
                assert(!v.stack.contains(c)) by {
                    if v.stack.contains(c) {
                        let i = choose|i: int| 0 <= i < v.stack.len() && v.stack[i] == c;
                        assert(v.stack[0] == c);
                    }
                }
            }
        }
        assert forall|c: int| 0 <= c < v.cells.len() implies (#[trigger] v.cells[c]).visited by {
            lemma_rowcol(v, c);
            lemma_walk_cell(v, row_of(v, c), col_of(v, c));
        }
        lemma_count_all_visited(v.cells);
        assert(false);
    }
}

/// Full coverage: once generation is complete, every cell has been visited,
/// and the visited count equals the number of cells.
pub proof fn lemma_full_coverage(v: MazeView)
    requires
        wf(v),
        spec_complete(v),
    ensures
        count_visited(v.cells) == total(v),
        forall|c: int| in_grid(v, c) ==> (#[trigger] v.cells[c]).visited,
{
    lemma_count_full(v.cells);
}

/// Symmetry of wall carving: across any internal edge, the wall on one side
/// is open exactly when the facing wall on the other side is.
pub proof fn lemma_wall_symmetry(v: MazeView, c: int, d: int)
    requires
        wf(v),
        in_grid(v, c),
        dir_ok(d),
        has_nbr(v, c, d),
    ensures
        wall(v, c, d) == wall(v, nbr(v, c, d), opp(d)),
{
}

/// Idempotence after completion: a step taken in a completed state changes
/// nothing, whatever the random draw.
pub proof fn lemma_step_idempotent(v: MazeView, pick: int)
    requires
        spec_complete(v),
    ensures
        step_spec(v, pick) == v,
{
}

/// Determinism under fixed randomness: two runs from equal states that draw
/// equal choices produce equal states - in particular equal wall flags and
/// an identical carve order.
pub proof fn lemma_deterministic(v1: MazeView, v2: MazeView, picks1: Seq<int>, picks2: Seq<int>)
    requires
        v1 == v2,
        picks1 == picks2,
    ensures
        run_spec(v1, picks1) == run_spec(v2, picks2),
        run_spec(v1, picks1).cells == run_spec(v2, picks2).cells,
        run_spec(v1, picks1).carved == run_spec(v2, picks2).carved,
{
}

/// Well-formedness holds along any whole run of steps. Together with the
/// well-formedness of a freshly built maze, any run that reaches completion
/// ends in a perfect maze.
pub proof fn lemma_run_wf(v: MazeView, picks: Seq<int>)
    requires
        wf(v),
    ensures
        wf(run_spec(v, picks)),
    decreases picks.len(),
{
    if picks.len() > 0 {
        lemma_step_wf(v, picks[0]);
        lemma_run_wf(step_spec(v, picks[0]), picks.drop_first());
    }
}

/// The perfect-maze shape of a completed state: the carve log holds exactly
/// `width * height - 1` edges, each an open wall between adjacent cells, no
/// two entering the same cell; every cell is connected to the start cell
/// through them; and every open wall is one of them.
pub proof fn lemma_perfect_maze(v: MazeView)
    requires
        wf(v),
        spec_complete(v),
    ensures
        v.carved.len() == total(v) - 1,
        forall|c: int| in_grid(v, c) ==> reached(v.carved).contains(c),
        forall|i: int| 0 <= i < v.carved.len() ==> edge_open(v, #[trigger] v.carved[i]),
        forall|i: int| 0 <= i < v.carved.len() ==> (#[trigger] v.carved[i]).1 != v.carved[i].0,
        forall|i: int, j: int|
            0 <= j < i < v.carved.len() ==> (#[trigger] v.carved[i]).1
                != (#[trigger] v.carved[j]).1 && v.carved[i].1 != v.carved[j].0,
        open_iff_carved(v),
{
    lemma_full_coverage(v);
    assert(v.stack[v.stack.len() - 1] == v.head);
    assert(in_grid(v, v.head));
    assert(v.cells[v.head].visited);
    assert(v.carved.len() == total(v) - 1);
    assert forall|c: int| in_grid(v, c) implies reached(v.carved).contains(c) by {
        assert(v.cells[c].visited);
    }
    assert forall|i: int| 0 <= i < v.carved.len() implies edge_open(
        v,
        #[trigger] v.carved[i],
    ) by {
        let d = choose|d: int|
            dir_ok(d) && in_grid(v, (v.carved[i]).0) && has_nbr(v, v.carved[i].0, d)
                && v.carved[i].1 == nbr(v, v.carved[i].0, d);
        lemma_nbr(v, v.carved[i].0, d);
        assert(!wall(v, v.carved[i].0, d));
        assert(!wall(v, v.carved[i].1, opp(d)));
    }
}

/// Appending one carved edge extends the reached set by the edge's target
/// when its source was already reached.
pub proof fn lemma_reached_push(carved: Seq<(int, int)>, e: (int, int))
    ensures
        reached(carved.push(e)) == (if reached(carved).contains(e.0) {
            reached(carved).insert(e.1)
        } else {
            reached(carved)
        }),
{
    assert(carved.push(e).drop_last() =~= carved);
    assert(carved.push(e).last() == e);
}

} // verus!
