//! The search state and the best-first search driver.
//!
//! A [`Traversal`] holds the mutable frontier of one search: a min-priority
//! open set of `(f score, cell index)` pairs, the fixed start/end index
//! pair, and the predecessor map used for path reconstruction. The driver
//! [`tick`] advances the search to completion: it pops lowest-`f` entries
//! until the end cell is popped (success: the path is reconstructed and
//! relabeled) or the open set is exhausted (no path).
//!
//! Duplicate open entries for one cell may coexist: there is no decrease-key
//! operation, a cell is simply pushed again whenever it is relaxed. A stale
//! entry is harmless, since a popped cell's recorded cost is never better
//! than its current one.

use std::collections::HashMap;

use vstd::prelude::*;

use crate::grid::{adjacent, contains_index, Cell, CellKind, Grid, G_INFINITY};
use crate::math::{dist_sq, euclidean, is_isqrt, SCALE};

verus! {

broadcast use vstd::std_specs::hash::group_hash_axioms;

/// The mutable state of one search over a grid.
pub struct Traversal {
    /// Min-priority open set: `(f score, cell index)` pairs, duplicates
    /// allowed.
    pub open_set: Vec<(u128, usize)>,
    /// Grid index of the start cell; fixed for the lifetime of the search.
    pub start: usize,
    /// Grid index of the end cell; fixed for the lifetime of the search.
    pub end: usize,
    /// Maps a cell index to the index of the cell that most recently relaxed
    /// it; never contains the start as a key.
    pub predecessors: HashMap<usize, usize>,
}

/// Sum of all cells' costs-so-far. Together with the open set's length it
/// is the termination measure of the search: a pop shrinks the open set,
/// and a relaxation pays for its push by strictly decreasing some cell's
/// cost.
pub open spec fn sum_g(s: Seq<Cell>) -> nat
    decreases s.len(),
{
    if s.len() == 0 {
        0
    } else {
        (sum_g(s.drop_last()) + s.last().g) as nat
    }
}

/// Rewriting one cell changes the total cost by the difference of the old
/// and new costs.
proof fn lemma_sum_g_update(s: Seq<Cell>, i: int, c: Cell)
    requires
        0 <= i < s.len(),
    ensures
        sum_g(s.update(i, c)) + s[i].g == sum_g(s) + c.g,
    decreases s.len(),
{
    if i == s.len() - 1 {
        assert(s.update(i, c).drop_last() =~= s.drop_last());
        assert(s.update(i, c).last() == c);
    } else {
        assert(s.update(i, c).drop_last() =~= s.drop_last().update(i, c));
        lemma_sum_g_update(s.drop_last(), i, c);
        assert(s.update(i, c).last() == s.last());
        assert(s.drop_last()[i] == s[i]);
    }
}

/// The cell's scores are consistent with a search toward the end cell at
/// `(ex, ey)`: its `f` is the fixed-point total `SCALE · g + h`, and its
/// `h` is the fixed-point Euclidean distance from the cell to `(ex, ey)`.
pub open spec fn scored(c: Cell, ex: int, ey: int) -> bool {
    &&& c.f as int == (c.g as int) * (SCALE as int) + (c.h as int)
    &&& is_isqrt(
        dist_sq(c.x as int, c.y as int, ex, ey) * (SCALE as int) * (SCALE as int),
        c.h as int,
    )
}

impl Traversal {
    /// An open entry indexes a discovered cell: its cost is finite, and it
    /// is not a wall (the seeded start is the one entry allowed to carry any
    /// classification). Walls are never relaxed, so they are never pushed.
    pub open spec fn open_entry_ok(self, grid: Grid, e: (u128, usize)) -> bool {
        &&& e.1 < grid.cells@.len()
        &&& grid.cells@[e.1 as int].g < G_INFINITY
        &&& (grid.cells@[e.1 as int].kind != CellKind::Wall || e.1 == self.start)
        &&& (e.1 == self.start || self.predecessors@.contains_key(e.1))
    }

    /// A predecessor entry records one relaxation: the key is a relaxed
    /// cell, so it is never the start, never a wall, and its finite cost
    /// lies strictly above its predecessor's; the two cells are adjacent.
    pub open spec fn pred_entry_ok(self, grid: Grid, k: usize) -> bool {
        let v = self.predecessors@[k];
        &&& k < grid.cells@.len()
        &&& v < grid.cells@.len()
        &&& k != self.start
        &&& grid.cells@[k as int].kind != CellKind::Wall
        &&& (grid.cells@[v as int].kind != CellKind::Wall || v == self.start)
        &&& grid.cells@[v as int].g < grid.cells@[k as int].g
        &&& grid.cells@[k as int].g < G_INFINITY
        &&& (v == self.start || self.predecessors@.contains_key(v))
        &&& adjacent(
            grid.x_of(k as int),
            grid.y_of(k as int),
            grid.x_of(v as int),
            grid.y_of(v as int),
        )
    }

    /// Well-formedness of the search state relative to its grid.
    pub open spec fn wf(self, grid: Grid) -> bool {
        &&& self.start < grid.cells@.len()
        &&& self.end < grid.cells@.len()
        &&& grid.cells@[self.start as int].g == 0
        &&& forall|j: int|
            0 <= j < self.open_set@.len() ==> self.open_entry_ok(
                grid,
                #[trigger] self.open_set@[j],
            )
        &&& forall|k: usize|
            #[trigger] self.predecessors@.contains_key(k) ==> self.pred_entry_ok(grid, k)
    }

    /// A fresh traversal from `start` to `end`: empty open set, empty
    /// predecessor map. Seed it with [`Traversal::seed`] before ticking.
    pub fn new(start: usize, end: usize) -> (t: Traversal)
        ensures
            t.start == start,
            t.end == end,
            t.open_set@.len() == 0,
            t.predecessors@ == Map::<usize, usize>::empty(),
    {
        Traversal { open_set: Vec::new(), start, end, predecessors: HashMap::new() }
    }

    /// Computes the start cell's scores (`g = 0`, `h` = fixed-point distance
    /// to the end, `f = h`) and seeds the open set with the start entry.
    pub fn seed(&mut self, grid: &mut Grid)
        requires
            old(grid).wf(),
            old(self).start < old(grid).cells@.len(),
            old(self).end < old(grid).cells@.len(),
            old(self).open_set@.len() == 0,
            old(self).predecessors@ == Map::<usize, usize>::empty(),
        ensures
            final(grid).wf(),
            final(self).wf(*final(grid)),
            final(self).start == old(self).start,
            final(self).end == old(self).end,
            final(self).predecessors@ == old(self).predecessors@,
            final(grid).rows == old(grid).rows,
            final(grid).columns == old(grid).columns,
            final(grid).cells@.len() == old(grid).cells@.len(),
            forall|j: int|
                0 <= j < final(grid).cells@.len() && j != old(self).start
                    ==> final(grid).cells@[j] == old(grid).cells@[j],
            final(grid).cells@[old(self).start as int].g == 0,
            final(grid).cells@[old(self).start as int].kind
                == old(grid).cells@[old(self).start as int].kind,
            final(grid).cells@[old(self).start as int].x
                == old(grid).cells@[old(self).start as int].x,
            final(grid).cells@[old(self).start as int].y
                == old(grid).cells@[old(self).start as int].y,
            final(grid).cells@[old(self).start as int].f
                == final(grid).cells@[old(self).start as int].h as u128,
            scored(
                final(grid).cells@[old(self).start as int],
                old(grid).cells@[old(self).end as int].x as int,
                old(grid).cells@[old(self).end as int].y as int,
            ),
            final(self).open_set@.len() == 1,
            final(self).open_set@[0].1 == old(self).start,
            final(self).open_set@[0].0 == final(grid).cells@[old(self).start as int].f,
            (forall|i: int|
                0 <= i < old(grid).cells@.len() && i != old(self).start && (#[trigger] old(
                    grid,
                ).cells@[i]).kind != CellKind::Wall ==> old(grid).cells@[i].g == G_INFINITY)
                ==> covered(*final(grid), *final(self)),
    {
        proof {
            grid.lemma_coords_idx(self.start as int);
            grid.lemma_coords_idx(self.end as int);
        }
        let sx = grid.cells[self.start].x;
        let sy = grid.cells[self.start].y;
        let ex = grid.cells[self.end].x;
        let ey = grid.cells[self.end].y;
        let h = euclidean(sx, sy, ex, ey);
        let mut cell = grid.cells[self.start];
        cell.g = 0;
        cell.h = h;
        cell.f = h as u128;
        let s = self.start;
        let ghost gpre = *grid;
        grid.cells[s] = cell;
        self.open_set.push((h as u128, s));
        proof {
            if forall|i: int|
                0 <= i < gpre.cells@.len() && i != s && (#[trigger] gpre.cells@[i]).kind
                    != CellKind::Wall ==> gpre.cells@[i].g == G_INFINITY {
                assert forall|i: int| 0 <= i < grid.cells@.len() implies #[trigger] covered_at(
                    *grid,
                    *self,
                    i,
                ) by {
                    if i == s {
                        assert(self.open_set@[0].1 == s);
                    } else {
                        assert(grid.cells@[i] == gpre.cells@[i]);
                    }
                }
                assert(covered(*grid, *self));
            }
        }
    }

    /// Removes and returns an entry carrying the least `f` score; ties go to
    /// the entry pushed earliest.
    fn pop_min(&mut self) -> (e: (u128, usize))
        requires
            old(self).open_set@.len() > 0,
        ensures
            exists|j: int|
                0 <= j < old(self).open_set@.len() && old(self).open_set@[j] == e
                    && final(self).open_set@ == old(self).open_set@.remove(j),
            forall|q: int|
                0 <= q < final(self).open_set@.len()
                    ==> e.0 <= (#[trigger] final(self).open_set@[q]).0,
            forall|q: int|
                0 <= q < final(self).open_set@.len() ==> exists|q0: int|
                    0 <= q0 < old(self).open_set@.len() && (#[trigger] final(self).open_set@[q])
                        == old(self).open_set@[q0],
            final(self).open_set@.len() == old(self).open_set@.len() - 1,
            final(self).start == old(self).start,
            final(self).end == old(self).end,
            final(self).predecessors@ == old(self).predecessors@,
    {
        let ghost os = self.open_set@;
        let mut best: usize = 0;
        let mut i: usize = 1;
        while i < self.open_set.len()
            invariant
                self.open_set@ == os,
                0 < i <= os.len(),
                best < i,
                forall|j: int| 0 <= j < i ==> os[best as int].0 <= (#[trigger] os[j]).0,
            decreases os.len() - i,
        {
            if self.open_set[i].0 < self.open_set[best].0 {
                best = i;
            }
            i = i + 1;
        }
        let e = self.open_set.remove(best);
        proof {
            assert(self.open_set@ == os.remove(best as int));
            assert forall|q: int| 0 <= q < self.open_set@.len() implies e.0 <= (
            #[trigger] self.open_set@[q]).0 && exists|q0: int|
                0 <= q0 < os.len() && self.open_set@[q] == os[q0] by {
                if q < best {
                    assert(self.open_set@[q] == os[q]);
                } else {
                    assert(self.open_set@[q] == os[q + 1]);
                }
            }
        }
        e
    }
}

/// `c` is a walk through the predecessor map: every element but the last is
/// a key whose predecessor is the next element.
pub open spec fn is_pred_chain(m: Map<usize, usize>, c: Seq<usize>) -> bool {
    forall|j: int| 0 <= j < c.len() - 1 ==> m.contains_key(#[trigger] c[j]) && c[j + 1] == m[c[j]]
}

/// `c` is the complete backward walk of `m` from `end`: it starts at `end`
/// and stops on reaching `start` or a cell with no recorded predecessor.
pub open spec fn chain_ends(m: Map<usize, usize>, start: usize, end: usize, c: Seq<usize>) -> bool {
    &&& c.len() >= 1
    &&& c[0] == end
    &&& is_pred_chain(m, c)
    &&& (c.last() == start || !m.contains_key(c.last()))
}

/// The walk `c` visits cell index `i`.
pub open spec fn on_chain(c: Seq<usize>, i: int) -> bool {
    exists|j: int| 0 <= j < c.len() && (#[trigger] c[j]) == i
}

/// After reconstruction along the walk `c`, the cells classified `Path` are
/// exactly those that already were, plus the interior of the walk: its
/// members other than the start and end cells.
pub open spec fn marks_exactly(
    pre: Seq<Cell>,
    post: Seq<Cell>,
    start: usize,
    end: usize,
    c: Seq<usize>,
) -> bool {
    forall|i: int|
        0 <= i < post.len() ==> ((#[trigger] post[i]).kind == CellKind::Path <==> (pre[i].kind
            == CellKind::Path || (on_chain(c, i) && i != start && i != end)))
}

/// The walk `c` visits cell index `i` strictly after its first element.
pub open spec fn visits_interior(c: Seq<usize>, i: int) -> bool {
    exists|j: int| 1 <= j < c.len() && (#[trigger] c[j]) == i
}

/// Extending a walk by one element extends the set of cells visited after
/// the first element by exactly that element.
proof fn lemma_push_visits(c0: Seq<usize>, p: usize, i: int)
    requires
        c0.len() >= 1,
    ensures
        visits_interior(c0.push(p), i) <==> (visits_interior(c0, i) || p == i),
{
    let c1 = c0.push(p);
    if visits_interior(c1, i) {
        let j = choose|j: int| 1 <= j < c1.len() && (#[trigger] c1[j]) == i;
        if j < c0.len() {
            assert(c0[j] == i);
        } else {
            assert(p == i);
        }
    }
    if visits_interior(c0, i) {
        let j = choose|j: int| 1 <= j < c0.len() && (#[trigger] c0[j]) == i;
        assert(c1[j] == i);
    }
    if p == i {
        assert(c1[c1.len() - 1] == p);
    }
}

/// Path reconstruction: walks `predecessors` backward from the end cell
/// until the start or a cell with no recorded predecessor is reached, and
/// relabels each visited cell `Path`; the start and end cells are left as
/// they are.
#[verifier::rlimit(60)]
fn mark_path(grid: &mut Grid, tr: &Traversal)
    requires
        old(grid).wf(),
        tr.wf(*old(grid)),
    ensures
        final(grid).wf(),
        tr.wf(*final(grid)),
        final(grid).rows == old(grid).rows,
        final(grid).columns == old(grid).columns,
        final(grid).cells@.len() == old(grid).cells@.len(),
        forall|i: int|
            0 <= i < final(grid).cells@.len() ==> {
                let c0 = old(grid).cells@[i];
                let c1 = #[trigger] final(grid).cells@[i];
                c1 == c0 || (c1 == (Cell { kind: CellKind::Path, ..c0 }) && c0.kind
                    != CellKind::Wall && i != tr.start && i != tr.end)
            },
        exists|c: Seq<usize>|
            chain_ends(tr.predecessors@, tr.start, tr.end, c) && marks_exactly(
                old(grid).cells@,
                final(grid).cells@,
                tr.start,
                tr.end,
                c,
            ),
{
    let ghost g0 = *grid;
    let ghost pre = grid.cells@;
    let mut current: usize = tr.end;
    let ghost mut c: Seq<usize> = seq![tr.end];
    let mut done = false;
    while !done
        invariant
            grid.wf(),
            tr.wf(*grid),
            grid.rows == g0.rows,
            grid.columns == g0.columns,
            grid.cells@.len() == pre.len(),
            pre == g0.cells@,
            forall|i: int|
                0 <= i < grid.cells@.len() ==> {
                    let c0 = pre[i];
                    let c1 = #[trigger] grid.cells@[i];
                    c1 == c0 || (c1 == (Cell { kind: CellKind::Path, ..c0 }) && c0.kind
                        != CellKind::Wall && i != tr.start && i != tr.end)
                },
            c.len() >= 1,
            c[0] == tr.end,
            c.last() == current,
            is_pred_chain(tr.predecessors@, c),
            current < grid.cells@.len(),
            forall|j: int| 0 <= j < c.len() ==> (#[trigger] c[j]) < grid.cells@.len(),
            forall|j1: int, j2: int|
                #![trigger c[j1], c[j2]]
                0 <= j1 < j2 < c.len() ==> grid.cells@[c[j2] as int].g
                    < grid.cells@[c[j1] as int].g,
            forall|i: int|
                0 <= i < grid.cells@.len() ==> ((#[trigger] grid.cells@[i]).kind == CellKind::Path
                    <==> (pre[i].kind == CellKind::Path || (visits_interior(c, i) && i
                        != tr.start))),
            done ==> (current == tr.start || !tr.predecessors@.contains_key(current)),
        decreases grid.cells@[current as int].g, (if done { 0int } else { 1int }),
    {
        let prev = current;
        match tr.predecessors.get(&prev) {
            None => {
                done = true;
            },
            Some(p_ref) => {
                let p = *p_ref;
                proof {
                    assert(tr.predecessors@.contains_key(prev));
                    assert(tr.pred_entry_ok(*grid, prev));
                    assert(tr.predecessors@[prev] == p);
                    assert(grid.cells@[p as int].g < grid.cells@[prev as int].g);
                    assert forall|j: int| 0 <= j < c.len() implies grid.cells@[p as int].g
                        < grid.cells@[(#[trigger] c[j]) as int].g by {
                        if j < c.len() - 1 {
                            assert(grid.cells@[c[c.len() - 1] as int].g
                                < grid.cells@[c[j] as int].g);
                        }
                    }
                }
                current = p;
                let ghost c_old = c;
                proof {
                    c = c.push(p);
                    assert(c.last() == p);
                    assert(forall|j: int| 0 <= j < c_old.len() ==> c[j] == c_old[j]);
                    assert forall|i: int| #[trigger]
                        visits_interior(c, i) <==> (visits_interior(c_old, i) || p == i) by {
                        lemma_push_visits(c_old, p, i);
                    }
                }
                if current == tr.start {
                    done = true;
                } else {
                    proof {
                        // the cell about to be relabeled is a predecessor
                        // value other than the start, hence not a wall, and
                        // its cost lies strictly below the end's, hence it
                        // is not the end
                        assert(grid.cells@[p as int].kind != CellKind::Wall);
                        assert(grid.cells@[p as int].g < grid.cells@[c[0] as int].g);
                        assert(p != tr.end);
                        if pre[p as int].kind == CellKind::Wall {
                            assert(grid.cells@[p as int] == pre[p as int]);
                        }
                    }
                    let ghost gprev = *grid;
                    let mut cellv = grid.cells[current];
                    cellv.kind = CellKind::Path;
                    grid.cells[current] = cellv;
                    proof {
                        assert(grid.cells@ == gprev.cells@.update(p as int, cellv));
                        assert forall|k: usize|
                            #[trigger] tr.predecessors@.contains_key(k) implies tr.pred_entry_ok(
                            *grid,
                            k,
                        ) by {
                            assert(tr.pred_entry_ok(gprev, k));
                        }
                        assert forall|j: int|
                            0 <= j < tr.open_set@.len() implies tr.open_entry_ok(
                            *grid,
                            #[trigger] tr.open_set@[j],
                        ) by {
                            assert(tr.open_entry_ok(gprev, tr.open_set@[j]));
                        }
                        assert(c[c.len() - 1] == p);
                        assert(visits_interior(c, p as int));
                    }
                }
            },
        }
    }
    proof {
        assert(chain_ends(tr.predecessors@, tr.start, tr.end, c));
        assert forall|i: int| 0 <= i < grid.cells@.len() implies ((#[trigger] grid.cells@[i]).kind
            == CellKind::Path <==> (pre[i].kind == CellKind::Path || (on_chain(c, i) && i
            != tr.start && i != tr.end))) by {
            if on_chain(c, i) && i != tr.start && i != tr.end {
                let j = choose|j: int| 0 <= j < c.len() && (#[trigger] c[j]) == i;
                if j == 0 {
                    assert(i == tr.end);
                    assert(false);
                } else {
                    assert(1 <= j < c.len() && c[j] == i);
                    assert(visits_interior(c, i));
                }
            }
            if grid.cells@[i].kind == CellKind::Path && pre[i].kind != CellKind::Path {
                assert(visits_interior(c, i));
                let j = choose|j: int| 1 <= j < c.len() && (#[trigger] c[j]) == i;
                assert(grid.cells@[c[j] as int].g < grid.cells@[c[0] as int].g);
                assert(i != tr.end);
                assert(c[j] == i);
                assert(on_chain(c, i));
            }
        }
        assert(marks_exactly(pre, grid.cells@, tr.start, tr.end, c));
    }
}

/// Reconstruction has run over the predecessor map: some complete backward
/// walk from the end exists whose interior cells are exactly the ones newly
/// classified `Path` between the cell states `pre` and `post`.
pub open spec fn reconstructed(pre: Grid, post: Grid, t1: Traversal, start: usize, end: usize) -> bool {
    exists|c: Seq<usize>|
        chain_ends(t1.predecessors@, start, end, c) && marks_exactly(
            pre.cells@,
            post.cells@,
            start,
            end,
            c,
        )
}

/// Every in-bounds neighbor of cell `i` has a cost within one uniform step
/// of `i`'s own: the cell has nothing left to offer the search.
pub open spec fn fully_relaxed(grid: Grid, i: int) -> bool {
    forall|w: int|
        0 <= w < grid.cells@.len() && adjacent(
            grid.x_of(i),
            grid.y_of(i),
            grid.x_of(w),
            grid.y_of(w),
        ) ==> (#[trigger] grid.cells@[w]).g as int <= grid.cells@[i].g + 1
}

/// Cell `i` holds the search up in no way: if it is a discovered non-Wall
/// cell, it either still waits in the open set or has already offered its
/// cost to every neighbor.
pub open spec fn covered_at(grid: Grid, tr: Traversal, i: int) -> bool {
    (grid.cells@[i].kind != CellKind::Wall && grid.cells@[i].g < G_INFINITY) ==> ((exists|q: int|
        0 <= q < tr.open_set@.len() && (#[trigger] tr.open_set@[q]).1 == i) || fully_relaxed(
        grid,
        i,
    ))
}

/// The open set covers the whole discovered region: every discovered
/// non-Wall cell waits in the open set or is fully expanded. A freshly
/// seeded search satisfies this (see [`Traversal::seed`]), and it is what
/// makes the search complete: the open set cannot empty while a reachable
/// cell is undiscovered.
pub open spec fn covered(grid: Grid, tr: Traversal) -> bool {
    forall|i: int| 0 <= i < grid.cells@.len() ==> #[trigger] covered_at(grid, tr, i)
}

/// An 8-connected sequence of in-bounds non-Wall cells leading from
/// `start` to `end`.
pub open spec fn free_path(grid: Grid, p: Seq<usize>, start: usize, end: usize) -> bool {
    &&& p.len() >= 1
    &&& p[0] == start
    &&& p.last() == end
    &&& forall|j: int|
        0 <= j < p.len() ==> (#[trigger] p[j]) < grid.cells@.len() && grid.cells@[p[j] as int].kind
            != CellKind::Wall
    &&& forall|j: int|
        #![trigger p[j]]
        0 <= j < p.len() - 1 ==> adjacent(
            grid.x_of(p[j] as int),
            grid.y_of(p[j] as int),
            grid.x_of(p[j + 1] as int),
            grid.y_of(p[j + 1] as int),
        )
}

/// When the open set has emptied over a covered state, costs have
/// propagated along every free path: the cell `j` steps along such a path
/// has cost at most `j`.
proof fn lemma_exhausted_frontier_bounds(grid: Grid, tr: Traversal, p: Seq<usize>, j: int)
    requires
        grid.wf(),
        tr.wf(grid),
        tr.open_set@.len() == 0,
        covered(grid, tr),
        free_path(grid, p, tr.start, tr.end),
        0 <= j < p.len(),
    ensures
        grid.cells@[p[j] as int].g as int <= j,
    decreases j,
{
    if j > 0 {
        lemma_exhausted_frontier_bounds(grid, tr, p, j - 1);
        if j - 1 < G_INFINITY {
            assert(covered_at(grid, tr, p[j - 1] as int));
            assert(fully_relaxed(grid, p[j - 1] as int));
            assert(grid.cells@[p[j] as int].g as int <= grid.cells@[p[j - 1] as int].g + 1);
        }
    }
}

/// One invocation of the search driver: repeatedly pops the lowest-`f`
/// entry from the open set. If the popped cell is the end, the path is
/// reconstructed (its interior cells relabeled `Path`) and the call
/// returns; if the open set empties first, no path exists and every cell
/// keeps its classification. Each other popped cell relaxes every neighbor
/// whose cost would improve at one uniform step beyond its own: the
/// neighbor's scores and predecessor are rewritten and it is pushed.
///
/// A single call runs the search to completion. Costs only ever decrease,
/// and a cell's cost decreases exactly when it (re)gains a predecessor; a
/// Wall cell, with its cost pinned at zero, is never relaxed, which is what
/// makes walls impassable. The search is complete: started on a [`covered`]
/// state (a freshly seeded search is one), it discovers the end whenever a
/// [`free_path`] joins the start to it, and whenever the end's cost drops
/// the path is reconstructed before the call returns.
#[verifier::rlimit(100)]
pub fn tick(grid: &mut Grid, tr: &mut Traversal)
    requires
        old(grid).wf(),
        old(tr).wf(*old(grid)),
    ensures
        final(grid).wf(),
        final(tr).wf(*final(grid)),
        final(tr).start == old(tr).start,
        final(tr).end == old(tr).end,
        final(grid).rows == old(grid).rows,
        final(grid).columns == old(grid).columns,
        final(grid).cells@.len() == old(grid).cells@.len(),
        forall|i: int|
            0 <= i < final(grid).cells@.len() ==> {
                let c0 = old(grid).cells@[i];
                let c1 = #[trigger] final(grid).cells@[i];
                &&& c1.x == c0.x
                &&& c1.y == c0.y
                &&& c1.g <= c0.g
                &&& (c0.kind == CellKind::Wall ==> c1 == c0)
                &&& (c1.kind == c0.kind || (c1.kind == CellKind::Path && i != old(tr).start && i
                    != old(tr).end && c0.kind != CellKind::Wall))
                &&& (c1.g == c0.g ==> c1.h == c0.h && c1.f == c0.f)
                &&& (c1.g < c0.g ==> scored(
                    c1,
                    old(grid).cells@[old(tr).end as int].x as int,
                    old(grid).cells@[old(tr).end as int].y as int,
                ) && final(tr).predecessors@.contains_key(i as usize))
            },
        forall|k: usize| #[trigger]
            old(tr).predecessors@.contains_key(k) ==> final(tr).predecessors@.contains_key(k),
        forall|k: usize|
            #[trigger] final(tr).predecessors@.contains_key(k) && !old(
                tr,
            ).predecessors@.contains_key(k) ==> final(grid).cells@[k as int].g < old(
                grid,
            ).cells@[k as int].g,
        (old(tr).start == old(tr).end && old(tr).open_set@.len() == 1 && old(
            tr,
        ).open_set@[0].1 == old(tr).start && old(tr).predecessors@ == Map::<usize, usize>::empty())
            ==> (final(tr).open_set@.len() == 0 && final(tr).predecessors@ == old(
            tr,
        ).predecessors@ && final(grid).cells@ == old(grid).cells@),
        (covered(*old(grid), *old(tr)) && (exists|p: Seq<usize>|
            free_path(*old(grid), p, old(tr).start, old(tr).end) && p.len() <= G_INFINITY))
            ==> final(grid).cells@[old(tr).end as int].g < G_INFINITY,
        (final(tr).open_set@.len() == 0 && (forall|i: int|
            0 <= i < final(grid).cells@.len() ==> (#[trigger] final(grid).cells@[i]).kind == old(
                grid,
            ).cells@[i].kind)) || (final(grid).cells@[old(tr).end as int].g < G_INFINITY
            && reconstructed(*old(grid), *final(grid), *final(tr), old(tr).start, old(tr).end)),
        final(grid).cells@[old(tr).end as int].g < old(grid).cells@[old(tr).end as int].g ==> (
        final(grid).cells@[old(tr).end as int].g < G_INFINITY && reconstructed(
            *old(grid),
            *final(grid),
            *final(tr),
            old(tr).start,
            old(tr).end,
        )),
{
    let ghost g0 = *grid;
    let ghost t0 = *tr;
    let ghost lone_start = t0.start == t0.end && t0.open_set@.len() == 1 && t0.open_set@[0].1
        == t0.start && t0.predecessors@ == Map::<usize, usize>::empty();
    let ghost base_cov = covered(g0, t0);
    loop
        invariant
            grid.wf(),
            tr.wf(*grid),
            g0.wf(),
            g0 == *old(grid),
            t0 == *old(tr),
            lone_start == (t0.start == t0.end && t0.open_set@.len() == 1 && t0.open_set@[0].1
                == t0.start && t0.predecessors@ == Map::<usize, usize>::empty()),
            lone_start ==> (grid.cells@ == g0.cells@ && tr.predecessors@ == t0.predecessors@
                && tr.open_set@ == t0.open_set@),
            base_cov == covered(g0, t0),
            base_cov ==> covered(*grid, *tr),
            grid.cells@[t0.end as int].g < g0.cells@[t0.end as int].g ==> (exists|q: int|
                0 <= q < tr.open_set@.len() && (#[trigger] tr.open_set@[q]).1 == t0.end),
            tr.start == t0.start,
            tr.end == t0.end,
            grid.rows == g0.rows,
            grid.columns == g0.columns,
            grid.cells@.len() == g0.cells@.len(),
            forall|i: int|
                0 <= i < grid.cells@.len() ==> {
                    let c0 = g0.cells@[i];
                    let c1 = #[trigger] grid.cells@[i];
                    &&& c1.x == c0.x
                    &&& c1.y == c0.y
                    &&& c1.kind == c0.kind
                    &&& c1.g <= c0.g
                    &&& (c0.kind == CellKind::Wall ==> c1 == c0)
                    &&& (c1.g == c0.g ==> c1.h == c0.h && c1.f == c0.f)
                    &&& (c1.g < c0.g ==> scored(
                        c1,
                        g0.cells@[t0.end as int].x as int,
                        g0.cells@[t0.end as int].y as int,
                    ) && tr.predecessors@.contains_key(i as usize))
                },
            forall|k: usize| #[trigger]
                t0.predecessors@.contains_key(k) ==> tr.predecessors@.contains_key(k),
            forall|k: usize|
                #[trigger] tr.predecessors@.contains_key(k) && !t0.predecessors@.contains_key(k)
                    ==> grid.cells@[k as int].g < g0.cells@[k as int].g,
        decreases tr.open_set@.len() + sum_g(grid.cells@),
    {
        if tr.open_set.len() == 0 {
            proof {
                if base_cov && (exists|p: Seq<usize>|
                    free_path(g0, p, t0.start, t0.end) && p.len() <= G_INFINITY) {
                    let p = choose|p: Seq<usize>|
                        free_path(g0, p, t0.start, t0.end) && p.len() <= G_INFINITY;
                    assert forall|jj: int| 0 <= jj < p.len() implies (#[trigger] p[jj])
                        < grid.cells@.len() && grid.cells@[p[jj] as int].kind != CellKind::Wall by {
                        assert(g0.cells@[p[jj] as int].kind != CellKind::Wall);
                    }
                    assert(free_path(*grid, p, tr.start, tr.end));
                    lemma_exhausted_frontier_bounds(*grid, *tr, p, p.len() - 1);
                    assert(grid.cells@[t0.end as int].g < G_INFINITY);
                }
            }
            return ;
        }
        let ghost tr_pre = *tr;
        let e = tr.pop_min();
        let current = e.1;
        proof {
            assert(tr_pre.open_entry_ok(*grid, e));
            assert forall|q: int| 0 <= q < tr.open_set@.len() implies tr.open_entry_ok(
                *grid,
                #[trigger] tr.open_set@[q],
            ) by {
                let q0 = choose|q0: int|
                    0 <= q0 < tr_pre.open_set@.len() && tr.open_set@[q] == tr_pre.open_set@[q0];
                assert(tr_pre.open_entry_ok(*grid, tr_pre.open_set@[q0]));
            }
            assert forall|k: usize| #[trigger]
                tr.predecessors@.contains_key(k) implies tr.pred_entry_ok(*grid, k) by {
                assert(tr_pre.pred_entry_ok(*grid, k));
            }
            if lone_start {
                let j0 = choose|j: int|
                    0 <= j < tr_pre.open_set@.len() && tr_pre.open_set@[j] == e && tr.open_set@
                        == tr_pre.open_set@.remove(j);
                assert(j0 == 0);
                assert(e == t0.open_set@[0]);
                assert(current == tr.end);
                assert(tr.open_set@.len() == 0);
            }
            if grid.cells@[t0.end as int].g < g0.cells@[t0.end as int].g && current != t0.end {
                let je = choose|jj: int|
                    0 <= jj < tr_pre.open_set@.len() && tr_pre.open_set@[jj] == e && tr.open_set@
                        == tr_pre.open_set@.remove(jj);
                let q0 = choose|q: int|
                    0 <= q < tr_pre.open_set@.len() && (#[trigger] tr_pre.open_set@[q]).1
                        == t0.end;
                if q0 < je {
                    assert(tr.open_set@[q0] == tr_pre.open_set@[q0]);
                } else {
                    assert(tr.open_set@[q0 - 1] == tr_pre.open_set@[q0]);
                }
            }
            if base_cov {
                let jr = choose|jj: int|
                    0 <= jj < tr_pre.open_set@.len() && tr_pre.open_set@[jj] == e && tr.open_set@
                        == tr_pre.open_set@.remove(jj);
                assert forall|i: int|
                    0 <= i < grid.cells@.len() && i != current implies #[trigger] covered_at(
                    *grid,
                    *tr,
                    i,
                ) by {
                    assert(covered_at(*grid, tr_pre, i));
                    if grid.cells@[i].kind != CellKind::Wall && grid.cells@[i].g < G_INFINITY
                        && !fully_relaxed(*grid, i) {
                        let q0 = choose|q: int|
                            0 <= q < tr_pre.open_set@.len() && (#[trigger] tr_pre.open_set@[q]).1
                                == i;
                        if q0 < jr {
                            assert(tr.open_set@[q0] == tr_pre.open_set@[q0]);
                        } else {
                            assert(tr.open_set@[q0 - 1] == tr_pre.open_set@[q0]);
                        }
                    }
                }
            }
        }
        if current == tr.end {
            let ghost mid = grid.cells@;
            mark_path(grid, tr);
            proof {
                let c = choose|c: Seq<usize>|
                    chain_ends(tr.predecessors@, tr.start, tr.end, c) && marks_exactly(
                        mid,
                        grid.cells@,
                        tr.start,
                        tr.end,
                        c,
                    );
                assert(marks_exactly(g0.cells@, grid.cells@, t0.start, t0.end, c));
                assert(grid.cells@[t0.end as int].g < G_INFINITY);
                assert(chain_ends(tr.predecessors@, t0.start, t0.end, c) && marks_exactly(
                    g0.cells@,
                    grid.cells@,
                    t0.start,
                    t0.end,
                    c,
                ));
                assert(reconstructed(g0, *grid, *tr, t0.start, t0.end));
                if lone_start {
                    // the predecessor map is empty, so the walk holds only
                    // the end cell and reconstruction relabels nothing
                    if c.len() >= 2 {
                        assert(tr.predecessors@.contains_key(c[0]));
                        assert(false);
                    }
                    assert forall|i: int| 0 <= i < grid.cells@.len() implies grid.cells@[i]
                        == g0.cells@[i] by {
                        if grid.cells@[i] != mid[i] {
                            assert(grid.cells@[i].kind == CellKind::Path);
                            assert(mid[i].kind != CellKind::Path);
                            assert(on_chain(c, i) && i != t0.end);
                            let j = choose|j: int| 0 <= j < c.len() && (#[trigger] c[j]) == i;
                            assert(j == 0);
                            assert(false);
                        }
                    }
                    assert(grid.cells@ =~= g0.cells@);
                }
            }
            return ;
        }
        let cur_g = grid.cells[current].g;
        let candidate = cur_g + 1;
        let cx = grid.cells[current].x;
        let cy = grid.cells[current].y;
        proof {
            grid.lemma_coords_idx(current as int);
        }
        let ns = grid.neighbors(cx, cy);
        let ghost m_bound = tr.open_set@.len() + sum_g(grid.cells@);
        let mut j: usize = 0;
        while j < ns.len()
            invariant
                grid.wf(),
                tr.wf(*grid),
                g0.wf(),
                g0 == *old(grid),
                t0 == *old(tr),
                tr.start == t0.start,
                tr.end == t0.end,
                grid.rows == g0.rows,
                grid.columns == g0.columns,
                grid.cells@.len() == g0.cells@.len(),
                forall|i: int|
                    0 <= i < grid.cells@.len() ==> {
                        let c0 = g0.cells@[i];
                        let c1 = #[trigger] grid.cells@[i];
                        &&& c1.x == c0.x
                        &&& c1.y == c0.y
                        &&& c1.kind == c0.kind
                        &&& c1.g <= c0.g
                        &&& (c0.kind == CellKind::Wall ==> c1 == c0)
                        &&& (c1.g == c0.g ==> c1.h == c0.h && c1.f == c0.f)
                        &&& (c1.g < c0.g ==> scored(
                            c1,
                            g0.cells@[t0.end as int].x as int,
                            g0.cells@[t0.end as int].y as int,
                        ) && tr.predecessors@.contains_key(i as usize))
                    },
                forall|k: usize| #[trigger]
                    t0.predecessors@.contains_key(k) ==> tr.predecessors@.contains_key(k),
                forall|k: usize|
                    #[trigger] tr.predecessors@.contains_key(k) && !t0.predecessors@.contains_key(
                        k,
                    ) ==> grid.cells@[k as int].g < g0.cells@[k as int].g,
                !lone_start,
                base_cov == covered(g0, t0),
                base_cov ==> (forall|i: int|
                    0 <= i < grid.cells@.len() && i != current ==> #[trigger] covered_at(
                        *grid,
                        *tr,
                        i,
                    )),
                forall|q: int|
                    0 <= q < j ==> grid.cells@[(#[trigger] ns@[q]) as int].g <= candidate,
                forall|nx: int, ny: int|
                    grid.in_bounds(nx, ny) && adjacent(cx as int, cy as int, nx, ny)
                        ==> contains_index(ns@, grid.spec_idx(nx, ny)),
                grid.cells@[t0.end as int].g < g0.cells@[t0.end as int].g ==> (exists|q: int|
                    0 <= q < tr.open_set@.len() && (#[trigger] tr.open_set@[q]).1 == t0.end),
                j <= ns@.len(),
                current < grid.cells@.len(),
                cur_g < G_INFINITY,
                candidate == cur_g + 1,
                grid.cells@[current as int].g == cur_g,
                grid.cells@[current as int].kind != CellKind::Wall || current == tr.start,
                current == tr.start || tr.predecessors@.contains_key(current),
                cx == grid.x_of(current as int),
                cy == grid.y_of(current as int),
                forall|q: int|
                    0 <= q < ns@.len() ==> {
                        let n = #[trigger] ns@[q];
                        n < grid.cells@.len() && adjacent(
                            cx as int,
                            cy as int,
                            grid.x_of(n as int),
                            grid.y_of(n as int),
                        )
                    },
                tr.open_set@.len() + sum_g(grid.cells@) <= m_bound,
            decreases ns@.len() - j,
        {
            let n = ns[j];
            let ng = grid.cells[n].g;
            if candidate < ng {
                proof {
                    grid.lemma_coords_idx(n as int);
                    grid.lemma_coords_idx(current as int);
                    grid.lemma_coords_idx(tr.end as int);
                    assert(n != current);
                }
                let nx = grid.cells[n].x;
                let ny = grid.cells[n].y;
                let ex = grid.cells[tr.end].x;
                let ey = grid.cells[tr.end].y;
                let h = euclidean(nx, ny, ex, ey);
                proof {
                    assert((candidate as int) * (SCALE as int) + (h as int) <= u128::MAX as int)
                        by (nonlinear_arith)
                        requires
                            candidate <= 0xffff_ffff_ffff_ffffu64,
                            h <= 0xffff_ffff_ffff_ffffu64,
                            SCALE == 1024u64,
                    ;
                }
                let f = (candidate as u128) * (SCALE as u128) + (h as u128);
                let ghost gprev = *grid;
                let ghost cells_before = grid.cells@;
                let ghost tr_before = *tr;
                let mut cellv = grid.cells[n];
                cellv.g = candidate;
                cellv.h = h;
                cellv.f = f;
                grid.cells[n] = cellv;
                tr.predecessors.insert(n, current);
                tr.open_set.push((f, n));
                proof {
                    lemma_sum_g_update(cells_before, n as int, cellv);
                    // a wall's cost is zero and the candidate cost is
                    // positive, so the relaxation guard rules walls out;
                    // the start's cost is zero for the same reason
                    assert(cells_before[n as int].kind != CellKind::Wall);
                    assert(n != tr.start);
                    assert(ex == g0.cells@[t0.end as int].x && ey == g0.cells@[t0.end as int].y);
                    assert(cellv.f as int == (cellv.g as int) * (SCALE as int) + (cellv.h as int));
                    assert(scored(
                        cellv,
                        g0.cells@[t0.end as int].x as int,
                        g0.cells@[t0.end as int].y as int,
                    ));
                    assert forall|q: int| 0 <= q < tr.open_set@.len() implies tr.open_entry_ok(
                        *grid,
                        #[trigger] tr.open_set@[q],
                    ) by {
                        if q < tr.open_set@.len() - 1 {
                            assert(tr.open_set@[q] == tr_before.open_set@[q]);
                            assert(tr_before.open_entry_ok(gprev, tr_before.open_set@[q]));
                        } else {
                            assert(tr.open_set@[q] == (f, n));
                        }
                    }
                    assert forall|k: usize| #[trigger]
                        tr.predecessors@.contains_key(k) implies tr.pred_entry_ok(*grid, k) by {
                        if k != n {
                            assert(tr_before.predecessors@.contains_key(k));
                            assert(tr_before.pred_entry_ok(gprev, k));
                        }
                    }
                    if grid.cells@[t0.end as int].g < g0.cells@[t0.end as int].g {
                        if n == t0.end {
                            assert(tr.open_set@[tr.open_set@.len() - 1].1 == t0.end);
                        } else {
                            assert(gprev.cells@[t0.end as int].g < g0.cells@[t0.end as int].g);
                            let q0 = choose|q: int|
                                0 <= q < tr_before.open_set@.len() && (
                                #[trigger] tr_before.open_set@[q]).1 == t0.end;
                            assert(tr.open_set@[q0] == tr_before.open_set@[q0]);
                        }
                    }
                    if base_cov {
                        assert forall|i: int|
                            0 <= i < grid.cells@.len() && i != current implies #[trigger] covered_at(
                            *grid,
                            *tr,
                            i,
                        ) by {
                            if i == n {
                                assert(tr.open_set@[tr.open_set@.len() - 1].1 == n);
                            } else {
                                assert(covered_at(gprev, tr_before, i));
                                assert(grid.cells@[i] == gprev.cells@[i]);
                                if gprev.cells@[i].kind != CellKind::Wall && gprev.cells@[i].g
                                    < G_INFINITY {
                                    if !fully_relaxed(gprev, i) {
                                        let q0 = choose|q: int|
                                            0 <= q < tr_before.open_set@.len() && (
                                            #[trigger] tr_before.open_set@[q]).1 == i;
                                        assert(tr.open_set@[q0] == tr_before.open_set@[q0]);
                                    } else {
                                        assert forall|w: int|
                                            0 <= w < grid.cells@.len() && adjacent(
                                                grid.x_of(i),
                                                grid.y_of(i),
                                                grid.x_of(w),
                                                grid.y_of(w),
                                            ) implies (#[trigger] grid.cells@[w]).g as int
                                            <= grid.cells@[i].g + 1 by {
                                            assert(gprev.cells@[w].g as int <= gprev.cells@[i].g
                                                + 1);
                                        }
                                        assert(fully_relaxed(*grid, i));
                                    }
                                }
                            }
                        }
                    }
                }
            }
            j = j + 1;
        }
        proof {
            if base_cov {
                assert forall|w: int|
                    0 <= w < grid.cells@.len() && adjacent(
                        grid.x_of(current as int),
                        grid.y_of(current as int),
                        grid.x_of(w),
                        grid.y_of(w),
                    ) implies (#[trigger] grid.cells@[w]).g as int <= grid.cells@[current as int].g
                    + 1 by {
                    grid.lemma_coords_idx(w);
                    let sidx = grid.spec_idx(grid.x_of(w), grid.y_of(w));
                    assert(sidx == w);
                    assert(contains_index(ns@, sidx));
                    let q = choose|qq: int| 0 <= qq < ns@.len() && ns@[qq] == sidx;
                    assert(grid.cells@[(ns@[q]) as int].g <= candidate);
                }
                assert(fully_relaxed(*grid, current as int));
                assert forall|i: int| 0 <= i < grid.cells@.len() implies #[trigger] covered_at(
                    *grid,
                    *tr,
                    i,
                ) by {
                    if i != current {
                        assert(covered_at(*grid, *tr, i));
                    }
                }
                assert(covered(*grid, *tr));
            }
        }
    }
}

/// Law: along any predecessor walk the recorded costs strictly decrease,
/// so a walk never revisits a cell — reconstruction cannot cycle — and a
/// walk never takes more steps than the cost recorded at its head.
pub proof fn lemma_chain_costs_decrease(tr: Traversal, grid: Grid, c: Seq<usize>, j1: int, j2: int)
    requires
        tr.wf(grid),
        is_pred_chain(tr.predecessors@, c),
        0 <= j1 < j2 < c.len(),
    ensures
        c[j2] < grid.cells@.len(),
        c[j1] < grid.cells@.len(),
        grid.cells@[c[j2] as int].g + (j2 - j1) <= grid.cells@[c[j1] as int].g,
        c[j1] != c[j2],
    decreases j2 - j1,
{
    assert(tr.predecessors@.contains_key(c[j1]));
    assert(tr.pred_entry_ok(grid, c[j1]));
    if j1 + 1 == j2 {
    } else {
        lemma_chain_costs_decrease(tr, grid, c, j1 + 1, j2);
    }
}

/// Law: a predecessor walk visits each cell exactly once — no index occurs
/// twice in it.
pub proof fn lemma_chain_no_duplicates(tr: Traversal, grid: Grid, c: Seq<usize>)
    requires
        tr.wf(grid),
        is_pred_chain(tr.predecessors@, c),
    ensures
        c.no_duplicates(),
{
    assert forall|j1: int, j2: int|
        0 <= j1 < c.len() && 0 <= j2 < c.len() && j1 != j2 implies c[j1] != c[j2] by {
        if j1 < j2 {
            lemma_chain_costs_decrease(tr, grid, c, j1, j2);
        } else {
            lemma_chain_costs_decrease(tr, grid, c, j2, j1);
        }
    }
}

/// Chebyshev distance between two coordinates: the least number of
/// 8-connected steps from one to the other.
pub open spec fn cheb(x1: int, y1: int, x2: int, y2: int) -> int {
    let dx = if x1 >= x2 {
        x1 - x2
    } else {
        x2 - x1
    };
    let dy = if y1 >= y2 {
        y1 - y2
    } else {
        y2 - y1
    };
    if dx >= dy {
        dx
    } else {
        dy
    }
}

/// Law: one 8-connected step changes the Chebyshev distance to a fixed
/// coordinate by at most one, so a predecessor walk takes at least the
/// Chebyshev distance between its endpoints many steps. In particular no
/// reconstructed path is shorter than the Chebyshev distance between the
/// end and start cells.
pub proof fn lemma_chain_at_least_chebyshev(tr: Traversal, grid: Grid, c: Seq<usize>)
    requires
        tr.wf(grid),
        is_pred_chain(tr.predecessors@, c),
        c.len() >= 1,
        c[0] < grid.cells@.len(),
    ensures
        cheb(
            grid.x_of(c[0] as int),
            grid.y_of(c[0] as int),
            grid.x_of(c.last() as int),
            grid.y_of(c.last() as int),
        ) <= c.len() - 1,
    decreases c.len(),
{
    if c.len() > 1 {
        assert(tr.predecessors@.contains_key(c[0]));
        assert(tr.pred_entry_ok(grid, c[0]));
        let rest = c.subrange(1, c.len() as int);
        assert(forall|j: int| 0 <= j < rest.len() ==> rest[j] == c[j + 1]);
        assert(is_pred_chain(tr.predecessors@, rest)) by {
            assert forall|j: int|
                0 <= j < rest.len() - 1 implies tr.predecessors@.contains_key(#[trigger] rest[j])
                && rest[j + 1] == tr.predecessors@[rest[j]] by {
                assert(rest[j] == c[j + 1]);
                assert(rest[j + 1] == c[j + 2]);
            }
        }
        lemma_chain_at_least_chebyshev(tr, grid, rest);
        assert(rest.last() == c.last());
        assert(rest[0] == c[1]);
    }
}

/// Law: the backward walk from the end never runs into a dead end: every
/// predecessor value is the start or itself a key, so a complete walk of
/// two or more cells ends exactly at the start.
pub proof fn lemma_walk_ends_at_start(tr: Traversal, grid: Grid, c: Seq<usize>)
    requires
        tr.wf(grid),
        chain_ends(tr.predecessors@, tr.start, tr.end, c),
        c.len() >= 2,
    ensures
        c.last() == tr.start,
{
    if c.last() != tr.start {
        let j = c.len() - 2;
        assert(tr.predecessors@.contains_key(c[j]));
        assert(tr.pred_entry_ok(grid, c[j]));
        assert(tr.predecessors@.contains_key(c.last()));
    }
}

/// Law: the reconstruction walk, taken from the end cell of a search state
/// whose end has a recorded predecessor (or equals the start), runs all the
/// way to the start, visits each cell exactly once, takes no more steps
/// than the end's recorded cost, and no fewer than the Chebyshev distance
/// between end and start.
pub proof fn lemma_reconstruction_walk(tr: Traversal, grid: Grid, c: Seq<usize>)
    requires
        tr.wf(grid),
        chain_ends(tr.predecessors@, tr.start, tr.end, c),
        tr.end == tr.start || tr.predecessors@.contains_key(tr.end),
    ensures
        c.no_duplicates(),
        c.last() == tr.start,
        c.len() - 1 <= grid.cells@[tr.end as int].g,
        cheb(
            grid.x_of(tr.end as int),
            grid.y_of(tr.end as int),
            grid.x_of(tr.start as int),
            grid.y_of(tr.start as int),
        ) <= c.len() - 1,
{
    lemma_chain_no_duplicates(tr, grid, c);
    // the start is never a predecessor key
    if tr.predecessors@.contains_key(tr.start) {
        assert(tr.pred_entry_ok(grid, tr.start));
        assert(false);
    }
    if c.len() == 1 {
        // a one-cell walk stops at its head: the end either is the start or
        // has no predecessor, and the latter is ruled out by the hypothesis
        assert(c.last() == c[0]);
        assert(c.last() == tr.start);
    } else {
        lemma_walk_ends_at_start(tr, grid, c);
        lemma_chain_costs_decrease(tr, grid, c, 0, c.len() - 1);
        assert(grid.cells@[c.last() as int].g == 0);
    }
    lemma_chain_at_least_chebyshev(tr, grid, c);
}

/// Law: in a grid whose every cell other than the start and end is a Wall,
/// with the two endpoints distinct and not adjacent, a tick exhausts the
/// open set without reaching anything: no cell is relabeled, the end keeps
/// its undiscovered cost, and no predecessor is ever recorded for it. The
/// hypotheses on `pre`, `post` and `t1` are [`tick`]'s postconditions.
pub proof fn lemma_walled_grid_marks_nothing(
    pre: Grid,
    post: Grid,
    t1: Traversal,
    start: usize,
    end: usize,
)
    requires
        t1.wf(post),
        t1.start == start,
        t1.end == end,
        start != end,
        pre.cells@.len() == post.cells@.len(),
        forall|i: int|
            0 <= i < pre.cells@.len() && i != start && i != end ==> (#[trigger] pre.cells@[i]).kind
                == CellKind::Wall,
        forall|i: int|
            0 <= i < pre.cells@.len() ==> (#[trigger] pre.cells@[i]).kind != CellKind::Path,
        pre.cells@[end as int].g == G_INFINITY,
        !adjacent(
            post.x_of(start as int),
            post.y_of(start as int),
            post.x_of(end as int),
            post.y_of(end as int),
        ),
        forall|i: int|
            0 <= i < post.cells@.len() ==> {
                let c0 = pre.cells@[i];
                let c1 = #[trigger] post.cells@[i];
                &&& (c1.kind == c0.kind || (c1.kind == CellKind::Path && i != start && i != end
                    && c0.kind != CellKind::Wall))
                &&& c1.g <= c0.g
                &&& (c1.g < c0.g ==> t1.predecessors@.contains_key(i as usize))
            },
        t1.open_set@.len() == 0 || post.cells@[end as int].g < G_INFINITY,
    ensures
        t1.open_set@.len() == 0,
        forall|i: int|
            0 <= i < post.cells@.len() ==> (#[trigger] post.cells@[i]).kind != CellKind::Path,
        !t1.predecessors@.contains_key(end),
        post.cells@[end as int].g == G_INFINITY,
{
    // the end's recorded predecessor would have to be an adjacent non-Wall
    // cell; only the start is not a Wall, and it is not adjacent
    if t1.predecessors@.contains_key(end) {
        assert(t1.pred_entry_ok(post, end));
        let v = t1.predecessors@[end];
        assert(post.cells@[v as int].kind != CellKind::Wall || v == start);
        if v != start {
            assert(pre.cells@[v as int].kind != CellKind::Wall);
            assert(v == end);
            assert(post.cells@[v as int].g < post.cells@[end as int].g);
            assert(false);
        }
        assert(adjacent(
            post.x_of(end as int),
            post.y_of(end as int),
            post.x_of(start as int),
            post.y_of(start as int),
        ));
        assert(false);
    }
    assert(post.cells@[end as int].g == G_INFINITY);
}

} // verus!
