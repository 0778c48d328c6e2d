//! The column sweep: the abstract grid that every backpointer strategy
//! maintains, the rule that picks each node's predecessor, and the engine
//! that drives any strategy through one step.
use crate::score::{order_key, Score};
use vstd::prelude::*;

verus! {

/// What the sweep has decided for one node: its aggregated cost and the row
/// of its predecessor in the previous column, if it has one.
#[derive(Clone, Copy, Debug)]
pub struct Cell {
    pub cost: Score,
    pub parent: Option<usize>,
}

/// A node before its step has run: cost zero, no predecessor.
pub open spec fn fresh_cell() -> Cell {
    Cell { cost: Score::spec_zero(), parent: None }
}

pub open spec fn fresh_column(height: nat) -> Seq<Cell> {
    Seq::new(height, |r: int| fresh_cell())
}

pub open spec fn key_of(s: Score) -> int {
    order_key(s.spec_bits())
}

/// The index of the first minimum among the present entries of `row[..n]`.
pub open spec fn best_prefix(row: Seq<Option<Score>>, n: int) -> Option<int>
    decreases n,
{
    if n <= 0 {
        None
    } else {
        let b = best_prefix(row, n - 1);
        match row[n - 1] {
            None => b,
            Some(s) => match b {
                None => Some(n - 1),
                Some(i) => if key_of(s) < key_of(row[i].unwrap()) {
                    Some(n - 1)
                } else {
                    Some(i)
                },
            },
        }
    }
}

/// The index of the first minimum among the present entries of `row`.
pub open spec fn best_candidate(row: Seq<Option<Score>>) -> Option<int> {
    best_prefix(row, row.len() as int)
}

/// `p` is the first present entry of `row` that no other present entry undercuts.
pub open spec fn is_first_minimum(row: Seq<Option<Score>>, p: int) -> bool {
    &&& 0 <= p < row.len()
    &&& row[p] is Some
    &&& forall|q: int|
        0 <= q < p && #[trigger] row[q] is Some ==> key_of(row[p].unwrap()) < key_of(
            row[q].unwrap(),
        )
    &&& forall|q: int|
        p < q < row.len() && #[trigger] row[q] is Some ==> key_of(row[p].unwrap()) <= key_of(
            row[q].unwrap(),
        )
}

/// The cell a node gets from its candidate costs, one per predecessor row
/// (absent where the sum was not a number).
pub open spec fn next_cell(row: Seq<Option<Score>>) -> Cell {
    match best_candidate(row) {
        Some(p) => Cell { cost: row[p].unwrap(), parent: Some(p as usize) },
        None => fresh_cell(),
    }
}

/// The column a step produces from its candidate matrix
/// (`candidates[child][parent]`).
pub open spec fn next_column(candidates: Seq<Seq<Option<Score>>>) -> Seq<Cell> {
    Seq::new(candidates.len(), |c: int| next_cell(candidates[c]))
}

/// What a sequence of steps produces from an empty grid.
pub open spec fn sweep(fed: Seq<Seq<Seq<Option<Score>>>>) -> Seq<Seq<Cell>>
    decreases fed.len(),
{
    if fed.len() == 0 {
        Seq::empty()
    } else {
        sweep(fed.drop_last()).push(next_column(fed.last()))
    }
}

/// The view of a candidate matrix.
pub open spec fn candidate_rows(candidates: Seq<Vec<Option<Score>>>) -> Seq<
    Seq<Option<Score>>,
> {
    Seq::new(candidates.len(), |c: int| candidates[c]@)
}

/// The rows met when following backpointers from row `r` of column `i`,
/// oldest first; it stops early at a node without a predecessor.
pub open spec fn trail(grid: Seq<Seq<Cell>>, i: int, r: int) -> Seq<usize>
    decreases i,
{
    if i <= 0 {
        seq![r as usize]
    } else {
        match grid[i][r].parent {
            Some(p) => trail(grid, i - 1, p as int).push(r as usize),
            None => seq![r as usize],
        }
    }
}

/// The row of the cheapest node of the last column (the first one on ties).
pub open spec fn terminal_row(grid: Seq<Seq<Cell>>) -> Option<int> {
    best_candidate(Seq::new(grid.last().len(), |r: int| Some(grid.last()[r].cost)))
}

/// The cheapest path: one row per column, ending at the cheapest node of the
/// last column; `None` when there is no column or no row, or when the trail
/// breaks off before column 0.
pub open spec fn path_of(grid: Seq<Seq<Cell>>) -> Option<Seq<usize>> {
    if grid.len() == 0 {
        None
    } else {
        match terminal_row(grid) {
            None => None,
            Some(t) => {
                let tr = trail(grid, grid.len() - 1, t);
                if tr.len() == grid.len() {
                    Some(tr)
                } else {
                    None
                }
            },
        }
    }
}

/// A grid of `height` rows whose backpointers point into the previous column.
pub open spec fn grid_shaped(grid: Seq<Seq<Cell>>, height: nat) -> bool {
    &&& forall|i: int| 0 <= i < grid.len() ==> (#[trigger] grid[i]).len() == height
    &&& forall|i: int, r: int|
        0 <= i < grid.len() && 0 <= r < height ==> match (#[trigger] grid[i][r]).parent {
            Some(p) => i > 0 && p < height,
            None => true,
        }
}

/// The candidate matrix of the next step of a grid: one row per node, each
/// with one entry per node of the previous column (none before column 0).
pub open spec fn candidates_fit(
    candidates: Seq<Seq<Option<Score>>>,
    columns_done: nat,
    height: nat,
) -> bool {
    &&& candidates.len() == height
    &&& forall|c: int|
        0 <= c < height ==> (#[trigger] candidates[c]).len() == if columns_done == 0 {
            0
        } else {
            height
        }
}

/// Storage for the nodes of a sweep and their backpointers. The sweep sees a
/// strategy only through these methods, and every strategy keeps the same
/// abstract grid.
pub trait Simulation: Sized {
    /// The grid of the columns begun so far, as the sweep sees it.
    spec fn grid(&self) -> Seq<Seq<Cell>>;

    spec fn width(&self) -> nat;

    spec fn height(&self) -> nat;

    /// The storage agrees with `grid`.
    spec fn valid(&self) -> bool;

    /// A valid strategy's grid has `height` rows in each column, and its
    /// backpointers point into the column before.
    proof fn lemma_shaped(&self)
        requires
            self.valid(),
        ensures
            grid_shaped(self.grid(), self.height()),
            self.height() <= usize::MAX,
    ;

    /// Begins the next column: `height` fresh nodes.
    fn prepare_step_slices(&mut self)
        requires
            old(self).valid(),
            old(self).grid().len() < old(self).width(),
        ensures
            final(self).valid(),
            final(self).width() == old(self).width(),
            final(self).height() == old(self).height(),
            final(self).grid() == old(self).grid().push(fresh_column(old(self).height())),
    ;

    /// Sets the aggregated cost of node `child` of the column being built.
    fn set_aggregated_cost(&mut self, child: usize, cost: Score)
        requires
            old(self).valid(),
            old(self).grid().len() > 0,
            child < old(self).height(),
        ensures
            final(self).valid(),
            final(self).width() == old(self).width(),
            final(self).height() == old(self).height(),
            final(self).grid() == old(self).grid().update(
                old(self).grid().len() - 1,
                old(self).grid().last().update(
                    child as int,
                    Cell { cost, parent: old(self).grid().last()[child as int].parent },
                ),
            ),
    ;

    /// Records node `parent` of the previous column as the predecessor of
    /// node `child` of the column being built.
    fn set_parent_of(&mut self, parent: usize, child: usize)
        requires
            old(self).valid(),
            old(self).grid().len() > 1,
            parent < old(self).height(),
            child < old(self).height(),
        ensures
            final(self).valid(),
            final(self).width() == old(self).width(),
            final(self).height() == old(self).height(),
            final(self).grid() == old(self).grid().update(
                old(self).grid().len() - 1,
                old(self).grid().last().update(
                    child as int,
                    Cell { cost: old(self).grid().last()[child as int].cost, parent: Some(parent) },
                ),
            ),
    ;

    /// The number of columns begun so far.
    fn columns_done(&self) -> (r: usize)
        requires
            self.valid(),
        ensures
            r == self.grid().len(),
    ;

    fn grid_height(&self) -> (r: usize)
        requires
            self.valid(),
        ensures
            r == self.height(),
    ;

    fn grid_width(&self) -> (r: usize)
        requires
            self.valid(),
        ensures
            r == self.width(),
    ;

    /// The aggregated costs of the last column begun (empty before the first).
    fn last_costs(&self) -> (r: Vec<Score>)
        requires
            self.valid(),
        ensures
            self.grid().len() == 0 ==> r@.len() == 0,
            self.grid().len() > 0 ==> r@ == Seq::new(
                self.grid().last().len(),
                |k: int| self.grid().last()[k].cost,
            ),
    ;

    /// The cheapest path through the grid, one row per column.
    fn reconstruct_path(&self) -> (r: Option<Vec<usize>>)
        requires
            self.valid(),
        ensures
            r matches Some(v) ==> path_of(self.grid()) == Some(v@),
            r is None ==> path_of(self.grid()) is None,
    ;
}

/// The first minimum among the present candidates: the predecessor a node takes.
pub fn select_best(row: &Vec<Option<Score>>) -> (r: Option<usize>)
    ensures
        r matches Some(p) ==> best_candidate(row@) == Some(p as int),
        r is None ==> best_candidate(row@) is None,
        r matches Some(p) ==> is_first_minimum(row@, p as int),
        r is None <==> forall|q: int| 0 <= q < row@.len() ==> #[trigger] row@[q] is None,
{
    let mut best: Option<usize> = None;
    let mut i: usize = 0;
    while i < row.len()
        invariant
            i <= row@.len(),
            best matches Some(p) ==> best_prefix(row@, i as int) == Some(p as int),
            best is None ==> best_prefix(row@, i as int) is None,
            best matches Some(p) ==> {
                &&& p < i
                &&& row@[p as int] is Some
                &&& forall|q: int|
                    0 <= q < p && #[trigger] row@[q] is Some ==> key_of(row@[p as int].unwrap())
                        < key_of(row@[q].unwrap())
                &&& forall|q: int|
                    p < q < i && #[trigger] row@[q] is Some ==> key_of(row@[p as int].unwrap())
                        <= key_of(row@[q].unwrap())
            },
            best is None <==> forall|q: int| 0 <= q < i ==> #[trigger] row@[q] is None,
        decreases row@.len() - i,
    {
        match &row[i] {
            None => {},
            Some(s) => {
                match best {
                    None => {
                        best = Some(i);
                    },
                    Some(p) => {
                        let cur = row[p].unwrap();
                        if s.less_than(&cur) {
                            best = Some(i);
                        }
                    },
                }
            },
        }
        i = i + 1;
    }
    best
}

/// One step of the sweep on any strategy: begins the next column and gives
/// each of its nodes the cheapest of its candidates and that predecessor.
/// `candidates[child][parent]` is the cost of reaching `child` through
/// `parent`, absent where the sum is not a number. Columns already built are
/// left as they were.
pub fn simulate_step<S: Simulation>(sim: &mut S, candidates: &Vec<Vec<Option<Score>>>)
    requires
        old(sim).valid(),
        old(sim).grid().len() < old(sim).width(),
        candidates_fit(
            candidate_rows(candidates@),
            old(sim).grid().len(),
            old(sim).height(),
        ),
    ensures
        final(sim).valid(),
        final(sim).width() == old(sim).width(),
        final(sim).height() == old(sim).height(),
        final(sim).grid() == old(sim).grid().push(next_column(candidate_rows(candidates@))),
{
    let ghost rows = candidate_rows(candidates@);
    let ghost before = sim.grid();
    let height = sim.grid_height();
    sim.prepare_step_slices();
    let mut c: usize = 0;
    while c < height
        invariant
            sim.valid(),
            sim.width() == old(sim).width(),
            sim.height() == height,
            c <= height,
            rows == candidate_rows(candidates@),
            candidates_fit(rows, before.len(), height as nat),
            sim.grid().len() == before.len() + 1,
            sim.grid().drop_last() == before,
            sim.grid().last().len() == height,
            forall|k: int| 0 <= k < c ==> #[trigger] sim.grid().last()[k] == next_cell(rows[k]),
            forall|k: int| c <= k < height ==> #[trigger] sim.grid().last()[k] == fresh_cell(),
        decreases height - c,
    {
        assert(candidates[c as int]@ == rows[c as int]);
        let choice = select_best(&candidates[c]);
        match choice {
            Some(p) => {
                let cost = candidates[c][p].unwrap();
                let ghost g0 = sim.grid();
                sim.set_aggregated_cost(c, cost);
                assert(before.len() > 0);
                sim.set_parent_of(p, c);
                assert(sim.grid().drop_last() =~= before) by {
                    assert(g0.drop_last() =~= before);
                }
            },
            None => {},
        }
        c = c + 1;
    }
    assert(sim.grid().last() =~= next_column(rows));
    assert(sim.grid() =~= before.push(next_column(rows)));
}

/// The cheapest entry of `costs` (the first one on ties); `None` when empty.
pub fn cheapest(costs: &Vec<Score>) -> (r: Option<usize>)
    ensures
        r matches Some(t) ==> best_candidate(Seq::new(costs@.len(), |k: int| Some(costs@[k])))
            == Some(t as int),
        r is None ==> best_candidate(Seq::new(costs@.len(), |k: int| Some(costs@[k]))) is None,
        r matches Some(t) ==> t < costs@.len(),
        r is None <==> costs@.len() == 0,
{
    let mut row: Vec<Option<Score>> = Vec::new();
    let mut k: usize = 0;
    while k < costs.len()
        invariant
            k <= costs@.len(),
            row@ == Seq::new(k as nat, |j: int| Some(costs@[j])),
        decreases costs@.len() - k,
    {
        row.push(Some(costs[k]));
        k = k + 1;
    }
    assert(row@ =~= Seq::new(costs@.len(), |j: int| Some(costs@[j])));
    let r = select_best(&row);
    if costs.len() > 0 {
        assert(row@[0] is Some);
    }
    r
}

/// Two grids with the same backpointers up to column `i` give the same trails
/// from column `i`.
pub proof fn lemma_trail_frame(g1: Seq<Seq<Cell>>, g2: Seq<Seq<Cell>>, height: nat, i: int, r: int)
    requires
        grid_shaped(g1, height),
        0 <= i < g1.len(),
        i < g2.len(),
        0 <= r < height,
        forall|j: int, k: int|
            0 <= j <= i && 0 <= k < height ==> (#[trigger] g1[j][k]).parent == g2[j][k].parent,
    ensures
        trail(g1, i, r) == trail(g2, i, r),
    decreases i,
{
    if i > 0 {
        match g1[i][r].parent {
            Some(p) => {
                lemma_trail_frame(g1, g2, height, i - 1, p as int);
            },
            None => {},
        }
    }
}

/// The first minimum of a prefix is a present entry of that prefix.
pub proof fn lemma_best_prefix_in_range(row: Seq<Option<Score>>, n: int)
    requires
        0 <= n <= row.len(),
    ensures
        best_prefix(row, n) matches Some(i) ==> 0 <= i < n && row[i] is Some,
        (exists|q: int| 0 <= q < n && #[trigger] row[q] is Some) ==> best_prefix(row, n) is Some,
    decreases n,
{
    if n > 0 {
        lemma_best_prefix_in_range(row, n - 1);
        if exists|q: int| 0 <= q < n && #[trigger] row[q] is Some {
            let q = choose|q: int| 0 <= q < n && #[trigger] row[q] is Some;
            if q < n - 1 {
                assert(best_prefix(row, n - 1) is Some);
            }
        }
    }
}

/// What a trail is made of: at most one row per column up to `i`, rows of
/// the grid, ending at `r`; and where it reaches column 0, each entry is
/// the recorded predecessor of the next.
pub proof fn lemma_trail_shape(grid: Seq<Seq<Cell>>, height: nat, i: int, r: int)
    requires
        grid_shaped(grid, height),
        height <= usize::MAX,
        0 <= i < grid.len(),
        0 <= r < height,
    ensures
        1 <= trail(grid, i, r).len() <= i + 1,
        trail(grid, i, r).last() == r,
        forall|k: int| 0 <= k < trail(grid, i, r).len() ==> #[trigger] trail(grid, i, r)[k] < height,
        trail(grid, i, r).len() == i + 1 ==> forall|k: int|
            0 <= k < i ==> grid[k + 1][#[trigger] trail(grid, i, r)[k + 1] as int].parent == Some(
                trail(grid, i, r)[k],
            ),
        (forall|j: int, k: int|
            0 < j <= i && 0 <= k < height ==> (#[trigger] grid[j][k]).parent is Some) ==> trail(
            grid,
            i,
            r,
        ).len() == i + 1,
    decreases i,
{
    if i > 0 {
        match grid[i][r].parent {
            Some(p) => {
                lemma_trail_shape(grid, height, i - 1, p as int);
                let t0 = trail(grid, i - 1, p as int);
                let t = trail(grid, i, r);
                assert(t == t0.push(r as usize));
                assert forall|k: int| 0 <= k < t.len() implies #[trigger] t[k] < height by {
                    if k < t0.len() {
                        assert(t[k] == t0[k]);
                    }
                }
                if t.len() == i + 1 {
                    assert forall|k: int| 0 <= k < i implies grid[k + 1][#[trigger] t[k + 1] as int].parent
                        == Some(t[k]) by {
                        if k + 1 < i {
                            assert(t[k + 1] == t0[k + 1]);
                            assert(t[k] == t0[k]);
                        } else {
                            assert(t[k] == t0.last());
                        }
                    }
                }
            },
            None => {},
        }
    }
}

/// A rebuilt path has exactly one row per column, from column 0 to the
/// last: as many entries as columns, each a row of the grid, the last one
/// the cheapest node of the last column, and each one the recorded
/// predecessor of the next. And whenever every node after column 0 has a
/// predecessor, a grid with at least one column and one row has a path.
pub proof fn lemma_path_shape(grid: Seq<Seq<Cell>>, height: nat)
    requires
        grid_shaped(grid, height),
        height <= usize::MAX,
    ensures
        path_of(grid) matches Some(p) ==> {
            &&& p.len() == grid.len()
            &&& forall|k: int| 0 <= k < p.len() ==> #[trigger] p[k] < height
            &&& Some(p.last() as int) == terminal_row(grid)
            &&& forall|k: int|
                0 <= k < p.len() - 1 ==> grid[k + 1][#[trigger] p[k + 1] as int].parent == Some(
                    p[k],
                )
        },
        grid.len() > 0 && height > 0 && (forall|j: int, k: int|
            0 < j < grid.len() && 0 <= k < height ==> (#[trigger] grid[j][k]).parent is Some)
            ==> path_of(grid) is Some,
{
    if grid.len() > 0 {
        let row = Seq::new(grid.last().len(), |r: int| Some(grid.last()[r].cost));
        lemma_best_prefix_in_range(row, row.len() as int);
        if height > 0 {
            assert(row[0] is Some);
        }
        match terminal_row(grid) {
            Some(t) => {
                lemma_trail_shape(grid, height, grid.len() - 1, t);
            },
            None => {},
        }
    }
}

/// What one run of steps leaves: `grids[k]` is the grid after `k` steps,
/// each step extending it by the column its candidates give, as
/// `simulate_step` does on every strategy.
pub open spec fn is_run(grids: Seq<Seq<Seq<Cell>>>, fed: Seq<Seq<Seq<Option<Score>>>>) -> bool {
    &&& grids.len() == fed.len() + 1
    &&& grids[0] == Seq::<Seq<Cell>>::empty()
    &&& forall|k: int| 0 <= k < fed.len() ==> #[trigger] grids[k + 1] == grids[k].push(next_column(fed[k]))
}

proof fn lemma_run_is_sweep(grids: Seq<Seq<Seq<Cell>>>, fed: Seq<Seq<Seq<Option<Score>>>>)
    requires
        is_run(grids, fed),
    ensures
        grids.last() == sweep(fed),
    decreases fed.len(),
{
    if fed.len() > 0 {
        let g0 = grids.drop_last();
        let f0 = fed.drop_last();
        assert forall|k: int| 0 <= k < f0.len() implies #[trigger] g0[k + 1] == g0[k].push(
            next_column(f0[k]),
        ) by {
            assert(grids[k + 1] == grids[k].push(next_column(fed[k])));
        }
        lemma_run_is_sweep(g0, f0);
        assert(grids[fed.len() as int] == grids[fed.len() - 1].push(next_column(fed[fed.len() - 1])));
    }
}

/// The strategy never changes the result: two runs, of the same strategy or
/// of two different ones, that start empty and are fed the same candidate
/// costs step by step end with the same cost and the same predecessor at
/// every (column, row), and so rebuild the same path.
pub proof fn lemma_strategy_independent(
    run_a: Seq<Seq<Seq<Cell>>>,
    run_b: Seq<Seq<Seq<Cell>>>,
    fed: Seq<Seq<Seq<Option<Score>>>>,
)
    requires
        is_run(run_a, fed),
        is_run(run_b, fed),
    ensures
        run_a.last() == sweep(fed),
        run_a.last() == run_b.last(),
        path_of(run_a.last()) == path_of(run_b.last()),
{
    lemma_run_is_sweep(run_a, fed);
    lemma_run_is_sweep(run_b, fed);
}

/// Columns are written once: in a run, the grid after `k` steps has `k`
/// columns, and no later step changes the cost or the predecessor of any
/// node of those columns.
pub proof fn lemma_columns_write_once(
    grids: Seq<Seq<Seq<Cell>>>,
    fed: Seq<Seq<Seq<Option<Score>>>>,
    k: int,
    m: int,
)
    requires
        is_run(grids, fed),
        0 <= k <= m <= fed.len(),
    ensures
        grids[k].len() == k,
        grids[m].len() == m,
        forall|i: int| 0 <= i < k ==> #[trigger] grids[m][i] == grids[k][i],
    decreases m,
{
    if m > 0 {
        let j = m - 1;
        assert(grids[j + 1] == grids[j].push(next_column(fed[j])));
        if k < m {
            lemma_columns_write_once(grids, fed, k, m - 1);
        } else {
            lemma_columns_write_once(grids, fed, m - 1, m - 1);
        }
    }
}

} // verus!
