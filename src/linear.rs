//! The dense strategy: every column is kept for the whole run, and a node's
//! backpointer is the row of its predecessor in the column before it.
use crate::score::Score;
use crate::sweep::{
    cheapest, fresh_cell, fresh_column, grid_shaped, terminal_row, trail, Cell,
    Simulation,
};
use vstd::prelude::*;

verus! {

/// A node of the dense grid.
#[derive(Clone, Copy, Debug)]
pub struct Node {
    pub x: usize,
    pub y: usize,
    pub parent: Option<usize>,
    pub aggregated_cost: Score,
}

impl Node {
    pub open spec fn cell(self) -> Cell {
        Cell { cost: self.aggregated_cost, parent: self.parent }
    }

    /// A node of column `x`, row `y`, before its step.
    pub fn new(x: usize, y: usize) -> (r: Node)
        ensures
            r.x == x,
            r.y == y,
            r.cell() == fresh_cell(),
    {
        Node { x, y, parent: None, aggregated_cost: Score::zero() }
    }
}

/// The whole grid, column by column.
pub struct DenseSpace {
    nodes: Vec<Vec<Node>>,
    width: usize,
    height: usize,
}

impl DenseSpace {
    /// An empty sweep over `width` columns of `height` rows.
    pub fn new(width: usize, height: usize) -> (r: DenseSpace)
        ensures
            r.valid(),
            r.grid() == Seq::<Seq<Cell>>::empty(),
            r.width() == width,
            r.height() == height,
    {
        let r = DenseSpace { nodes: Vec::new(), width, height };
        assert(r.grid() =~= Seq::<Seq<Cell>>::empty());
        r
    }

    /// The node at column `x`, row `y`.
    pub fn node(&self, x: usize, y: usize) -> (r: Option<Node>)
        requires
            self.valid(),
        ensures
            r matches Some(n) ==> x < self.grid().len() && y < self.height() && n.cell()
                == self.grid()[x as int][y as int] && n.x == x && n.y == y,
            r is None <==> !(x < self.grid().len() && y < self.height()),
    {
        if x < self.nodes.len() && y < self.height {
            Some(self.nodes[x][y])
        } else {
            None
        }
    }
}

impl Simulation for DenseSpace {
    closed spec fn grid(&self) -> Seq<Seq<Cell>> {
        Seq::new(
            self.nodes@.len(),
            |i: int| Seq::new(self.nodes@[i]@.len(), |r: int| self.nodes@[i]@[r].cell()),
        )
    }

    closed spec fn width(&self) -> nat {
        self.width as nat
    }

    closed spec fn height(&self) -> nat {
        self.height as nat
    }

    closed spec fn valid(&self) -> bool {
        &&& self.nodes@.len() <= self.width
        &&& forall|i: int| 0 <= i < self.nodes@.len() ==> (#[trigger] self.nodes@[i])@.len() == self.height
        &&& forall|i: int, r: int|
            0 <= i < self.nodes@.len() && 0 <= r < self.height ==> (#[trigger] self.nodes@[i]@[r]).x
                == i && self.nodes@[i]@[r].y == r
        &&& grid_shaped(self.grid(), self.height as nat)
    }

    proof fn lemma_shaped(&self) {
    }

    fn prepare_step_slices(&mut self) {
        let x = self.nodes.len();
        let mut column: Vec<Node> = Vec::new();
        let mut y: usize = 0;
        while y < self.height
            invariant
                y <= self.height,
                column@.len() == y,
                forall|r: int|
                    0 <= r < y ==> (#[trigger] column@[r]).x == x && column@[r].y == r
                        && column@[r].cell() == fresh_cell(),
            decreases self.height - y,
        {
            column.push(Node::new(x, y));
            y = y + 1;
        }
        let ghost before = self.grid();
        self.nodes.push(column);
        assert(self.grid() =~= before.push(fresh_column(self.height as nat))) by {
            assert(self.grid().last() =~= fresh_column(self.height as nat));
            assert forall|i: int| 0 <= i < before.len() implies self.grid()[i] =~= before[i] by {
                assert(self.nodes@[i] == old(self).nodes@[i]);
            }
        }
    }

    fn set_aggregated_cost(&mut self, child: usize, cost: Score) {
        let ghost before = self.grid();
        let mut column = self.nodes.pop().unwrap();
        let mut n = column[child];
        n.aggregated_cost = cost;
        column.set(child, n);
        self.nodes.push(column);
        let ghost last = before.len() - 1;
        assert(self.grid() =~= before.update(
            last,
            before.last().update(child as int, Cell { cost, parent: before.last()[child as int].parent }),
        )) by {
            assert(self.grid()[last] =~= before.last().update(
                child as int,
                Cell { cost, parent: before.last()[child as int].parent },
            ));
            assert forall|i: int| 0 <= i < last implies self.grid()[i] =~= before[i] by {
                assert(self.nodes@[i] == old(self).nodes@[i]);
            }
        }
    }

    fn set_parent_of(&mut self, parent: usize, child: usize) {
        let ghost before = self.grid();
        let mut column = self.nodes.pop().unwrap();
        let mut n = column[child];
        n.parent = Some(parent);
        column.set(child, n);
        self.nodes.push(column);
        let ghost last = before.len() - 1;
        assert(self.grid() =~= before.update(
            last,
            before.last().update(
                child as int,
                Cell { cost: before.last()[child as int].cost, parent: Some(parent) },
            ),
        )) by {
            assert(self.grid()[last] =~= before.last().update(
                child as int,
                Cell { cost: before.last()[child as int].cost, parent: Some(parent) },
            ));
            assert forall|i: int| 0 <= i < last implies self.grid()[i] =~= before[i] by {
                assert(self.nodes@[i] == old(self).nodes@[i]);
            }
        }
    }

    fn columns_done(&self) -> (r: usize) {
        self.nodes.len()
    }

    fn grid_height(&self) -> (r: usize) {
        self.height
    }

    fn grid_width(&self) -> (r: usize) {
        self.width
    }

    fn last_costs(&self) -> (r: Vec<Score>) {
        let mut costs: Vec<Score> = Vec::new();
        if self.nodes.len() == 0 {
            return costs;
        }
        let last = self.nodes.len() - 1;
        let mut y: usize = 0;
        while y < self.height
            invariant
                self.valid(),
                last == self.nodes@.len() - 1,
                y <= self.height,
                costs@ == Seq::new(y as nat, |k: int| self.grid().last()[k].cost),
            decreases self.height - y,
        {
            costs.push(self.nodes[last][y].aggregated_cost);
            y = y + 1;
            assert(costs@ =~= Seq::new(y as nat, |k: int| self.grid().last()[k].cost));
        }
        assert(costs@ =~= Seq::new(self.grid().last().len(), |k: int| self.grid().last()[k].cost));
        costs
    }

    fn reconstruct_path(&self) -> (r: Option<Vec<usize>>) {
        let ghost g = self.grid();
        let w = self.nodes.len();
        if w == 0 {
            return None;
        }
        let costs = self.last_costs();
        assert(Seq::new(costs@.len(), |k: int| Some(costs@[k])) =~= Seq::new(
            g.last().len(),
            |r: int| Some(g.last()[r].cost),
        ));
        let t = match cheapest(&costs) {
            None => {
                return None;
            },
            Some(t) => t,
        };
        assert(terminal_row(g) == Some(t as int));
        let mut out: Vec<usize> = Vec::new();
        while out.len() < w
            invariant
                out@.len() <= w,
            decreases w - out@.len(),
        {
            out.push(0);
        }
        let mut i: usize = w - 1;
        let mut r: usize = t;
        loop
            invariant
                self.valid(),
                g == self.grid(),
                w == g.len(),
                terminal_row(g) == Some(t as int),
                out@.len() == w,
                i < w,
                r < self.height,
                trail(g, w - 1, t as int) == trail(g, i as int, r as int) + out@.subrange(
                    i + 1,
                    w as int,
                ),
            decreases i,
        {
            let ghost rest = out@.subrange(i + 1, w as int);
            out.set(i, r);
            assert(out@.subrange(i as int, w as int) =~= seq![r].add(rest));
            if i == 0 {
                assert(out@ =~= out@.subrange(0, w as int));
                assert(trail(g, 0, r as int) == seq![r]);
                assert(trail(g, w - 1, t as int) =~= out@);
                return Some(out);
            }
            match self.nodes[i][r].parent {
                Some(p) => {
                    assert(g[i as int][r as int].parent == Some(p));
                    assert(trail(g, i as int, r as int) == trail(g, i - 1, p as int).push(r));
                    assert(trail(g, w - 1, t as int) =~= trail(g, i - 1, p as int) + out@.subrange(
                        i as int,
                        w as int,
                    ));
                    r = p;
                    i = i - 1;
                },
                None => {
                    assert(trail(g, i as int, r as int) == seq![r]);
                    assert(trail(g, w - 1, t as int).len() == 1 + (w - 1 - i));
                    return None;
                },
            }
        }
    }
}

} // verus!
