//! The tree strategy: a node's backpointer is a shared handle on the
//! predecessor node itself, so each node keeps its whole ancestry of nodes
//! alive, and the columns they came from need not be kept.
use crate::score::Score;
use crate::sweep::{
    cheapest, fresh_cell, fresh_column, grid_shaped, lemma_trail_frame, terminal_row,
    trail, Cell, Simulation,
};
use std::sync::Arc;
use vstd::prelude::*;

verus! {

/// A node, with a shared handle on its predecessor.
#[derive(Debug)]
pub struct Node {
    pub x: usize,
    pub y: usize,
    pub parent: Option<Arc<Node>>,
    pub aggregated_cost: Score,
}

/// The rows from the first column to `n`, oldest first.
pub open spec fn lineage(n: Node) -> Seq<usize>
    decreases n,
{
    match n.parent {
        Some(p) => lineage(*p).push(n.y),
        None => seq![n.y],
    }
}

/// The rows from the first column to the node a handle points at.
pub open spec fn lineage_of(link: Option<Arc<Node>>) -> Seq<usize> {
    match link {
        Some(p) => lineage(*p),
        None => Seq::empty(),
    }
}

/// Another handle on the same node.
pub fn share(link: &Option<Arc<Node>>) -> (r: Option<Arc<Node>>)
    ensures
        r == *link,
{
    match link {
        Some(p) => Some(p.clone()),
        None => None,
    }
}

impl Node {
    pub open spec fn cell(self) -> Cell {
        Cell {
            cost: self.aggregated_cost,
            parent: match self.parent {
                Some(p) => Some(p.y),
                None => None,
            },
        }
    }

    /// A node of column `x`, row `y`, before its step.
    pub fn new(x: usize, y: usize) -> (r: Node)
        ensures
            r.x == x,
            r.y == y,
            r.parent is None,
            r.cell() == fresh_cell(),
    {
        Node { x, y, parent: None, aggregated_cost: Score::zero() }
    }

    /// A node equal to this one, sharing its ancestry.
    pub fn duplicate(&self) -> (r: Node)
        ensures
            r == *self,
    {
        Node {
            x: self.x,
            y: self.y,
            parent: share(&self.parent),
            aggregated_cost: self.aggregated_cost,
        }
    }

    /// The rows of the path that ends at this node, oldest first.
    pub fn reverse_path(&self) -> (r: Vec<usize>)
        ensures
            r@ == lineage(*self),
    {
        let mut rev: Vec<usize> = Vec::new();
        rev.push(self.y);
        let mut cur = share(&self.parent);
        while cur.is_some()
            invariant
                lineage_of(cur) + rev@.reverse() == lineage(*self),
            decreases lineage_of(cur).len(),
        {
            let node = cur.unwrap();
            let ghost before = rev@;
            rev.push(node.y);
            assert(rev@.reverse() =~= seq![node.y] + before.reverse());
            assert(lineage(*node) == lineage_of(node.parent).push(node.y));
            assert(lineage_of(node.parent) + rev@.reverse() =~= lineage(*node) + before.reverse());
            cur = share(&node.parent);
        }
        assert(rev@.reverse() =~= lineage(*self));
        let mut out: Vec<usize> = Vec::new();
        let mut k: usize = rev.len();
        while k > 0
            invariant
                k <= rev@.len(),
                out@ == rev@.subrange(k as int, rev@.len() as int).reverse(),
            decreases k,
        {
            k = k - 1;
            out.push(rev[k]);
            assert(rev@.subrange(k as int, rev@.len() as int) =~= seq![rev@[k as int]] + rev@.subrange(
                k + 1,
                rev@.len() as int,
            ));
            assert(out@ =~= rev@.subrange(k as int, rev@.len() as int).reverse());
        }
        assert(rev@.subrange(0, rev@.len() as int) =~= rev@);
        assert(out@ =~= rev@.reverse());
        out
    }
}

/// The column being built, the shared nodes of the column before, and (as
/// ghost state) the grid they belong to.
pub struct TreeSpace {
    width: usize,
    height: usize,
    previous: Vec<Arc<Node>>,
    current: Vec<Node>,
    x: usize,
    history: Ghost<Seq<Seq<Cell>>>,
}

/// A kept column agrees with column `i` of `grid`, ancestries included.
pub open spec fn column_matches(nodes: Seq<Node>, grid: Seq<Seq<Cell>>, i: int, height: nat) -> bool {
    &&& nodes.len() == height
    &&& grid[i].len() == height
    &&& forall|r: int|
        0 <= r < height ==> {
            &&& (#[trigger] nodes[r]).x == i
            &&& nodes[r].y == r
            &&& nodes[r].cell() == grid[i][r]
            &&& lineage(nodes[r]) == trail(grid, i, r)
        }
}

pub open spec fn unshared(nodes: Seq<Arc<Node>>) -> Seq<Node> {
    Seq::new(nodes.len(), |k: int| *nodes[k])
}

impl TreeSpace {
    /// An empty sweep over `width` columns of `height` rows.
    pub fn new(width: usize, height: usize) -> (r: TreeSpace)
        ensures
            r.valid(),
            r.grid() == Seq::<Seq<Cell>>::empty(),
            r.width() == width,
            r.height() == height,
    {
        TreeSpace {
            width,
            height,
            previous: Vec::new(),
            current: Vec::new(),
            x: 0,
            history: Ghost(Seq::empty()),
        }
    }
}

impl Simulation for TreeSpace {
    closed spec fn grid(&self) -> Seq<Seq<Cell>> {
        self.history@
    }

    closed spec fn width(&self) -> nat {
        self.width as nat
    }

    closed spec fn height(&self) -> nat {
        self.height as nat
    }

    closed spec fn valid(&self) -> bool {
        &&& self.history@.len() == self.x
        &&& self.x <= self.width
        &&& grid_shaped(self.history@, self.height as nat)
        &&& self.x >= 1 ==> column_matches(
            self.current@,
            self.history@,
            self.x - 1,
            self.height as nat,
        )
        &&& self.x >= 2 ==> column_matches(
            unshared(self.previous@),
            self.history@,
            self.x - 2,
            self.height as nat,
        )
    }

    proof fn lemma_shaped(&self) {
    }

    fn prepare_step_slices(&mut self) {
        let ghost h0 = self.history@;
        let x = self.x;
        let mut shared: Vec<Arc<Node>> = Vec::new();
        let mut k: usize = 0;
        while k < self.current.len()
            invariant
                k <= self.current@.len(),
                unshared(shared@) == self.current@.subrange(0, k as int),
            decreases self.current@.len() - k,
        {
            let ghost before = shared@;
            let node = Arc::new(self.current[k].duplicate());
            assert(*node == self.current@[k as int]);
            shared.push(node);
            assert(unshared(shared@) =~= unshared(before).push(self.current@[k as int]));
            k = k + 1;
            assert(unshared(shared@) =~= self.current@.subrange(0, k as int));
        }
        assert(unshared(shared@) =~= self.current@);
        let mut column: Vec<Node> = Vec::new();
        let mut y: usize = 0;
        while y < self.height
            invariant
                y <= self.height,
                column@.len() == y,
                forall|r: int|
                    0 <= r < y ==> (#[trigger] column@[r]).x == x && column@[r].y == r
                        && column@[r].parent is None && column@[r].cell() == fresh_cell(),
            decreases self.height - y,
        {
            column.push(Node::new(x, y));
            y = y + 1;
        }
        self.previous = shared;
        self.current = column;
        self.x = x + 1;
        let ghost h1 = h0.push(fresh_column(self.height as nat));
        self.history = Ghost(h1);
        let ghost hh = self.height as nat;
        assert(grid_shaped(h1, hh)) by {
            assert forall|i: int| 0 <= i < h1.len() implies (#[trigger] h1[i]).len() == hh by {
                if i < h0.len() {
                    assert(h1[i] == h0[i]);
                }
            }
        }
        assert forall|r: int| 0 <= r < hh implies {
            &&& (#[trigger] self.current@[r]).x == x
            &&& self.current@[r].y == r
            &&& self.current@[r].cell() == h1[x as int][r]
            &&& lineage(self.current@[r]) == trail(h1, x as int, r)
        } by {
            assert(lineage(self.current@[r]) == seq![r as usize]);
        }
        if x >= 1 {
            assert forall|r: int| 0 <= r < hh implies lineage(
                #[trigger] unshared(self.previous@)[r],
            ) == trail(h1, x - 1, r) by {
                lemma_trail_frame(h0, h1, hh, x - 1, r);
            }
        }
    }

    fn set_aggregated_cost(&mut self, child: usize, cost: Score) {
        let ghost h0 = self.history@;
        let ghost i = self.x - 1;
        let n = Node {
            x: self.current[child].x,
            y: self.current[child].y,
            parent: share(&self.current[child].parent),
            aggregated_cost: cost,
        };
        self.current.set(child, n);
        let ghost h1 = h0.update(
            i,
            h0[i].update(child as int, Cell { cost, parent: h0[i][child as int].parent }),
        );
        self.history = Ghost(h1);
        let ghost hh = self.height as nat;
        assert(h0.last() == h0[i]);
        assert(grid_shaped(h1, hh)) by {
            assert forall|j: int, r: int| 0 <= j < h1.len() && 0 <= r < hh implies match (
            #[trigger] h1[j][r]).parent {
                Some(p) => j > 0 && p < hh,
                None => true,
            } by {
                assert(h1[j][r].parent == h0[j][r].parent);
            }
        }
        assert forall|r: int| 0 <= r < hh implies lineage(#[trigger] self.current@[r]) == trail(
            h1,
            i,
            r,
        ) by {
            lemma_trail_frame(h0, h1, hh, i, r);
        }
        proof {
            if i >= 1 {
                assert forall|r: int| 0 <= r < hh implies lineage(
                    #[trigger] unshared(self.previous@)[r],
                ) == trail(h1, i - 1, r) by {
                    lemma_trail_frame(h0, h1, hh, i - 1, r);
                }
            }
        }
    }

    fn set_parent_of(&mut self, parent: usize, child: usize) {
        let ghost h0 = self.history@;
        let ghost i = self.x - 1;
        let handle = self.previous[parent].clone();
        let n = Node {
            x: self.current[child].x,
            y: self.current[child].y,
            parent: Some(handle),
            aggregated_cost: self.current[child].aggregated_cost,
        };
        self.current.set(child, n);
        let ghost h1 = h0.update(
            i,
            h0[i].update(
                child as int,
                Cell { cost: h0[i][child as int].cost, parent: Some(parent) },
            ),
        );
        self.history = Ghost(h1);
        let ghost hh = self.height as nat;
        assert(h0.last() == h0[i]);
        assert(unshared(self.previous@)[parent as int] == *handle);
        assert(grid_shaped(h1, hh)) by {
            assert forall|j: int, r: int| 0 <= j < h1.len() && 0 <= r < hh implies match (
            #[trigger] h1[j][r]).parent {
                Some(p) => j > 0 && p < hh,
                None => true,
            } by {
                if j != i || r != child {
                    assert(h1[j][r] == h0[j][r]);
                }
            }
        }
        assert forall|r: int| 0 <= r < hh implies lineage(
            #[trigger] unshared(self.previous@)[r],
        ) == trail(h1, i - 1, r) by {
            lemma_trail_frame(h0, h1, hh, i - 1, r);
        }
        assert forall|r: int| 0 <= r < hh implies lineage(#[trigger] self.current@[r]) == trail(
            h1,
            i,
            r,
        ) by {
            if r == child {
                lemma_trail_frame(h0, h1, hh, i - 1, parent as int);
            } else {
                match h0[i][r].parent {
                    Some(p) => {
                        lemma_trail_frame(h0, h1, hh, i - 1, p as int);
                    },
                    None => {},
                }
                assert(h1[i][r] == h0[i][r]);
            }
        }
    }

    fn columns_done(&self) -> (r: usize) {
        self.x
    }

    fn grid_height(&self) -> (r: usize) {
        self.height
    }

    fn grid_width(&self) -> (r: usize) {
        self.width
    }

    fn last_costs(&self) -> (r: Vec<Score>) {
        let mut costs: Vec<Score> = Vec::new();
        if self.x == 0 {
            return costs;
        }
        let mut y: usize = 0;
        while y < self.height
            invariant
                self.valid(),
                self.x >= 1,
                y <= self.height,
                costs@ == Seq::new(y as nat, |k: int| self.grid().last()[k].cost),
            decreases self.height - y,
        {
            costs.push(self.current[y].aggregated_cost);
            y = y + 1;
            assert(costs@ =~= Seq::new(y as nat, |k: int| self.grid().last()[k].cost));
        }
        assert(costs@ =~= Seq::new(self.grid().last().len(), |k: int| self.grid().last()[k].cost));
        costs
    }

    fn reconstruct_path(&self) -> (r: Option<Vec<usize>>) {
        let ghost g = self.grid();
        if self.x == 0 {
            return None;
        }
        let costs = self.last_costs();
        assert(Seq::new(costs@.len(), |k: int| Some(costs@[k])) =~= Seq::new(
            g.last().len(),
            |r: int| Some(g.last()[r].cost),
        ));
        let t = match cheapest(&costs) {
            None => {
                return None;
            },
            Some(t) => t,
        };
        assert(terminal_row(g) == Some(t as int));
        let path = self.current[t].reverse_path();
        if path.len() == self.x {
            Some(path)
        } else {
            None
        }
    }
}

} // verus!
