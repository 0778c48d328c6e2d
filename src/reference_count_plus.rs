//! The flattened strategy: only the two newest columns are kept. Each node
//! holds its ancestry as a chain of shared links, one link per earlier
//! column, which lives as long as some node still reaches it.
use crate::score::Score;
use crate::sweep::{
    cheapest, fresh_cell, fresh_column, grid_shaped, lemma_trail_frame, terminal_row,
    trail, Cell, Simulation,
};
use std::sync::Arc;
use vstd::prelude::*;

verus! {

/// One link of an ancestry chain: a row, and the link of the column before.
#[derive(Debug)]
pub struct Parent {
    pub y: usize,
    pub parent: Option<Arc<Parent>>,
}

/// The rows of a chain, oldest first.
pub open spec fn ancestry(link: Option<Arc<Parent>>) -> Seq<usize>
    decreases link,
{
    match link {
        Some(p) => ancestry(p.parent).push(p.y),
        None => Seq::empty(),
    }
}

/// Another handle on the same chain.
pub fn share(link: &Option<Arc<Parent>>) -> (r: Option<Arc<Parent>>)
    ensures
        r == *link,
{
    match link {
        Some(p) => Some(p.clone()),
        None => None,
    }
}

/// A node of one of the two columns kept.
#[derive(Debug)]
pub struct Node {
    pub x: usize,
    pub y: usize,
    pub parent: Option<Arc<Parent>>,
    pub aggregated_cost: Score,
}

impl Node {
    pub open spec fn cell(self) -> Cell {
        Cell {
            cost: self.aggregated_cost,
            parent: match self.parent {
                Some(p) => Some(p.y),
                None => None,
            },
        }
    }

    /// A node of column `x`, row `y`, before its step.
    pub fn new(x: usize, y: usize) -> (r: Node)
        ensures
            r.x == x,
            r.y == y,
            r.parent is None,
            r.cell() == fresh_cell(),
    {
        Node { x, y, parent: None, aggregated_cost: Score::zero() }
    }

    /// The rows of the path that ends at this node, oldest first.
    pub fn reverse_path(&self) -> (r: Vec<usize>)
        ensures
            r@ == ancestry(self.parent).push(self.y),
    {
        let mut rev: Vec<usize> = Vec::new();
        rev.push(self.y);
        let mut cur = share(&self.parent);
        while cur.is_some()
            invariant
                ancestry(cur) + rev@.reverse() == ancestry(self.parent).push(self.y),
            decreases ancestry(cur).len(),
        {
            let link = cur.unwrap();
            let ghost before = rev@;
            rev.push(link.y);
            assert(rev@.reverse() =~= seq![link.y] + before.reverse());
            assert(ancestry(Some(link)) == ancestry(link.parent).push(link.y));
            assert(ancestry(link.parent) + rev@.reverse() =~= ancestry(Some(link)) + before.reverse());
            cur = share(&link.parent);
        }
        assert(rev@.reverse() == ancestry(self.parent).push(self.y));
        let mut out: Vec<usize> = Vec::new();
        let mut k: usize = rev.len();
        while k > 0
            invariant
                k <= rev@.len(),
                out@ == rev@.subrange(k as int, rev@.len() as int).reverse(),
            decreases k,
        {
            k = k - 1;
            let ghost before = out@;
            out.push(rev[k]);
            assert(rev@.subrange(k as int, rev@.len() as int) =~= seq![rev@[k as int]] + rev@.subrange(
                k + 1,
                rev@.len() as int,
            ));
            assert(out@ =~= rev@.subrange(k as int, rev@.len() as int).reverse());
        }
        assert(rev@.subrange(0, rev@.len() as int) =~= rev@);
        assert(out@ =~= rev@.reverse());
        out
    }
}

/// The two newest columns, and (as ghost state) the grid they belong to.
pub struct FlatSpace {
    width: usize,
    height: usize,
    previous: Vec<Node>,
    current: Vec<Node>,
    x: usize,
    history: Ghost<Seq<Seq<Cell>>>,
}

/// A kept column agrees with column `i` of `grid`, chains included.
pub open spec fn column_matches(nodes: Seq<Node>, grid: Seq<Seq<Cell>>, i: int, height: nat) -> bool {
    &&& nodes.len() == height
    &&& grid[i].len() == height
    &&& forall|r: int|
        0 <= r < height ==> {
            &&& (#[trigger] nodes[r]).x == i
            &&& nodes[r].y == r
            &&& nodes[r].cell() == grid[i][r]
            &&& ancestry(nodes[r].parent).push(r as usize) == trail(grid, i, r)
        }
}

impl FlatSpace {
    /// An empty sweep over `width` columns of `height` rows.
    pub fn new(width: usize, height: usize) -> (r: FlatSpace)
        ensures
            r.valid(),
            r.grid() == Seq::<Seq<Cell>>::empty(),
            r.width() == width,
            r.height() == height,
    {
        FlatSpace {
            width,
            height,
            previous: Vec::new(),
            current: Vec::new(),
            x: 0,
            history: Ghost(Seq::empty()),
        }
    }
}

impl Simulation for FlatSpace {
    closed spec fn grid(&self) -> Seq<Seq<Cell>> {
        self.history@
    }

    closed spec fn width(&self) -> nat {
        self.width as nat
    }

    closed spec fn height(&self) -> nat {
        self.height as nat
    }

    closed spec fn valid(&self) -> bool {
        &&& self.history@.len() == self.x
        &&& self.x <= self.width
        &&& grid_shaped(self.history@, self.height as nat)
        &&& self.x >= 1 ==> column_matches(
            self.current@,
            self.history@,
            self.x - 1,
            self.height as nat,
        )
        &&& self.x >= 2 ==> column_matches(
            self.previous@,
            self.history@,
            self.x - 2,
            self.height as nat,
        )
    }

    proof fn lemma_shaped(&self) {
    }

    fn prepare_step_slices(&mut self) {
        let ghost h0 = self.history@;
        let x = self.x;
        let mut column: Vec<Node> = Vec::new();
        let mut y: usize = 0;
        while y < self.height
            invariant
                y <= self.height,
                column@.len() == y,
                forall|r: int|
                    0 <= r < y ==> (#[trigger] column@[r]).x == x && column@[r].y == r
                        && column@[r].parent is None && column@[r].cell() == fresh_cell(),
            decreases self.height - y,
        {
            column.push(Node::new(x, y));
            y = y + 1;
        }
        std::mem::swap(&mut self.previous, &mut self.current);
        self.current = column;
        self.x = x + 1;
        let ghost h1 = h0.push(fresh_column(self.height as nat));
        self.history = Ghost(h1);
        let ghost hh = self.height as nat;
        assert(grid_shaped(h1, hh)) by {
            assert forall|i: int| 0 <= i < h1.len() implies (#[trigger] h1[i]).len() == hh by {
                if i < h0.len() {
                    assert(h1[i] == h0[i]);
                }
            }
        }
        assert forall|r: int| 0 <= r < hh implies {
            &&& (#[trigger] self.current@[r]).x == x
            &&& self.current@[r].y == r
            &&& self.current@[r].cell() == h1[x as int][r]
            &&& ancestry(self.current@[r].parent).push(r as usize) == trail(h1, x as int, r)
        } by {
            assert(ancestry(self.current@[r].parent) == Seq::<usize>::empty());
            assert(seq![r as usize] =~= Seq::<usize>::empty().push(r as usize));
        }
        if x >= 1 {
            assert forall|r: int| 0 <= r < hh implies ancestry(
                (#[trigger] self.previous@[r]).parent,
            ).push(r as usize) == trail(h1, x - 1, r) by {
                lemma_trail_frame(h0, h1, hh, x - 1, r);
            }
        }
    }

    fn set_aggregated_cost(&mut self, child: usize, cost: Score) {
        let ghost h0 = self.history@;
        let ghost i = self.x - 1;
        let n = Node {
            x: self.current[child].x,
            y: self.current[child].y,
            parent: share(&self.current[child].parent),
            aggregated_cost: cost,
        };
        self.current.set(child, n);
        let ghost h1 = h0.update(
            i,
            h0[i].update(child as int, Cell { cost, parent: h0[i][child as int].parent }),
        );
        self.history = Ghost(h1);
        let ghost hh = self.height as nat;
        assert(h0.last() == h0[i]);
        assert(grid_shaped(h1, hh)) by {
            assert forall|j: int, r: int| 0 <= j < h1.len() && 0 <= r < hh implies match (
            #[trigger] h1[j][r]).parent {
                Some(p) => j > 0 && p < hh,
                None => true,
            } by {
                assert(h1[j][r].parent == h0[j][r].parent);
            }
        }
        assert forall|r: int| 0 <= r < hh implies ancestry(
            (#[trigger] self.current@[r]).parent,
        ).push(r as usize) == trail(h1, i, r) by {
            lemma_trail_frame(h0, h1, hh, i, r);
        }
        proof {
            if i >= 1 {
                assert forall|r: int| 0 <= r < hh implies ancestry(
                    (#[trigger] self.previous@[r]).parent,
                ).push(r as usize) == trail(h1, i - 1, r) by {
                    lemma_trail_frame(h0, h1, hh, i - 1, r);
                }
            }
        }
    }

    fn set_parent_of(&mut self, parent: usize, child: usize) {
        let ghost h0 = self.history@;
        let ghost i = self.x - 1;
        let link = Arc::new(
            Parent { y: self.previous[parent].y, parent: share(&self.previous[parent].parent) },
        );
        let n = Node {
            x: self.current[child].x,
            y: self.current[child].y,
            parent: Some(link),
            aggregated_cost: self.current[child].aggregated_cost,
        };
        self.current.set(child, n);
        let ghost h1 = h0.update(
            i,
            h0[i].update(
                child as int,
                Cell { cost: h0[i][child as int].cost, parent: Some(parent) },
            ),
        );
        self.history = Ghost(h1);
        let ghost hh = self.height as nat;
        assert(h0.last() == h0[i]);
        assert(grid_shaped(h1, hh)) by {
            assert forall|j: int, r: int| 0 <= j < h1.len() && 0 <= r < hh implies match (
            #[trigger] h1[j][r]).parent {
                Some(p) => j > 0 && p < hh,
                None => true,
            } by {
                if j != i || r != child {
                    assert(h1[j][r] == h0[j][r]);
                }
            }
        }
        assert forall|r: int| 0 <= r < hh implies ancestry(
            (#[trigger] self.previous@[r]).parent,
        ).push(r as usize) == trail(h1, i - 1, r) by {
            lemma_trail_frame(h0, h1, hh, i - 1, r);
        }
        assert forall|r: int| 0 <= r < hh implies ancestry(
            (#[trigger] self.current@[r]).parent,
        ).push(r as usize) == trail(h1, i, r) by {
            if r == child {
                lemma_trail_frame(h0, h1, hh, i - 1, parent as int);
                assert(ancestry(Some(link)) == ancestry(link.parent).push(link.y));
            } else {
                lemma_trail_frame(h0, h1, hh, i - 1, r);
                match h0[i][r].parent {
                    Some(p) => {
                        lemma_trail_frame(h0, h1, hh, i - 1, p as int);
                    },
                    None => {},
                }
                assert(h1[i][r] == h0[i][r]);
            }
        }
    }

    fn columns_done(&self) -> (r: usize) {
        self.x
    }

    fn grid_height(&self) -> (r: usize) {
        self.height
    }

    fn grid_width(&self) -> (r: usize) {
        self.width
    }

    fn last_costs(&self) -> (r: Vec<Score>) {
        let mut costs: Vec<Score> = Vec::new();
        if self.x == 0 {
            return costs;
        }
        let mut y: usize = 0;
        while y < self.height
            invariant
                self.valid(),
                self.x >= 1,
                y <= self.height,
                costs@ == Seq::new(y as nat, |k: int| self.grid().last()[k].cost),
            decreases self.height - y,
        {
            costs.push(self.current[y].aggregated_cost);
            y = y + 1;
            assert(costs@ =~= Seq::new(y as nat, |k: int| self.grid().last()[k].cost));
        }
        assert(costs@ =~= Seq::new(self.grid().last().len(), |k: int| self.grid().last()[k].cost));
        costs
    }

    fn reconstruct_path(&self) -> (r: Option<Vec<usize>>) {
        let ghost g = self.grid();
        if self.x == 0 {
            return None;
        }
        let costs = self.last_costs();
        assert(Seq::new(costs@.len(), |k: int| Some(costs@[k])) =~= Seq::new(
            g.last().len(),
            |r: int| Some(g.last()[r].cost),
        ));
        let t = match cheapest(&costs) {
            None => {
                return None;
            },
            Some(t) => t,
        };
        assert(terminal_row(g) == Some(t as int));
        let path = self.current[t].reverse_path();
        if path.len() == self.x {
            Some(path)
        } else {
            None
        }
    }
}

} // verus!
