use pathsweep::reference_count;
use pathsweep::reference_count_plus;
use std::sync::Arc;
use pathsweep::linear::DenseSpace;
use pathsweep::reference_count::TreeSpace;
use pathsweep::reference_count_plus::FlatSpace;
use pathsweep::score::Score;
use pathsweep::sweep::{cheapest, select_best, simulate_step, Simulation};

fn s(v: f64) -> Score {
    Score::new(v.to_bits())
}

fn value(a: &Score) -> f64 {
    f64::from_bits(a.to_bits())
}

/// Candidate costs of the next step: `cost(x, prev_row, row)` plus the
/// aggregated cost of the predecessor, absent where the sum is NaN.
fn candidates<S: Simulation>(sim: &S, cost: &dyn Fn(usize, usize, usize) -> f64) -> Vec<Vec<Option<Score>>> {
    let x = sim.columns_done();
    let prev = sim.last_costs();
    (0..sim.grid_height())
        .map(|c| {
            prev.iter()
                .enumerate()
                .map(|(p, pc)| Score::new_checked((cost(x, p, c) + value(pc)).to_bits()))
                .collect()
        })
        .collect()
}

/// Runs every step, returning the costs of each column as its step ends.
fn run<S: Simulation>(sim: &mut S, cost: &dyn Fn(usize, usize, usize) -> f64) -> Vec<Vec<f64>> {
    let mut columns = Vec::new();
    for _ in 0..sim.grid_width() {
        let cands = candidates(sim, cost);
        simulate_step(sim, &cands);
        columns.push(sim.last_costs().iter().map(value).collect());
    }
    columns
}

fn constant(_: usize, _: usize, _: usize) -> f64 {
    1.0
}

fn bumpy(x: usize, p: usize, c: usize) -> f64 {
    let h = (x * 7919 + p * 104729 + c * 1299709) % 97;
    let dy = p as f64 - c as f64;
    (1.05 + h as f64 / 97.0) * (dy * dy + 1.0).sqrt()
}

#[test]
fn constant_costs_on_dense_grid() {
    let mut sim = DenseSpace::new(4, 3);
    let columns = run(&mut sim, &constant);
    assert_eq!(columns, vec![vec![0.0; 3], vec![1.0; 3], vec![2.0; 3], vec![3.0; 3]]);
    for y in 0..3 {
        assert_eq!(sim.node(0, y).unwrap().parent, None);
        for x in 1..4 {
            let n = sim.node(x, y).unwrap();
            assert_eq!(n.parent, Some(0));
            assert_eq!(value(&n.aggregated_cost), x as f64);
        }
    }
    let last = sim.last_costs();
    assert_eq!(cheapest(&last), Some(0));
    assert_eq!(value(&last[0]), 3.0);
    assert_eq!(sim.reconstruct_path(), Some(vec![0, 0, 0, 0]));
}

#[test]
fn constant_costs_on_tree() {
    let mut sim = TreeSpace::new(4, 3);
    let columns = run(&mut sim, &constant);
    assert_eq!(columns, vec![vec![0.0; 3], vec![1.0; 3], vec![2.0; 3], vec![3.0; 3]]);
    assert_eq!(sim.reconstruct_path(), Some(vec![0, 0, 0, 0]));
}

#[test]
fn constant_costs_on_flattened_tree() {
    let mut sim = FlatSpace::new(4, 3);
    let columns = run(&mut sim, &constant);
    assert_eq!(columns, vec![vec![0.0; 3], vec![1.0; 3], vec![2.0; 3], vec![3.0; 3]]);
    assert_eq!(sim.reconstruct_path(), Some(vec![0, 0, 0, 0]));
}

#[test]
fn strategies_agree() {
    for (w, h) in [(1, 1), (2, 5), (9, 6), (16, 16)] {
        let mut dense = DenseSpace::new(w, h);
        let mut tree = TreeSpace::new(w, h);
        let mut flat = FlatSpace::new(w, h);
        let a = run(&mut dense, &bumpy);
        let b = run(&mut tree, &bumpy);
        let c = run(&mut flat, &bumpy);
        assert_eq!(a, b);
        assert_eq!(a, c);
        let pa = dense.reconstruct_path();
        assert!(pa.is_some());
        assert_eq!(pa, tree.reconstruct_path());
        assert_eq!(pa, flat.reconstruct_path());
    }
}

#[test]
fn path_has_one_row_per_column() {
    let mut sim = DenseSpace::new(9, 6);
    run(&mut sim, &bumpy);
    let path = sim.reconstruct_path().unwrap();
    assert_eq!(path.len(), 9);
    for x in 1..9 {
        assert_eq!(sim.node(x, path[x]).unwrap().parent, Some(path[x - 1]));
    }
    let last = sim.last_costs();
    assert_eq!(cheapest(&last), Some(path[8]));
}

#[test]
fn bumpy_path_follows_cheapest_predecessors() {
    let mut sim = DenseSpace::new(3, 2);
    run(&mut sim, &bumpy);
    // Recompute the sweep by hand.
    let mut cost = vec![vec![0.0f64; 2]; 3];
    let mut parent = vec![vec![None; 2]; 3];
    for x in 1..3 {
        for c in 0..2 {
            let mut best: Option<(f64, usize)> = None;
            for p in 0..2 {
                let v = bumpy(x, p, c) + cost[x - 1][p];
                if best.map_or(true, |(b, _)| v < b) {
                    best = Some((v, p));
                }
            }
            cost[x][c] = best.unwrap().0;
            parent[x][c] = Some(best.unwrap().1);
        }
    }
    for x in 0..3 {
        for c in 0..2 {
            let n = sim.node(x, c).unwrap();
            assert_eq!(value(&n.aggregated_cost), cost[x][c]);
            assert_eq!(n.parent, parent[x][c]);
        }
    }
}

#[test]
fn first_minimum_wins_ties() {
    let row = vec![None, Some(s(2.0)), Some(s(1.0)), Some(s(1.0)), Some(s(-0.0)), Some(s(0.0))];
    assert_eq!(select_best(&row), Some(4));
    let row = vec![Some(s(3.0)), Some(s(3.0))];
    assert_eq!(select_best(&row), Some(0));
    assert_eq!(select_best(&vec![None, None]), None);
    assert_eq!(select_best(&vec![]), None);
    assert_eq!(cheapest(&vec![]), None);
    assert_eq!(cheapest(&vec![s(2.0), s(1.0), s(1.0)]), Some(1));
}

#[test]
fn node_without_predecessor_keeps_zero_cost() {
    let mut sim = DenseSpace::new(2, 2);
    simulate_step(&mut sim, &vec![vec![], vec![]]);
    simulate_step(&mut sim, &vec![vec![None, None], vec![Some(s(4.0)), Some(s(2.0))]]);
    let n0 = sim.node(1, 0).unwrap();
    assert_eq!(n0.parent, None);
    assert_eq!(value(&n0.aggregated_cost), 0.0);
    let n1 = sim.node(1, 1).unwrap();
    assert_eq!(n1.parent, Some(1));
    assert_eq!(value(&n1.aggregated_cost), 2.0);
    assert!(sim.node(2, 0).is_none());
}

#[test]
fn broken_trail_gives_no_path() {
    // Row 0 of column 1 has no predecessor and is the cheapest node.
    let cands0: Vec<Vec<Option<Score>>> = vec![vec![], vec![]];
    let cands1 = vec![vec![None, None], vec![Some(s(4.0)), Some(s(2.0))]];
    let mut dense = DenseSpace::new(2, 2);
    let mut tree = TreeSpace::new(2, 2);
    let mut flat = FlatSpace::new(2, 2);
    simulate_step(&mut dense, &cands0);
    simulate_step(&mut dense, &cands1);
    simulate_step(&mut tree, &cands0);
    simulate_step(&mut tree, &cands1);
    simulate_step(&mut flat, &cands0);
    simulate_step(&mut flat, &cands1);
    assert_eq!(dense.reconstruct_path(), None);
    assert_eq!(tree.reconstruct_path(), None);
    assert_eq!(flat.reconstruct_path(), None);
}

#[test]
fn empty_grids_have_no_path() {
    let dense = DenseSpace::new(3, 3);
    assert_eq!(dense.reconstruct_path(), None);
    assert!(dense.last_costs().is_empty());
    let mut flat = FlatSpace::new(2, 0);
    simulate_step(&mut flat, &vec![]);
    assert_eq!(flat.reconstruct_path(), None);
}

#[test]
fn finished_columns_never_change() {
    let mut sim = DenseSpace::new(6, 4);
    let mut seen = Vec::new();
    for x in 0..6 {
        let cands = candidates(&sim, &bumpy);
        simulate_step(&mut sim, &cands);
        seen.push((0..4).map(|y| sim.node(x, y).unwrap()).collect::<Vec<_>>());
        for (i, column) in seen.iter().enumerate() {
            for (y, n) in column.iter().enumerate() {
                let now = sim.node(i, y).unwrap();
                assert_eq!(now.parent, n.parent);
                assert_eq!(now.aggregated_cost.to_bits(), n.aggregated_cost.to_bits());
                assert_eq!((now.x, now.y), (i, y));
            }
        }
    }
}

#[test]
fn ancestry_chains_list_rows_oldest_first() {
    let root = Arc::new(reference_count_plus::Parent { y: 2, parent: None });
    let mid = Arc::new(reference_count_plus::Parent { y: 0, parent: Some(root) });
    let mut node = reference_count_plus::Node::new(2, 1);
    node.parent = Some(mid);
    assert_eq!(node.reverse_path(), vec![2, 0, 1]);

    let first = Arc::new(reference_count::Node::new(0, 3));
    let mut second = reference_count::Node::new(1, 1);
    second.parent = Some(first);
    let mut third = reference_count::Node::new(2, 0);
    third.parent = Some(Arc::new(second));
    assert_eq!(third.reverse_path(), vec![3, 1, 0]);
}
