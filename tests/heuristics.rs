use mkp::knapsack::{Knapsack, MalformedInstance};
use mkp::neighborhood::Neighborhood;
use mkp::statistics::Statistics;

fn instance(profits: &[u32], weights: &[&[u32]], capacity: &[u32]) -> Knapsack {
    let mut rows: Vec<Vec<u32>> = Vec::new();
    rows.push(vec![profits.len() as u32, capacity.len() as u32, 0, 0]);
    rows.push(profits.to_vec());
    for w in weights {
        rows.push(w.to_vec());
    }
    rows.push(capacity.to_vec());
    Knapsack::from(&rows).expect("well-formed rows")
}

fn weight_of(k: &Knapsack, s: &Statistics, d: usize) -> u64 {
    s.picked_items.iter().map(|id| k.items[id - 1].weights[d] as u64).sum()
}

fn profit_of(k: &Knapsack, s: &Statistics) -> u64 {
    s.picked_items.iter().map(|id| k.items[id - 1].profit as u64).sum()
}

fn assert_feasible(k: &Knapsack, s: &Statistics) {
    for d in 0..k.m {
        assert!(weight_of(k, s, d) <= k.capacity[d] as u64);
    }
    assert_eq!(profit_of(k, s), s.total_profit);
}

/// Three items, one dimension: W(8, 4), V(5, 3), X(9, 6), capacity 10.
fn swap_instance() -> Knapsack {
    instance(&[8, 5, 9], &[&[4, 3, 6]], &[10])
}

#[test]
fn greedy_all_fit() {
    let k = instance(&[6, 5, 4], &[&[1, 1, 1]], &[10]);
    let s = k.run_greedy();
    let mut ids = s.picked_items.clone();
    ids.sort();
    assert_eq!(ids, vec![1, 2, 3]);
    assert_eq!(s.total_profit, 15);
    assert_eq!(s.utilization, vec![3000]);
    assert_eq!(s.runs, 1);
}

#[test]
fn greedy_forced_choice() {
    let k = instance(&[10, 7, 7], &[&[5, 3, 3]], &[6]);
    let s = k.run_greedy();
    assert_eq!(s.picked_items, vec![2, 3]);
    assert_eq!(s.total_profit, 14);
    assert_eq!(s.utilization, vec![10000]);
}

#[test]
fn greedy_two_dimensions() {
    let k = instance(&[4, 5, 3], &[&[2, 3, 1], &[3, 1, 2]], &[4, 4]);
    assert_eq!(k.greedy_order(), vec![1, 2, 0]);
    let s = k.run_greedy();
    assert_eq!(s.picked_items, vec![2, 3]);
    assert_eq!(s.total_profit, 8);
    assert_eq!(s.utilization, vec![10000, 7500]);
}

#[test]
fn greedy_zero_capacity() {
    let k = instance(&[5, 3], &[&[4, 2]], &[0]);
    let s = k.run_greedy();
    assert!(s.picked_items.is_empty());
    assert_eq!(s.total_profit, 0);
    assert_eq!(s.utilization, vec![0]);
    let r = k.run_random(5);
    assert!(r.picked_items.is_empty());
    assert_eq!(r.utilization, vec![0]);
    assert_eq!(r.runs, 5);
}

#[test]
fn greedy_degenerate_item_first() {
    let k = instance(&[1, 100, 0], &[&[0, 1, 0], &[0, 1, 0]], &[1, 1]);
    assert_eq!(k.greedy_order(), vec![0, 2, 1]);
    let s = k.run_greedy();
    assert_eq!(s.picked_items, vec![1, 3, 2]);
    assert_eq!(s.total_profit, 101);
}

#[test]
fn greedy_ties_by_id() {
    let k = instance(&[2, 4, 6, 1], &[&[1, 2, 3, 1]], &[3]);
    assert_eq!(k.greedy_order(), vec![0, 1, 2, 3]);
    let s = k.run_greedy();
    assert_eq!(s.picked_items, vec![1, 2]);
    assert_eq!(s.total_profit, 6);
}

#[test]
fn greedy_is_deterministic() {
    let k = instance(&[3, 3, 3, 7, 2], &[&[1, 1, 1, 2, 5], &[2, 2, 2, 1, 0]], &[4, 4]);
    let a = k.run_greedy();
    let b = k.run_greedy();
    assert_eq!(a.picked_items, b.picked_items);
    assert_eq!(a.total_profit, b.total_profit);
    assert_eq!(a.utilization, b.utilization);
}

#[test]
fn utilization_rounds_half_up() {
    // 1 of 3 used: 33.333..% -> 3333; 2 of 3: 66.666..% -> 6667; 1 of 8: 12.5% -> 1250
    let k = instance(&[1, 1, 1], &[&[1, 0, 0], &[0, 2, 0], &[0, 0, 1]], &[3, 3, 8]);
    let s = k.run_greedy();
    assert_eq!(s.utilization, vec![3333, 6667, 1250]);
}

#[test]
fn random_is_feasible() {
    let k = instance(&[4, 5, 3], &[&[2, 3, 1], &[3, 1, 2]], &[4, 4]);
    let s = k.run_random(10);
    assert_feasible(&k, &s);
    assert_eq!(s.runs, 10);
    assert!(s.total_profit == 8 || s.total_profit == 7 || s.total_profit == 4 || s.total_profit == 5);
}

#[test]
fn random_with_no_runs_is_empty() {
    let k = swap_instance();
    let s = k.run_random(0);
    assert!(s.picked_items.is_empty());
    assert_eq!(s.total_profit, 0);
    assert_eq!(s.utilization, vec![0]);
    assert_eq!(s.runs, 0);
}

#[test]
fn random_finds_better_order() {
    // The identity order gives 13; two of the six orders give 17.
    let k = swap_instance();
    let s = k.run_random(200);
    assert_eq!(s.total_profit, 17);
    assert_feasible(&k, &s);
}

#[test]
fn run_orders_keeps_first_best() {
    let k = swap_instance();
    let orders = vec![vec![1, 0, 2], vec![2, 0, 1], vec![0, 2, 1]];
    let s = k.run_orders(&orders);
    assert_eq!(s.picked_items, vec![3, 1]);
    assert_eq!(s.total_profit, 17);
    assert_eq!(s.utilization, vec![10000]);
    assert_eq!(s.runs, 3);
}

#[test]
fn run_order_is_order_sensitive() {
    let k = swap_instance();
    let a = k.run_order(&vec![0, 1, 2]);
    assert_eq!(a.picked, vec![0, 1]);
    assert_eq!(a.profit, 13);
    assert_eq!(a.remaining, vec![3]);
    let b = k.run_order(&vec![2, 0, 1]);
    assert_eq!(b.picked, vec![2, 0]);
    assert_eq!(b.profit, 17);
    assert_eq!(b.remaining, vec![0]);
}

#[test]
fn kernel_on_its_own_picks_is_unchanged() {
    let k = instance(&[4, 5, 3, 6], &[&[2, 3, 1, 2], &[3, 1, 2, 2]], &[5, 5]);
    let first = k.run_order(&vec![3, 0, 1, 2]);
    let again = k.run_order(&first.picked);
    assert_eq!(again.picked, first.picked);
    assert_eq!(again.profit, first.profit);
    assert_eq!(again.remaining, first.remaining);
}

#[test]
fn neighborhood_of_two_dimensions() {
    let k = instance(&[4, 5, 3], &[&[2, 3, 1], &[3, 1, 2]], &[4, 4]);
    let g = k.run_greedy();
    let nb = Neighborhood::new(&k, &g);
    assert_eq!(nb.base_items, vec![1, 2]);
    assert_eq!(nb.neighbors, vec![(0, 0), (1, 0)]);
}

#[test]
fn improve_keeps_incumbent() {
    let k = instance(&[4, 5, 3], &[&[2, 3, 1], &[3, 1, 2]], &[4, 4]);
    let g = k.run_greedy();
    let s = k.improve(&g);
    assert_eq!(s.picked_items, vec![2, 3]);
    assert_eq!(s.total_profit, 8);
    assert_eq!(s.utilization, g.utilization);
    assert_eq!(s.runs, 1);
}

#[test]
fn improve_takes_best_swap() {
    let k = swap_instance();
    let g = k.run_greedy();
    assert_eq!(g.picked_items, vec![1, 2]);
    assert_eq!(g.total_profit, 13);
    let nb = Neighborhood::new(&k, &g);
    assert_eq!(nb.neighbors, vec![(0, 2), (1, 2)]);
    let s = nb.best_neighbor(&k);
    assert_eq!(s.picked_items, vec![1, 3]);
    assert_eq!(s.total_profit, 17);
    assert_eq!(s.utilization, vec![10000]);
    assert_eq!(s.runs, 1);
}

#[test]
fn improve_k_never_worse() {
    let k = swap_instance();
    let g = k.run_greedy();
    for times in 0..4 {
        let s = k.improve_k(&g, times);
        assert!(s.total_profit >= g.total_profit);
        assert_feasible(&k, &s);
        if times == 0 {
            assert_eq!(s.picked_items, g.picked_items);
        } else {
            assert_eq!(s.total_profit, 17);
        }
    }
}

#[test]
fn improve_empty_pick_list() {
    let k = instance(&[5, 3], &[&[4, 2]], &[0]);
    let g = k.run_greedy();
    let s = k.improve_k(&g, 3);
    assert!(s.picked_items.is_empty());
    assert_eq!(s.total_profit, 0);
}

#[test]
fn from_builds_items() {
    let k = instance(&[4, 5, 3], &[&[2, 3, 1], &[3, 1, 2]], &[4, 4]);
    assert_eq!(k.n, 3);
    assert_eq!(k.m, 2);
    assert_eq!(k.items[1].id, 2);
    assert_eq!(k.items[1].profit, 5);
    assert_eq!(k.items[1].weights, vec![3, 1]);
    assert_eq!(k.items[1].weight_sum, 4);
    assert_eq!(k.capacity, vec![4, 4]);
}

#[test]
fn from_rejects_bad_header() {
    let rows: Vec<Vec<u32>> = vec![vec![2, 1, 0], vec![1, 2], vec![1, 1], vec![3]];
    assert_eq!(Knapsack::from(&rows).err(), Some(MalformedInstance { line: 1 }));
    let empty: Vec<Vec<u32>> = Vec::new();
    assert_eq!(Knapsack::from(&empty).err(), Some(MalformedInstance { line: 1 }));
}

#[test]
fn from_rejects_missing_and_extra_lines() {
    let short: Vec<Vec<u32>> = vec![vec![2, 2, 0, 0], vec![1, 2], vec![1, 1]];
    assert_eq!(Knapsack::from(&short).err(), Some(MalformedInstance { line: 4 }));
    let long: Vec<Vec<u32>> = vec![vec![2, 1, 0, 0], vec![1, 2], vec![1, 1], vec![3], vec![7]];
    assert_eq!(Knapsack::from(&long).err(), Some(MalformedInstance { line: 5 }));
}

#[test]
fn from_reports_present_lines_before_missing_ones() {
    let rows: Vec<Vec<u32>> = vec![vec![3, 1, 0, 0], vec![6, 5], vec![1, 1, 1]];
    assert_eq!(Knapsack::from(&rows).err(), Some(MalformedInstance { line: 2 }));
    let extra: Vec<Vec<u32>> =
        vec![vec![2, 1, 0, 0], vec![1, 2], vec![1, 1, 1], vec![3], vec![7]];
    assert_eq!(Knapsack::from(&extra).err(), Some(MalformedInstance { line: 3 }));
    assert_eq!(Knapsack::shape_defect_of(&rows), 2);
}

#[test]
fn from_rejects_bad_rows() {
    let profits: Vec<Vec<u32>> = vec![vec![2, 1, 0, 0], vec![1], vec![1, 1], vec![3]];
    assert_eq!(Knapsack::from(&profits).err(), Some(MalformedInstance { line: 2 }));
    let weights: Vec<Vec<u32>> =
        vec![vec![2, 2, 0, 0], vec![1, 2], vec![1, 1], vec![1, 1, 1], vec![3, 3]];
    assert_eq!(Knapsack::from(&weights).err(), Some(MalformedInstance { line: 4 }));
    let capacity: Vec<Vec<u32>> = vec![vec![2, 1, 0, 0], vec![1, 2], vec![1, 1], vec![3, 4]];
    assert_eq!(Knapsack::from(&capacity).err(), Some(MalformedInstance { line: 4 }));
}

#[test]
fn item_new_sums_weights() {
    let it = mkp::item::Item::new(7, 9, vec![1, 2, 3]);
    assert_eq!(it.id, 7);
    assert_eq!(it.weight_sum, 6);
    let a = mkp::item::Item::new(1, 3, vec![1]);
    let b = mkp::item::Item::new(2, 5, vec![2]);
    assert!(a.precedes_exec(&b));
    assert!(!b.precedes_exec(&a));
}

#[test]
fn statistics_new_is_empty() {
    let s = Statistics::new();
    assert_eq!(s.total_profit, 0);
    assert!(s.picked_items.is_empty());
    assert_eq!(s.runs, 0);
    let t = s.duplicate();
    assert_eq!(t.total_profit, 0);
}
