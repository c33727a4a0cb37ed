use vstd::prelude::*;

use crate::knapsack::{order_views, Knapsack};
use crate::statistics::{Statistics, StatisticsView};

verus! {

/// The item indices behind a list of 1-based ids.
pub open spec fn base_of(ids: Seq<usize>) -> Seq<usize> {
    ids.map(|j: int, id: usize| (id - 1) as usize)
}

/// The indices below `j` that `base` does not hold, ascending.
pub open spec fn unpicked(base: Seq<usize>, j: nat) -> Seq<usize>
    decreases j,
{
    if j == 0 {
        seq![]
    } else {
        let prev = unpicked(base, (j - 1) as nat);
        if base.contains((j - 1) as usize) {
            prev
        } else {
            prev.push((j - 1) as usize)
        }
    }
}

/// Every (position, candidate) pair: for each candidate in turn, every
/// position `0..positions` of the pick list.
pub open spec fn neighbor_list(positions: nat, candidates: Seq<usize>) -> Seq<(usize, usize)>
    decreases candidates.len(),
{
    if candidates.len() == 0 {
        seq![]
    } else {
        neighbor_list(positions, candidates.drop_last()) + Seq::new(
            positions,
            |p: int| (p as usize, candidates.last()),
        )
    }
}

/// The order that a neighbor stands for: the pick list with the item at the
/// neighbor's position replaced by its candidate.
pub open spec fn neighbor_orders(base: Seq<usize>, nbs: Seq<(usize, usize)>) -> Seq<Seq<usize>> {
    nbs.map(|i: int, nb: (usize, usize)| base.update(nb.0 as int, nb.1))
}

/// The neighbor orders of a solution on an instance.
pub open spec fn orders_of(k: Knapsack, s: StatisticsView) -> Seq<Seq<usize>> {
    let base = base_of(s.picked_items);
    neighbor_orders(base, neighbor_list(base.len(), unpicked(base, k.n as nat)))
}

/// One pass of the improver: the best neighbor if it is strictly more
/// profitable than the incumbent, else the incumbent.
pub open spec fn improve_once(k: Knapsack, s: StatisticsView) -> StatisticsView {
    let b = k.best_pass(orders_of(k, s));
    if b.profit > s.total_profit {
        k.solution_of(b, s.runs)
    } else {
        s
    }
}

/// `times` passes of the improver.
pub open spec fn improve_times(k: Knapsack, s: StatisticsView, times: nat) -> StatisticsView
    decreases times,
{
    if times == 0 {
        s
    } else {
        improve_once(k, improve_times(k, s, (times - 1) as nat))
    }
}

/// Distinct indices below `n` number at most `n`.
pub proof fn lemma_distinct_below(s: Seq<usize>, n: nat)
    requires
        s.no_duplicates(),
        forall|k: int| 0 <= k < s.len() ==> s[k] < n,
    ensures
        s.len() <= n,
    decreases n,
{
    if n == 0 {
        if s.len() > 0 {
            assert(s[0] < 0);
        }
    } else if exists|k: int| 0 <= k < s.len() && s[k] == n - 1 {
        let k = choose|k: int| 0 <= k < s.len() && s[k] == n - 1;
        let t = s.remove(k);
        assert forall|a: int| 0 <= a < t.len() implies t[a] < n - 1 by {
            if a < k {
                assert(t[a] == s[a]);
            } else {
                assert(t[a] == s[a + 1]);
            }
        }
        assert forall|a: int, b: int| 0 <= a < t.len() && 0 <= b < t.len() && a != b implies t[a]
            != t[b] by {
            let sa = if a < k { a } else { a + 1 };
            let sb = if b < k { b } else { b + 1 };
            assert(t[a] == s[sa] && t[b] == s[sb]);
        }
        lemma_distinct_below(t, (n - 1) as nat);
    } else {
        lemma_distinct_below(s, (n - 1) as nat);
    }
}

/// What `unpicked` holds: indices below `j`, none of them in `base`, none twice.
pub proof fn lemma_unpicked(base: Seq<usize>, j: nat)
    requires
        j <= usize::MAX + 1,
    ensures
        unpicked(base, j).no_duplicates(),
        forall|a: int|
            0 <= a < unpicked(base, j).len() ==> #[trigger] unpicked(base, j)[a] < j
                && !base.contains(unpicked(base, j)[a]),
        forall|i: usize| i < j && !base.contains(i) ==> unpicked(base, j).contains(i),
    decreases j,
{
    if j > 0 {
        lemma_unpicked(base, (j - 1) as nat);
        let prev = unpicked(base, (j - 1) as nat);
        if !base.contains((j - 1) as usize) {
            let cur = prev.push((j - 1) as usize);
            assert(cur[cur.len() - 1] == (j - 1) as usize);
            assert forall|i: usize| i < j && !base.contains(i) implies cur.contains(i) by {
                if i < j - 1 {
                    let a = choose|a: int| 0 <= a < prev.len() && prev[a] == i;
                    assert(cur[a] == i);
                }
            }
        }
    }
}

/// Each neighbor names a position below `positions` and a candidate of the list.
pub proof fn lemma_neighbor_list(positions: nat, candidates: Seq<usize>)
    ensures
        forall|x: int|
            0 <= x < neighbor_list(positions, candidates).len() ==> (#[trigger] neighbor_list(
                positions,
                candidates,
            )[x]).0 < positions && candidates.contains(neighbor_list(positions, candidates)[x].1),
    decreases candidates.len(),
{
    if candidates.len() > 0 {
        let prev = candidates.drop_last();
        lemma_neighbor_list(positions, prev);
        let nl0 = neighbor_list(positions, prev);
        let nl = neighbor_list(positions, candidates);
        assert forall|x: int| 0 <= x < nl.len() implies (#[trigger] nl[x]).0 < positions
            && candidates.contains(nl[x].1) by {
            if x < nl0.len() {
                assert(nl[x] == nl0[x]);
                let a = choose|a: int| 0 <= a < prev.len() && prev[a] == nl0[x].1;
                assert(candidates[a] == prev[a]);
            } else {
                assert(candidates[candidates.len() - 1] == candidates.last());
            }
        }
    }
}

/// Every neighbor order of a valid solution visits distinct items of the
/// instance, no more of them than the instance has.
pub proof fn lemma_orders_valid(k: &Knapsack, s: StatisticsView)
    requires
        k.wf(),
        k.valid_ids(s.picked_items),
    ensures
        forall|i: int|
            0 <= i < orders_of(*k, s).len() ==> k.valid_order(#[trigger] orders_of(*k, s)[i])
                && orders_of(*k, s)[i].len() <= u32::MAX && orders_of(*k, s)[i].no_duplicates(),
{
    let ids = s.picked_items;
    let base = base_of(ids);
    let unp = unpicked(base, k.n as nat);
    let nl = neighbor_list(base.len(), unp);
    assert forall|a: int| 0 <= a < base.len() implies base[a] < k.n by {
        assert(1 <= ids[a] <= k.n);
    }
    assert forall|a: int, b: int| 0 <= a < base.len() && 0 <= b < base.len() && a != b implies base[a]
        != base[b] by {
        assert(1 <= ids[a] && 1 <= ids[b]);
    }
    lemma_distinct_below(base, k.n as nat);
    lemma_unpicked(base, k.n as nat);
    lemma_neighbor_list(base.len(), unp);
    assert forall|i: int| 0 <= i < orders_of(*k, s).len() implies k.valid_order(
        #[trigger] orders_of(*k, s)[i],
    ) && orders_of(*k, s)[i].len() <= u32::MAX && orders_of(*k, s)[i].no_duplicates() by {
        let nb = nl[i];
        let o = base.update(nb.0 as int, nb.1);
        assert(orders_of(*k, s)[i] == o);
        let w = choose|w: int| 0 <= w < unp.len() && unp[w] == nb.1;
        assert(unp[w] < k.n && !base.contains(unp[w]));
        assert forall|a: int, b: int| 0 <= a < o.len() && 0 <= b < o.len() && a != b implies o[a]
            != o[b] by {
            if a == nb.0 {
                assert(base[b] != nb.1);
            } else if b == nb.0 {
                assert(base[a] != nb.1);
            }
        }
    }
}

/// Improving never lowers the profit, however many passes are made.
pub proof fn lemma_improve_never_worse(k: Knapsack, s: StatisticsView, times: nat)
    ensures
        improve_times(k, s, times).total_profit >= s.total_profit,
    decreases times,
{
    if times > 0 {
        lemma_improve_never_worse(k, s, (times - 1) as nat);
    }
}

/// The neighborhood of an incumbent solution: its pick list (as item indices,
/// in the order of admission) and every (position, candidate) pair, where a
/// candidate is an item that the incumbent did not pick.
pub struct Neighborhood {
    pub result: Statistics,
    pub base_items: Vec<usize>,
    pub neighbors: Vec<(usize, usize)>,
}

impl Neighborhood {
    /// The neighborhood is that of `result` on `k`.
    pub open spec fn wf(&self, k: &Knapsack) -> bool {
        &&& k.valid_ids(self.result@.picked_items)
        &&& self.base_items@ == base_of(self.result@.picked_items)
        &&& self.neighbors@ == neighbor_list(
            self.base_items@.len(),
            unpicked(self.base_items@, k.n as nat),
        )
    }

    /// Builds the neighborhood of `result`.
    pub fn new(k: &Knapsack, result: &Statistics) -> (r: Neighborhood)
        requires
            k.wf(),
            k.valid_ids(result@.picked_items),
        ensures
            r.wf(k),
            r.result@ == result@,
    {
        let ids = &result.picked_items;
        let mut base: Vec<usize> = Vec::new();
        let mut q: usize = 0;
        while q < ids.len()
            invariant
                k.valid_ids(ids@),
                q <= ids@.len(),
                base@ == base_of(ids@.subrange(0, q as int)),
            decreases ids@.len() - q,
        {
            assert(1 <= ids@[q as int]);
            base.push(ids[q] - 1);
            q = q + 1;
            assert(base@ =~= base_of(ids@.subrange(0, q as int)));
        }
        assert(ids@.subrange(0, q as int) == ids@);
        let mut marks: Vec<bool> = Vec::new();
        let mut i: usize = 0;
        while i < k.n
            invariant
                i <= k.n,
                marks@.len() == i,
                forall|a: int| 0 <= a < i ==> !marks@[a],
            decreases k.n - i,
        {
            marks.push(false);
            i = i + 1;
        }
        let mut q: usize = 0;
        while q < base.len()
            invariant
                k.valid_ids(ids@),
                base@ == base_of(ids@),
                q <= base@.len(),
                marks@.len() == k.n,
                forall|a: int|
                    0 <= a < k.n ==> marks@[a] == base@.subrange(0, q as int).contains(a as usize),
            decreases base@.len() - q,
        {
            assert(1 <= ids@[q as int] <= k.n);
            let b = base[q];
            let ghost m0 = marks@;
            marks.set(b, true);
            q = q + 1;
            assert forall|a: int| 0 <= a < k.n implies marks@[a] == base@.subrange(
                0,
                q as int,
            ).contains(a as usize) by {
                let pre = base@.subrange(0, q - 1);
                let cur = base@.subrange(0, q as int);
                assert(cur == pre.push(b));
                if a as usize == b {
                    assert(cur[q - 1] == b);
                } else {
                    assert(marks@[a] == m0[a]);
                }
                if pre.contains(a as usize) {
                    let w = choose|w: int| 0 <= w < pre.len() && pre[w] == a as usize;
                    assert(cur[w] == a as usize);
                }
                if cur.contains(a as usize) && a as usize != b {
                    let w = choose|w: int| 0 <= w < cur.len() && cur[w] == a as usize;
                    assert(pre[w] == a as usize);
                }
            }
        }
        assert(base@.subrange(0, q as int) == base@);
        let mut unp: Vec<usize> = Vec::new();
        let mut i: usize = 0;
        while i < k.n
            invariant
                i <= k.n,
                marks@.len() == k.n,
                forall|a: int| 0 <= a < k.n ==> marks@[a] == base@.contains(a as usize),
                unp@ == unpicked(base@, i as nat),
            decreases k.n - i,
        {
            if !marks[i] {
                unp.push(i);
            }
            i = i + 1;
        }
        let mut neighbors: Vec<(usize, usize)> = Vec::new();
        let mut t: usize = 0;
        while t < unp.len()
            invariant
                t <= unp@.len(),
                neighbors@ == neighbor_list(base@.len(), unp@.subrange(0, t as int)),
            decreases unp@.len() - t,
        {
            let c = unp[t];
            let mut row: Vec<(usize, usize)> = Vec::new();
            let mut p: usize = 0;
            while p < base.len()
                invariant
                    p <= base@.len(),
                    row@ == Seq::new(p as nat, |x: int| (x as usize, c)),
                decreases base@.len() - p,
            {
                row.push((p, c));
                p = p + 1;
                assert(row@ =~= Seq::new(p as nat, |x: int| (x as usize, c)));
            }
            assert(unp@.subrange(0, t + 1).drop_last() == unp@.subrange(0, t as int));
            neighbors.append(&mut row);
            t = t + 1;
        }
        assert(unp@.subrange(0, t as int) == unp@);
        Neighborhood { result: result.duplicate(), base_items: base, neighbors }
    }

    /// Evaluates every neighbor with the kernel on the worker pool and returns
    /// the first most profitable one if it beats the incumbent strictly, else
    /// the incumbent unchanged.
    pub fn best_neighbor(&self, k: &Knapsack) -> (r: Statistics)
        requires
            k.wf(),
            self.wf(k),
        ensures
            r@ == improve_once(*k, self.result@),
            k.valid_ids(r@.picked_items),
            k.is_feasible(self.result@.picked_items) ==> k.is_feasible(r@.picked_items),
    {
        let ghost all = orders_of(*k, self.result@);
        proof {
            lemma_orders_valid(k, self.result@);
            lemma_neighbor_list(self.base_items@.len(), unpicked(self.base_items@, k.n as nat));
        }
        let mut orders: Vec<Vec<usize>> = Vec::new();
        let mut x: usize = 0;
        while x < self.neighbors.len()
            invariant
                self.wf(k),
                all == orders_of(*k, self.result@),
                x <= self.neighbors@.len(),
                forall|y: int|
                    0 <= y < self.neighbors@.len() ==> (#[trigger] self.neighbors@[y]).0
                        < self.base_items@.len(),
                order_views(orders@) == neighbor_orders(
                    self.base_items@,
                    self.neighbors@.subrange(0, x as int),
                ),
            decreases self.neighbors@.len() - x,
        {
            let (p, c) = self.neighbors[x];
            assert(self.neighbors@[x as int].0 < self.base_items@.len());
            let mut o = self.base_items.clone();
            assert(o@ == self.base_items@);
            o.set(p, c);
            assert(o@ == self.base_items@.update(p as int, c));
            let ghost prev = orders@;
            orders.push(o);
            assert(orders@ == prev.push(o));
            assert(order_views(orders@) =~= order_views(prev).push(o@));
            assert(self.neighbors@.subrange(0, x + 1) =~= self.neighbors@.subrange(0, x as int).push((p, c)));
            x = x + 1;
            assert(order_views(orders@) =~= neighbor_orders(
                self.base_items@,
                self.neighbors@.subrange(0, x as int),
            ));
        }
        assert(self.neighbors@.subrange(0, x as int) == self.neighbors@);
        assert(order_views(orders@) == all);
        proof {
            assert forall|i: int| 0 <= i < orders@.len() implies k.valid_order(
                #[trigger] orders@[i]@,
            ) && orders@[i]@.len() <= u32::MAX && orders@[i]@.no_duplicates() by {
                assert(orders@[i]@ == all[i]);
            }
        }
        let best = k.run_orders(&orders);
        if best.total_profit > self.result.total_profit {
            let mut improved = best;
            improved.runs = self.result.runs;
            improved
        } else {
            self.result.duplicate()
        }
    }
}

impl Knapsack {
    /// One pass of the 1-exchange improver on `incumbent`.
    pub fn improve(&self, incumbent: &Statistics) -> (r: Statistics)
        requires
            self.wf(),
            self.valid_ids(incumbent@.picked_items),
        ensures
            r@ == improve_once(*self, incumbent@),
            r@.total_profit >= incumbent@.total_profit,
            self.valid_ids(r@.picked_items),
            self.is_feasible(incumbent@.picked_items) ==> self.is_feasible(r@.picked_items),
    {
        let nb = Neighborhood::new(self, incumbent);
        nb.best_neighbor(self)
    }

    /// `times` passes of the improver, starting from `seed`.
    pub fn improve_k(&self, seed: &Statistics, times: usize) -> (r: Statistics)
        requires
            self.wf(),
            self.valid_ids(seed@.picked_items),
        ensures
            r@ == improve_times(*self, seed@, times as nat),
            r@.total_profit >= seed@.total_profit,
            self.valid_ids(r@.picked_items),
            self.is_feasible(seed@.picked_items) ==> self.is_feasible(r@.picked_items),
    {
        let mut cur = seed.duplicate();
        let mut t: usize = 0;
        while t < times
            invariant
                self.wf(),
                t <= times,
                cur@ == improve_times(*self, seed@, t as nat),
                self.valid_ids(cur@.picked_items),
                self.is_feasible(seed@.picked_items) ==> self.is_feasible(cur@.picked_items),
            decreases times - t,
        {
            cur = self.improve(&cur);
            t = t + 1;
        }
        proof {
            lemma_improve_never_worse(*self, seed@, times as nat);
        }
        cur
    }
}

} // verus!
