use vstd::prelude::*;

use crate::item::{sum_u32, Item};
use crate::parallel::run_all;
use crate::sampling::shuffle;
use crate::statistics::{Statistics, StatisticsView};

verus! {

/// The state of one pass of the kernel: the indices admitted so far in order,
/// their total profit, and the capacity left in each dimension.
pub struct PassState {
    pub picked: Seq<usize>,
    pub profit: int,
    pub remaining: Seq<u32>,
}

/// Every weight is covered by what is left in its dimension.
pub open spec fn fits(w: Seq<u32>, rem: Seq<u32>) -> bool {
    forall|d: int| 0 <= d < rem.len() ==> w[d] <= rem[d]
}

/// What is left once the weights `w` are taken out of `rem`.
pub open spec fn take(rem: Seq<u32>, w: Seq<u32>) -> Seq<u32> {
    Seq::new(rem.len(), |d: int| (rem[d] - w[d]) as u32)
}

/// One step of the kernel: item `i` joins iff it fits.
pub open spec fn step(items: Seq<Item>, s: PassState, i: usize) -> PassState {
    let w = items[i as int].weights@;
    if fits(w, s.remaining) {
        PassState {
            picked: s.picked.push(i),
            profit: s.profit + items[i as int].profit,
            remaining: take(s.remaining, w),
        }
    } else {
        s
    }
}

/// The kernel: walk `order` from the full capacity `cap`, admitting each item
/// whose weights fit in every dimension.
pub open spec fn pass(items: Seq<Item>, cap: Seq<u32>, order: Seq<usize>) -> PassState
    decreases order.len(),
{
    if order.len() == 0 {
        PassState { picked: seq![], profit: 0, remaining: cap }
    } else {
        step(items, pass(items, cap, order.drop_last()), order.last())
    }
}

/// A pass keeps one entry per dimension, never above the capacity.
pub proof fn lemma_pass_remaining(items: Seq<Item>, cap: Seq<u32>, order: Seq<usize>)
    ensures
        pass(items, cap, order).remaining.len() == cap.len(),
        forall|d: int|
            0 <= d < cap.len() ==> #[trigger] pass(items, cap, order).remaining[d] <= cap[d],
    decreases order.len(),
{
    if order.len() > 0 {
        lemma_pass_remaining(items, cap, order.drop_last());
    }
}

/// The kernel run again on the list that it picked yields the same pass:
/// same picks in the same order, same profit, same capacity left.
pub proof fn lemma_pass_idempotent(items: Seq<Item>, cap: Seq<u32>, order: Seq<usize>)
    ensures
        pass(items, cap, pass(items, cap, order).picked) == pass(items, cap, order),
    decreases order.len(),
{
    if order.len() > 0 {
        let prev = order.drop_last();
        lemma_pass_idempotent(items, cap, prev);
        let s0 = pass(items, cap, prev);
        let s1 = pass(items, cap, order);
        if s1.picked.len() != s0.picked.len() || s1 != s0 {
            assert(s1.picked.drop_last() == s0.picked);
        }
    }
}

/// A pass never has negative profit.
pub proof fn lemma_pass_profit(items: Seq<Item>, cap: Seq<u32>, order: Seq<usize>)
    ensures
        pass(items, cap, order).profit >= 0,
    decreases order.len(),
{
    if order.len() > 0 {
        lemma_pass_profit(items, cap, order.drop_last());
    }
}

/// Use of one dimension in hundredths of a percent, rounded half up:
/// `100 * (cap - rem) / cap` to two decimals, and zero where `cap` is zero.
pub open spec fn hundredths(cap: u32, rem: u32) -> int {
    if cap == 0 {
        0
    } else {
        (20000 * (cap - rem) + cap) / (2 * cap)
    }
}

/// The indices `0..n` in ascending order.
pub open spec fn indices(n: nat) -> Seq<usize> {
    Seq::new(n, |i: int| i as usize)
}

/// `o` holds each index of `0..n` exactly once.
pub open spec fn is_permutation(o: Seq<usize>, n: nat) -> bool {
    o.to_multiset() == indices(n).to_multiset()
}

/// A permutation has length `n`, holds only indices below `n`, and none twice.
pub proof fn lemma_permutation(o: Seq<usize>, n: nat)
    requires
        is_permutation(o, n),
        n <= usize::MAX,
    ensures
        o.len() == n,
        o.no_duplicates(),
        forall|j: int| 0 <= j < o.len() ==> o[j] < n,
{
    o.to_multiset_ensures();
    indices(n).to_multiset_ensures();
    assert forall|a: int, b: int| 0 <= a < indices(n).len() && 0 <= b < indices(n).len() && a != b
        implies indices(n)[a] != indices(n)[b] by {}
    indices(n).lemma_multiset_has_no_duplicates();
    o.lemma_multiset_has_no_duplicates_conv();
    assert forall|j: int| 0 <= j < o.len() implies o[j] < n by {
        assert(o.contains(o[j]));
        assert(o.to_multiset().count(o[j]) > 0);
        assert(indices(n).to_multiset().count(o[j]) > 0);
        assert(indices(n).contains(o[j]));
        let k = choose|k: int| 0 <= k < indices(n).len() && indices(n)[k] == o[j];
    }
}

/// The views of a list of orders.
pub open spec fn order_views(orders: Seq<Vec<usize>>) -> Seq<Seq<usize>> {
    orders.map(|i: int, o: Vec<usize>| o@)
}

/// The rows of the input do not have the shape of an instance; `line` is the
/// 1-based number of the first offending line.
#[derive(Debug, PartialEq, Eq, Structural)]
pub struct MalformedInstance {
    pub line: u64,
}

/// The number of values that line `i + 1` of an input must hold, for
/// `1 <= i`: `n` profits, then `m` rows of `n` weights, then `m` capacities.
pub open spec fn row_width(n: int, m: int, i: int) -> int {
    if i < 2 + m {
        n
    } else {
        m
    }
}

/// The index of the first row in `lo..hi` whose length is not the one its
/// line must have, or `hi` if there is none.
pub open spec fn first_off_shape(rows: Seq<Seq<u32>>, lo: int, hi: int, n: int, m: int) -> int
    decreases hi - lo,
{
    if lo >= hi {
        hi
    } else if rows[lo].len() != row_width(n, m, lo) {
        lo
    } else {
        first_off_shape(rows, lo + 1, hi, n, m)
    }
}

/// The first row off its shape lies in `lo..=hi`.
pub proof fn lemma_first_off_shape_range(rows: Seq<Seq<u32>>, lo: int, hi: int, n: int, m: int)
    requires
        lo <= hi,
    ensures
        lo <= first_off_shape(rows, lo, hi, n, m) <= hi,
    decreases hi - lo,
{
    if lo < hi {
        lemma_first_off_shape_range(rows, lo + 1, hi, n, m);
    }
}

/// Where no row in `lo..hi` is off its shape, every one has its width.
pub proof fn lemma_first_off_shape(rows: Seq<Seq<u32>>, lo: int, hi: int, n: int, m: int)
    requires
        first_off_shape(rows, lo, hi, n, m) == hi,
    ensures
        forall|i: int| lo <= i < hi ==> #[trigger] rows[i].len() == row_width(n, m, i),
    decreases hi - lo,
{
    if lo < hi {
        lemma_first_off_shape(rows, lo + 1, hi, n, m);
    }
}

/// The 1-based line of the first of the lines present whose count of values
/// is wrong for its place (the header must hold `n m q opt`), or 0 where every
/// line present has the right count.
pub open spec fn shape_defect(rows: Seq<Seq<u32>>) -> int {
    if rows.len() == 0 {
        0
    } else if rows[0].len() != 4 {
        1
    } else {
        let n = rows[0][0] as int;
        let m = rows[0][1] as int;
        let hi = if rows.len() < m + 3 {
            rows.len() as int
        } else {
            m + 3
        };
        let f = first_off_shape(rows, 1, hi, n, m);
        if f < hi {
            f + 1
        } else {
            0
        }
    }
}

/// A shape defect lies on one of the lines present.
pub proof fn lemma_shape_defect_bound(rows: Seq<Seq<u32>>)
    ensures
        0 <= shape_defect(rows) <= rows.len(),
{
    if rows.len() > 0 && rows[0].len() == 4 {
        let n = rows[0][0] as int;
        let m = rows[0][1] as int;
        let hi = if rows.len() < m + 3 {
            rows.len() as int
        } else {
            m + 3
        };
        lemma_first_off_shape_range(rows, 1, hi, n, m);
    }
}

/// The 1-based line of the first defect of the rows of an input, or 0 where
/// they have the shape of an instance: a header `n m q opt`, `n` profits, `m`
/// rows of `n` weights, then `m` capacities, and nothing more. The lines that
/// are present are checked first, in order; only then a missing line (the one
/// after the last) or an extra line (the first beyond the capacities).
pub open spec fn error_line(rows: Seq<Seq<u32>>) -> int {
    if rows.len() == 0 {
        1
    } else if shape_defect(rows) != 0 {
        shape_defect(rows)
    } else {
        let m = rows[0][1] as int;
        if rows.len() < m + 3 {
            rows.len() + 1 as int
        } else if rows.len() > m + 3 {
            m + 4
        } else {
            0
        }
    }
}

/// The views of the rows of an input.
pub open spec fn row_views(rows: Seq<Vec<u32>>) -> Seq<Seq<u32>> {
    rows.map(|i: int, r: Vec<u32>| r@)
}

/// The outcome of one pass, in executable form.
pub struct Run {
    pub picked: Vec<usize>,
    pub profit: u64,
    pub remaining: Vec<u32>,
}

impl View for Run {
    type V = PassState;

    open spec fn view(&self) -> PassState {
        PassState { picked: self.picked@, profit: self.profit as int, remaining: self.remaining@ }
    }
}

/// An instance of the problem: `n` items over `m` resource dimensions and
/// the capacity of each dimension.
pub struct Knapsack {
    pub m: usize,
    pub n: usize,
    pub items: Vec<Item>,
    pub capacity: Vec<u32>,
}

impl Knapsack {
    /// The instance that rows of the right shape describe: item `i` (id
    /// `i + 1`) has profit `rs[1][i]` and weight `rs[2 + d][i]` in dimension
    /// `d`; the capacities are the last row.
    pub open spec fn built_from(&self, rs: Seq<Seq<u32>>) -> bool {
        &&& self.wf()
        &&& self.n == rs[0][0]
        &&& self.m == rs[0][1]
        &&& self.capacity@ == rs[2 + self.m]
        &&& forall|i: int|
            0 <= i < self.n ==> (#[trigger] self.items@[i]).profit == rs[1][i] && forall|d: int|
                0 <= d < self.m ==> self.items@[i].weights@[d] == rs[2 + d][i]
    }

    /// The line of the first shape defect among the rows present, as
    /// `shape_defect` gives it.
    pub fn shape_defect_of(rows: &Vec<Vec<u32>>) -> (r: u64)
        ensures
            r == shape_defect(row_views(rows@)),
    {
        let ghost rs = row_views(rows@);
        if rows.len() == 0 {
            return 0;
        }
        assert(rs[0] == rows@[0]@);
        if rows[0].len() != 4 {
            return 1;
        }
        let n = rows[0][0];
        let m = rows[0][1];
        let hi: usize = if (rows.len() as u64) < m as u64 + 3 {
            rows.len()
        } else {
            (m as u64 + 3) as usize
        };
        let mut i: usize = 1;
        while i < hi
            invariant
                rs == row_views(rows@),
                hi <= rows@.len(),
                rs.len() > 0,
                rs[0].len() == 4,
                n == rs[0][0],
                m == rs[0][1],
                hi == (if rs.len() < m + 3 {
                    rs.len() as int
                } else {
                    m + 3
                }),
                1 <= i,
                i <= hi || hi == 0,
                first_off_shape(rs, 1, hi as int, n as int, m as int) == first_off_shape(
                    rs,
                    i as int,
                    hi as int,
                    n as int,
                    m as int,
                ),
            decreases hi - i,
        {
            assert(rs[i as int] == rows@[i as int]@);
            let width: u32 = if (i as u64) < 2 + m as u64 {
                n
            } else {
                m
            };
            if rows[i].len() as u64 != width as u64 {
                return i as u64 + 1;
            }
            i = i + 1;
        }
        0
    }

    /// Builds an instance from the rows of integers of its input: item `i`
    /// (id `i + 1`) has profit `rows[1][i]` and weight `rows[2 + d][i]` in
    /// dimension `d`; the capacities are the last row.
    pub fn from(rows: &Vec<Vec<u32>>) -> (r: Result<Knapsack, MalformedInstance>)
        ensures
            ({
                let rs = row_views(rows@);
                match r {
                    Ok(k) => error_line(rs) == 0 && k.built_from(rs),
                    Err(e) => error_line(rs) != 0 && e.line == error_line(rs),
                }
            }),
    {
        let ghost rs = row_views(rows@);
        if rows.len() == 0 {
            return Err(MalformedInstance { line: 1 });
        }
        let defect = Knapsack::shape_defect_of(rows);
        if defect != 0 {
            return Err(MalformedInstance { line: defect });
        }
        assert(rs[0] == rows@[0]@);
        let n = rows[0][0] as usize;
        let m = rows[0][1] as usize;
        if rows.len() < 3 || (rows.len() - 3) as u64 != m as u64 {
            if (rows.len() as u64) < m as u64 + 3 {
                return Err(MalformedInstance { line: rows.len() as u64 + 1 });
            } else {
                return Err(MalformedInstance { line: m as u64 + 4 });
            }
        }
        let nrows = rows.len();
        assert(rows@.len() == m + 3);
        proof {
            assert(rs[0].len() == 4);
            lemma_first_off_shape_range(rs, 1, m + 3, n as int, m as int);
            assert(first_off_shape(rs, 1, m + 3, n as int, m as int) == m + 3);
            lemma_first_off_shape(rs, 1, m + 3, n as int, m as int);
            assert(rs[1] == rows@[1]@);
            assert(rs[2 + m] == rows@[2 + m]@);
            assert forall|e: int| 0 <= e < m implies (#[trigger] rows@[2 + e])@.len() == n by {
                assert(rs[2 + e] == rows@[2 + e]@);
                assert(rs[2 + e].len() == row_width(n as int, m as int, 2 + e));
            }
        }
        let mut items: Vec<Item> = Vec::new();
        let mut i: usize = 0;
        while i < n
            invariant
                rs == row_views(rows@),
                rows@.len() == m + 3,
                nrows == rows@.len(),
                n <= u32::MAX,
                m <= u32::MAX,
                rows@[1]@.len() == n,
                forall|e: int| 0 <= e < m ==> (#[trigger] rows@[2 + e])@.len() == n,
                i <= n,
                items@.len() == i,
                forall|j: int|
                    0 <= j < i ==> {
                        &&& (#[trigger] items@[j]).id == j + 1
                        &&& items@[j].weights@.len() == m
                        &&& items@[j].wf()
                        &&& items@[j].profit == rs[1][j]
                        &&& forall|e: int| 0 <= e < m ==> items@[j].weights@[e] == rs[2 + e][j]
                    },
            decreases n - i,
        {
            let mut weights: Vec<u32> = Vec::new();
            let mut e: usize = 0;
            while e < m
                invariant
                    rs == row_views(rows@),
                    rows@.len() == m + 3,
                    nrows == rows@.len(),
                    i < n,
                    forall|e: int| 0 <= e < m ==> (#[trigger] rows@[2 + e])@.len() == n,
                    e <= m,
                    weights@.len() == e,
                    forall|f: int| 0 <= f < e ==> weights@[f] == rs[2 + f][i as int],
                decreases m - e,
            {
                assert(rows@[2 + e]@.len() == n);
                weights.push(rows[2 + e][i]);
                e = e + 1;
            }
            let item = Item::new(i + 1, rows[1][i], weights);
            items.push(item);
            i = i + 1;
        }
        let mut capacity: Vec<u32> = Vec::new();
        let mut e: usize = 0;
        while e < m
            invariant
                rs == row_views(rows@),
                rows@.len() == m + 3,
                nrows == rows@.len(),
                rows@[2 + m]@.len() == m,
                e <= m,
                capacity@ == rs[2 + m].subrange(0, e as int),
            decreases m - e,
        {
            capacity.push(rows[2 + m][e]);
            e = e + 1;
            assert(capacity@ == rs[2 + m].subrange(0, e as int));
        }
        assert(capacity@ == rs[2 + m]);
        Ok(Knapsack { m, n, items, capacity })
    }

    /// Items are numbered 1..n in order, each with `m` weights.
    pub open spec fn wf(&self) -> bool {
        &&& self.items@.len() == self.n
        &&& self.capacity@.len() == self.m
        &&& self.n <= u32::MAX
        &&& self.m <= u32::MAX
        &&& forall|i: int|
            0 <= i < self.n ==> {
                &&& (#[trigger] self.items@[i]).id == i + 1
                &&& self.items@[i].weights@.len() == self.m
                &&& self.items@[i].wf()
            }
    }

    /// Indices into the item list.
    pub open spec fn valid_order(&self, order: Seq<usize>) -> bool {
        forall|j: int| 0 <= j < order.len() ==> order[j] < self.n
    }

    /// The kernel on this instance, from its full capacity.
    pub open spec fn pass_of(&self, order: Seq<usize>) -> PassState {
        pass(self.items@, self.capacity@, order)
    }

    /// The solution reported for a pass: ids instead of indices, and the use
    /// of each dimension.
    pub open spec fn solution_of(&self, s: PassState, runs: int) -> StatisticsView {
        StatisticsView {
            total_profit: s.profit,
            picked_items: s.picked.map(|j: int, i: usize| (i + 1) as usize),
            utilization: Seq::new(
                self.m as nat,
                |d: int| hundredths(self.capacity@[d], s.remaining[d]) as u64,
            ),
            runs,
        }
    }

    /// Item `i` comes before item `j` in the greedy order.
    pub open spec fn before(&self, i: usize, j: usize) -> bool {
        self.items@[i as int].precedes(&self.items@[j as int])
    }

    /// `o` is the greedy order: every index once, by efficiency descending
    /// and then by id ascending.
    pub open spec fn is_greedy_order(&self, o: Seq<usize>) -> bool {
        &&& is_permutation(o, self.n as nat)
        &&& forall|a: int, b: int| 0 <= a < b < o.len() ==> self.before(o[a], o[b])
    }

    /// The indices of the items sorted into the greedy order.
    pub fn greedy_order(&self) -> (o: Vec<usize>)
        requires
            self.wf(),
        ensures
            self.is_greedy_order(o@),
    {
        let mut o: Vec<usize> = Vec::new();
        let mut i: usize = 0;
        assert(o@ == indices(0));
        while i < self.n
            invariant
                self.wf(),
                i <= self.n,
                o@.to_multiset() == indices(i as nat).to_multiset(),
                forall|k: int| 0 <= k < o@.len() ==> o@[k] < i,
                forall|a: int, b: int| 0 <= a < b < o@.len() ==> self.before(o@[a], o@[b]),
            decreases self.n - i,
        {
            let mut p: usize = 0;
            while p < o.len() && self.items[o[p]].precedes_exec(&self.items[i])
                invariant
                    self.wf(),
                    i < self.n,
                    p <= o@.len(),
                    forall|k: int| 0 <= k < o@.len() ==> o@[k] < i,
                    forall|q: int| 0 <= q < p ==> self.before(o@[q], i),
                decreases o@.len() - p,
            {
                p = p + 1;
            }
            let ghost old_o = o@;
            proof {
                if p < old_o.len() {
                    let x = old_o[p as int];
                    assert(self.items@[x as int].id != self.items@[i as int].id);
                    Item::lemma_precedes_order(&self.items@[x as int], &self.items@[i as int], &self.items@[x as int]);
                    assert(self.before(i, x));
                    assert forall|q: int| p < q < old_o.len() implies self.before(i, old_o[q]) by {
                        assert(self.before(old_o[p as int], old_o[q]));
                        Item::lemma_precedes_order(
                            &self.items@[i as int],
                            &self.items@[x as int],
                            &self.items@[old_o[q] as int],
                        );
                    }
                }
            }
            o.insert(p, i);
            assert(o@ == old_o.insert(p as int, i));
            proof {
                assert(indices((i + 1) as nat) =~= indices(i as nat).push(i));
                vstd::seq_lib::to_multiset_insert(old_o, p as int, i);
                indices(i as nat).to_multiset_ensures();
            }
            i = i + 1;
        }
        o
    }

    /// Total weight in dimension `d` of the items with the given ids.
    pub open spec fn load(&self, ids: Seq<usize>, d: int) -> int
        decreases ids.len(),
    {
        if ids.len() == 0 {
            0
        } else {
            self.load(ids.drop_last(), d) + self.items@[ids.last() - 1].weights@[d]
        }
    }

    /// The ids name distinct items of this instance.
    pub open spec fn valid_ids(&self, ids: Seq<usize>) -> bool {
        &&& ids.no_duplicates()
        &&& forall|k: int| 0 <= k < ids.len() ==> 1 <= #[trigger] ids[k] <= self.n
    }

    /// The items with the given ids fit within every capacity.
    pub open spec fn is_feasible(&self, ids: Seq<usize>) -> bool {
        forall|d: int| 0 <= d < self.m ==> #[trigger] self.load(ids, d) <= self.capacity@[d]
    }

    /// What a pass picks comes from its order, once each where the order
    /// repeats nothing, and in every dimension the picked weight plus what is
    /// left is the capacity.
    pub proof fn lemma_pass_facts(&self, order: Seq<usize>)
        requires
            self.wf(),
            self.valid_order(order),
        ensures
            forall|k: int|
                0 <= k < self.pass_of(order).picked.len() ==> order.contains(
                    #[trigger] self.pass_of(order).picked[k],
                ),
            forall|k: int|
                0 <= k < self.pass_of(order).picked.len() ==> #[trigger] self.pass_of(
                    order,
                ).picked[k] < self.n,
            order.no_duplicates() ==> self.pass_of(order).picked.no_duplicates(),
            self.pass_of(order).picked.len() <= order.len(),
            self.pass_of(order).remaining.len() == self.m,
            forall|d: int|
                0 <= d < self.m ==> #[trigger] self.load(
                    self.solution_of(self.pass_of(order), 0).picked_items,
                    d,
                ) + self.pass_of(order).remaining[d] == self.capacity@[d],
        decreases order.len(),
    {
        lemma_pass_remaining(self.items@, self.capacity@, order);
        if order.len() > 0 {
            let prev = order.drop_last();
            assert(self.valid_order(prev));
            self.lemma_pass_facts(prev);
            lemma_pass_remaining(self.items@, self.capacity@, prev);
            let s0 = self.pass_of(prev);
            let s1 = self.pass_of(order);
            let x = order.last();
            assert forall|k: int| 0 <= k < s0.picked.len() implies order.contains(s0.picked[k]) by {
                assert(prev.contains(s0.picked[k]));
                let j = choose|j: int| 0 <= j < prev.len() && prev[j] == s0.picked[k];
                assert(order[j] == s0.picked[k]);
            }
            assert(order[order.len() - 1] == x);
            if s1.picked.len() > s0.picked.len() {
                assert(s1.picked == s0.picked.push(x));
                let ids0 = self.solution_of(s0, 0).picked_items;
                let ids1 = self.solution_of(s1, 0).picked_items;
                assert(ids1.drop_last() =~= ids0);
                assert(ids1.last() == x + 1);
                if order.no_duplicates() {
                    assert forall|k: int| 0 <= k < s0.picked.len() implies s0.picked[k] != x by {
                        assert(prev.contains(s0.picked[k]));
                        let j = choose|j: int| 0 <= j < prev.len() && prev[j] == s0.picked[k];
                        assert(order[j] == prev[j]);
                    }
                    assert(prev.no_duplicates());
                }
                assert forall|d: int| 0 <= d < self.m implies #[trigger] self.load(ids1, d)
                    + s1.remaining[d] == self.capacity@[d] by {
                    assert(self.load(ids1, d) == self.load(ids0, d) + self.items@[x as int].weights@[d]);
                    assert(self.load(ids0, d) + s0.remaining[d] == self.capacity@[d]);
                }
            } else {
                assert(s1 == s0);
            }
        }
    }

    /// Any pass reports ids that fit within every capacity; over an order
    /// that repeats nothing, they are distinct valid ids.
    pub proof fn lemma_solution_valid(&self, order: Seq<usize>)
        requires
            self.wf(),
            self.valid_order(order),
        ensures
            order.no_duplicates() ==> forall|runs: int|
                self.valid_ids(#[trigger] self.solution_of(self.pass_of(order), runs).picked_items),
            forall|runs: int|
                self.is_feasible(#[trigger] self.solution_of(self.pass_of(order), runs).picked_items),
    {
        self.lemma_pass_facts(order);
        lemma_pass_remaining(self.items@, self.capacity@, order);
        let p = self.pass_of(order).picked;
        let ids = self.solution_of(self.pass_of(order), 0).picked_items;
        assert forall|runs: int| #[trigger] self.solution_of(self.pass_of(order), runs).picked_items == ids by {}
        if order.no_duplicates() {
            assert forall|a: int, b: int| 0 <= a < ids.len() && 0 <= b < ids.len() && a != b
                implies ids[a] != ids[b] by {
                assert(p[a] != p[b]);
            }
        }
        assert forall|k: int| 0 <= k < ids.len() implies 1 <= #[trigger] ids[k] <= self.n by {
            assert(p[k] < self.n);
        }
        assert forall|d: int| 0 <= d < self.m implies #[trigger] self.load(ids, d) <= self.capacity@[d] by {
            assert(self.load(ids, d) + self.pass_of(order).remaining[d] == self.capacity@[d]);
        }
    }

    /// A pass keeps within the capacity and picks valid indices.
    pub proof fn lemma_run_bounds(&self, order: Seq<usize>, s: PassState)
        requires
            self.wf(),
            self.valid_order(order),
            s == self.pass_of(order),
        ensures
            s.remaining.len() == self.m,
            forall|d: int| 0 <= d < self.m ==> s.remaining[d] <= self.capacity@[d],
            forall|k: int| 0 <= k < s.picked.len() ==> s.picked[k] < self.n,
    {
        self.lemma_pass_facts(order);
        lemma_pass_remaining(self.items@, self.capacity@, order);
        assert forall|d: int| 0 <= d < self.m implies s.remaining[d] <= self.capacity@[d] by {
            assert(pass(self.items@, self.capacity@, order).remaining[d] <= self.capacity@[d]);
        }
        assert forall|k: int| 0 <= k < s.picked.len() implies s.picked[k] < self.n by {
            assert(self.pass_of(order).picked[k] < self.n);
        }
    }

    /// The solution reported for a finished pass.
    pub fn solution(&self, run: Run, runs: usize) -> (r: Statistics)
        requires
            self.wf(),
            run@.remaining.len() == self.m,
            forall|d: int| 0 <= d < self.m ==> run@.remaining[d] <= self.capacity@[d],
            forall|k: int| 0 <= k < run@.picked.len() ==> run@.picked[k] < self.n,
        ensures
            r@ == self.solution_of(run@, runs as int),
    {
        let mut ids: Vec<usize> = Vec::new();
        let mut k: usize = 0;
        assert(forall|j: int| 0 <= j < run.picked@.len() ==> run@.picked[j] == run.picked@[j]);
        while k < run.picked.len()
            invariant
                self.wf(),
                k <= run.picked@.len(),
                forall|j: int| 0 <= j < run.picked@.len() ==> run.picked@[j] < self.n,
                ids@ == run.picked@.subrange(0, k as int).map(|j: int, i: usize| (i + 1) as usize),
            decreases run.picked@.len() - k,
        {
            ids.push(run.picked[k] + 1);
            k = k + 1;
            assert(ids@ =~= run.picked@.subrange(0, k as int).map(|j: int, i: usize| (i + 1) as usize));
        }
        assert(run.picked@.subrange(0, k as int) == run.picked@);
        let mut util: Vec<u64> = Vec::new();
        let mut d: usize = 0;
        while d < self.m
            invariant
                self.wf(),
                run.remaining@.len() == self.m,
                forall|e: int| 0 <= e < self.m ==> run.remaining@[e] <= self.capacity@[e],
                d <= self.m,
                util@.len() == d,
                forall|e: int|
                    0 <= e < d ==> util@[e] == hundredths(self.capacity@[e], run.remaining@[e]),
            decreases self.m - d,
        {
            let cap = self.capacity[d] as u64;
            let u: u64 = if cap == 0 {
                0
            } else {
                let used = cap - run.remaining[d] as u64;
                (20000 * used + cap) / (2 * cap)
            };
            util.push(u);
            d = d + 1;
        }
        let r = Statistics { total_profit: run.profit, picked_items: ids, utilization: util, runs };
        assert(r@.utilization =~= self.solution_of(run@, runs as int).utilization);
        r
    }

    /// The best pass over a list of orders: the first with the highest profit;
    /// with no order, the empty pass.
    pub open spec fn best_pass(&self, orders: Seq<Seq<usize>>) -> PassState
        decreases orders.len(),
    {
        if orders.len() == 0 {
            self.pass_of(seq![])
        } else if orders.len() == 1 {
            self.pass_of(orders[0])
        } else {
            let prev = self.best_pass(orders.drop_last());
            let cur = self.pass_of(orders.last());
            if cur.profit > prev.profit {
                cur
            } else {
                prev
            }
        }
    }

    /// The best pass is the pass of one of the orders (or of no order).
    pub proof fn lemma_best_is_some_pass(&self, orders: Seq<Seq<usize>>)
        ensures
            orders.len() == 0 ==> self.best_pass(orders) == self.pass_of(seq![]),
            orders.len() > 0 ==> exists|i: int|
                0 <= i < orders.len() && self.best_pass(orders) == self.pass_of(
                    #[trigger] orders[i],
                ),
        decreases orders.len(),
    {
        if orders.len() > 1 {
            let prev = orders.drop_last();
            self.lemma_best_is_some_pass(prev);
            let i = choose|i: int| 0 <= i < prev.len() && self.best_pass(prev) == self.pass_of(#[trigger] prev[i]);
            assert(orders[i] == prev[i]);
            assert(orders[orders.len() - 1] == orders.last());
        } else if orders.len() == 1 {
            assert(self.best_pass(orders) == self.pass_of(orders[0]));
        }
    }

    /// More orders never give a worse best pass: where `more` extends `orders`,
    /// its best profit is at least that of `orders`.
    pub proof fn lemma_best_monotone(&self, orders: Seq<Seq<usize>>, more: Seq<Seq<usize>>)
        requires
            orders.len() <= more.len(),
            more.subrange(0, orders.len() as int) == orders,
        ensures
            self.best_pass(more).profit >= self.best_pass(orders).profit,
        decreases more.len(),
    {
        if more.len() > orders.len() {
            let prev = more.drop_last();
            assert(prev.subrange(0, orders.len() as int) == orders);
            self.lemma_best_monotone(orders, prev);
            if more.len() == 1 {
                lemma_pass_profit(self.items@, self.capacity@, more[0]);
            }
        } else {
            assert(more == orders);
        }
    }

    /// Two greedy orders of one instance are the same order.
    pub proof fn lemma_greedy_order_unique(&self, o1: Seq<usize>, o2: Seq<usize>)
        requires
            o1.to_multiset() == o2.to_multiset(),
            forall|a: int, b: int| 0 <= a < b < o1.len() ==> self.before(o1[a], o1[b]),
            forall|a: int, b: int| 0 <= a < b < o2.len() ==> self.before(o2[a], o2[b]),
        ensures
            o1 == o2,
        decreases o1.len(),
    {
        o1.to_multiset_ensures();
        o2.to_multiset_ensures();
        if o1.len() > 0 {
            let x = o1[0];
            let y = o2[0];
            assert(o1.contains(x));
            assert(o2.to_multiset().count(x) > 0);
            assert(o2.contains(y));
            assert(o1.to_multiset().count(y) > 0);
            let i = choose|i: int| 0 <= i < o1.len() && o1[i] == y;
            let j = choose|j: int| 0 <= j < o2.len() && o2[j] == x;
            Item::lemma_precedes_order(&self.items@[x as int], &self.items@[y as int], &self.items@[x as int]);
            if i > 0 {
                assert(self.before(x, y));
                if j > 0 {
                    assert(self.before(y, x));
                }
            }
            assert(x == y);
            let r1 = o1.remove(0);
            let r2 = o2.remove(0);
            assert(r1.to_multiset() == o1.to_multiset().remove(x));
            assert(r2.to_multiset() == o2.to_multiset().remove(y));
            assert forall|a: int, b: int| 0 <= a < b < r1.len() implies self.before(r1[a], r1[b]) by {
                assert(r1[a] == o1[a + 1] && r1[b] == o1[b + 1]);
            }
            assert forall|a: int, b: int| 0 <= a < b < r2.len() implies self.before(r2[a], r2[b]) by {
                assert(r2[a] == o2[a + 1] && r2[b] == o2[b + 1]);
            }
            self.lemma_greedy_order_unique(r1, r2);
            assert(o1 =~= seq![x] + r1);
            assert(o2 =~= seq![y] + r2);
        } else {
            assert(o2.len() == 0);
            assert(o1 =~= o2);
        }
    }

    /// The greedy constructor is deterministic: two results that meet its
    /// contract on one instance are the same solution.
    pub proof fn lemma_greedy_deterministic(&self, r1: StatisticsView, r2: StatisticsView)
        requires
            exists|o: Seq<usize>|
                self.is_greedy_order(o) && r1 == self.solution_of(#[trigger] self.pass_of(o), 1),
            exists|o: Seq<usize>|
                self.is_greedy_order(o) && r2 == self.solution_of(#[trigger] self.pass_of(o), 1),
        ensures
            r1 == r2,
    {
        let o1 = choose|o: Seq<usize>|
            self.is_greedy_order(o) && r1 == self.solution_of(#[trigger] self.pass_of(o), 1);
        let o2 = choose|o: Seq<usize>|
            self.is_greedy_order(o) && r2 == self.solution_of(#[trigger] self.pass_of(o), 1);
        self.lemma_greedy_order_unique(o1, o2);
    }

    /// The reported use of each dimension is the picked weight over the
    /// capacity, in hundredths of a percent, and what is left is never negative.
    pub proof fn lemma_utilization(&self, order: Seq<usize>, runs: int, d: int)
        requires
            self.wf(),
            self.valid_order(order),
            0 <= d < self.m,
        ensures
            ({
                let ids = self.solution_of(self.pass_of(order), runs).picked_items;
                let load = self.load(ids, d);
                let cap = self.capacity@[d];
                &&& 0 <= load <= cap
                &&& self.solution_of(self.pass_of(order), runs).utilization[d] == if cap == 0 {
                    0
                } else {
                    (20000 * load + cap) / (2 * cap)
                }
            }),
    {
        self.lemma_pass_facts(order);
        self.lemma_run_bounds(order, self.pass_of(order));
        let ids = self.solution_of(self.pass_of(order), runs).picked_items;
        assert(ids == self.solution_of(self.pass_of(order), 0).picked_items);
        let cap = self.capacity@[d];
        let load = self.load(ids, d);
        assert(load + self.pass_of(order).remaining[d] == cap);
        if cap != 0 {
            assert(0 <= (20000 * load + cap) / (2 * cap) <= 10000) by (nonlinear_arith)
                requires
                    0 <= load <= cap,
                    cap > 0,
            ;
        }
    }

    /// Evaluates every order with the kernel, on the worker pool, and keeps the
    /// first with the highest profit; `runs` is the number of orders.
    pub fn run_orders(&self, orders: &Vec<Vec<usize>>) -> (r: Statistics)
        requires
            self.wf(),
            forall|i: int|
                0 <= i < orders@.len() ==> self.valid_order(#[trigger] orders@[i]@)
                    && orders@[i]@.len() <= u32::MAX,
        ensures
            r@ == self.solution_of(self.best_pass(order_views(orders@)), orders@.len() as int),
            self.is_feasible(r@.picked_items),
            (forall|i: int| 0 <= i < orders@.len() ==> (#[trigger] orders@[i]@).no_duplicates())
                ==> self.valid_ids(r@.picked_items),
    {
        let ghost views = order_views(orders@);
        let mut results = run_all(self, orders);
        let run = if results.len() == 0 {
            let empty: Vec<usize> = Vec::new();
            assert(empty@ == Seq::<usize>::empty());
            self.run_order(&empty)
        } else {
            let mut best: usize = 0;
            let mut i: usize = 1;
            assert(views.subrange(0, 1) =~= seq![views[0]]);
            while i < results.len()
                invariant
                    self.wf(),
                    results@.len() == orders@.len(),
                    views == order_views(orders@),
                    forall|j: int| 0 <= j < orders@.len() ==> #[trigger] results@[j]@ == self.pass_of(orders@[j]@),
                    1 <= i <= results@.len(),
                    best < i,
                    results@[best as int]@ == self.best_pass(views.subrange(0, i as int)),
                decreases results@.len() - i,
            {
                assert(views.subrange(0, i + 1).drop_last() =~= views.subrange(0, i as int));
                assert(results@[i as int]@ == self.pass_of(orders@[i as int]@));
                if results[i].profit > results[best].profit {
                    best = i;
                }
                i = i + 1;
            }
            assert(views.subrange(0, i as int) == views);
            results.swap_remove(best)
        };
        let ghost sp = self.best_pass(views);
        proof {
            self.lemma_best_is_some_pass(views);
            if views.len() == 0 {
                self.lemma_run_bounds(seq![], sp);
                self.lemma_solution_valid(seq![]);
            } else {
                let i = choose|i: int| 0 <= i < views.len() && sp == self.pass_of(#[trigger] views[i]);
                assert(views[i] == orders@[i]@);
                self.lemma_run_bounds(views[i], sp);
                self.lemma_pass_facts(views[i]);
                self.lemma_solution_valid(views[i]);
            }
        }
        self.solution(run, orders.len())
    }

    /// The randomized constructor: `runs` uniformly shuffled orders, each run
    /// through the kernel on the worker pool; the first best one wins.
    pub fn run_random(&self, runs: usize) -> (r: Statistics)
        requires
            self.wf(),
        ensures
            exists|os: Seq<Seq<usize>>|
                {
                    &&& os.len() == runs
                    &&& forall|i: int| 0 <= i < runs ==> is_permutation(#[trigger] os[i], self.n as nat)
                    &&& r@ == self.solution_of(self.best_pass(os), runs as int)
                },
            self.valid_ids(r@.picked_items),
            self.is_feasible(r@.picked_items),
    {
        let mut indexes: Vec<usize> = Vec::new();
        let mut i: usize = 0;
        while i < self.n
            invariant
                i <= self.n,
                indexes@ == indices(i as nat),
            decreases self.n - i,
        {
            indexes.push(i);
            i = i + 1;
            assert(indexes@ =~= indices(i as nat));
        }
        let mut orders: Vec<Vec<usize>> = Vec::new();
        let mut t: usize = 0;
        while t < runs
            invariant
                self.wf(),
                t <= runs,
                orders@.len() == t,
                is_permutation(indexes@, self.n as nat),
                forall|j: int| 0 <= j < t ==> is_permutation(#[trigger] orders@[j]@, self.n as nat),
            decreases runs - t,
        {
            shuffle(&mut indexes);
            orders.push(indexes.clone());
            t = t + 1;
        }
        proof {
            assert forall|j: int| 0 <= j < orders@.len() implies self.valid_order(#[trigger] orders@[j]@)
                && orders@[j]@.len() <= u32::MAX && orders@[j]@.no_duplicates() by {
                lemma_permutation(orders@[j]@, self.n as nat);
            }
        }
        let r = self.run_orders(&orders);
        assert(order_views(orders@).len() == runs);
        r
    }

    /// Runs the kernel once along `order`.
    pub fn run_order(&self, order: &Vec<usize>) -> (r: Run)
        requires
            self.wf(),
            self.valid_order(order@),
            order@.len() <= u32::MAX,
        ensures
            r@ == self.pass_of(order@),
    {
        let mut picked: Vec<usize> = Vec::new();
        let mut profit: u64 = 0;
        let mut remaining: Vec<u32> = Vec::new();
        let mut d: usize = 0;
        while d < self.capacity.len()
            invariant
                d <= self.capacity@.len(),
                remaining@ == self.capacity@.subrange(0, d as int),
            decreases self.capacity@.len() - d,
        {
            remaining.push(self.capacity[d]);
            d = d + 1;
            assert(remaining@ == self.capacity@.subrange(0, d as int));
        }
        assert(remaining@ == self.capacity@);
        let mut j: usize = 0;
        while j < order.len()
            invariant
                self.wf(),
                self.valid_order(order@),
                order@.len() <= u32::MAX,
                j <= order@.len(),
                profit <= j * 0xFFFF_FFFFu64,
                (Run { picked, profit, remaining })@ == self.pass_of(order@.subrange(0, j as int)),
            decreases order@.len() - j,
        {
            proof {
                lemma_pass_remaining(self.items@, self.capacity@, order@.subrange(0, j as int));
            }
            assert(order@.subrange(0, j + 1).drop_last() == order@.subrange(0, j as int));
            let i = order[j];
            let item = &self.items[i];
            let mut ok = true;
            let mut d: usize = 0;
            while d < remaining.len()
                invariant
                    self.wf(),
                    i < self.n,
                    *item == self.items@[i as int],
                    remaining@.len() == self.m,
                    d <= remaining@.len(),
                    ok == (forall|e: int| 0 <= e < d ==> item.weights@[e] <= remaining@[e]),
                decreases remaining@.len() - d,
            {
                if item.weights[d] > remaining[d] {
                    ok = false;
                }
                d = d + 1;
            }
            if ok {
                let ghost rem0 = remaining@;
                let mut d: usize = 0;
                while d < remaining.len()
                    invariant
                        self.wf(),
                        i < self.n,
                        *item == self.items@[i as int],
                        rem0.len() == self.m,
                        remaining@.len() == self.m,
                        fits(item.weights@, rem0),
                        d <= remaining@.len(),
                        forall|e: int| 0 <= e < d ==> remaining@[e] == rem0[e] - item.weights@[e],
                        forall|e: int| d <= e < remaining@.len() ==> remaining@[e] == rem0[e],
                    decreases remaining@.len() - d,
                {
                    let w = item.weights[d];
                    let left = remaining[d] - w;
                    remaining.set(d, left);
                    d = d + 1;
                }
                assert(remaining@ == take(rem0, item.weights@));
                assert(profit + item.profit <= (j + 1) * 0xFFFF_FFFFu64) by (nonlinear_arith)
                    requires
                        profit <= j * 0xFFFF_FFFFu64,
                        item.profit <= 0xFFFF_FFFFu64,
                ;
                profit = profit + item.profit as u64;
                picked.push(i);
            }
            j = j + 1;
        }
        assert(order@.subrange(0, j as int) == order@);
        Run { picked, profit, remaining }
    }

    /// The greedy constructor: one pass of the kernel over the items sorted by
    /// efficiency descending (ties by id ascending).
    pub fn run_greedy(&self) -> (r: Statistics)
        requires
            self.wf(),
        ensures
            exists|o: Seq<usize>|
                self.is_greedy_order(o) && r@ == self.solution_of(#[trigger] self.pass_of(o), 1),
            self.valid_ids(r@.picked_items),
            self.is_feasible(r@.picked_items),
    {
        let order = self.greedy_order();
        proof {
            lemma_permutation(order@, self.n as nat);
            self.lemma_pass_facts(order@);
        }
        let run = self.run_order(&order);
        proof {
            self.lemma_run_bounds(order@, run@);
        }
        let r = self.solution(run, 1);
        proof {
            self.lemma_solution_valid(order@);
        }
        r
    }
}

} // verus!
