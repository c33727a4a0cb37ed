use vstd::prelude::*;

verus! {

/// Sum of a sequence of `u32` values, as an unbounded integer.
pub open spec fn sum_u32(s: Seq<u32>) -> int
    decreases s.len(),
{
    if s.len() == 0 {
        0
    } else {
        sum_u32(s.drop_last()) + s.last()
    }
}

/// A `u32` times a `u64` fits in a `u128`.
pub proof fn lemma_product_fits(a: u32, b: u64)
    ensures
        (a as int) * (b as int) <= u128::MAX,
{
    assert((a as int) * (b as int) <= u128::MAX) by (nonlinear_arith)
        requires
            a <= u32::MAX,
            b <= u64::MAX,
    ;
}

/// Cross-multiplied comparison of ratios `pa/sa`, `pb/sb`, `pc/sc` with
/// positive denominators is transitive.
pub proof fn lemma_cross_transitive(pa: int, sa: int, pb: int, sb: int, pc: int, sc: int)
    requires
        sa > 0,
        sb > 0,
        sc > 0,
        pa * sb >= pb * sa,
        pb * sc >= pc * sb,
    ensures
        pa * sc >= pc * sa,
        (pa * sb > pb * sa || pb * sc > pc * sb) ==> pa * sc > pc * sa,
{
    assert(sb * (pa * sc) >= sb * (pc * sa)) by (nonlinear_arith)
        requires
            sa > 0,
            sc > 0,
            pa * sb >= pb * sa,
            pb * sc >= pc * sb,
    ;
    assert(pa * sc >= pc * sa) by (nonlinear_arith)
        requires
            sb > 0,
            sb * (pa * sc) >= sb * (pc * sa),
    ;
    if pa * sb > pb * sa || pb * sc > pc * sb {
        assert(sb * (pa * sc) > sb * (pc * sa)) by (nonlinear_arith)
            requires
                sa > 0,
                sc > 0,
                pa * sb >= pb * sa,
                pb * sc >= pc * sb,
                pa * sb > pb * sa || pb * sc > pc * sb,
        ;
        assert(pa * sc > pc * sa) by (nonlinear_arith)
            requires
                sb > 0,
                sb * (pa * sc) > sb * (pc * sa),
        ;
    }
}

/// One candidate of the knapsack: its 1-based id, its profit, one weight per
/// resource dimension, and the sum of those weights (the denominator of its
/// efficiency `profit / weight_sum`).
pub struct Item {
    pub id: usize,
    pub profit: u32,
    pub weights: Vec<u32>,
    pub weight_sum: u64,
}

impl Item {
    /// The cached weight sum agrees with the weights.
    pub open spec fn wf(&self) -> bool {
        self.weight_sum == sum_u32(self.weights@)
    }

    /// An item whose weights sum to zero: its efficiency is taken as maximal.
    pub open spec fn degenerate(&self) -> bool {
        self.weight_sum == 0
    }

    /// `self` has strictly higher efficiency than `o`, compared exactly by
    /// cross-multiplication; a degenerate item beats every other.
    pub open spec fn more_efficient(&self, o: &Item) -> bool {
        if self.degenerate() {
            !o.degenerate()
        } else if o.degenerate() {
            false
        } else {
            self.profit * o.weight_sum > o.profit * self.weight_sum
        }
    }

    /// `self` and `o` have the same efficiency (all degenerate items tie).
    pub open spec fn same_efficiency(&self, o: &Item) -> bool {
        if self.degenerate() {
            o.degenerate()
        } else if o.degenerate() {
            false
        } else {
            self.profit * o.weight_sum == o.profit * self.weight_sum
        }
    }

    /// The greedy order: higher efficiency first, equal efficiency by id ascending.
    pub open spec fn precedes(&self, o: &Item) -> bool {
        self.more_efficient(o) || (self.same_efficiency(o) && self.id < o.id)
    }

    /// The greedy order is a strict total order on items with distinct ids.
    pub proof fn lemma_precedes_order(a: &Item, b: &Item, c: &Item)
        ensures
            !a.precedes(a),
            a.precedes(b) ==> !b.precedes(a),
            a.id != b.id ==> a.precedes(b) || b.precedes(a),
            a.precedes(b) && b.precedes(c) ==> a.precedes(c),
    {
        if !a.degenerate() && !b.degenerate() && !c.degenerate() {
            let (pa, sa) = (a.profit as int, a.weight_sum as int);
            let (pb, sb) = (b.profit as int, b.weight_sum as int);
            let (pc, sc) = (c.profit as int, c.weight_sum as int);
            if pa * sb >= pb * sa && pb * sc >= pc * sb {
                lemma_cross_transitive(pa, sa, pb, sb, pc, sc);
            }
        }
    }

    /// Builds an item, deriving its weight sum.
    pub fn new(id: usize, profit: u32, weights: Vec<u32>) -> (r: Item)
        requires
            weights@.len() <= u32::MAX,
        ensures
            r.id == id,
            r.profit == profit,
            r.weights@ == weights@,
            r.wf(),
    {
        let mut sum: u64 = 0;
        let mut d: usize = 0;
        while d < weights.len()
            invariant
                d <= weights@.len() <= u32::MAX,
                sum == sum_u32(weights@.subrange(0, d as int)),
                sum <= d * 0xFFFF_FFFFu64,
            decreases weights@.len() - d,
        {
            assert(weights@.subrange(0, d + 1).drop_last() == weights@.subrange(0, d as int));
            assert(sum + weights[d as int] <= (d + 1) * 0xFFFF_FFFFu64) by (nonlinear_arith)
                requires
                    sum <= d * 0xFFFF_FFFFu64,
                    weights[d as int] <= 0xFFFF_FFFFu64,
            ;
            sum = sum + weights[d] as u64;
            d = d + 1;
        }
        assert(weights@.subrange(0, d as int) == weights@);
        Item { id, profit, weights, weight_sum: sum }
    }

    /// Whether `self` comes before `o` in the greedy order.
    pub fn precedes_exec(&self, o: &Item) -> (r: bool)
        ensures
            r == self.precedes(o),
    {
        let more: bool;
        let same: bool;
        if self.weight_sum == 0 {
            more = o.weight_sum != 0;
            same = o.weight_sum == 0;
        } else if o.weight_sum == 0 {
            more = false;
            same = false;
        } else {
            proof {
                lemma_product_fits(self.profit, o.weight_sum);
                lemma_product_fits(o.profit, self.weight_sum);
            }
            let a = (self.profit as u128) * (o.weight_sum as u128);
            let b = (o.profit as u128) * (self.weight_sum as u128);
            more = a > b;
            same = a == b;
        }
        more || (same && self.id < o.id)
    }
}

} // verus!
