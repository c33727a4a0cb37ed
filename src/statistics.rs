use vstd::prelude::*;

verus! {

/// What a solution looks like to contracts.
pub struct StatisticsView {
    pub total_profit: int,
    pub picked_items: Seq<usize>,
    pub utilization: Seq<u64>,
    pub runs: int,
}

/// A solution: the ids of the picked items in the order in which they were
/// admitted, their total profit, the use of each resource dimension in
/// hundredths of a percent, and how many constructor runs produced it.
#[derive(Debug)]
pub struct Statistics {
    pub total_profit: u64,
    pub picked_items: Vec<usize>,
    pub utilization: Vec<u64>,
    pub runs: usize,
}

impl View for Statistics {
    type V = StatisticsView;

    open spec fn view(&self) -> StatisticsView {
        StatisticsView {
            total_profit: self.total_profit as int,
            picked_items: self.picked_items@,
            utilization: self.utilization@,
            runs: self.runs as int,
        }
    }
}

impl Statistics {
    /// The empty solution.
    pub fn new() -> (r: Statistics)
        ensures
            r.total_profit == 0,
            r.picked_items@.len() == 0,
            r.utilization@.len() == 0,
            r.runs == 0,
    {
        Statistics { total_profit: 0, picked_items: Vec::new(), utilization: Vec::new(), runs: 0 }
    }

    /// A copy with the same view.
    pub fn duplicate(&self) -> (r: Statistics)
        ensures
            r@ == self@,
    {
        let mut picked: Vec<usize> = Vec::new();
        let mut i: usize = 0;
        while i < self.picked_items.len()
            invariant
                i <= self.picked_items@.len(),
                picked@ == self.picked_items@.subrange(0, i as int),
            decreases self.picked_items@.len() - i,
        {
            picked.push(self.picked_items[i]);
            i = i + 1;
            assert(picked@ == self.picked_items@.subrange(0, i as int));
        }
        let mut util: Vec<u64> = Vec::new();
        let mut d: usize = 0;
        while d < self.utilization.len()
            invariant
                d <= self.utilization@.len(),
                util@ == self.utilization@.subrange(0, d as int),
            decreases self.utilization@.len() - d,
        {
            util.push(self.utilization[d]);
            d = d + 1;
            assert(util@ == self.utilization@.subrange(0, d as int));
        }
        assert(picked@ == self.picked_items@);
        assert(util@ == self.utilization@);
        Statistics {
            total_profit: self.total_profit,
            picked_items: picked,
            utilization: util,
            runs: self.runs,
        }
    }
}

} // verus!
