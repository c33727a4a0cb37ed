use vstd::prelude::*;

use rayon::iter::{IntoParallelRefIterator, ParallelIterator};

use crate::knapsack::{Knapsack, Run};

verus! {

/// Relies on rayon's `par_iter().map(..).collect()` into a `Vec`: the closure
/// is applied to every order on the worker pool, and the results are collected
/// in the order of the input. The closure only calls the verified kernel.
#[verifier::external_body]
pub(crate) fn run_all(k: &Knapsack, orders: &Vec<Vec<usize>>) -> (r: Vec<Run>)
    requires
        k.wf(),
        forall|i: int|
            0 <= i < orders@.len() ==> k.valid_order(#[trigger] orders@[i]@) && orders@[i]@.len()
                <= u32::MAX,
    ensures
        r@.len() == orders@.len(),
        forall|i: int| 0 <= i < orders@.len() ==> #[trigger] r@[i]@ == k.pass_of(orders@[i]@),
{
    orders.par_iter().map(|o| k.run_order(o)).collect()
}

} // verus!
