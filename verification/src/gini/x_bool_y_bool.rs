//! Impurity of a boolean response parted by a boolean predictor.

use crate::gini::{joint, partition_cost, GiniScore, MAX_ROWS};
use vstd::prelude::*;

verus! {

/// The impurity of the rows parted in those where `x` holds and those where
/// it does not.
pub fn gini_x_bool_y_bool(x: &Vec<bool>, y: &Vec<bool>) -> (score: GiniScore)
    requires
        x.len() == y.len(),
        0 < x.len() <= MAX_ROWS,
    ensures
        score@ == partition_cost(
            joint(x@, y@, true, true, x@.len()) as int,
            joint(x@, y@, true, false, x@.len()) as int,
            joint(x@, y@, false, true, x@.len()) as int,
            joint(x@, y@, false, false, x@.len()) as int,
            x@.len() as int,
        ),
{
    let mut tt: usize = 0;
    let mut tf: usize = 0;
    let mut ft: usize = 0;
    let mut ff: usize = 0;
    let mut k: usize = 0;
    while k < x.len()
        invariant
            k <= x.len(),
            x.len() == y.len(),
            tt == joint(x@, y@, true, true, k as nat),
            tf == joint(x@, y@, true, false, k as nat),
            ft == joint(x@, y@, false, true, k as nat),
            ff == joint(x@, y@, false, false, k as nat),
            tt + tf + ft + ff == k,
        decreases x.len() - k,
    {
        if x[k] {
            if y[k] {
                tt = tt + 1;
            } else {
                tf = tf + 1;
            }
        } else {
            if y[k] {
                ft = ft + 1;
            } else {
                ff = ff + 1;
            }
        }
        k = k + 1;
    }
    GiniScore::of_partition(tt, tf, ft, ff, x.len())
}

} // verus!
