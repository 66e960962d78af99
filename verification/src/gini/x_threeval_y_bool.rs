//! Impurity of a boolean response parted by one value of a three-valued
//! predictor against the other two.

use crate::data_interface::three_val::{ThreeVal, ThreeValOpt, ThreeValPivot};
use crate::gini::{joint, paired, partition_cost, GiniScore, Ratio, MAX_ROWS};
use vstd::prelude::*;

verus! {

/// The number of paired rows with the value and the class.
pub open spec fn cell(xs: Seq<ThreeValOpt>, ys: Seq<bool>, value: ThreeVal, class: bool) -> int {
    joint(xs, ys, Some(value), class, paired(xs, ys)) as int
}

/// The impurity, over `n` rows, of parting the rows with the value that the
/// pivot names from the rows with the other two.
pub open spec fn pivot_cost(xs: Seq<ThreeValOpt>, ys: Seq<bool>, pivot: ThreeValPivot, n: int) -> Ratio {
    let (named, other, third) = match pivot {
        ThreeValPivot::NotRed => (ThreeVal::Red, ThreeVal::Green, ThreeVal::Blue),
        ThreeValPivot::NotGreen => (ThreeVal::Green, ThreeVal::Red, ThreeVal::Blue),
        ThreeValPivot::NotBlue => (ThreeVal::Blue, ThreeVal::Red, ThreeVal::Green),
    };
    partition_cost(
        cell(xs, ys, other, true) + cell(xs, ys, third, true),
        cell(xs, ys, other, false) + cell(xs, ys, third, false),
        cell(xs, ys, named, true),
        cell(xs, ys, named, false),
        n,
    )
}

/// The denominator of a cost over at least one row is positive.
pub proof fn lemma_pivot_cost_den(xs: Seq<ThreeValOpt>, ys: Seq<bool>, pivot: ThreeValPivot, n: int)
    requires
        n > 0,
    ensures
        pivot_cost(xs, ys, pivot, n).den > 0,
{
    let (named, other, third) = match pivot {
        ThreeValPivot::NotRed => (ThreeVal::Red, ThreeVal::Green, ThreeVal::Blue),
        ThreeValPivot::NotGreen => (ThreeVal::Green, ThreeVal::Red, ThreeVal::Blue),
        ThreeValPivot::NotBlue => (ThreeVal::Blue, ThreeVal::Red, ThreeVal::Green),
    };
    crate::gini::lemma_partition_cost_den(
        cell(xs, ys, other, true) + cell(xs, ys, third, true),
        cell(xs, ys, other, false) + cell(xs, ys, third, false),
        cell(xs, ys, named, true),
        cell(xs, ys, named, false),
        n,
    );
}

/// The impurities of the three partitions of one value against the other
/// two: for red, for green and for blue. The values are paired with the
/// classes position by position, and `n` is the number of rows that the
/// impurity is taken over.
pub fn gini_x_threeval_y_bool(x: &[ThreeValOpt], y: &[bool], n: usize) -> (s: (
    GiniScore,
    GiniScore,
    GiniScore,
))
    requires
        n > 0,
        paired(x@, y@) <= MAX_ROWS,
        forall|k: int| 0 <= k < paired(x@, y@) ==> x@[k] is Some,
    ensures
        s.0@ == pivot_cost(x@, y@, ThreeValPivot::NotRed, n as int),
        s.1@ == pivot_cost(x@, y@, ThreeValPivot::NotGreen, n as int),
        s.2@ == pivot_cost(x@, y@, ThreeValPivot::NotBlue, n as int),
        s.0.rows() == n,
        s.1.rows() == n,
        s.2.rows() == n,
{
    let m = if x.len() <= y.len() {
        x.len()
    } else {
        y.len()
    };
    let mut rt: usize = 0;
    let mut rf: usize = 0;
    let mut gt: usize = 0;
    let mut gf: usize = 0;
    let mut bt: usize = 0;
    let mut bf: usize = 0;
    let mut k: usize = 0;
    while k < m
        invariant
            k <= m,
            m == paired(x@, y@),
            forall|k: int| 0 <= k < paired(x@, y@) ==> x@[k] is Some,
            rt == joint(x@, y@, Some(ThreeVal::Red), true, k as nat),
            rf == joint(x@, y@, Some(ThreeVal::Red), false, k as nat),
            gt == joint(x@, y@, Some(ThreeVal::Green), true, k as nat),
            gf == joint(x@, y@, Some(ThreeVal::Green), false, k as nat),
            bt == joint(x@, y@, Some(ThreeVal::Blue), true, k as nat),
            bf == joint(x@, y@, Some(ThreeVal::Blue), false, k as nat),
            rt + rf + gt + gf + bt + bf == k,
        decreases m - k,
    {
        let value = x[k].unwrap();
        match (value, y[k]) {
            (ThreeVal::Red, true) => {
                rt = rt + 1;
            },
            (ThreeVal::Red, false) => {
                rf = rf + 1;
            },
            (ThreeVal::Green, true) => {
                gt = gt + 1;
            },
            (ThreeVal::Green, false) => {
                gf = gf + 1;
            },
            (ThreeVal::Blue, true) => {
                bt = bt + 1;
            },
            (ThreeVal::Blue, false) => {
                bf = bf + 1;
            },
        }
        k = k + 1;
    }
    (
        GiniScore::of_partition(gt + bt, gf + bf, rt, rf, n),
        GiniScore::of_partition(rt + bt, rf + bf, gt, gf, n),
        GiniScore::of_partition(rt + gt, rf + gf, bt, bf, n),
    )
}

} // verus!
