//! A column of a predictor with three values.

use crate::data_interface::{lemma_filter_agree, Permutable, Response, Splittable};
use crate::data_interface::y_bool::Y;
use crate::gini::x_threeval_y_bool::{gini_x_threeval_y_bool, pivot_cost};
use crate::gini::{GiniScore, Ratio, MAX_ROWS};
use crate::mask::{ascending, gathered, strictly_ascending, within, Mask};
use crate::random_number_generator::{lemma_shuffle_permutes, Rng, RngState};
use vstd::prelude::*;

verus! {

/// A value of a predictor with three values.
#[derive(Copy, Clone, Debug, PartialEq, Eq, Structural)]
pub enum ThreeVal {
    Red,
    Green,
    Blue,
}

/// A rule that parts the rows with one value from the rows with the other
/// two.
#[derive(Debug, Copy, Clone, PartialEq, Eq, Hash, Structural)]
pub enum ThreeValPivot {
    NotRed,
    NotGreen,
    NotBlue,
}

/// A value that may be absent.
pub type ThreeValOpt = Option<ThreeVal>;

/// A column: a value, or none, for every row. Columns made by
/// [`ThreeValCol::new`] or by permuting such columns have no absent value.
#[derive(Debug, Eq, PartialEq)]
pub struct ThreeValCol(Vec<ThreeValOpt>);

/// The value that stands for a number from 0 to 2.
pub open spec fn decoded(x: i8) -> ThreeVal {
    if x == 0 {
        ThreeVal::Red
    } else if x == 1 {
        ThreeVal::Green
    } else {
        ThreeVal::Blue
    }
}

/// Whether every one of `rows` names a value that is there.
pub open spec fn present_on(col: Seq<ThreeValOpt>, rows: Seq<usize>) -> bool {
    forall|k: int| 0 <= k < rows.len() ==> (#[trigger] col[rows[k] as int]) is Some
}

/// Whether the pivot sends the row to the first side: its value is there
/// and is not the one that the pivot names.
pub open spec fn sent_first(col: Seq<ThreeValOpt>, pivot: ThreeValPivot, row: usize) -> bool {
    &&& row < col.len()
    &&& col[row as int] matches Some(value) && pivot.matches_value(value)
}

/// `full` with `values[k]` written at `rows[k]`, for `k` below `upto` in
/// turn.
pub open spec fn scattered<T>(full: Seq<T>, rows: Seq<usize>, values: Seq<T>, upto: nat) -> Seq<T>
    decreases upto,
{
    if upto == 0 {
        full
    } else {
        let before = scattered(full, rows, values, (upto - 1) as nat);
        if upto <= rows.len() && upto <= values.len() && rows[upto - 1] < full.len() {
            before.update(rows[upto - 1] as int, values[upto - 1])
        } else {
            before
        }
    }
}

/// Scattering keeps the length, and the value of every row that is not
/// among the rows written.
pub proof fn lemma_scattered_elsewhere<T>(
    full: Seq<T>,
    rows: Seq<usize>,
    values: Seq<T>,
    upto: nat,
)
    ensures
        scattered(full, rows, values, upto).len() == full.len(),
        forall|r: int|
            0 <= r < full.len() && !rows.contains(r as usize) ==> scattered(
                full,
                rows,
                values,
                upto,
            )[r] == full[r],
    decreases upto,
{
    if upto > 0 {
        lemma_scattered_elsewhere(full, rows, values, (upto - 1) as nat);
        if upto <= rows.len() {
            assert(rows.contains(rows[upto - 1]));
        }
    }
}

/// What scattering leaves in a row is what was there or one of the values
/// written.
pub proof fn lemma_scattered_origin<T>(
    full: Seq<T>,
    rows: Seq<usize>,
    values: Seq<T>,
    upto: nat,
    r: int,
)
    requires
        0 <= r < full.len(),
    ensures
        scattered(full, rows, values, upto)[r] == full[r] || values.contains(
            scattered(full, rows, values, upto)[r],
        ),
    decreases upto,
{
    if upto > 0 {
        lemma_scattered_origin(full, rows, values, (upto - 1) as nat, r);
        lemma_scattered_elsewhere(full, rows, values, (upto - 1) as nat);
        if upto <= values.len() {
            assert(values.contains(values[upto - 1]));
        }
    }
}

/// The three costs ordered: the first pivot wins if its cost is below both
/// others, else the second if its cost is below the third, else the third.
pub open spec fn cheapest(red: Ratio, green: Ratio, blue: Ratio) -> ThreeValPivot {
    if red.lt(green) && red.lt(blue) {
        ThreeValPivot::NotRed
    } else if green.lt(blue) {
        ThreeValPivot::NotGreen
    } else {
        ThreeValPivot::NotBlue
    }
}

/// The pivot with the lowest cost on the given values and classes.
pub open spec fn optimal_pivot(xs: Seq<ThreeValOpt>, ys: Seq<bool>) -> ThreeValPivot {
    let n = xs.len() as int;
    cheapest(
        pivot_cost(xs, ys, ThreeValPivot::NotRed, n),
        pivot_cost(xs, ys, ThreeValPivot::NotGreen, n),
        pivot_cost(xs, ys, ThreeValPivot::NotBlue, n),
    )
}

impl ThreeValPivot {
    /// Whether the pivot matches the value: it does not name it.
    pub open spec fn matches_value(self, value: ThreeVal) -> bool {
        match (self, value) {
            (ThreeValPivot::NotRed, ThreeVal::Red) => false,
            (ThreeValPivot::NotGreen, ThreeVal::Green) => false,
            (ThreeValPivot::NotBlue, ThreeVal::Blue) => false,
            _ => true,
        }
    }

    /// Whether the pivot matches the value: it does not name it.
    pub fn matches(&self, value: &ThreeVal) -> (m: bool)
        ensures
            m == self.matches_value(*value),
    {
        match (*self, *value) {
            (ThreeValPivot::NotRed, ThreeVal::Red) => false,
            (ThreeValPivot::NotGreen, ThreeVal::Green) => false,
            (ThreeValPivot::NotBlue, ThreeVal::Blue) => false,
            _ => true,
        }
    }
}

impl View for ThreeValCol {
    type V = Seq<ThreeValOpt>;

    closed spec fn view(&self) -> Seq<ThreeValOpt> {
        self.0@
    }
}

impl Clone for ThreeValCol {
    fn clone(&self) -> (col: ThreeValCol)
        ensures
            col@ == self@,
    {
        ThreeValCol(vstd::slice::slice_to_vec(self.0.as_slice()))
    }
}

impl ThreeValCol {
    /// The column of the values that the numbers stand for: 0 for red, 1
    /// for green, 2 for blue. No value is absent.
    pub fn new(arr: &[i8]) -> (col: ThreeValCol)
        requires
            forall|k: int| 0 <= k < arr@.len() ==> 0 <= #[trigger] arr@[k] <= 2,
        ensures
            col@ == Seq::new(arr@.len(), |k: int| Some(decoded(arr@[k]))),
    {
        let mut values: Vec<ThreeValOpt> = Vec::with_capacity(arr.len());
        let mut k: usize = 0;
        while k < arr.len()
            invariant
                k <= arr.len(),
                forall|k: int| 0 <= k < arr@.len() ==> 0 <= #[trigger] arr@[k] <= 2,
                values@ == Seq::new(k as nat, |j: int| Some(decoded(arr@[j]))),
            decreases arr.len() - k,
        {
            let x = arr[k];
            let value = if x == 0 {
                ThreeVal::Red
            } else if x == 1 {
                ThreeVal::Green
            } else {
                ThreeVal::Blue
            };
            values.push(Some(value));
            k = k + 1;
            assert(values@ =~= Seq::new(k as nat, |j: int| Some(decoded(arr@[j]))));
        }
        ThreeValCol(values)
    }

    pub fn len(&self) -> (n: usize)
        ensures
            n == self@.len(),
    {
        self.0.len()
    }

    /// Whether no value is absent.
    pub fn is_complete(&self) -> (ok: bool)
        ensures
            ok == complete(self@),
    {
        let mut k: usize = 0;
        while k < self.0.len()
            invariant
                k <= self.0@.len(),
                self@ == self.0@,
                forall|r: int| 0 <= r < k ==> (#[trigger] self@[r]) is Some,
            decreases self.0@.len() - k,
        {
            if self.0[k].is_none() {
                return false;
            }
            k = k + 1;
        }
        true
    }

    /// Whether the two columns hold the same values.
    pub fn same_values(&self, other: &ThreeValCol) -> (same: bool)
        ensures
            same == (self@ == other@),
    {
        if self.0.len() != other.0.len() {
            return false;
        }
        let mut k: usize = 0;
        while k < self.0.len()
            invariant
                k <= self.0@.len(),
                self.0@.len() == other.0@.len(),
                self@ == self.0@,
                other@ == other.0@,
                forall|r: int| 0 <= r < k ==> #[trigger] self@[r] == other@[r],
            decreases self.0@.len() - k,
        {
            let same = match (self.0[k], other.0[k]) {
                (Some(a), Some(b)) => a == b,
                (None, None) => true,
                _ => false,
            };
            if !same {
                return false;
            }
            k = k + 1;
        }
        assert(self@ =~= other@);
        true
    }
}

/// Whether no value of the column is absent.
pub open spec fn complete(col: Seq<ThreeValOpt>) -> bool {
    forall|r: int| 0 <= r < col.len() ==> (#[trigger] col[r]) is Some
}

/// The column as a search for a pivot reads it: shuffled as a whole if a
/// generator is given, and as it is otherwise.
pub open spec fn probed(col: Seq<ThreeValOpt>, shadow_rng: Option<RngState>) -> Seq<ThreeValOpt> {
    match shadow_rng {
        Some(rng) => rng.shuffle(col).items,
        None => col,
    }
}

/// The state of an optional generator.
pub open spec fn state_of(rng: Option<Rng>) -> Option<RngState> {
    match rng {
        Some(rng) => Some(rng@),
        None => None,
    }
}

/// What a column holds once its values at `rows` are shuffled.
pub open spec fn permuted_values(col: Seq<ThreeValOpt>, rng: RngState, rows: Seq<usize>) -> Seq<
    ThreeValOpt,
> {
    scattered(col, rows, rng.shuffle(gathered(rows, col)).items, rows.len())
}

/// A permuted column has as many rows as before, the rows that were not
/// permuted keep their values, and a complete column stays complete.
pub proof fn lemma_permuted_shape(col: Seq<ThreeValOpt>, rng: RngState, rows: Seq<usize>)
    requires
        within(rows, col.len()),
    ensures
        permuted_values(col, rng, rows).len() == col.len(),
        forall|r: int|
            0 <= r < col.len() && !rows.contains(r as usize) ==> permuted_values(col, rng, rows)[r]
                == col[r],
        complete(col) ==> complete(permuted_values(col, rng, rows)),
{
    let picked = gathered(rows, col);
    let mixed = rng.shuffle(picked).items;
    lemma_scattered_elsewhere(col, rows, mixed, rows.len());
    if complete(col) {
        lemma_shuffle_permutes(rng, picked, 0);
        assert forall|r: int| 0 <= r < col.len() implies (#[trigger] permuted_values(
            col,
            rng,
            rows,
        )[r]) is Some by {
            lemma_scattered_origin(col, rows, mixed, rows.len(), r);
            let v = permuted_values(col, rng, rows)[r];
            if v != col[r] {
                broadcast use vstd::seq_lib::group_to_multiset_ensures;
                assert(mixed.contains(v));
                assert(mixed.to_multiset().count(v) > 0);
                assert(picked.contains(v));
                let k = choose|k: int| 0 <= k < picked.len() && picked[k] == v;
                assert(picked[k] == col[rows[k] as int]);
            }
        }
    }
}

/// A shuffled column is complete if it was.
pub proof fn lemma_probed_complete(col: Seq<ThreeValOpt>, shadow_rng: Option<RngState>)
    requires
        complete(col),
    ensures
        complete(probed(col, shadow_rng)),
        probed(col, shadow_rng).len() == col.len(),
{
    if let Some(rng) = shadow_rng {
        lemma_shuffle_permutes(rng, col, 0);
        let mixed = rng.shuffle(col).items;
        assert forall|r: int| 0 <= r < mixed.len() implies (#[trigger] mixed[r]) is Some by {
            broadcast use vstd::seq_lib::group_to_multiset_ensures;
            assert(mixed.contains(mixed[r]));
            assert(col.to_multiset().count(mixed[r]) > 0);
            assert(col.contains(mixed[r]));
            let k = choose|k: int| 0 <= k < col.len() && col[k] == mixed[r];
            assert(col[k] is Some);
        }
    }
}

impl Permutable for ThreeValCol {
    open spec fn covers(&self, rows: Seq<usize>) -> bool {
        within(rows, self@.len()) && rows.len() <= u32::MAX
    }

    open spec fn permuted(&self, rng: RngState, rows: Seq<usize>) -> Seq<ThreeValOpt> {
        permuted_values(self@, rng, rows)
    }

    fn permute(&self, perm_rng: Rng, oob_mask: &Mask) -> (shuffled: ThreeValCol) {
        let rows = oob_mask.get_mask();
        let mut rng = perm_rng;
        let mut x = oob_mask.get_by_mask(self.0.as_slice());
        rng.shuffle(&mut x);
        let mut x_full = vstd::slice::slice_to_vec(self.0.as_slice());
        let mut k: usize = 0;
        while k < rows.len()
            invariant
                k <= rows.len(),
                rows@ == oob_mask@,
                x@.len() == rows@.len(),
                within(oob_mask@, self@.len()),
                x_full@.len() == self@.len(),
                x_full@ == scattered(self@, oob_mask@, x@, k as nat),
            decreases rows.len() - k,
        {
            x_full[rows[k]] = x[k];
            k = k + 1;
        }
        ThreeValCol(x_full)
    }
}

impl Splittable<Y> for ThreeValCol {
    type Pivot = ThreeValPivot;

    open spec fn splits(&self, rows: Seq<usize>) -> bool {
        within(rows, self@.len()) && present_on(self@, rows)
    }

    open spec fn sends_first(&self, p: ThreeValPivot, row: usize) -> bool {
        sent_first(self@, p, row)
    }

    open spec fn searches(&self, rows: Seq<usize>, nresp: nat, shadow_rng: Option<RngState>) -> bool {
        &&& 0 < rows.len() <= MAX_ROWS
        &&& within(rows, self@.len())
        &&& within(rows, nresp)
        &&& present_on(self@, rows)
        &&& (shadow_rng is Some ==> complete(self@) && self@.len() <= u32::MAX)
    }

    /// The rows of the mask that the pivot matches, and the rows whose
    /// value the pivot names, both in the order of the mask.
    fn split_with_pivot(&self, mask: &Mask, p: &ThreeValPivot, shadow_rng: Option<Rng>) -> (sides:
        [Mask; 2])
        ensures
            sides[0]@ == mask@.filter(|row: usize| sent_first(self@, *p, row)),
            sides[1]@ == mask@.filter(|row: usize| !sent_first(self@, *p, row)),
    {
        let rows = mask.get_mask();
        let mut first: Vec<usize> = Vec::new();
        let mut second: Vec<usize> = Vec::new();
        let ghost keep = |row: usize| sent_first(self@, *p, row);
        let ghost drop = |row: usize| !sent_first(self@, *p, row);
        let mut k: usize = 0;
        proof {
            assert(mask@.take(0) =~= Seq::<usize>::empty());
            reveal(Seq::filter);
        }
        while k < rows.len()
            invariant
                k <= rows.len(),
                rows@ == mask@,
                self@ == self.0@,
                ascending(mask@),
                within(mask@, self@.len()),
                present_on(self@, mask@),
                keep == (|row: usize| sent_first(self@, *p, row)),
                drop == (|row: usize| !sent_first(self@, *p, row)),
                first@ == mask@.take(k as int).filter(keep),
                second@ == mask@.take(k as int).filter(drop),
            decreases rows.len() - k,
        {
            let row = rows[k];
            proof {
                assert(mask@.take(k + 1) =~= mask@.take(k as int).push(row));
                mask@.take(k as int).lemma_filter_push(row, keep);
                mask@.take(k as int).lemma_filter_push(row, drop);
                assert(self@[mask@[k as int] as int] is Some);
            }
            let value = self.0[row].unwrap();
            if p.matches(&value) {
                first.push(row);
            } else {
                second.push(row);
            }
            k = k + 1;
        }
        proof {
            assert(mask@.take(k as int) =~= mask@);
            lemma_filter_ascending(mask@, keep);
            lemma_filter_ascending(mask@, drop);
            lemma_filter_agree(mask@, keep, |row: usize| self.sends_first(*p, row));
            lemma_filter_agree(mask@, drop, |row: usize| !self.sends_first(*p, row));
        }
        [Mask::from_sorted(first), Mask::from_sorted(second)]
    }

    /// The pivot with the lowest cost on the rows of the mask, and its
    /// cost. Of pivots with the same cost the one that names red comes
    /// before the one that names green, and that before blue. With a
    /// generator the column is shuffled as a whole before it is read.
    fn gen_optimal_pivot<T: Response<Y>>(
        &self,
        mask: &Mask,
        y: &T,
        shadow_rng: Option<Rng>,
    ) -> (best: (ThreeValPivot, GiniScore))
        ensures
            best.0 == optimal_pivot(
                gathered(mask@, probed(self@, state_of(shadow_rng))),
                gathered(mask@, y.responses()),
            ),
            best.1@ == pivot_cost(
                gathered(mask@, probed(self@, state_of(shadow_rng))),
                gathered(mask@, y.responses()),
                best.0,
                mask@.len() as int,
            ),
            best.1.rows() == mask@.len(),
    {
        let x_temp: Vec<ThreeValOpt>;
        let x: &Vec<ThreeValOpt>;
        match shadow_rng {
            Some(rng) => {
                let mut rng = rng;
                let mut copy = vstd::slice::slice_to_vec(self.0.as_slice());
                rng.shuffle(&mut copy);
                x_temp = copy;
                x = &x_temp;
                proof {
                    lemma_probed_complete(self@, state_of(shadow_rng));
                }
            },
            None => {
                x = &self.0;
            },
        }
        assert(x@ == probed(self@, state_of(shadow_rng)));
        let x_fl = mask.get_by_mask(x.as_slice());
        let y_fl = mask.get_by_mask(y.as_vector_ref().as_slice());
        assert forall|k: int| 0 <= k < x_fl@.len() implies (#[trigger] x_fl@[k]) is Some by {
            assert(x@[mask@[k] as int] is Some);
        }
        let s = gini_x_threeval_y_bool(x_fl.as_slice(), y_fl.as_slice(), mask.len());
        let red_green = s.0.lt(&s.1);
        let red_blue = s.0.lt(&s.2);
        let green_blue = s.1.lt(&s.2);
        if red_green && red_blue {
            (ThreeValPivot::NotRed, s.0)
        } else if green_blue {
            (ThreeValPivot::NotGreen, s.1)
        } else {
            (ThreeValPivot::NotBlue, s.2)
        }
    }
}

/// A split parts the rows: every row is on one side and on one only, the
/// two sides have together as many rows as were split, and rows that were
/// different and in order stay so.
pub proof fn lemma_split_parts(col: Seq<ThreeValOpt>, pivot: ThreeValPivot, rows: Seq<usize>)
    ensures
        ({
            let first = rows.filter(|row: usize| sent_first(col, pivot, row));
            let second = rows.filter(|row: usize| !sent_first(col, pivot, row));
            &&& first.len() + second.len() == rows.len()
            &&& forall|row: usize| rows.contains(row) <==> first.contains(row) || second.contains(row)
            &&& forall|row: usize| !(first.contains(row) && second.contains(row))
            &&& first.to_set().union(second.to_set()) == rows.to_set()
            &&& first.to_set().disjoint(second.to_set())
            &&& (strictly_ascending(rows) ==> strictly_ascending(first) && strictly_ascending(second))
        }),
{
    let keep = |row: usize| sent_first(col, pivot, row);
    let drop = |row: usize| !sent_first(col, pivot, row);
    crate::mask::lemma_filter_parts(rows, keep, drop);
    if strictly_ascending(rows) {
        lemma_filter_strictly_ascending(rows, keep);
        lemma_filter_strictly_ascending(rows, drop);
    }
    let first = rows.filter(keep);
    let second = rows.filter(drop);
    assert(first.to_set().union(second.to_set()) =~= rows.to_set());
}

/// The values of an ascending sequence that pass a test are ascending.
pub proof fn lemma_filter_ascending(s: Seq<usize>, keep: spec_fn(usize) -> bool)
    requires
        ascending(s),
    ensures
        ascending(s.filter(keep)),
    decreases s.len(),
{
    reveal(Seq::filter);
    if s.len() > 0 {
        let head = s.drop_last();
        assert forall|i: int, j: int| 0 <= i <= j < head.len() implies head[i] <= head[j] by {
            assert(head[i] == s[i] && head[j] == s[j]);
        }
        lemma_filter_ascending(head, keep);
        if keep(s.last()) {
            let kept = head.filter(keep);
            let all = kept.push(s.last());
            assert forall|i: int, j: int| 0 <= i <= j < all.len() implies all[i] <= all[j] by {
                if i < kept.len() && j == kept.len() {
                    assert(kept.contains(kept[i]));
                    head.lemma_filter_contains_rev(keep, kept[i]);
                    let at = choose|at: int| 0 <= at < head.len() && head[at] == kept[i];
                    assert(s[at] <= s[s.len() - 1]);
                }
            }
        }
    }
}

/// The values of a strictly ascending sequence that pass a test are
/// strictly ascending.
pub proof fn lemma_filter_strictly_ascending(s: Seq<usize>, keep: spec_fn(usize) -> bool)
    requires
        strictly_ascending(s),
    ensures
        strictly_ascending(s.filter(keep)),
    decreases s.len(),
{
    reveal(Seq::filter);
    if s.len() > 0 {
        let head = s.drop_last();
        assert forall|i: int, j: int| 0 <= i < j < head.len() implies head[i] < head[j] by {
            assert(head[i] == s[i] && head[j] == s[j]);
        }
        lemma_filter_strictly_ascending(head, keep);
        if keep(s.last()) {
            let kept = head.filter(keep);
            let all = kept.push(s.last());
            assert forall|i: int, j: int| 0 <= i < j < all.len() implies all[i] < all[j] by {
                if i < kept.len() && j == kept.len() {
                    assert(kept.contains(kept[i]));
                    head.lemma_filter_contains_rev(keep, kept[i]);
                    let at = choose|at: int| 0 <= at < head.len() && head[at] == kept[i];
                    assert(s[at] < s[s.len() - 1]);
                }
            }
        }
    }
}

} // verus!
