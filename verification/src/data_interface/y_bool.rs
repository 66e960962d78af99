//! A boolean response.

use crate::data_interface::{
    is_major, mismatches, occurrences, single_class, Predicted, Response,
};
use crate::mask::{gathered, within, Mask};
use crate::random_number_generator::{exceeds_half, Rng, RngState, MAX_REDRAWS};
use vstd::prelude::*;

verus! {

/// The class of a row.
pub type Y = bool;

/// A response: a class for every row.
#[derive(Debug)]
pub struct YBool(Vec<Y>);

impl View for YBool {
    type V = Seq<bool>;

    closed spec fn view(&self) -> Seq<bool> {
        self.0@
    }
}

/// The class that outnumbers the other among `s`, and on a tie the class
/// that a generator in state `rng` draws: `true` if its next uniform number
/// is greater than one half.
pub open spec fn major_class(s: Seq<bool>, rng: RngState) -> bool {
    if occurrences(s, false) > occurrences(s, true) {
        false
    } else if occurrences(s, false) < occurrences(s, true) {
        true
    } else {
        exceeds_half(rng.nonzero_wide(MAX_REDRAWS as nat).value as u64)
    }
}

/// The state of the generator after the majority was taken: it has drawn
/// only on a tie.
pub open spec fn after_major_class(s: Seq<bool>, rng: RngState) -> RngState {
    if occurrences(s, false) == occurrences(s, true) {
        rng.nonzero_wide(MAX_REDRAWS as nat).after
    } else {
        rng
    }
}

/// A sequence has as many values as it has `true` and `false` together.
pub proof fn lemma_occurrences_sum(s: Seq<bool>)
    ensures
        occurrences(s, true) + occurrences(s, false) == s.len(),
    decreases s.len(),
{
    if s.len() > 0 {
        lemma_occurrences_sum(s.drop_last());
    }
}

/// A class is the single class of a sequence exactly if the other class
/// does not occur in it and the sequence is not empty.
pub proof fn lemma_single_class_by_count(s: Seq<bool>)
    ensures
        single_class(s) == Some(true) <==> occurrences(s, false) == 0 && s.len() > 0,
        single_class(s) == Some(false) <==> occurrences(s, true) == 0 && s.len() > 0,
    decreases s.len(),
{
    lemma_absent_by_count(s, true);
    lemma_absent_by_count(s, false);
    if s.len() > 0 {
        if occurrences(s, false) == 0 {
            assert forall|k: int| 0 <= k < s.len() implies #[trigger] s[k] == s.first() by {
                assert(s[k] != false);
                assert(s[0] != false);
            }
        }
        if occurrences(s, true) == 0 {
            assert forall|k: int| 0 <= k < s.len() implies #[trigger] s[k] == s.first() by {
                assert(s[k] != true);
                assert(s[0] != true);
            }
        }
    }
}

/// A class does not occur exactly if no value is that class.
pub proof fn lemma_absent_by_count(s: Seq<bool>, class: bool)
    ensures
        occurrences(s, class) == 0 <==> (forall|k: int| 0 <= k < s.len() ==> s[k] != class),
    decreases s.len(),
{
    if s.len() > 0 {
        lemma_absent_by_count(s.drop_last(), class);
        if occurrences(s, class) == 0 {
            assert forall|k: int| 0 <= k < s.len() implies s[k] != class by {
                if k < s.len() - 1 {
                    assert(s.drop_last()[k] == s[k]);
                }
            }
        } else {
            if s.last() != class {
                let k = choose|k: int| 0 <= k < s.drop_last().len() && s.drop_last()[k] == class;
                assert(s[k] == class);
            }
        }
    }
}

impl YBool {
    pub fn new(x: &[Y]) -> (y: YBool)
        ensures
            y@ == x@,
    {
        YBool(vstd::slice::slice_to_vec(x))
    }

    /// How many rows of the mask have the class `false`, and how many
    /// `true`.
    fn class_counts(&self, mask: &Mask) -> (counts: (usize, usize))
        requires
            within(mask@, self@.len()),
        ensures
            counts.0 == occurrences(gathered(mask@, self@), false),
            counts.1 == occurrences(gathered(mask@, self@), true),
    {
        let rows = mask.get_mask();
        let mut falses: usize = 0;
        let mut trues: usize = 0;
        let mut k: usize = 0;
        while k < rows.len()
            invariant
                k <= rows.len(),
                rows@ == mask@,
                within(mask@, self@.len()),
                self@ == self.0@,
                falses == occurrences(gathered(mask@, self@).take(k as int), false),
                trues == occurrences(gathered(mask@, self@).take(k as int), true),
                falses + trues == k,
            decreases rows.len() - k,
        {
            let ghost all = gathered(mask@, self@);
            assert(all.take(k + 1).drop_last() =~= all.take(k as int));
            assert(all.take(k + 1).last() == self@[mask@[k as int] as int]);
            if self.0[rows[k]] {
                trues = trues + 1;
            } else {
                falses = falses + 1;
            }
            k = k + 1;
        }
        assert(gathered(mask@, self@).take(k as int) =~= gathered(mask@, self@));
        (falses, trues)
    }
}

impl Response<Y> for YBool {
    open spec fn responses(&self) -> Seq<Y> {
        self@
    }

    fn get_class(&self, mask: &Mask) -> (class: Option<Y>) {
        let counts = self.class_counts(mask);
        proof {
            lemma_single_class_by_count(gathered(mask@, self@));
            lemma_occurrences_sum(gathered(mask@, self@));
        }
        if counts.0 == 0 {
            Some(true)
        } else if counts.1 == 0 {
            Some(false)
        } else {
            None
        }
    }

    fn get_major_class(&self, mask: &Mask, rng: &mut Rng) -> (class: Y)
        ensures
            class == major_class(gathered(mask@, self@), old(rng)@),
            final(rng)@ == after_major_class(gathered(mask@, self@), old(rng)@),
    {
        let counts = self.class_counts(mask);
        proof {
            let s = gathered(mask@, self@);
            assert forall|c: bool| is_major(s, c) <==> occurrences(s, c) >= occurrences(s, !c) by {
                if occurrences(s, c) >= occurrences(s, !c) {
                    assert forall|other: bool| occurrences(s, other) <= occurrences(s, c) by {
                        assert(other == c || other == !c);
                    }
                }
            }
        }
        if counts.0 > counts.1 {
            false
        } else if counts.0 < counts.1 {
            true
        } else {
            rng.rand_uni_above_half()
        }
    }

    fn pred_incorrect(&self, mask: &Mask, preds: &Predicted<Y>) -> (wrong: u64) {
        let rows = mask.get_mask();
        let mut wrong: u64 = 0;
        let mut k: usize = 0;
        while k < rows.len()
            invariant
                k <= rows.len(),
                rows@ == mask@,
                within(mask@, self@.len()),
                self@ == self.0@,
                wrong == mismatches(gathered(mask@, self@).take(k as int), preds@),
                wrong <= k,
            decreases rows.len() - k,
        {
            let ghost all = gathered(mask@, self@);
            assert(all.take(k + 1).drop_last() =~= all.take(k as int));
            assert(all.take(k + 1).last() == self@[mask@[k as int] as int]);
            if k < preds.len() && self.0[rows[k]] != preds[k] {
                wrong = wrong + 1;
            }
            k = k + 1;
        }
        assert(gathered(mask@, self@).take(k as int) =~= gathered(mask@, self@));
        wrong
    }

    fn pred_error(&self, mask: &Mask, preds: &Predicted<Y>) -> (share: (u64, usize)) {
        (self.pred_incorrect(mask, preds), preds.len())
    }

    fn as_vector(&self) -> (v: Vec<Y>) {
        self.0.clone()
    }

    fn as_vector_ref(&self) -> (v: &Vec<Y>) {
        &self.0
    }

    fn len(&self) -> (n: usize) {
        self.0.len()
    }
}

} // verus!
