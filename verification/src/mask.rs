//! A mask: row indices in ascending order.

use crate::random_number_generator::{Reservoir, Rng};
use vstd::prelude::*;

verus! {

/// No entry is greater than a later one.
pub open spec fn ascending(s: Seq<usize>) -> bool {
    forall|i: int, j: int| 0 <= i <= j < s.len() ==> s[i] <= s[j]
}

/// Every entry is smaller than every later one, so none occurs twice.
pub open spec fn strictly_ascending(s: Seq<usize>) -> bool {
    forall|i: int, j: int| 0 <= i < j < s.len() ==> s[i] < s[j]
}

/// Every entry is a row of a table with `nrow` rows.
pub open spec fn within(s: Seq<usize>, nrow: nat) -> bool {
    forall|i: int| 0 <= i < s.len() ==> s[i] < nrow
}

/// The entries of `x` at the positions that `rows` names, in the order of
/// `rows`.
pub open spec fn gathered<T>(rows: Seq<usize>, x: Seq<T>) -> Seq<T> {
    Seq::new(rows.len(), |k: int| x[rows[k] as int])
}

/// A strictly ascending sequence is ascending.
pub proof fn lemma_strict_is_ascending(s: Seq<usize>)
    requires
        strictly_ascending(s),
    ensures
        ascending(s),
        s.no_duplicates(),
{
}

/// Different values in ascending order are in strictly ascending order,
/// and so are the values of a sequence that holds the same values as a
/// sequence of different values.
pub proof fn lemma_sorted_distinct(sorted: Seq<usize>, given: Seq<usize>)
    requires
        ascending(sorted),
        given.no_duplicates(),
        sorted.to_multiset() == given.to_multiset(),
    ensures
        strictly_ascending(sorted),
        sorted.len() == given.len(),
        forall|row: usize| sorted.contains(row) <==> given.contains(row),
{
    broadcast use vstd::seq_lib::group_to_multiset_ensures;
    given.lemma_multiset_has_no_duplicates();
    sorted.lemma_multiset_has_no_duplicates_conv();
    assert forall|i: int, j: int| 0 <= i < j < sorted.len() implies sorted[i] < sorted[j] by {
        assert(sorted[i] <= sorted[j]);
        assert(sorted[i] != sorted[j]);
    }
    assert(sorted.len() == given.len()) by {
        sorted.to_multiset_ensures();
        given.to_multiset_ensures();
    }
    assert forall|row: usize| sorted.contains(row) <==> given.contains(row) by {
        vstd::seq_lib::to_multiset_contains(sorted, row);
        vstd::seq_lib::to_multiset_contains(given, row);
    }
}

/// A sequence with a value appended holds what it held, and the value.
pub proof fn lemma_push_contains<A>(s: Seq<A>, last: A, x: A)
    ensures
        s.push(last).contains(x) <==> s.contains(x) || x == last,
{
    if s.push(last).contains(x) {
        let k = choose|k: int| 0 <= k < s.push(last).len() && s.push(last)[k] == x;
        if k < s.len() {
            assert(s[k] == x);
        }
    }
    if s.contains(x) {
        let k = choose|k: int| 0 <= k < s.len() && s[k] == x;
        assert(s.push(last)[k] == x);
    }
    if x == last {
        assert(s.push(last)[s.len() as int] == x);
    }
}

/// A test and its opposite part a sequence: the two parts have together as
/// many values, and a part holds the values of the sequence that meet its
/// test.
pub proof fn lemma_filter_parts(rows: Seq<usize>, keep: spec_fn(usize) -> bool, drop: spec_fn(
    usize,
) -> bool)
    requires
        forall|row: usize| #[trigger] drop(row) == !keep(row),
    ensures
        rows.filter(keep).len() + rows.filter(drop).len() == rows.len(),
        forall|row: usize| rows.filter(keep).contains(row) <==> rows.contains(row) && keep(row),
        forall|row: usize| rows.filter(drop).contains(row) <==> rows.contains(row) && drop(row),
    decreases rows.len(),
{
    reveal(Seq::filter);
    if rows.len() > 0 {
        let head = rows.drop_last();
        let last = rows.last();
        lemma_filter_parts(head, keep, drop);
        assert forall|row: usize| rows.contains(row) <==> head.contains(row) || row == last by {
            if rows.contains(row) {
                let k = choose|k: int| 0 <= k < rows.len() && rows[k] == row;
                if k < rows.len() - 1 {
                    assert(head[k] == row);
                }
            }
            if head.contains(row) {
                let k = choose|k: int| 0 <= k < head.len() && head[k] == row;
                assert(rows[k] == row);
            }
            if row == last {
                assert(rows[rows.len() - 1] == row);
            }
        }
        assert forall|row: usize|
            rows.filter(keep).contains(row) <==> rows.contains(row) && keep(row) by {
            lemma_push_contains(head.filter(keep), last, row);
        }
        assert forall|row: usize|
            rows.filter(drop).contains(row) <==> rows.contains(row) && drop(row) by {
            lemma_push_contains(head.filter(drop), last, row);
        }
    }
}

/// What a sequence holds after a push and is not the pushed value, it held
/// before.
proof fn lemma_contains_before_push(s: Seq<usize>, v: usize, row: usize)
    requires
        s.push(v).contains(row),
        row != v,
    ensures
        s.contains(row),
{
    let k = choose|k: int| 0 <= k < s.push(v).len() && s.push(v)[k] == row;
    assert(s[k] == row);
}

/// What a sequence holds, it holds after a push.
proof fn lemma_contains_after_push(s: Seq<usize>, v: usize, row: usize)
    requires
        s.contains(row),
    ensures
        s.push(v).contains(row),
{
    let k = choose|k: int| 0 <= k < s.len() && s[k] == row;
    assert(s.push(v)[k] == row);
}

/// `slice::sort` of std on machine words: afterwards the vector holds what
/// it held before, every value as often as before, in ascending order.
#[verifier::external_body]
fn sort_indices(v: &mut Vec<usize>)
    ensures
        ascending(final(v)@),
        final(v)@.to_multiset() == old(v)@.to_multiset(),
{
    v.sort();
}

/// Rows of a table, in ascending order. A row may occur more than once,
/// if the mask was made from rows in which it did.
#[derive(PartialEq, Eq, Debug)]
pub struct Mask(Vec<usize>);

impl View for Mask {
    type V = Seq<usize>;

    closed spec fn view(&self) -> Seq<usize> {
        self.0@
    }
}

impl Clone for Mask {
    fn clone(&self) -> (m: Mask)
        ensures
            m@ == self@,
    {
        proof {
            use_type_invariant(self);
        }
        Mask(self.0.clone())
    }
}

impl Mask {
    #[verifier::type_invariant]
    spec fn is_ascending(&self) -> bool {
        ascending(self.0@)
    }

    /// The mask of the given rows: the same rows, each as often as given,
    /// in ascending order.
    pub fn new(mask_val: Vec<usize>) -> (m: Mask)
        ensures
            ascending(m@),
            m@.to_multiset() == mask_val@.to_multiset(),
    {
        let mut x = mask_val;
        sort_indices(&mut x);
        Mask(x)
    }

    /// A mask of `k` different rows of a table with `n` rows, drawn by
    /// reservoir sampling.
    pub fn random_mask<S, F>(n: usize, k: usize, rng: &mut Rng, reservoir: &Reservoir<S, F>) -> (m:
        Mask) where S: Fn(u64, u64) -> usize, F: Fn(u64, u64, usize) -> u64
        requires
            reservoir.ready(),
            1 <= k <= n,
            k <= u32::MAX,
        ensures
            m@.len() == k,
            strictly_ascending(m@),
            within(m@, n as nat),
    {
        let picked = reservoir.draw(rng, n, k);
        let ghost given = picked@;
        let m = Mask::new(picked);
        proof {
            lemma_sorted_distinct(m@, given);
            assert forall|i: int| 0 <= i < m@.len() implies m@[i] < n by {
                assert(m@.contains(m@[i]));
                let j = choose|j: int| 0 <= j < given.len() && given[j] == m@[i];
            }
        }
        m
    }

    /// The mask of rows that are in ascending order already.
    pub(crate) fn from_sorted(rows: Vec<usize>) -> (m: Mask)
        requires
            ascending(rows@),
        ensures
            m@ == rows@,
    {
        Mask(rows)
    }

    /// The rows, which are in ascending order whatever the mask was made
    /// from.
    pub fn get_mask(&self) -> (rows: &Vec<usize>)
        ensures
            rows@ == self@,
            ascending(rows@),
    {
        proof {
            use_type_invariant(self);
        }
        &self.0
    }

    /// A mask has no more rows than a machine word counts.
    pub proof fn lemma_len_fits(&self)
        ensures
            self@.len() <= usize::MAX,
    {
        assert(self.0.len() == self.0@.len());
    }

    /// The number of rows.
    pub fn len(&self) -> (n: usize)
        ensures
            n == self@.len(),
    {
        self.0.len()
    }

    /// The entries of `x` at the rows of the mask, in the order of the mask.
    pub fn get_by_mask<T: Copy>(&self, x: &[T]) -> (picked: Vec<T>)
        requires
            within(self@, x@.len()),
        ensures
            picked@ == gathered(self@, x@),
    {
        let mut picked: Vec<T> = Vec::with_capacity(self.0.len());
        let mut k: usize = 0;
        while k < self.0.len()
            invariant
                k <= self.0.len(),
                within(self@, x@.len()),
                self@ == self.0@,
                picked@ == gathered(self@.take(k as int), x@),
            decreases self.0.len() - k,
        {
            picked.push(x[self.0[k]]);
            k = k + 1;
            assert(picked@ =~= gathered(self@.take(k as int), x@));
        }
        assert(self@.take(k as int) =~= self@);
        picked
    }

    /// The rows of `range` that the mask does not hold, each once, in
    /// ascending order.
    pub fn inverse(&self, range: &[usize]) -> (rest: Mask)
        ensures
            strictly_ascending(rest@),
            forall|row: usize| rest@.contains(row) <==> range@.contains(row) && !self@.contains(row),
    {
        proof {
            use_type_invariant(self);
        }
        let mut sorted: Vec<usize> = Vec::with_capacity(range.len());
        let mut c: usize = 0;
        while c < range.len()
            invariant
                c <= range.len(),
                sorted@ == range@.take(c as int),
            decreases range.len() - c,
        {
            sorted.push(range[c]);
            c = c + 1;
            assert(sorted@ =~= range@.take(c as int));
        }
        assert(range@.take(c as int) =~= range@);
        sort_indices(&mut sorted);
        proof {
            broadcast use vstd::seq_lib::group_to_multiset_ensures;
            assert forall|row: usize| sorted@.contains(row) <==> range@.contains(row) by {
                assert(sorted@.to_multiset().count(row) == range@.to_multiset().count(row));
            }
        }
        let mut rest: Vec<usize> = Vec::new();
        let mut i: usize = 0;
        let mut j: usize = 0;
        while i < sorted.len()
            invariant
                i <= sorted.len(),
                j <= self.0.len(),
                self@ == self.0@,
                ascending(sorted@),
                ascending(self@),
                strictly_ascending(rest@),
                forall|k: int| 0 <= k < j ==> i < sorted.len() ==> self@[k] < sorted@[i as int],
                forall|k: int| 0 <= k < rest@.len() ==> i < sorted.len() ==> rest@[k] <= sorted@[i as int],
                forall|k: int| 0 <= k < rest@.len() && i > 0 ==> rest@[k] <= sorted@[i - 1],
                forall|row: usize|
                    rest@.contains(row) <==> sorted@.take(i as int).contains(row)
                        && !self@.contains(row),
            decreases sorted.len() - i,
        {
            let v = sorted[i];
            while j < self.0.len() && self.0[j] < v
                invariant
                    j <= self.0.len(),
                    self@ == self.0@,
                    ascending(self@),
                    forall|k: int| 0 <= k < j ==> self@[k] < v,
                decreases self.0.len() - j,
            {
                j = j + 1;
            }
            let in_mask = j < self.0.len() && self.0[j] == v;
            let repeated = rest.len() > 0 && rest[rest.len() - 1] == v;
            let ghost before = rest@;
            proof {
                if !in_mask {
                    assert forall|k: int| 0 <= k < self@.len() implies self@[k] != v by {
                        if k >= j {
                            assert(self@[j as int] <= self@[k]);
                        }
                    }
                }
                assert(sorted@.take(i + 1) =~= sorted@.take(i as int).push(v));
            }
            if !in_mask && !repeated {
                rest.push(v);
                proof {
                    assert forall|a: int, b: int| 0 <= a < b < rest@.len() implies rest@[a]
                        < rest@[b] by {
                        if b == before.len() {
                            assert(before[a] <= v);
                            if before.len() > 0 {
                                assert(before[a] <= before[before.len() - 1]);
                            }
                        }
                    }
                    assert forall|row: usize|
                        rest@.contains(row) <==> sorted@.take(i + 1).contains(row)
                            && !self@.contains(row) by {
                        if rest@.contains(row) {
                            let k = choose|k: int| 0 <= k < rest@.len() && rest@[k] == row;
                            if k < before.len() {
                                assert(before[k] == row);
                                assert(before.contains(row));
                                lemma_contains_after_push(sorted@.take(i as int), v, row);
                            } else {
                                assert(sorted@.take(i + 1)[i as int] == v);
                            }
                        }
                        if sorted@.take(i + 1).contains(row) && !self@.contains(row) {
                            if row == v {
                                assert(rest@[before.len() as int] == v);
                            } else {
                                lemma_contains_before_push(sorted@.take(i as int), v, row);
                                assert(before.contains(row));
                                let k = choose|k: int| 0 <= k < before.len() && before[k] == row;
                                assert(rest@[k] == row);
                            }
                        }
                    }
                }
            } else {
                proof {
                    assert forall|row: usize|
                        rest@.contains(row) <==> sorted@.take(i + 1).contains(row)
                            && !self@.contains(row) by {
                        if sorted@.take(i + 1).contains(row) && !self@.contains(row) {
                            if row == v {
                                if in_mask {
                                    assert(self@[j as int] == v);
                                }
                                assert(rest@[rest@.len() - 1] == v);
                            } else {
                                lemma_contains_before_push(sorted@.take(i as int), v, row);
                            }
                        }
                        if rest@.contains(row) {
                            lemma_contains_after_push(sorted@.take(i as int), v, row);
                        }
                    }
                }
            }
            i = i + 1;
        }
        proof {
            assert(sorted@.take(i as int) =~= sorted@);
            lemma_strict_is_ascending(rest@);
        }
        Mask(rest)
    }
}

} // verus!
