//! The bookkeeping of the Boruta procedure: which columns are still
//! tentative, which are confirmed and which rejected, and how often each
//! had a higher z-score than every shadow.
//!
//! A run has four steps. The caller takes [`Boruta::attributes`], cuts the
//! table down to them, adds shadows and scores the columns; tells with
//! [`Boruta::record_hits`] which attributes beat the shadows; puts the
//! hits of the tentative columns, from [`Boruta::tentative_hits`], to the
//! binomial test; and hands the outcome to [`Boruta::decide`].

use crate::data_interface::multi_x::SplitColId;
use vstd::prelude::*;

verus! {

/// What is added to the number of a run to seed the shadows of the run.
pub const SHADOW_SEED: usize = 451256125;

/// What is added to the number of a run to seed the forest of the run.
pub const FOREST_SEED: usize = 75754;

/// The columns sorted into confirmed, rejected and tentative ones.
#[derive(Debug)]
pub struct BorutaRes {
    confirmed: Vec<SplitColId>,
    rejected: Vec<SplitColId>,
    tentative: Vec<SplitColId>,
}

/// What the decision on a tentative column is.
#[derive(Debug, Clone, Copy, PartialEq, Eq, Structural)]
pub enum Verdict {
    Rejected,
    Confirmed,
    Tentative,
}

/// The decision on a column with `hits` hits: rejected if the chance of so
/// few hits is below the threshold; else confirmed if it has a hit and the
/// chance of fewer hits is above the opposite threshold; else tentative.
pub open spec fn verdict_of(too_few: bool, hits: usize, many: bool) -> Verdict {
    if too_few {
        Verdict::Rejected
    } else if hits > 0 && many {
        Verdict::Confirmed
    } else {
        Verdict::Tentative
    }
}

/// The decisions on the tentative columns, in their order.
pub open spec fn verdicts(hits: Seq<usize>, too_few: Seq<bool>, many: Seq<bool>) -> Seq<Verdict> {
    Seq::new(hits.len(), |k: int| verdict_of(too_few[k], hits[k], many[k]))
}

/// The columns among the first `upto` whose decision is `which`, in their
/// order.
pub open spec fn decided(
    cols: Seq<SplitColId>,
    decisions: Seq<Verdict>,
    which: Verdict,
    upto: nat,
) -> Seq<SplitColId>
    decreases upto,
{
    if upto == 0 || upto > cols.len() || upto > decisions.len() {
        Seq::empty()
    } else if decisions[upto - 1] == which {
        decided(cols, decisions, which, (upto - 1) as nat).push(cols[upto - 1])
    } else {
        decided(cols, decisions, which, (upto - 1) as nat)
    }
}

/// The number of hits that is noted for the column, and zero if none is.
pub open spec fn hits_of(hits: Seq<(SplitColId, usize)>, col: SplitColId, upto: nat) -> usize
    decreases upto,
{
    if upto == 0 || upto > hits.len() {
        0
    } else if hits[upto - 1].0 == col {
        hits[upto - 1].1
    } else {
        hits_of(hits, col, (upto - 1) as nat)
    }
}

/// One more, but not beyond the largest number.
pub open spec fn one_more(n: usize) -> usize {
    if n < usize::MAX {
        (n + 1) as usize
    } else {
        n
    }
}

/// The counts after a run: every column that is among the first `upto`
/// attributes with a hit has one hit more for each time it is.
pub open spec fn counted(
    hits: Seq<(SplitColId, usize)>,
    attrs: Seq<SplitColId>,
    hit: Seq<bool>,
    upto: nat,
) -> Seq<(SplitColId, usize)>
    decreases upto,
{
    if upto == 0 || upto > attrs.len() || upto > hit.len() {
        hits
    } else {
        let before = counted(hits, attrs, hit, (upto - 1) as nat);
        if hit[upto - 1] {
            Seq::new(
                before.len(),
                |m: int|
                    if before[m].0 == attrs[upto - 1] {
                        (before[m].0, one_more(before[m].1))
                    } else {
                        before[m]
                    },
            )
        } else {
            before
        }
    }
}

/// The largest number whose square is not above `n`.
pub open spec fn is_root(root: nat, n: nat) -> bool {
    root * root <= n < (root + 1) * (root + 1)
}

/// The number of candidate columns of a split for a table with `ncol`
/// columns: the square root of `ncol`, rounded down.
pub fn mtry_for(ncol: usize) -> (mtry: usize)
    ensures
        is_root(mtry as nat, ncol as nat),
{
    let mut root: usize = 0;
    loop
        invariant
            root <= 0xffff_ffff,
            root * root <= ncol,
        ensures
            is_root(root as nat, ncol as nat),
        decreases 0xffff_ffff - root,
    {
        proof {
            assert((root + 1) * (root + 1) <= 0x1_0000_0000 * 0x1_0000_0000) by (nonlinear_arith)
                requires
                    root + 1 <= 0x1_0000_0000,
            ;
            if root == 0xffff_ffff {
                assert((root + 1) * (root + 1) == 0x1_0000_0000 * 0x1_0000_0000)
                    by (nonlinear_arith)
                    requires
                        root == 0xffff_ffff,
                ;
            }
        }
        let next = root as u128 + 1;
        if root >= 0xffff_ffff || next * next > ncol as u128 {
            break ;
        }
        root = root + 1;
    }
    root
}

impl BorutaRes {
    /// The confirmed columns, in the order in which they were confirmed.
    pub closed spec fn confirmed(&self) -> Seq<SplitColId> {
        self.confirmed@
    }

    /// The rejected columns, in the order in which they were rejected.
    pub closed spec fn rejected(&self) -> Seq<SplitColId> {
        self.rejected@
    }

    /// The columns that are neither confirmed nor rejected.
    pub closed spec fn tentative(&self) -> Seq<SplitColId> {
        self.tentative@
    }

    pub fn get_confirmed(&self) -> (cols: Vec<SplitColId>)
        ensures
            cols@ == self.confirmed(),
    {
        copy_of(&self.confirmed)
    }

    pub fn get_rejected(&self) -> (cols: Vec<SplitColId>)
        ensures
            cols@ == self.rejected(),
    {
        copy_of(&self.rejected)
    }

    pub fn get_tentative(&self) -> (cols: Vec<SplitColId>)
        ensures
            cols@ == self.tentative(),
    {
        copy_of(&self.tentative)
    }
}

/// A copy of the column names.
fn copy_of(cols: &Vec<SplitColId>) -> (copy: Vec<SplitColId>)
    ensures
        copy@ == cols@,
{
    vstd::slice::slice_to_vec(cols.as_slice())
}

/// The books of the procedure: the state of the columns, their hits, and
/// the number of runs.
pub struct Boruta {
    res: BorutaRes,
    hits: Vec<(SplitColId, usize)>,
    iter: usize,
}

impl Boruta {
    /// The state of the columns.
    pub closed spec fn state(&self) -> BorutaRes {
        self.res
    }

    /// For every column, the number of runs in which it beat the shadows.
    pub closed spec fn hits(&self) -> Seq<(SplitColId, usize)> {
        self.hits@
    }

    /// The number of runs so far.
    pub closed spec fn runs(&self) -> usize {
        self.iter
    }

    /// The state before the first run: every column is tentative and has
    /// no hit.
    pub fn new(cols: Vec<SplitColId>) -> (b: Boruta)
        ensures
            b.state().tentative() == cols@,
            b.state().confirmed().len() == 0,
            b.state().rejected().len() == 0,
            b.hits() == Seq::new(cols@.len(), |k: int| (cols@[k], 0usize)),
            b.runs() == 0,
    {
        let mut hits: Vec<(SplitColId, usize)> = Vec::with_capacity(cols.len());
        let mut k: usize = 0;
        while k < cols.len()
            invariant
                k <= cols@.len(),
                hits@ == Seq::new(k as nat, |j: int| (cols@[j], 0usize)),
            decreases cols@.len() - k,
        {
            hits.push((cols[k], 0));
            k = k + 1;
            assert(hits@ =~= Seq::new(k as nat, |j: int| (cols@[j], 0usize)));
        }
        Boruta {
            res: BorutaRes { confirmed: Vec::new(), rejected: Vec::new(), tentative: cols },
            hits,
            iter: 0,
        }
    }

    /// Whether the procedure is over: `max_runs` runs are made, or no
    /// column is tentative.
    pub fn finished(&self, max_runs: usize) -> (over: bool)
        ensures
            over == (self.runs() >= max_runs || self.state().tentative().len() == 0),
    {
        self.iter >= max_runs || self.res.tentative.len() == 0
    }

    /// Begins a run and gives its number, counted from one.
    pub fn begin_run(&mut self) -> (iter: usize)
        requires
            old(self).runs() < usize::MAX,
        ensures
            iter == old(self).runs() + 1,
            final(self).runs() == iter,
            final(self).state() == old(self).state(),
            final(self).hits() == old(self).hits(),
    {
        self.iter = self.iter + 1;
        self.iter
    }

    /// The columns that a run scores: the tentative ones, then the
    /// confirmed ones.
    pub fn attributes(&self) -> (attrs: Vec<SplitColId>)
        ensures
            attrs@ == self.state().tentative() + self.state().confirmed(),
    {
        let mut attrs = copy_of(&self.res.tentative);
        let mut k: usize = 0;
        while k < self.res.confirmed.len()
            invariant
                k <= self.res.confirmed@.len(),
                attrs@ == self.res.tentative@ + self.res.confirmed@.take(k as int),
            decreases self.res.confirmed@.len() - k,
        {
            attrs.push(self.res.confirmed[k]);
            k = k + 1;
            assert(attrs@ =~= self.res.tentative@ + self.res.confirmed@.take(k as int));
        }
        assert(self.res.confirmed@.take(k as int) =~= self.res.confirmed@);
        attrs
    }

    /// Notes the hits of a run: `hit[k]` says whether the z-score of
    /// `attrs[k]` was above that of every shadow.
    pub fn record_hits(&mut self, attrs: &Vec<SplitColId>, hit: &Vec<bool>)
        ensures
            final(self).hits() == counted(
                old(self).hits(),
                attrs@,
                hit@,
                if attrs@.len() <= hit@.len() {
                    attrs@.len()
                } else {
                    hit@.len()
                },
            ),
            final(self).state() == old(self).state(),
            final(self).runs() == old(self).runs(),
    {
        let n = if attrs.len() <= hit.len() {
            attrs.len()
        } else {
            hit.len()
        };
        let mut k: usize = 0;
        while k < n
            invariant
                k <= n,
                n <= attrs@.len(),
                n <= hit@.len(),
                self.hits@ == counted(old(self).hits@, attrs@, hit@, k as nat),
                self.res == old(self).res,
                self.iter == old(self).iter,
            decreases n - k,
        {
            if hit[k] {
                let col = attrs[k];
                let ghost before = self.hits@;
                let mut m: usize = 0;
                while m < self.hits.len()
                    invariant
                        m <= self.hits@.len(),
                        self.hits@.len() == before.len(),
                        forall|j: int|
                            0 <= j < m ==> #[trigger] self.hits@[j] == if before[j].0 == col {
                                (before[j].0, one_more(before[j].1))
                            } else {
                                before[j]
                            },
                        forall|j: int| m <= j < before.len() ==> #[trigger] self.hits@[j] == before[j],
                        self.res == old(self).res,
                        self.iter == old(self).iter,
                    decreases self.hits@.len() - m,
                {
                    let entry = self.hits[m];
                    if entry.0 == col {
                        let more = if entry.1 < usize::MAX {
                            entry.1 + 1
                        } else {
                            entry.1
                        };
                        self.hits[m] = (entry.0, more);
                    }
                    m = m + 1;
                }
                assert(self.hits@ =~= counted(old(self).hits@, attrs@, hit@, (k + 1) as nat));
            }
            k = k + 1;
        }
    }

    /// The hits of the tentative columns, in their order.
    pub fn tentative_hits(&self) -> (hits: Vec<usize>)
        ensures
            hits@ == Seq::new(
                self.state().tentative().len(),
                |k: int| hits_of(self.hits(), self.state().tentative()[k], self.hits().len()),
            ),
    {
        let mut out: Vec<usize> = Vec::with_capacity(self.res.tentative.len());
        let mut k: usize = 0;
        while k < self.res.tentative.len()
            invariant
                k <= self.res.tentative@.len(),
                out@ == Seq::new(
                    k as nat,
                    |j: int| hits_of(self.hits@, self.res.tentative@[j], self.hits@.len()),
                ),
            decreases self.res.tentative@.len() - k,
        {
            let col = self.res.tentative[k];
            let mut found: usize = 0;
            let mut m: usize = 0;
            while m < self.hits.len()
                invariant
                    m <= self.hits@.len(),
                    found == hits_of(self.hits@, col, m as nat),
                decreases self.hits@.len() - m,
            {
                if self.hits[m].0 == col {
                    found = self.hits[m].1;
                }
                m = m + 1;
            }
            out.push(found);
            k = k + 1;
            assert(out@ =~= Seq::new(
                k as nat,
                |j: int| hits_of(self.hits@, self.res.tentative@[j], self.hits@.len()),
            ));
        }
        out
    }

    /// Applies the outcome of the binomial test to the tentative columns.
    /// For the `k`-th of them, with `h` hits after `n` runs, `too_few[k]`
    /// says whether the chance of at most `h` hits in `n` fair trials is
    /// below the threshold, and `many[k]` whether the chance of fewer than
    /// `h` hits is above one less the threshold. A column is rejected in
    /// the first case, else confirmed if it has a hit and the second case
    /// holds, and stays tentative otherwise.
    pub fn decide(&mut self, too_few: &Vec<bool>, many: &Vec<bool>)
        requires
            too_few@.len() == old(self).state().tentative().len(),
            many@.len() == old(self).state().tentative().len(),
        ensures
            final(self).hits() == old(self).hits(),
            final(self).runs() == old(self).runs(),
            ({
                let cols = old(self).state().tentative();
                let hits = Seq::new(
                    cols.len(),
                    |k: int| hits_of(old(self).hits(), cols[k], old(self).hits().len()),
                );
                let v = verdicts(hits, too_few@, many@);
                &&& final(self).state().tentative() == decided(cols, v, Verdict::Tentative, cols.len())
                &&& final(self).state().rejected() == old(self).state().rejected() + decided(
                    cols,
                    v,
                    Verdict::Rejected,
                    cols.len(),
                )
                &&& final(self).state().confirmed() == old(self).state().confirmed() + decided(
                    cols,
                    v,
                    Verdict::Confirmed,
                    cols.len(),
                )
            }),
    {
        let hits = self.tentative_hits();
        let ghost cols = self.res.tentative@;
        let ghost v = verdicts(hits@, too_few@, many@);
        let ghost rejected = self.res.rejected@;
        let ghost confirmed = self.res.confirmed@;
        let mut still: Vec<SplitColId> = Vec::new();
        let mut k: usize = 0;
        while k < self.res.tentative.len()
            invariant
                k <= cols.len(),
                cols == self.res.tentative@,
                hits@.len() == cols.len(),
                too_few@.len() == cols.len(),
                many@.len() == cols.len(),
                v == verdicts(hits@, too_few@, many@),
                still@ == decided(cols, v, Verdict::Tentative, k as nat),
                self.res.rejected@ == rejected + decided(cols, v, Verdict::Rejected, k as nat),
                self.res.confirmed@ == confirmed + decided(cols, v, Verdict::Confirmed, k as nat),
                self.hits@ == old(self).hits@,
                self.iter == old(self).iter,
            decreases cols.len() - k,
        {
            let col = self.res.tentative[k];
            assert(v[k as int] == verdict_of(too_few@[k as int], hits@[k as int], many@[k as int]));
            if too_few[k] {
                self.res.rejected.push(col);
                assert(self.res.rejected@ =~= rejected + decided(
                    cols,
                    v,
                    Verdict::Rejected,
                    (k + 1) as nat,
                ));
            } else if hits[k] > 0 && many[k] {
                self.res.confirmed.push(col);
                assert(self.res.confirmed@ =~= confirmed + decided(
                    cols,
                    v,
                    Verdict::Confirmed,
                    (k + 1) as nat,
                ));
            } else {
                still.push(col);
            }
            k = k + 1;
        }
        self.res.tentative = still;
    }

    /// The state of the columns as it is now.
    pub fn result(&self) -> (res: &BorutaRes)
        ensures
            *res == self.state(),
    {
        &self.res
    }

    /// The state of the columns, when the procedure is over.
    pub fn finish(self) -> (res: BorutaRes)
        ensures
            res == self.state(),
    {
        self.res
    }
}

/// The columns of `all` that are not among `attrs`, in their order: the
/// shadows of a run.
pub fn shadows_among(all: &Vec<SplitColId>, attrs: &Vec<SplitColId>) -> (shadows: Vec<SplitColId>)
    ensures
        shadows@ == all@.filter(|col: SplitColId| !attrs@.contains(col)),
{
    let ghost keep = |col: SplitColId| !attrs@.contains(col);
    let mut shadows: Vec<SplitColId> = Vec::new();
    let mut k: usize = 0;
    proof {
        assert(all@.take(0) =~= Seq::<SplitColId>::empty());
        reveal(Seq::filter);
    }
    while k < all.len()
        invariant
            k <= all@.len(),
            keep == (|col: SplitColId| !attrs@.contains(col)),
            shadows@ == all@.take(k as int).filter(keep),
        decreases all@.len() - k,
    {
        let col = all[k];
        let mut known = false;
        let mut m: usize = 0;
        while m < attrs.len()
            invariant
                m <= attrs@.len(),
                known == attrs@.take(m as int).contains(col),
            decreases attrs@.len() - m,
        {
            proof {
                assert(attrs@.take(m + 1) =~= attrs@.take(m as int).push(attrs@[m as int]));
                crate::mask::lemma_push_contains(attrs@.take(m as int), attrs@[m as int], col);
            }
            if attrs[m] == col {
                known = true;
            }
            m = m + 1;
        }
        proof {
            assert(attrs@.take(m as int) =~= attrs@);
            assert(all@.take(k + 1) =~= all@.take(k as int).push(col));
            all@.take(k as int).lemma_filter_push(col, keep);
        }
        if !known {
            shadows.push(col);
        }
        k = k + 1;
    }
    assert(all@.take(k as int) =~= all@);
    shadows
}

} // verus!
