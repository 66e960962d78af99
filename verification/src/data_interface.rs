//! What a forest asks of its data: a response that can be classified and
//! scored on a mask, and a table of predictors that can be searched for a
//! split, split, and permuted.
//!
//! Every trait describes its implementations by specification functions.
//! They have bodies here, which say that nothing is known: an
//! implementation that keeps them can be used where nothing is proved.

use crate::data_interface::multi_x::{ids_of, ColSplitIndex, SplitColId};
use crate::gini::GiniScore;
use crate::mask::{gathered, within, Mask};
use crate::random_number_generator::factory::RngFactory;
use crate::random_number_generator::{Rng, RngState};
use vstd::prelude::*;

pub mod frame;
pub mod multi_x;
pub mod three_val;
pub mod y_bool;

verus! {

/// Predicted classes, one for every row of a mask, in the order of the
/// mask.
pub type Predicted<T> = Vec<T>;

/// How often `class` occurs in `s`.
pub open spec fn occurrences<T>(s: Seq<T>, class: T) -> nat
    decreases s.len(),
{
    if s.len() == 0 {
        0
    } else {
        occurrences(s.drop_last(), class) + if s.last() == class {
            1nat
        } else {
            0nat
        }
    }
}

/// The class that all of `s` has, if it has one.
pub open spec fn single_class<T>(s: Seq<T>) -> Option<T> {
    if s.len() > 0 && (forall|k: int| 0 <= k < s.len() ==> #[trigger] s[k] == s.first()) {
        Some(s.first())
    } else {
        None
    }
}

/// Whether no class occurs in `s` more often than `class`.
pub open spec fn is_major<T>(s: Seq<T>, class: T) -> bool {
    forall|other: T| occurrences(s, other) <= occurrences(s, class)
}

/// The number of positions, among those that both sequences have, at which
/// they differ.
pub open spec fn mismatches<T>(truth: Seq<T>, preds: Seq<T>) -> nat
    decreases truth.len(),
{
    if truth.len() == 0 {
        0
    } else {
        mismatches(truth.drop_last(), preds) + if truth.len() <= preds.len() && truth.last()
            != preds[truth.len() - 1] {
            1nat
        } else {
            0nat
        }
    }
}

/// There are at most as many mismatches as there are values.
pub proof fn lemma_mismatches_bounded<T>(truth: Seq<T>, preds: Seq<T>)
    ensures
        mismatches(truth, preds) <= truth.len(),
    decreases truth.len(),
{
    if truth.len() > 0 {
        lemma_mismatches_bounded(truth.drop_last(), preds);
    }
}

/// A column that can be shuffled on the rows of a mask.
pub trait Permutable: Sized + View {
    /// Whether the column has all the rows, few enough to be shuffled.
    open spec fn covers(&self, rows: Seq<usize>) -> bool {
        false
    }

    /// What the column holds once the values at `rows` are shuffled by a
    /// generator in state `rng`; every other row keeps its value.
    open spec fn permuted(&self, rng: RngState, rows: Seq<usize>) -> Self::V {
        self@
    }

    fn permute(&self, perm_rng: Rng, oob_mask: &Mask) -> (shuffled: Self)
        requires
            self.covers(oob_mask@),
        ensures
            shuffled@ == self.permuted(perm_rng@, oob_mask@),
    ;
}

/// A column that can part rows by a pivot on its values, and find the
/// pivot that parts the classes of a response best.
pub trait Splittable<Y>: Permutable {
    /// A rule that parts rows by their value.
    type Pivot;

    /// Whether the column has a value for each of the rows.
    open spec fn splits(&self, rows: Seq<usize>) -> bool {
        false
    }

    /// Whether the pivot sends the row to the first side.
    open spec fn sends_first(&self, p: Self::Pivot, row: usize) -> bool {
        false
    }

    /// Whether the best pivot can be found on the rows, for a response of
    /// `nresp` rows, with the column shuffled first if a generator is
    /// given.
    open spec fn searches(&self, rows: Seq<usize>, nresp: nat, shadow_rng: Option<RngState>) -> bool {
        false
    }

    /// The rows of the mask that the pivot sends to the first side, and
    /// those that it sends to the second, both in the order of the mask.
    /// The generator is not used.
    fn split_with_pivot(&self, mask: &Mask, p: &Self::Pivot, shadow_rng: Option<Rng>) -> (sides: [Mask; 2])
        requires
            self.splits(mask@),
        ensures
            sides[0]@ == mask@.filter(|row: usize| self.sends_first(*p, row)),
            sides[1]@ == mask@.filter(|row: usize| !self.sends_first(*p, row)),
    ;

    /// The pivot with the lowest cost on the rows of the mask, and its
    /// cost over these rows.
    fn gen_optimal_pivot<T>(&self, mask: &Mask, y: &T, shadow_rng: Option<Rng>) -> (best: (
        Self::Pivot,
        GiniScore,
    )) where T: Response<Y>
        requires
            self.searches(
                mask@,
                y.responses().len(),
                match shadow_rng {
                    Some(rng) => Some(rng@),
                    None => None,
                },
            ),
        ensures
            best.1.rows() == mask@.len(),
    ;
}

/// A response with classes of type `T`, one for each row.
pub trait Response<T> {
    /// The classes, row by row.
    open spec fn responses(&self) -> Seq<T> {
        Seq::empty()
    }

    /// The number of rows of the mask whose prediction is not their class.
    fn pred_incorrect(&self, mask: &Mask, preds: &Predicted<T>) -> (wrong: u64)
        requires
            within(mask@, self.responses().len()),
        ensures
            wrong == mismatches(gathered(mask@, self.responses()), preds@),
    ;

    /// The share of the predictions that are not the class of their row,
    /// as the number of such predictions over the number of predictions.
    fn pred_error(&self, mask: &Mask, preds: &Predicted<T>) -> (share: (u64, usize))
        requires
            within(mask@, self.responses().len()),
        ensures
            share.0 == mismatches(gathered(mask@, self.responses()), preds@),
            share.1 == preds@.len(),
    ;

    /// The class of the rows of the mask, if they all have the same.
    fn get_class(&self, mask: &Mask) -> (class: Option<T>)
        requires
            mask@.len() > 0,
            within(mask@, self.responses().len()),
        ensures
            class == single_class(gathered(mask@, self.responses())),
    ;

    /// A class that no other class outnumbers on the rows of the mask.
    fn get_major_class(&self, mask: &Mask, rng: &mut Rng) -> (class: T)
        requires
            mask@.len() > 0,
            within(mask@, self.responses().len()),
        ensures
            is_major(gathered(mask@, self.responses()), class),
    ;

    fn as_vector(&self) -> (v: Vec<T>)
        ensures
            v@ == self.responses(),
    ;

    fn as_vector_ref(&self) -> (v: &Vec<T>)
        ensures
            v@ == self.responses(),
    ;

    fn len(&self) -> (n: usize)
        ensures
            n == self.responses().len(),
    ;
}

/// A split that names the column it splits on.
pub trait ColumnIdentifiable {
    type Col;

    /// The column of the split.
    open spec fn column(&self) -> Self::Col {
        arbitrary()
    }

    fn get_col_id(&self) -> (col: Self::Col)
        ensures
            col == self.column(),
    ;
}

/// A table of predictors in which a tree finds and applies its splits.
pub trait DataInterface<Y>: Sized {
    /// A column taken out of the table, such as a permuted copy.
    type InternalType;

    /// The number of rows of every column.
    open spec fn nrow(&self) -> nat {
        0
    }

    /// The number of columns.
    open spec fn ncol(&self) -> nat {
        0
    }

    /// Whether the table has the column.
    open spec fn knows(&self, col: SplitColId) -> bool {
        false
    }

    /// Whether `column` may stand in for a column of the table when a split
    /// is applied.
    open spec fn stands_in(&self, column: Self::InternalType) -> bool {
        false
    }

    /// Whether `column` is the column `col` with its values at `rows`
    /// shuffled by the generator that the factory has for tree `ith_tree`
    /// and this column.
    open spec fn is_permuted(
        &self,
        col: SplitColId,
        rng_factory: RngFactory,
        rows: Seq<usize>,
        ith_tree: usize,
        column: Self::InternalType,
    ) -> bool {
        false
    }

    /// Whether the split sends `row` to the first side, reading the column
    /// from `replaced` if one is given and from the table otherwise.
    open spec fn goes_left(
        &self,
        idx: ColSplitIndex,
        replaced: Option<Self::InternalType>,
        row: usize,
    ) -> bool {
        false
    }

    /// Whether `idx` is a split that a search among `mtry` candidates may
    /// give for the rows and their classes.
    open spec fn chooses(
        &self,
        rows: Seq<usize>,
        responses: Seq<Y>,
        mtry: usize,
        rng_factory: RngFactory,
        shadow_vars: bool,
        idx: ColSplitIndex,
    ) -> bool {
        false
    }

    /// Whether a search among `mtry` candidates is possible on `rows`.
    open spec fn searchable(
        &self,
        rows: Seq<usize>,
        mtry: usize,
        rng_factory: RngFactory,
        shadow_vars: bool,
    ) -> bool {
        false
    }

    /// Whether the column can be permuted on `rows` for tree `ith_tree`.
    open spec fn permutable(
        &self,
        col: SplitColId,
        rng_factory: RngFactory,
        rows: Seq<usize>,
        ith_tree: usize,
    ) -> bool {
        false
    }

    fn get_ncol(&self) -> (n: usize)
        ensures
            n == self.ncol(),
    ;

    /// The best split of the rows of the mask among `mtry` candidates,
    /// which are drawn with `rng`.
    fn find_min_idx<T: Response<Y>>(
        &self,
        mask: &Mask,
        y: &T,
        mtry: usize,
        rng: &mut Rng,
        rng_factory: &RngFactory,
        shadow_vars: bool,
    ) -> (idx: ColSplitIndex)
        requires
            mask@.len() > 0,
            within(mask@, self.nrow()),
            y.responses().len() == self.nrow(),
            self.searchable(mask@, mtry, *rng_factory, shadow_vars),
        ensures
            self.knows(idx.column()),
            self.chooses(mask@, y.responses(), mtry, *rng_factory, shadow_vars, idx),
    ;

    /// The rows of the mask that the split sends to the first side, and
    /// those that it sends to the second, both in the order of the mask.
    fn make_split(
        &self,
        idx: ColSplitIndex,
        mask: &Mask,
        rng_factory: &RngFactory,
        permuted_vec: Option<&Self::InternalType>,
    ) -> (sides: [Mask; 2])
        requires
            within(mask@, self.nrow()),
            match permuted_vec {
                Some(column) => self.stands_in(*column),
                None => self.knows(idx.column()),
            },
        ensures
            sides[0]@ == mask@.filter(
                |row: usize| self.goes_left(idx, owned(permuted_vec), row),
            ),
            sides[1]@ == mask@.filter(
                |row: usize| !self.goes_left(idx, owned(permuted_vec), row),
            ),
    ;

    /// The column with its values at the rows of the mask shuffled, by the
    /// generator that the factory has for the tree and the column.
    fn permute_index(
        &self,
        col: SplitColId,
        rng_factory: &RngFactory,
        oob_mask: &Mask,
        ith_tree: usize,
    ) -> (column: Self::InternalType)
        requires
            self.knows(col),
            self.permutable(col, *rng_factory, oob_mask@, ith_tree),
            within(oob_mask@, self.nrow()),
        ensures
            self.stands_in(column),
            self.is_permuted(col, *rng_factory, oob_mask@, ith_tree, column),
    ;
}

/// The value behind an optional reference.
pub open spec fn owned<C>(column: Option<&C>) -> Option<C> {
    match column {
        Some(c) => Some(*c),
        None => None,
    }
}

/// The rows that a split sends to the left, in their order.
pub open spec fn left_rows<Y, D: DataInterface<Y>>(
    df: &D,
    idx: ColSplitIndex,
    replaced: Option<D::InternalType>,
    rows: Seq<usize>,
) -> Seq<usize> {
    rows.filter(|row: usize| df.goes_left(idx, replaced, row))
}

/// The rows that a split sends to the right, in their order.
pub open spec fn right_rows<Y, D: DataInterface<Y>>(
    df: &D,
    idx: ColSplitIndex,
    replaced: Option<D::InternalType>,
    rows: Seq<usize>,
) -> Seq<usize> {
    rows.filter(|row: usize| !df.goes_left(idx, replaced, row))
}

/// Two tests that agree on every value of a sequence keep the same values.
pub proof fn lemma_filter_agree<T>(s: Seq<T>, p: spec_fn(T) -> bool, q: spec_fn(T) -> bool)
    requires
        forall|k: int| 0 <= k < s.len() ==> p(s[k]) == q(s[k]),
    ensures
        s.filter(p) == s.filter(q),
    decreases s.len(),
{
    reveal(Seq::filter);
    if s.len() > 0 {
        assert forall|k: int| 0 <= k < s.drop_last().len() implies p(s.drop_last()[k]) == q(
            s.drop_last()[k],
        ) by {
            assert(s.drop_last()[k] == s[k]);
        }
        lemma_filter_agree(s.drop_last(), p, q);
    }
}

/// A table that can be cut down to some of its columns and extended by
/// shadows of its columns. Split-ids name the columns throughout.
pub trait Shadowable: Sized {
    /// The split-ids of the columns, in the order of the columns.
    open spec fn col_ids(&self) -> Seq<SplitColId> {
        Seq::empty()
    }

    /// Whether the table has a column for every one of the split-ids.
    open spec fn has_all(&self, idxs: Seq<SplitColId>) -> bool {
        false
    }

    /// Whether shadows can be added with the generators of the factory.
    open spec fn shadowable(&self, rng_factory: RngFactory) -> bool {
        false
    }

    /// The table of the columns that `idxs` names, in that order and under
    /// the same split-ids.
    fn subset(&self, idxs: &Vec<SplitColId>) -> (sub: Self)
        requires
            self.has_all(idxs@),
        ensures
            ids_of(sub.col_ids()) == ids_of(idxs@),
    ;

    /// Appends shadows. The columns that were there keep their split-ids,
    /// and split-ids that were distinct stay so.
    fn add_shadows(&mut self, rng_factory: RngFactory)
        requires
            old(self).shadowable(rng_factory),
        ensures
            old(self).col_ids().is_prefix_of(final(self).col_ids()),
            old(self).col_ids().no_duplicates() ==> final(self).col_ids().no_duplicates(),
    ;

    fn get_col_ids(&self) -> (ids: Vec<SplitColId>)
        ensures
            ids@ == self.col_ids(),
    ;
}

} // verus!
