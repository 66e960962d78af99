//! A table together with the sampler that draws the candidate columns of
//! a split: what a tree grows on.

use crate::data_interface::multi_x::{views, ColSplitIndex, MultiX, SplitColId, XDf, XDfView};
use crate::data_interface::three_val::{
    complete, permuted_values, sent_first, ThreeValOpt,
};
use crate::data_interface::y_bool::Y;
use crate::data_interface::{
    lemma_filter_agree, owned, ColumnIdentifiable, DataInterface, Response,
};
use crate::gini::{first_min, MAX_ROWS};
use crate::mask::Mask;
use crate::random_number_generator::factory::{RngFactory, Stream};
use crate::random_number_generator::{is_sample, Reservoir, Rng};
use crate::tree::{classify, predictions, read_from, splits_on, Node};
use vstd::prelude::*;

verus! {

/// A table and the sampler that draws the candidate columns of a split.
pub struct Frame<S, F> {
    table: XDf,
    reservoir: Reservoir<S, F>,
}

/// What an optional column holds.
pub open spec fn held(column: Option<MultiX>) -> Option<Seq<ThreeValOpt>> {
    match column {
        Some(c) => Some(c@),
        None => None,
    }
}

impl<S: Fn(u64, u64) -> usize, F: Fn(u64, u64, usize) -> u64> Frame<S, F> {
    /// The table.
    pub closed spec fn view(&self) -> XDfView {
        self.table@
    }

    /// Whether the table is well formed and the sampler can be used.
    pub closed spec fn wf(&self) -> bool {
        self.table.wf() && self.reservoir.ready()
    }

    /// The number of candidates that a search draws from: the number of
    /// columns, and twice that with shadow probes.
    pub open spec fn range(&self, shadow_vars: bool) -> nat {
        if shadow_vars {
            2 * self.view().columns.len()
        } else {
            self.view().columns.len()
        }
    }

    pub fn new(table: XDf, reservoir: Reservoir<S, F>) -> (frame: Frame<S, F>)
        requires
            table.wf(),
            reservoir.ready(),
        ensures
            frame.wf(),
            frame.view() == table@,
    {
        Frame { table, reservoir }
    }

    /// The table.
    pub fn table(&self) -> (table: &XDf)
        ensures
            table@ == self.view(),
            self.wf() ==> table.wf(),
    {
        &self.table
    }
}

impl<S: Fn(u64, u64) -> usize, F: Fn(u64, u64, usize) -> u64> DataInterface<Y> for Frame<S, F> {
    type InternalType = MultiX;

    open spec fn nrow(&self) -> nat {
        self.view().nrow()
    }

    open spec fn ncol(&self) -> nat {
        self.view().columns.len()
    }

    open spec fn knows(&self, col: SplitColId) -> bool {
        self.wf() && self.view().has(col.col_id)
    }

    open spec fn stands_in(&self, column: MultiX) -> bool {
        complete(column@) && column@.len() == self.view().nrow()
    }

    open spec fn is_permuted(
        &self,
        col: SplitColId,
        rng_factory: RngFactory,
        rows: Seq<usize>,
        ith_tree: usize,
        column: MultiX,
    ) -> bool {
        column@ == permuted_values(
            self.view().column_of(col.col_id),
            rng_factory@.start(Stream::Permutation { tree: ith_tree as nat, col: col.col_id as nat }),
            rows,
        )
    }

    open spec fn goes_left(&self, idx: ColSplitIndex, replaced: Option<MultiX>, row: usize) -> bool {
        sent_first(self.view().read(idx.col_id, held(replaced)), idx.pivot.three(), row)
    }

    open spec fn chooses(
        &self,
        rows: Seq<usize>,
        responses: Seq<Y>,
        mtry: usize,
        rng_factory: RngFactory,
        shadow_vars: bool,
        idx: ColSplitIndex,
    ) -> bool {
        exists|candidates: Seq<usize>|
            #[trigger] is_sample(candidates, self.range(shadow_vars), mtry as nat) && idx
                == self.view().probe_split(
                candidates[first_min(
                    self.view().probe_costs(candidates, rng_factory@, rows, responses),
                    candidates.len(),
                )],
                rng_factory@,
                rows,
                responses,
            )
    }

    open spec fn searchable(
        &self,
        rows: Seq<usize>,
        mtry: usize,
        rng_factory: RngFactory,
        shadow_vars: bool,
    ) -> bool {
        &&& self.wf()
        &&& 1 <= mtry <= self.range(shadow_vars) <= usize::MAX
        &&& mtry <= u32::MAX
        &&& rows.len() <= MAX_ROWS
        &&& (shadow_vars ==> self.view().nrow() <= u32::MAX)
    }

    open spec fn permutable(
        &self,
        col: SplitColId,
        rng_factory: RngFactory,
        rows: Seq<usize>,
        ith_tree: usize,
    ) -> bool {
        &&& rows.len() <= u32::MAX
        &&& rng_factory@.serves(
            Stream::Permutation { tree: ith_tree as nat, col: col.col_id as nat },
        )
    }

    fn get_ncol(&self) -> (n: usize) {
        self.table.get_ncol()
    }

    /// Draws `mtry` candidates, from the columns or, with shadow probes,
    /// from the columns and their shadows, and gives the best split among
    /// them: the best pivot of the cheapest candidate, and of candidates
    /// that cost the same the one that was drawn first.
    fn find_min_idx<T: Response<Y>>(
        &self,
        mask: &Mask,
        y: &T,
        mtry: usize,
        rng: &mut Rng,
        rng_factory: &RngFactory,
        shadow_vars: bool,
    ) -> (idx: ColSplitIndex) {
        let ncol = self.table.get_ncol();
        let range = if shadow_vars {
            ncol * 2
        } else {
            ncol
        };
        let candidates = self.reservoir.draw(rng, range, mtry);
        assert(is_sample(candidates@, self.range(shadow_vars), mtry as nat));
        self.table.find_min_among(&candidates, mask, y, rng_factory)
    }

    fn make_split(
        &self,
        idx: ColSplitIndex,
        mask: &Mask,
        rng_factory: &RngFactory,
        permuted_vec: Option<&MultiX>,
    ) -> (sides: [Mask; 2]) {
        let sides = self.table.make_split(idx, mask, rng_factory, permuted_vec);
        proof {
            assert(held(owned(permuted_vec)) == views(permuted_vec));
            lemma_filter_agree(
                mask@,
                |row: usize| self.goes_left(idx, owned(permuted_vec), row),
                |row: usize|
                    sent_first(
                        self.table@.read(idx.col_id, views(permuted_vec)),
                        idx.pivot.three(),
                        row,
                    ),
            );
            lemma_filter_agree(
                mask@,
                |row: usize| !self.goes_left(idx, owned(permuted_vec), row),
                |row: usize|
                    !sent_first(
                        self.table@.read(idx.col_id, views(permuted_vec)),
                        idx.pivot.three(),
                        row,
                    ),
            );
        }
        sides
    }

    fn permute_index(
        &self,
        col: SplitColId,
        rng_factory: &RngFactory,
        oob_mask: &Mask,
        ith_tree: usize,
    ) -> (column: MultiX) {
        self.table.permute_index(col, rng_factory, oob_mask, ith_tree)
    }
}

/// The table with the values of the column with split-id `id` replaced.
pub open spec fn with_column(table: XDfView, id: usize, values: Seq<ThreeValOpt>) -> XDfView {
    XDfView {
        columns: table.columns.update(table.index_of[id as int] as int, values),
        ids: table.ids,
        index_of: table.index_of,
    }
}

/// Predicting with a column replaced is predicting on the table in which
/// the column is replaced: a tree whose splits are on columns of the
/// table, those on the replaced column under the name `col`, gives a row
/// the same class either way.
pub proof fn lemma_replaced_is_table_replaced<S, F>(
    nodes: Seq<Node<Y>>,
    at: int,
    given: &Frame<S, F>,
    changed: &Frame<S, F>,
    col: SplitColId,
    column: MultiX,
    row: usize,
) where S: Fn(u64, u64) -> usize, F: Fn(u64, u64, usize) -> u64
    requires
        given.view().wf(),
        given.view().has(col.col_id),
        changed.view() == with_column(given.view(), col.col_id, column@),
        forall|w: int, c: SplitColId|
            0 <= w < nodes.len() && #[trigger] splits_on(nodes, w, c) ==> given.view().has(c.col_id)
                && (c.col_id == col.col_id ==> c == col),
    ensures
        classify(nodes, at, given, Some(col), Some(column), row) == classify(
            nodes,
            at,
            changed,
            None,
            None,
            row,
        ),
    decreases at,
{
    if 0 <= at < nodes.len() {
        if let Node::Sp(s) = nodes[at] {
            if s.l_child_idx < at && s.r_child_idx < at {
                let c = s.split_index.column();
                assert(splits_on(nodes, at, c));
                given.view().lemma_resolves(c.col_id);
                given.view().lemma_resolves(col.col_id);
                let read = read_from(s, Some(col), Some(column));
                assert(given.view().read(s.split_index.col_id, held(read)) == changed.view().read(
                    s.split_index.col_id,
                    held(None),
                ));
                lemma_replaced_is_table_replaced(
                    nodes,
                    s.l_child_idx as int,
                    given,
                    changed,
                    col,
                    column,
                    row,
                );
                lemma_replaced_is_table_replaced(
                    nodes,
                    s.r_child_idx as int,
                    given,
                    changed,
                    col,
                    column,
                    row,
                );
            }
        }
    }
}

/// The predictions with a column replaced are the predictions on the
/// table in which the column is replaced. Since a prediction with a
/// permuted column that reads the caches gives the former
/// ([`crate::tree::Tree::predict`]), it gives what walking the whole tree
/// on the permuted table gives.
pub proof fn lemma_predictions_replaced<S, F>(
    nodes: Seq<Node<Y>>,
    given: &Frame<S, F>,
    changed: &Frame<S, F>,
    col: SplitColId,
    column: MultiX,
    rows: Seq<usize>,
) where S: Fn(u64, u64) -> usize, F: Fn(u64, u64, usize) -> u64
    requires
        given.view().wf(),
        given.view().has(col.col_id),
        changed.view() == with_column(given.view(), col.col_id, column@),
        forall|w: int, c: SplitColId|
            0 <= w < nodes.len() && #[trigger] splits_on(nodes, w, c) ==> given.view().has(c.col_id)
                && (c.col_id == col.col_id ==> c == col),
    ensures
        predictions(nodes, given, Some(col), Some(column), rows) == predictions(
            nodes,
            changed,
            None,
            None,
            rows,
        ),
{
    assert forall|k: int| 0 <= k < rows.len() implies classify(
        nodes,
        nodes.len() - 1,
        given,
        Some(col),
        Some(column),
        rows[k],
    ) == classify(nodes, nodes.len() - 1, changed, None, None, rows[k]) by {
        lemma_replaced_is_table_replaced(
            nodes,
            nodes.len() - 1,
            given,
            changed,
            col,
            column,
            rows[k],
        );
    }
    assert(predictions(nodes, given, Some(col), Some(column), rows) =~= predictions(
        nodes,
        changed,
        None,
        None,
        rows,
    ));
}

} // verus!
