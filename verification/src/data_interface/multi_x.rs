//! A table of predictor columns. Every column has a split-id, which it
//! keeps when the table is cut down to some columns or extended by shadows.

use crate::data_interface::three_val::{
    complete, lemma_permuted_shape, optimal_pivot, permuted_values, probed, sent_first, state_of,
    ThreeValCol, ThreeValOpt, ThreeValPivot,
};
use crate::data_interface::y_bool::Y;
use crate::data_interface::{ColumnIdentifiable, Permutable, Response, Shadowable, Splittable};
use crate::gini::x_threeval_y_bool::{lemma_pivot_cost_den, pivot_cost};
use crate::gini::{first_min, GiniScore, MAX_ROWS};
use crate::mask::{gathered, within, Mask};
use crate::random_number_generator::factory::{FactoryView, RngFactory, Stream};
use crate::random_number_generator::{Rng, RngState};
use vstd::prelude::*;

verus! {

/// A column of one of the kinds of predictors.
#[derive(Debug, PartialEq, Eq)]
pub enum MultiX {
    ThreeVal(ThreeValCol),
}

/// A pivot on a column of one of the kinds of predictors.
#[derive(PartialEq, Eq, Copy, Clone, Debug, Structural)]
pub enum MultiPivot {
    ThreeVal(ThreeValPivot),
}

/// A split: the split-id of a column and a pivot on its values. The flag
/// `shadow` is a note for the caller and changes nothing.
#[derive(Copy, Clone, Debug, PartialEq, Eq, Structural)]
pub struct ColSplitIndex {
    pub col_id: usize,
    pub pivot: MultiPivot,
    pub shadow: bool,
}

/// The name of a column: its split-id, and a note for the caller.
#[derive(Hash, PartialEq, Eq, Copy, Clone, Debug, Structural)]
pub struct SplitColId {
    pub col_id: usize,
    pub shadow: bool,
}

impl ColumnIdentifiable for ColSplitIndex {
    type Col = SplitColId;

    open spec fn column(&self) -> SplitColId {
        SplitColId { col_id: self.col_id, shadow: self.shadow }
    }

    fn get_col_id(&self) -> (col: SplitColId) {
        SplitColId { col_id: self.col_id, shadow: self.shadow }
    }
}

impl View for MultiX {
    type V = Seq<ThreeValOpt>;

    open spec fn view(&self) -> Seq<ThreeValOpt> {
        match self {
            MultiX::ThreeVal(x) => x@,
        }
    }
}

impl Clone for MultiX {
    fn clone(&self) -> (col: MultiX)
        ensures
            col@ == self@,
    {
        match self {
            MultiX::ThreeVal(x) => MultiX::ThreeVal(x.clone()),
        }
    }
}

impl MultiPivot {
    /// The pivot on three values that this pivot is.
    pub open spec fn three(self) -> ThreeValPivot {
        match self {
            MultiPivot::ThreeVal(p) => p,
        }
    }
}

impl Permutable for MultiX {
    open spec fn covers(&self, rows: Seq<usize>) -> bool {
        within(rows, self@.len()) && rows.len() <= u32::MAX
    }

    open spec fn permuted(&self, rng: RngState, rows: Seq<usize>) -> Seq<ThreeValOpt> {
        permuted_values(self@, rng, rows)
    }

    fn permute(&self, perm_rng: Rng, oob_mask: &Mask) -> (shuffled: MultiX) {
        match self {
            MultiX::ThreeVal(x) => MultiX::ThreeVal(x.permute(perm_rng, oob_mask)),
        }
    }
}

impl MultiX {
    pub fn len(&self) -> (n: usize)
        ensures
            n == self@.len(),
    {
        match self {
            MultiX::ThreeVal(x) => x.len(),
        }
    }

    /// Whether no value is absent.
    pub fn is_complete(&self) -> (ok: bool)
        ensures
            ok == complete(self@),
    {
        match self {
            MultiX::ThreeVal(x) => x.is_complete(),
        }
    }

    /// Whether the two columns hold the same values.
    pub fn same_values(&self, other: &MultiX) -> (same: bool)
        ensures
            same == (self@ == other@),
    {
        match (self, other) {
            (MultiX::ThreeVal(x), MultiX::ThreeVal(y)) => x.same_values(y),
        }
    }
}

impl Splittable<Y> for MultiX {
    type Pivot = MultiPivot;

    open spec fn splits(&self, rows: Seq<usize>) -> bool {
        within(rows, self@.len()) && complete(self@)
    }

    open spec fn sends_first(&self, p: MultiPivot, row: usize) -> bool {
        sent_first(self@, p.three(), row)
    }

    open spec fn searches(&self, rows: Seq<usize>, nresp: nat, shadow_rng: Option<RngState>) -> bool {
        &&& 0 < rows.len() <= MAX_ROWS
        &&& within(rows, self@.len())
        &&& within(rows, nresp)
        &&& complete(self@)
        &&& (shadow_rng is Some ==> self@.len() <= u32::MAX)
    }

    fn split_with_pivot(&self, mask: &Mask, p: &MultiPivot, shadow_rng: Option<Rng>) -> (sides: [Mask; 2])
        ensures
            sides[0]@ == mask@.filter(|row: usize| sent_first(self@, p.three(), row)),
            sides[1]@ == mask@.filter(|row: usize| !sent_first(self@, p.three(), row)),
    {
        proof {
            crate::data_interface::lemma_filter_agree(
                mask@,
                |row: usize| sent_first(self@, p.three(), row),
                |row: usize| self.sends_first(*p, row),
            );
            crate::data_interface::lemma_filter_agree(
                mask@,
                |row: usize| !sent_first(self@, p.three(), row),
                |row: usize| !self.sends_first(*p, row),
            );
        }
        match (self, p) {
            (MultiX::ThreeVal(x), MultiPivot::ThreeVal(p)) => x.split_with_pivot(
                mask,
                p,
                shadow_rng,
            ),
        }
    }

    fn gen_optimal_pivot<T: Response<Y>>(
        &self,
        mask: &Mask,
        y: &T,
        perm_seed_shadow: Option<Rng>,
    ) -> (best: (MultiPivot, GiniScore))
        ensures
            best.0.three() == optimal_pivot(
                gathered(mask@, probed(self@, state_of(perm_seed_shadow))),
                gathered(mask@, y.responses()),
            ),
            best.1@ == pivot_cost(
                gathered(mask@, probed(self@, state_of(perm_seed_shadow))),
                gathered(mask@, y.responses()),
                best.0.three(),
                mask@.len() as int,
            ),
    {
        match self {
            MultiX::ThreeVal(x) => {
                let (piv, score) = x.gen_optimal_pivot(mask, y, perm_seed_shadow);
                (MultiPivot::ThreeVal(piv), score)
            },
        }
    }
}

/// The mathematical content of a table.
pub struct XDfView {
    /// The columns, in their order.
    pub columns: Seq<Seq<ThreeValOpt>>,
    /// The split-id of every column.
    pub ids: Seq<usize>,
    /// For every split-id that was ever given, the place of a column.
    pub index_of: Seq<usize>,
}

impl XDfView {
    /// The number of rows: that of the first column.
    pub open spec fn nrow(self) -> nat {
        if self.columns.len() > 0 {
            self.columns[0].len()
        } else {
            0
        }
    }

    /// Whether `id` is the split-id of a column of the table.
    pub open spec fn has(self, id: usize) -> bool {
        self.ids.contains(id)
    }

    /// The column with split-id `id`.
    pub open spec fn column_of(self, id: usize) -> Seq<ThreeValOpt> {
        self.columns[self.index_of[id as int] as int]
    }

    /// Every column has one split-id, all columns have as many rows and no
    /// absent value, and the split-id of a column leads, through
    /// `index_of`, to a column with that split-id and the same values.
    pub open spec fn wf(self) -> bool {
        &&& self.columns.len() == self.ids.len()
        &&& forall|i: int|
            0 <= i < self.columns.len() ==> (#[trigger] self.columns[i]).len() == self.nrow()
                && complete(self.columns[i])
        &&& forall|i: int|
            0 <= i < self.ids.len() ==> {
                let id = #[trigger] self.ids[i];
                &&& id < self.index_of.len()
                &&& self.index_of[id as int] < self.columns.len()
                &&& self.ids[self.index_of[id as int] as int] == id
                &&& self.columns[self.index_of[id as int] as int] == self.columns[i]
            }
    }

    /// The table of the columns that `ids` names, in that order, under
    /// their split-ids.
    pub open spec fn subset(self, ids: Seq<usize>) -> XDfView {
        XDfView {
            columns: Seq::new(ids.len(), |k: int| self.column_of(ids[k])),
            ids,
            index_of: relocated(self.index_of, ids, ids.len()),
        }
    }
}

/// `index_of` with every one of the first `upto` of `ids` led to its place
/// in `ids`.
pub open spec fn relocated(index_of: Seq<usize>, ids: Seq<usize>, upto: nat) -> Seq<usize>
    decreases upto,
{
    if upto == 0 {
        index_of
    } else {
        let before = relocated(index_of, ids, (upto - 1) as nat);
        if upto <= ids.len() && ids[upto - 1] < index_of.len() {
            before.update(ids[upto - 1] as int, (upto - 1) as usize)
        } else {
            before
        }
    }
}

/// Relocation keeps the length, and leads every relocated id to a place
/// that holds this id.
pub proof fn lemma_relocated(index_of: Seq<usize>, ids: Seq<usize>, upto: nat)
    requires
        upto <= ids.len() <= usize::MAX,
        forall|k: int| 0 <= k < ids.len() ==> ids[k] < index_of.len(),
    ensures
        relocated(index_of, ids, upto).len() == index_of.len(),
        forall|k: int|
            0 <= k < upto ==> {
                let at = #[trigger] relocated(index_of, ids, upto)[ids[k] as int];
                at < upto && ids[at as int] == ids[k]
            },
    decreases upto,
{
    if upto > 0 {
        lemma_relocated(index_of, ids, (upto - 1) as nat);
        let before = relocated(index_of, ids, (upto - 1) as nat);
        let now = relocated(index_of, ids, upto);
        assert(now == before.update(ids[upto - 1] as int, (upto - 1) as usize));
        assert forall|k: int| 0 <= k < upto implies {
            let at = #[trigger] now[ids[k] as int];
            at < upto && ids[at as int] == ids[k]
        } by {
            if ids[k] != ids[upto - 1] {
                assert(now[ids[k] as int] == before[ids[k] as int]);
            }
        }
    }
}

/// The split-ids that a sequence of column names holds.
pub open spec fn ids_of(names: Seq<SplitColId>) -> Seq<usize> {
    Seq::new(names.len(), |k: int| names[k].col_id)
}

/// The column names of a sequence of split-ids, none marked as a shadow.
pub open spec fn names_of(ids: Seq<usize>) -> Seq<SplitColId> {
    Seq::new(ids.len(), |k: int| SplitColId { col_id: ids[k], shadow: false })
}

/// A table: columns of as many rows, each under a split-id.
#[derive(Debug, PartialEq, Eq)]
pub struct XDf {
    data: Vec<MultiX>,
    idx_to_splitid_map: Vec<usize>,
    splitid_to_idx_map: Vec<usize>,
}

impl View for XDf {
    type V = XDfView;

    closed spec fn view(&self) -> XDfView {
        XDfView {
            columns: Seq::new(self.data@.len(), |i: int| self.data@[i]@),
            ids: self.idx_to_splitid_map@,
            index_of: self.splitid_to_idx_map@,
        }
    }
}

impl XDf {
    /// Whether the table is well formed.
    pub open spec fn wf(&self) -> bool {
        self@.wf()
    }

    /// The table of the given columns; column `i` gets the split-id `i`.
    pub fn new(cols: Vec<MultiX>) -> (df: XDf)
        requires
            forall|i: int|
                0 <= i < cols@.len() ==> (#[trigger] cols@[i])@.len() == cols@[0]@.len()
                    && complete(cols@[i]@),
        ensures
            df.wf(),
            df@.columns == Seq::new(cols@.len(), |i: int| cols@[i]@),
            df@.ids == Seq::new(cols@.len(), |i: int| i as usize),
            df@.index_of == Seq::new(cols@.len(), |i: int| i as usize),
    {
        let n = cols.len();
        let mut forth: Vec<usize> = Vec::with_capacity(n);
        let mut back: Vec<usize> = Vec::with_capacity(n);
        let mut i: usize = 0;
        while i < n
            invariant
                i <= n,
                forth@ == Seq::new(i as nat, |k: int| k as usize),
                back@ == Seq::new(i as nat, |k: int| k as usize),
            decreases n - i,
        {
            forth.push(i);
            back.push(i);
            i = i + 1;
            assert(forth@ =~= Seq::new(i as nat, |k: int| k as usize));
            assert(back@ =~= Seq::new(i as nat, |k: int| k as usize));
        }
        let df = XDf { data: cols, idx_to_splitid_map: forth, splitid_to_idx_map: back };
        assert(df@.columns =~= Seq::new(cols@.len(), |i: int| cols@[i]@));
        df
    }

    fn get_col(&self, col: usize) -> (column: &MultiX)
        requires
            col < self@.columns.len(),
        ensures
            column@ == self@.columns[col as int],
    {
        &self.data[col]
    }

    fn idx_to_splitid(&self, idx: usize) -> (id: usize)
        requires
            idx < self@.ids.len(),
        ensures
            id == self@.ids[idx as int],
    {
        self.idx_to_splitid_map[idx]
    }

    fn splitid_to_idx(&self, splitid: usize) -> (idx: usize)
        requires
            splitid < self@.index_of.len(),
        ensures
            idx == self@.index_of[splitid as int],
    {
        self.splitid_to_idx_map[splitid]
    }

    /// Whether the table is well formed: whether it can be used.
    pub fn is_wf(&self) -> (ok: bool)
        ensures
            ok == self.wf(),
    {
        let ncol = self.data.len();
        if self.idx_to_splitid_map.len() != ncol {
            return false;
        }
        if ncol == 0 {
            return true;
        }
        let nrow = self.data[0].len();
        assert(self@.columns[0] == self.data@[0]@);
        let mut i: usize = 0;
        while i < ncol
            invariant
                i <= ncol,
                ncol == self.data@.len(),
                ncol == self@.columns.len(),
                ncol == self@.ids.len(),
                ncol > 0,
                nrow == self@.nrow(),
                forall|j: int|
                    0 <= j < i ==> (#[trigger] self@.columns[j]).len() == self@.nrow() && complete(
                        self@.columns[j],
                    ),
                forall|j: int|
                    0 <= j < i ==> {
                        let id = #[trigger] self@.ids[j];
                        &&& id < self@.index_of.len()
                        &&& self@.index_of[id as int] < self@.columns.len()
                        &&& self@.ids[self@.index_of[id as int] as int] == id
                        &&& self@.columns[self@.index_of[id as int] as int] == self@.columns[j]
                    },
            decreases ncol - i,
        {
            assert(self@.columns[i as int] == self.data@[i as int]@);
            if self.data[i].len() != nrow || !self.data[i].is_complete() {
                return false;
            }
            let id = self.idx_to_splitid_map[i];
            if id >= self.splitid_to_idx_map.len() {
                return false;
            }
            let at = self.splitid_to_idx_map[id];
            if at >= ncol || self.idx_to_splitid_map[at] != id {
                return false;
            }
            assert(self@.columns[at as int] == self.data@[at as int]@);
            if at != i && !self.data[at].same_values(&self.data[i]) {
                return false;
            }
            i = i + 1;
        }
        true
    }

    /// The columns, in their order.
    pub fn columns(&self) -> (cols: &Vec<MultiX>)
        ensures
            cols@.len() == self@.columns.len(),
            forall|i: int| 0 <= i < cols@.len() ==> (#[trigger] cols@[i])@ == self@.columns[i],
    {
        &self.data
    }

    /// The split-id of every column, in the order of the columns.
    pub fn idx_to_splitid_map(&self) -> (ids: &Vec<usize>)
        ensures
            ids@ == self@.ids,
    {
        &self.idx_to_splitid_map
    }

    /// For every split-id that was ever given, the place of a column.
    pub fn splitid_to_idx_map(&self) -> (places: &Vec<usize>)
        ensures
            places@ == self@.index_of,
    {
        &self.splitid_to_idx_map
    }

    /// The number of columns.
    pub fn get_ncol(&self) -> (n: usize)
        ensures
            n == self@.columns.len(),
    {
        self.data.len()
    }

    /// The rows of the mask that the pivot of the split matches, and the
    /// rows whose value it names. The values are read from `permuted_vec`
    /// if one is given, and from the column of the split otherwise.
    pub fn make_split(
        &self,
        idx: ColSplitIndex,
        mask: &Mask,
        rng_factory: &RngFactory,
        permuted_vec: Option<&MultiX>,
    ) -> (sides: [Mask; 2])
        requires
            match permuted_vec {
                Some(column) => complete(column@) && within(mask@, column@.len()),
                None => self.wf() && self@.has(idx.col_id) && within(mask@, self@.nrow()),
            },
        ensures
            sides[0]@ == mask@.filter(
                |row: usize| sent_first(self@.read(idx.col_id, views(permuted_vec)), idx.pivot.three(), row),
            ),
            sides[1]@ == mask@.filter(
                |row: usize| !sent_first(self@.read(idx.col_id, views(permuted_vec)), idx.pivot.three(), row),
            ),
    {
        match permuted_vec {
            Some(x) => x.split_with_pivot(mask, &idx.pivot, None),
            None => {
                proof {
                    self@.lemma_resolves(idx.col_id);
                }
                let col = self.get_col(self.splitid_to_idx(idx.col_id));
                col.split_with_pivot(mask, &idx.pivot, None)
            },
        }
    }

    /// The column with split-id `col_id.col_id`, its values at the rows of
    /// the mask shuffled by the generator that the factory has for the tree
    /// and the column.
    pub fn permute_index(
        &self,
        col_id: SplitColId,
        rng_factory: &RngFactory,
        oob_mask: &Mask,
        ith_tree: usize,
    ) -> (column: MultiX)
        requires
            self.wf(),
            self@.has(col_id.col_id),
            within(oob_mask@, self@.nrow()),
            oob_mask@.len() <= u32::MAX,
            rng_factory@.serves(
                Stream::Permutation { tree: ith_tree as nat, col: col_id.col_id as nat },
            ),
        ensures
            column@ == permuted_values(
                self@.column_of(col_id.col_id),
                rng_factory@.start(
                    Stream::Permutation { tree: ith_tree as nat, col: col_id.col_id as nat },
                ),
                oob_mask@,
            ),
            column@.len() == self@.nrow(),
            complete(column@),
    {
        proof {
            self@.lemma_resolves(col_id.col_id);
            lemma_permuted_shape(
                self@.column_of(col_id.col_id),
                rng_factory@.start(
                    Stream::Permutation { tree: ith_tree as nat, col: col_id.col_id as nat },
                ),
                oob_mask@,
            );
        }
        let col = self.get_col(self.splitid_to_idx(col_id.col_id));
        let rng = rng_factory.new_rng_permutation(ith_tree, col_id.col_id);
        col.permute(rng, oob_mask)
    }
}

/// The number of shadows for a table of `ncol` columns: `ncol`, doubled
/// until it is five or more.
pub open spec fn shadow_count(ncol: nat) -> nat
    decreases
            (if ncol < 5 {
                5 - ncol
            } else {
                0
            }),
{
    if ncol == 0 || ncol >= 5 {
        ncol
    } else {
        shadow_count(ncol + ncol)
    }
}

/// The largest of the split-ids, and zero if there is none.
pub open spec fn max_id(ids: Seq<usize>) -> usize
    decreases ids.len(),
{
    if ids.len() == 0 {
        0
    } else if ids.last() > max_id(ids.drop_last()) {
        ids.last()
    } else {
        max_id(ids.drop_last())
    }
}

/// No split-id is above the largest.
pub proof fn lemma_max_id(ids: Seq<usize>)
    ensures
        forall|i: int| 0 <= i < ids.len() ==> ids[i] <= max_id(ids),
    decreases ids.len(),
{
    if ids.len() > 0 {
        lemma_max_id(ids.drop_last());
        assert forall|i: int| 0 <= i < ids.len() implies ids[i] <= max_id(ids) by {
            if i < ids.len() - 1 {
                assert(ids.drop_last()[i] == ids[i]);
            }
        }
    }
}

/// All the rows of a table with `nrow` rows, in order.
pub open spec fn all_rows(nrow: nat) -> Seq<usize> {
    Seq::new(nrow, |k: int| k as usize)
}

impl XDfView {
    /// The shadow that is appended as number `i`: column `i`, counted
    /// round the columns that the table has, with all its rows shuffled by
    /// the generator for the shadow `i`.
    #[verifier::opaque]
    pub open spec fn shadow(self, i: int, factory: FactoryView) -> Seq<ThreeValOpt> {
        permuted_values(
            self.columns[i % (self.columns.len() as int)],
            factory.start(Stream::Shadow { col: i as nat }),
            all_rows(self.nrow()),
        )
    }

    /// The table with its shadows appended. The shadows get the split-ids
    /// that follow the largest one of the table.
    pub open spec fn with_shadows(self, factory: FactoryView) -> XDfView {
        let count = shadow_count(self.columns.len());
        let top = max_id(self.ids);
        XDfView {
            columns: self.columns + Seq::new(count, |i: int| self.shadow(i, factory)),
            ids: self.ids + Seq::new(count, |i: int| (top + 1 + i) as usize),
            index_of: Seq::new(
                (top + count + 1) as nat,
                |id: int|
                    if id > top {
                        (self.columns.len() + (id - top - 1)) as usize
                    } else if id < self.index_of.len() {
                        self.index_of[id]
                    } else {
                        0
                    },
            ),
        }
    }

    /// What the shadow with number `i` is.
    pub proof fn lemma_shadow(self, i: int, factory: FactoryView)
        ensures
            self.shadow(i, factory) == permuted_values(
                self.columns[i % (self.columns.len() as int)],
                factory.start(Stream::Shadow { col: i as nat }),
                all_rows(self.nrow()),
            ),
    {
        reveal(XDfView::shadow);
    }

    /// A table whose parts are those of the table with shadows is the table
    /// with shadows. `base` is `index_of` cut or filled with zeros to its
    /// new length.
    pub proof fn lemma_assembled(self, factory: FactoryView, now: XDfView, base: Seq<usize>)
        requires
            self.columns.len() == self.ids.len(),
            max_id(self.ids) + shadow_count(self.columns.len()) + 1 <= usize::MAX,
            self.columns.len() + shadow_count(self.columns.len()) <= usize::MAX,
            now.columns.len() == self.columns.len() + shadow_count(self.columns.len()),
            forall|j: int|
                0 <= j < now.columns.len() ==> (#[trigger] now.columns[j]) == (if j
                    < self.columns.len() {
                    self.columns[j]
                } else {
                    self.shadow(j - self.columns.len(), factory)
                }),
            now.ids.len() == now.columns.len(),
            forall|j: int| 0 <= j < self.ids.len() ==> #[trigger] now.ids[j] == self.ids[j],
            forall|j: int|
                self.ids.len() <= j < now.ids.len() ==> #[trigger] now.ids[j] == max_id(self.ids)
                    + 1 + (j - self.ids.len()),
            base.len() == max_id(self.ids) + shadow_count(self.columns.len()) + 1,
            forall|id: int| self.index_of.len() <= id < base.len() ==> #[trigger] base[id] == 0,
            forall|id: int|
                0 <= id < self.index_of.len() && id < base.len() ==> #[trigger] base[id]
                    == self.index_of[id],
            now.index_of.len() == base.len(),
            forall|id: int|
                0 <= id <= max_id(self.ids) ==> #[trigger] now.index_of[id] == base[id],
            forall|id: int|
                max_id(self.ids) < id < now.index_of.len() ==> #[trigger] now.index_of[id]
                    == self.columns.len() + (id - max_id(self.ids) - 1),
        ensures
            now == self.with_shadows(factory),
    {
        let after = self.with_shadows(factory);
        assert(now.columns =~= after.columns);
        assert(now.ids =~= after.ids);
        assert(now.index_of =~= after.index_of);
    }

    /// Whether shadows can be appended: there is a column, the rows can be
    /// shuffled, and the new split-ids and places fit the machine word.
    pub open spec fn can_shadow(self) -> bool {
        &&& self.wf()
        &&& self.columns.len() > 0
        &&& self.nrow() <= u32::MAX
        &&& max_id(self.ids) + shadow_count(self.columns.len()) + 1 <= usize::MAX
        &&& self.columns.len() + shadow_count(self.columns.len()) <= usize::MAX
    }

    /// A table with its shadows is well formed, begins with the columns
    /// and split-ids that it had, and has distinct split-ids if it had.
    pub proof fn lemma_with_shadows(self, factory: FactoryView)
        requires
            self.can_shadow(),
        ensures
            self.with_shadows(factory).wf(),
            self.with_shadows(factory).nrow() == self.nrow(),
            self.ids.is_prefix_of(self.with_shadows(factory).ids),
            self.columns.is_prefix_of(self.with_shadows(factory).columns),
            self.ids.no_duplicates() ==> self.with_shadows(factory).ids.no_duplicates(),
            forall|i: int|
                self.ids.len() <= i < self.with_shadows(factory).ids.len() ==> self.with_shadows(
                    factory,
                ).ids[i] > max_id(self.ids),
    {
        let after = self.with_shadows(factory);
        let count = shadow_count(self.columns.len());
        let top = max_id(self.ids);
        let ncol = self.columns.len() as int;
        lemma_max_id(self.ids);
        assert(after.columns[0] == self.columns[0]);
        assert forall|i: int| 0 <= i < after.columns.len() implies (#[trigger] after.columns[i]).len()
            == after.nrow() && complete(after.columns[i]) by {
            if i >= ncol {
                let j = i - ncol;
                assert(after.columns[i] == self.shadow(j, factory));
                self.lemma_shadow(j, factory);
                assert(0 <= j % ncol < ncol) by (nonlinear_arith)
                    requires
                        j >= 0,
                        ncol > 0,
                ;
                let source = self.columns[j % ncol];
                assert(source.len() == self.nrow() && complete(source));
                lemma_permuted_shape(
                    source,
                    factory.start(Stream::Shadow { col: j as nat }),
                    all_rows(self.nrow()),
                );
            } else {
                assert(after.columns[i] == self.columns[i]);
            }
        }
        assert forall|i: int| 0 <= i < after.ids.len() implies {
            let id = #[trigger] after.ids[i];
            &&& id < after.index_of.len()
            &&& after.index_of[id as int] < after.columns.len()
            &&& after.ids[after.index_of[id as int] as int] == id
            &&& after.columns[after.index_of[id as int] as int] == after.columns[i]
        } by {
            if i < ncol {
                let id = self.ids[i];
                assert(after.ids[i] == id);
                assert(id <= top);
                let at = self.index_of[id as int] as int;
                assert(after.index_of[id as int] == self.index_of[id as int]);
                assert(after.ids[at] == self.ids[at]);
                assert(after.columns[at] == self.columns[at]);
                assert(after.columns[i] == self.columns[i]);
            } else {
                let j = i - ncol;
                let id = (top + 1 + j) as usize;
                assert(after.ids[i] == id);
                assert(after.index_of[id as int] == (ncol + j) as usize);
            }
        }
        if self.ids.no_duplicates() {
            assert forall|i: int, j: int|
                0 <= i < after.ids.len() && 0 <= j < after.ids.len() && i != j implies after.ids[i]
                != after.ids[j] by {
                if i < ncol {
                    assert(after.ids[i] == self.ids[i]);
                }
                if j < ncol {
                    assert(after.ids[j] == self.ids[j]);
                }
            }
        }
        assert forall|i: int| self.ids.len() <= i < after.ids.len() implies after.ids[i]
            > top by {}
    }

    /// Cutting a well-formed table down to columns that it has gives a
    /// well-formed table with as many rows.
    pub proof fn lemma_subset(self, ids: Seq<usize>)
        requires
            self.wf(),
            ids.len() <= usize::MAX,
            forall|k: int| 0 <= k < ids.len() ==> self.has(#[trigger] ids[k]),
        ensures
            self.subset(ids).wf(),
            ids.len() > 0 ==> self.subset(ids).nrow() == self.nrow(),
    {
        let sub = self.subset(ids);
        assert forall|k: int| 0 <= k < ids.len() implies ids[k] < self.index_of.len() by {
            self.lemma_resolves(ids[k]);
        }
        lemma_relocated(self.index_of, ids, ids.len());
        if ids.len() > 0 {
            self.lemma_resolves(ids[0]);
            assert(sub.columns[0] == self.column_of(ids[0]));
        }
        assert forall|i: int| 0 <= i < sub.columns.len() implies (#[trigger] sub.columns[i]).len()
            == sub.nrow() && complete(sub.columns[i]) by {
            self.lemma_resolves(ids[i]);
            assert(sub.columns[i] == self.column_of(ids[i]));
        }
        assert forall|i: int| 0 <= i < sub.ids.len() implies {
            let id = #[trigger] sub.ids[i];
            &&& id < sub.index_of.len()
            &&& sub.index_of[id as int] < sub.columns.len()
            &&& sub.ids[sub.index_of[id as int] as int] == id
            &&& sub.columns[sub.index_of[id as int] as int] == sub.columns[i]
        } by {
            let id = ids[i];
            let at = relocated(self.index_of, ids, ids.len())[ids[i] as int];
            assert(at < ids.len() && ids[at as int] == ids[i]);
            assert(sub.columns[at as int] == self.column_of(ids[at as int]));
            assert(sub.columns[i] == self.column_of(ids[i]));
        }
    }

    /// A table cut down to all its split-ids, in their order, has the same
    /// split-ids in the same order, and the same columns.
    pub proof fn lemma_subset_of_own_ids(self)
        requires
            self.wf(),
        ensures
            self.subset(self.ids).ids == self.ids,
            self.subset(self.ids).columns == self.columns,
    {
        assert(self.subset(self.ids).columns =~= self.columns);
    }
}

impl Shadowable for XDf {
    open spec fn col_ids(&self) -> Seq<SplitColId> {
        names_of(self@.ids)
    }

    open spec fn has_all(&self, idxs: Seq<SplitColId>) -> bool {
        self.wf() && forall|k: int| 0 <= k < idxs.len() ==> self@.has((#[trigger] idxs[k]).col_id)
    }

    open spec fn shadowable(&self, rng_factory: RngFactory) -> bool {
        self@.can_shadow()
    }

    fn subset(&self, split_ids: &Vec<SplitColId>) -> (sub: XDf)
        ensures
            sub@ == self@.subset(ids_of(split_ids@)),
            sub.wf(),
    {
        let ghost ids = ids_of(split_ids@);
        let n = split_ids.len();
        proof {
            assert(ids.len() == n);
            assert forall|k: int| 0 <= k < ids.len() implies self@.has(#[trigger] ids[k]) by {
                assert(self@.has(split_ids@[k].col_id));
            }
            assert forall|k: int| 0 <= k < ids.len() implies ids[k] < self@.index_of.len() by {
                self@.lemma_resolves(ids[k]);
            }
            self@.lemma_subset(ids);
        }
        let mut forth: Vec<usize> = Vec::with_capacity(n);
        let mut back: Vec<usize> = vstd::slice::slice_to_vec(self.splitid_to_idx_map.as_slice());
        let mut data: Vec<MultiX> = Vec::with_capacity(n);
        let mut k: usize = 0;
        while k < n
            invariant
                k <= n,
                n == split_ids@.len(),
                ids == ids_of(split_ids@),
                self.wf(),
                forall|j: int| 0 <= j < ids.len() ==> self@.has(#[trigger] ids[j]),
                forall|j: int| 0 <= j < ids.len() ==> ids[j] < self@.index_of.len(),
                self@.index_of == self.splitid_to_idx_map@,
                forth@ == ids.take(k as int),
                back@ == relocated(self@.index_of, ids, k as nat),
                back@.len() == self@.index_of.len(),
                data@.len() == k,
                forall|j: int| 0 <= j < k ==> (#[trigger] data@[j])@ == self@.column_of(ids[j]),
            decreases n - k,
        {
            let id = split_ids[k].col_id;
            assert(id == ids[k as int]);
            proof {
                self@.lemma_resolves(id);
                lemma_relocated(self@.index_of, ids, (k + 1) as nat);
            }
            forth.push(id);
            back[id] = k;
            data.push(self.get_col(self.splitid_to_idx(id)).clone());
            k = k + 1;
            assert(forth@ =~= ids.take(k as int));
        }
        assert(ids.take(n as int) =~= ids);
        let sub = XDf { data, idx_to_splitid_map: forth, splitid_to_idx_map: back };
        assert(sub@.columns =~= self@.subset(ids).columns);
        assert(ids_of(names_of(ids)) =~= ids);
        sub
    }

    fn add_shadows(&mut self, rng_factory: RngFactory)
        ensures
            final(self)@ == old(self)@.with_shadows(rng_factory@),
            final(self).wf(),
    {
        let ghost before = self@;
        let ghost count = shadow_count(before.columns.len());
        let ghost top = max_id(before.ids);
        let ncol = self.data.len();
        let nrow = self.data[0].len();
        assert(nrow == before.nrow()) by {
            assert(before.columns[0] == self.data@[0]@);
        }
        let mask = full_mask(nrow);
        let max_splitid = largest(&self.idx_to_splitid_map);
        let num_shadow = count_shadows(ncol);
        self.splitid_to_idx_map.resize(max_splitid + num_shadow + 1, 0);
        let ghost base = self.splitid_to_idx_map@;
        proof {
            assert forall|id: int|
                before.index_of.len() <= id < base.len() implies #[trigger] base[id] == 0 by {
                assert(vstd::pervasive::cloned::<usize>(0, base[id]));
            }
            assert forall|id: int|
                0 <= id < before.index_of.len() && id < base.len() implies #[trigger] base[id]
                == before.index_of[id] by {
                if base.len() > before.index_of.len() {
                    assert(base.subrange(0, before.index_of.len() as int)[id] == base[id]);
                }
            }
        }
        let mut i: usize = 0;
        while i < num_shadow
            invariant
                i <= num_shadow,
                num_shadow == count,
                max_splitid == top,
                top + count + 1 <= usize::MAX,
                ncol + count <= usize::MAX,
                ncol == before.columns.len(),
                ncol > 0,
                nrow == before.nrow(),
                nrow <= u32::MAX,
                mask@ == all_rows(nrow as nat),
                forall|j: int| 0 <= j < ncol ==> (#[trigger] before.columns[j]).len() == nrow,
                self.data@.len() == ncol + i,
                forall|j: int| 0 <= j < ncol ==> (#[trigger] self.data@[j])@ == before.columns[j],
                forall|j: int|
                    ncol <= j < ncol + i ==> (#[trigger] self.data@[j])@ == before.shadow(
                        j - ncol,
                        rng_factory@,
                    ),
                self.idx_to_splitid_map@.len() == ncol + i,
                forall|j: int|
                    0 <= j < ncol ==> #[trigger] self.idx_to_splitid_map@[j] == before.ids[j],
                forall|j: int|
                    ncol <= j < ncol + i ==> #[trigger] self.idx_to_splitid_map@[j] == top + 1 + (j
                        - ncol),
                self.splitid_to_idx_map@.len() == top + count + 1,
                forall|id: int| 0 <= id <= top ==> #[trigger] self.splitid_to_idx_map@[id] == base[id],
                forall|id: int|
                    top < id <= top + i ==> #[trigger] self.splitid_to_idx_map@[id] == ncol + (id
                        - top - 1),
            decreases num_shadow - i,
        {
            let rng = rng_factory.new_rng_shadow(i);
            let source = i % ncol;
            assert(self.data@[source as int]@ == before.columns[source as int]);
            let shadow = self.data[source].permute(rng, &mask);
            proof {
                before.lemma_shadow(i as int, rng_factory@);
            }
            self.data.push(shadow);
            self.idx_to_splitid_map.push(max_splitid + i + 1);
            let place = self.idx_to_splitid_map.len() - 1;
            self.splitid_to_idx_map[max_splitid + i + 1] = place;
            i = i + 1;
        }
        proof {
            assert forall|j: int| 0 <= j < ncol + count implies (#[trigger] self@.columns[j]) == (
            if j < ncol {
                before.columns[j]
            } else {
                before.shadow(j - ncol, rng_factory@)
            }) by {
                assert(self@.columns[j] == self.data@[j]@);
            }
            before.lemma_assembled(rng_factory@, self@, base);
            before.lemma_with_shadows(rng_factory@);
            lemma_names(before.ids, self@.ids);
        }
    }

    fn get_col_ids(&self) -> (ids: Vec<SplitColId>) {
        let mut ids: Vec<SplitColId> = Vec::with_capacity(self.idx_to_splitid_map.len());
        let mut k: usize = 0;
        while k < self.idx_to_splitid_map.len()
            invariant
                k <= self.idx_to_splitid_map@.len(),
                self@.ids == self.idx_to_splitid_map@,
                ids@ == names_of(self@.ids.take(k as int)),
            decreases self.idx_to_splitid_map@.len() - k,
        {
            ids.push(SplitColId { col_id: self.idx_to_splitid_map[k], shadow: false });
            k = k + 1;
            assert(ids@ =~= names_of(self@.ids.take(k as int)));
        }
        assert(self@.ids.take(k as int) =~= self@.ids);
        ids
    }
}

/// Column names follow their split-ids: a prefix stays a prefix, and names
/// are distinct exactly if the split-ids are.
pub proof fn lemma_names(short: Seq<usize>, long: Seq<usize>)
    ensures
        short.is_prefix_of(long) ==> names_of(short).is_prefix_of(names_of(long)),
        names_of(short).no_duplicates() <==> short.no_duplicates(),
        names_of(long).no_duplicates() <==> long.no_duplicates(),
{
    if short.is_prefix_of(long) {
        assert(names_of(short) =~= names_of(long).subrange(0, short.len() as int));
    }
    lemma_names_distinct(short);
    lemma_names_distinct(long);
}

/// Column names are distinct exactly if their split-ids are.
pub proof fn lemma_names_distinct(ids: Seq<usize>)
    ensures
        names_of(ids).no_duplicates() <==> ids.no_duplicates(),
{
    if names_of(ids).no_duplicates() {
        assert forall|a: int, b: int| 0 <= a < ids.len() && 0 <= b < ids.len() && a != b implies ids[a]
            != ids[b] by {
            assert(names_of(ids)[a] != names_of(ids)[b]);
        }
    }
    if ids.no_duplicates() {
        assert forall|a: int, b: int|
            0 <= a < names_of(ids).len() && 0 <= b < names_of(ids).len() && a != b implies names_of(
            ids,
        )[a] != names_of(ids)[b] by {
            assert(ids[a] != ids[b]);
        }
    }
}

/// The mask of all the rows of a table with `nrow` rows.
fn full_mask(nrow: usize) -> (mask: Mask)
    ensures
        mask@ == all_rows(nrow as nat),
{
    let mut rows: Vec<usize> = Vec::with_capacity(nrow);
    let mut r: usize = 0;
    while r < nrow
        invariant
            r <= nrow,
            rows@ == all_rows(r as nat),
        decreases nrow - r,
    {
        rows.push(r);
        r = r + 1;
        assert(rows@ =~= all_rows(r as nat));
    }
    Mask::from_sorted(rows)
}

/// The largest of the split-ids, and zero if there is none.
pub(crate) fn largest(ids: &Vec<usize>) -> (top: usize)
    ensures
        top == max_id(ids@),
{
    let mut top: usize = 0;
    let mut m: usize = 0;
    while m < ids.len()
        invariant
            m <= ids.len(),
            top == max_id(ids@.take(m as int)),
        decreases ids.len() - m,
    {
        assert(ids@.take(m + 1).drop_last() =~= ids@.take(m as int));
        if ids[m] > top {
            top = ids[m];
        }
        m = m + 1;
    }
    assert(ids@.take(m as int) =~= ids@);
    top
}

/// The number of shadows for `ncol` columns.
fn count_shadows(ncol: usize) -> (count: usize)
    requires
        ncol > 0,
        shadow_count(ncol as nat) <= usize::MAX,
    ensures
        count == shadow_count(ncol as nat),
{
    let mut num_shadow = ncol;
    while num_shadow < 5
        invariant
            0 < num_shadow,
            shadow_count(num_shadow as nat) == shadow_count(ncol as nat),
        decreases
                (if num_shadow < 5 {
                    5 - num_shadow
                } else {
                    0
                }),
    {
        num_shadow = num_shadow + num_shadow;
    }
    num_shadow
}

impl XDfView {
    /// The place of the column that the candidate `c` probes: `c` itself,
    /// or, for a candidate beyond the columns, `c` less their number.
    pub open spec fn probe_column(self, c: usize) -> int {
        if c >= self.columns.len() {
            c - self.columns.len()
        } else {
            c as int
        }
    }

    /// The generator that shuffles the column before a candidate beyond the
    /// columns reads it.
    pub open spec fn probe_rng(self, c: usize, factory: FactoryView) -> Option<RngState> {
        if c >= self.columns.len() {
            Some(factory.start(Stream::Shadow { col: (c - self.columns.len()) as nat }))
        } else {
            None
        }
    }

    /// The values that the candidate reads on the rows.
    pub open spec fn probe_values(self, c: usize, factory: FactoryView, rows: Seq<usize>) -> Seq<
        ThreeValOpt,
    > {
        gathered(rows, probed(self.columns[self.probe_column(c)], self.probe_rng(c, factory)))
    }

    /// The best pivot of the candidate on the rows.
    pub open spec fn probe_pivot(
        self,
        c: usize,
        factory: FactoryView,
        rows: Seq<usize>,
        ys: Seq<bool>,
    ) -> ThreeValPivot {
        optimal_pivot(self.probe_values(c, factory, rows), gathered(rows, ys))
    }

    /// The cost of the best pivot of the candidate on the rows.
    pub open spec fn probe_cost(
        self,
        c: usize,
        factory: FactoryView,
        rows: Seq<usize>,
        ys: Seq<bool>,
    ) -> crate::gini::Ratio {
        pivot_cost(
            self.probe_values(c, factory, rows),
            gathered(rows, ys),
            self.probe_pivot(c, factory, rows, ys),
            rows.len() as int,
        )
    }

    /// The split that the candidate stands for: the split-id of its column
    /// and its best pivot.
    pub open spec fn probe_split(
        self,
        c: usize,
        factory: FactoryView,
        rows: Seq<usize>,
        ys: Seq<bool>,
    ) -> ColSplitIndex {
        ColSplitIndex {
            col_id: self.ids[self.probe_column(c)],
            pivot: MultiPivot::ThreeVal(self.probe_pivot(c, factory, rows, ys)),
            shadow: c >= self.columns.len(),
        }
    }

    /// The costs of the candidates, in their order.
    pub open spec fn probe_costs(
        self,
        candidates: Seq<usize>,
        factory: FactoryView,
        rows: Seq<usize>,
        ys: Seq<bool>,
    ) -> Seq<crate::gini::Ratio> {
        Seq::new(candidates.len(), |k: int| self.probe_cost(candidates[k], factory, rows, ys))
    }

    /// Whether the candidates can be probed on the rows: every candidate
    /// is a column or, beyond the columns, the shadow of one, and the rows
    /// are rows of the table, few enough for exact costs.
    pub open spec fn can_probe(self, candidates: Seq<usize>, rows: Seq<usize>) -> bool {
        &&& self.wf()
        &&& 0 < rows.len() <= MAX_ROWS
        &&& within(rows, self.nrow())
        &&& candidates.len() > 0
        &&& forall|k: int|
            0 <= k < candidates.len() ==> {
                let c = #[trigger] candidates[k];
                c < 2 * self.columns.len() && (c >= self.columns.len() ==> self.nrow() <= u32::MAX)
            }
    }
}

impl XDfView {
    /// The candidate whose split is the best is the first of the cheapest:
    /// no candidate costs less, and every candidate before it costs more.
    pub proof fn lemma_best_is_cheapest(
        self,
        candidates: Seq<usize>,
        factory: FactoryView,
        rows: Seq<usize>,
        ys: Seq<bool>,
    )
        requires
            candidates.len() > 0,
            rows.len() > 0,
        ensures
            ({
                let costs = self.probe_costs(candidates, factory, rows, ys);
                let best = first_min(costs, candidates.len());
                &&& 0 <= best < candidates.len()
                &&& forall|j: int| 0 <= j < costs.len() ==> !(#[trigger] costs[j]).lt(costs[best])
                &&& forall|j: int| 0 <= j < best ==> costs[best].lt(#[trigger] costs[j])
            }),
    {
        let costs = self.probe_costs(candidates, factory, rows, ys);
        assert forall|k: int| 0 <= k < costs.len() implies (#[trigger] costs[k]).den > 0 by {
            let xs = self.probe_values(candidates[k], factory, rows);
            let gs = gathered(rows, ys);
            lemma_pivot_cost_den(xs, gs, self.probe_pivot(candidates[k], factory, rows, ys), rows.len() as int);
        }
        crate::gini::lemma_first_min_is_least(costs, candidates.len());
    }
}

impl XDf {
    /// The best split among the candidates: the best pivot of the
    /// candidate with the lowest cost, and of candidates with the same
    /// cost the first.
    pub fn find_min_among<U: Response<Y>>(
        &self,
        candidates: &Vec<usize>,
        mask: &Mask,
        y: &U,
        rng_factory: &RngFactory,
    ) -> (idx: ColSplitIndex)
        requires
            self@.can_probe(candidates@, mask@),
            y.responses().len() == self@.nrow(),
        ensures
            idx == self@.probe_split(
                candidates@[first_min(
                    self@.probe_costs(candidates@, rng_factory@, mask@, y.responses()),
                    candidates@.len(),
                )],
                rng_factory@,
                mask@,
                y.responses(),
            ),
            self@.has(idx.col_id),
    {
        let ghost costs = self@.probe_costs(candidates@, rng_factory@, mask@, y.responses());
        let first = self.probe(candidates[0], mask, y, rng_factory);
        let mut best_split = first.0;
        let mut best_score = first.1;
        let mut k: usize = 1;
        while k < candidates.len()
            invariant
                1 <= k <= candidates@.len(),
                self@.can_probe(candidates@, mask@),
                y.responses().len() == self@.nrow(),
                costs == self@.probe_costs(candidates@, rng_factory@, mask@, y.responses()),
                best_split == self@.probe_split(
                    candidates@[first_min(costs, k as nat)],
                    rng_factory@,
                    mask@,
                    y.responses(),
                ),
                0 <= first_min(costs, k as nat) < k,
                best_score@ == costs[first_min(costs, k as nat)],
                best_score.rows() == mask@.len(),
                self@.has(best_split.col_id),
            decreases candidates@.len() - k,
        {
            let next = self.probe(candidates[k], mask, y, rng_factory);
            if next.1.lt(&best_score) {
                best_split = next.0;
                best_score = next.1;
            }
            k = k + 1;
        }
        best_split
    }

    /// The split that a candidate stands for, and its cost.
    fn probe<U: Response<Y>>(&self, c: usize, mask: &Mask, y: &U, rng_factory: &RngFactory) -> (found:
        (ColSplitIndex, GiniScore))
        requires
            self.wf(),
            0 < mask@.len() <= MAX_ROWS,
            within(mask@, self@.nrow()),
            y.responses().len() == self@.nrow(),
            c < 2 * self@.columns.len(),
            c >= self@.columns.len() ==> self@.nrow() <= u32::MAX,
        ensures
            found.0 == self@.probe_split(c, rng_factory@, mask@, y.responses()),
            found.1@ == self@.probe_cost(c, rng_factory@, mask@, y.responses()),
            found.1.rows() == mask@.len(),
            self@.has(found.0.col_id),
    {
        let ncol = self.get_ncol();
        let mut col = c;
        let mut shadow_rng: Option<Rng> = None;
        if c >= ncol {
            col = c - ncol;
            shadow_rng = Some(rng_factory.new_rng_shadow(col));
        }
        assert(self@.columns[col as int].len() == self@.nrow());
        let x = self.get_col(col);
        let res = x.gen_optimal_pivot(mask, y, shadow_rng);
        let id = self.idx_to_splitid(col);
        assert(self@.ids[col as int] == id);
        (ColSplitIndex { col_id: id, pivot: res.0, shadow: shadow_rng.is_some() }, res.1)
    }
}

/// What an optional reference to a column holds.
pub open spec fn views(column: Option<&MultiX>) -> Option<Seq<ThreeValOpt>> {
    match column {
        Some(c) => Some(c@),
        None => None,
    }
}

impl XDfView {
    /// The values that a split on `id` reads: those of `replaced` if one is
    /// given, and those of the column with that split-id otherwise.
    pub open spec fn read(self, id: usize, replaced: Option<Seq<ThreeValOpt>>) -> Seq<ThreeValOpt> {
        match replaced {
            Some(column) => column,
            None => self.column_of(id),
        }
    }

    /// The split-id of a column of a well-formed table leads to a column
    /// of the table, which is complete and has all the rows.
    pub proof fn lemma_resolves(self, id: usize)
        requires
            self.wf(),
            self.has(id),
        ensures
            id < self.index_of.len(),
            self.index_of[id as int] < self.columns.len(),
            self.ids[self.index_of[id as int] as int] == id,
            self.column_of(id).len() == self.nrow(),
            complete(self.column_of(id)),
    {
        let i = choose|i: int| 0 <= i < self.ids.len() && self.ids[i] == id;
        assert(self.ids[i] == id);
        let at = self.index_of[id as int] as int;
        assert(self.columns[at].len() == self.nrow());
    }
}

} // verus!
