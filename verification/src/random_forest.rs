//! A forest: trees grown on random bags of rows, and the importance that
//! each tree gives the columns on the rows outside its bag.

use crate::data_interface::frame::Frame;
use crate::data_interface::multi_x::SplitColId;
use crate::data_interface::y_bool::YBool;
use crate::data_interface::{DataInterface, Response};
use crate::mask::{strictly_ascending, within, Mask};
use crate::random_number_generator::factory::{RngFactory, Stream};
use crate::random_number_generator::Reservoir;
use crate::tree::{
    columns_of, grown, is_importance, is_tree, Growth, ImportanceTree, Node, Tree,
};
use vstd::prelude::*;

verus! {

/// The share of the rows that the bag of a tree holds, in hundredths.
pub const SAMPLE_PERCENT: usize = 66;

/// For every column that some tree splits on, the importance that each of
/// those trees gives it.
pub type ImportancePerTree = Vec<(SplitColId, Vec<i64>)>;

/// The number of rows in a bag of a table with `nrow` rows: 0.66 times
/// `nrow`, rounded down.
pub open spec fn bag_rows(nrow: nat) -> nat {
    (nrow * SAMPLE_PERCENT / 100) as nat
}

/// What a table of importances holds.
pub open spec fn table_view(table: Seq<(SplitColId, Vec<i64>)>) -> Seq<(SplitColId, Seq<i64>)> {
    Seq::new(table.len(), |m: int| (table[m].0, table[m].1@))
}

/// The place of the column in the table, or the length of the table if it
/// is not there.
pub open spec fn place_of(table: Seq<(SplitColId, Seq<i64>)>, col: SplitColId, upto: nat) -> int
    decreases upto,
{
    if upto == 0 || upto > table.len() {
        table.len() as int
    } else if place_of(table, col, (upto - 1) as nat) < table.len() {
        place_of(table, col, (upto - 1) as nat)
    } else if table[upto - 1].0 == col {
        upto - 1
    } else {
        table.len() as int
    }
}

/// The table with one importance noted: at the end of the list of its
/// column, which is a new list at the end of the table if the column had
/// none.
pub open spec fn noted(table: Seq<(SplitColId, Seq<i64>)>, col: SplitColId, gain: i64) -> Seq<
    (SplitColId, Seq<i64>),
> {
    let at = place_of(table, col, table.len());
    if at < table.len() {
        table.update(at, (col, table[at].1.push(gain)))
    } else {
        table.push((col, seq![gain]))
    }
}

/// The table with the first `upto` importances of a tree noted, in turn.
pub open spec fn absorbed(
    table: Seq<(SplitColId, Seq<i64>)>,
    imp: Seq<(SplitColId, i64)>,
    upto: nat,
) -> Seq<(SplitColId, Seq<i64>)>
    decreases upto,
{
    if upto == 0 || upto > imp.len() {
        table
    } else {
        noted(absorbed(table, imp, (upto - 1) as nat), imp[upto - 1].0, imp[upto - 1].1)
    }
}

/// The table of the importances of the first `upto` trees.
pub open spec fn collected(trees: Seq<Seq<(SplitColId, i64)>>, upto: nat) -> Seq<
    (SplitColId, Seq<i64>),
>
    decreases upto,
{
    if upto == 0 || upto > trees.len() {
        Seq::empty()
    } else {
        absorbed(collected(trees, (upto - 1) as nat), trees[upto - 1], trees[upto - 1].len())
    }
}

/// The place of a column is a place that holds the column, and the first
/// such place.
pub proof fn lemma_place_of(table: Seq<(SplitColId, Seq<i64>)>, col: SplitColId, upto: nat)
    requires
        upto <= table.len(),
    ensures
        place_of(table, col, upto) < table.len() ==> 0 <= place_of(table, col, upto) < upto
            && table[place_of(table, col, upto)].0 == col,
        place_of(table, col, upto) >= table.len() ==> place_of(table, col, upto) == table.len()
            && forall|m: int| 0 <= m < upto ==> (#[trigger] table[m]).0 != col,
    decreases upto,
{
    if upto > 0 {
        lemma_place_of(table, col, (upto - 1) as nat);
    }
}

/// Whether `imp` is what a tree of the forest gives: there is a bag of the
/// rows, and a tree grown on it, and `imp` holds, for the columns of the
/// splits of the tree, the importance on the rows outside the bag.
pub open spec fn is_tree_importance<Y, D: DataInterface<Y>>(
    df: &D,
    responses: Seq<Y>,
    how: Growth,
    ith_tree: usize,
    imp: Seq<(SplitColId, i64)>,
) -> bool {
    exists|bag: Seq<usize>, oob: Seq<usize>, nodes: Seq<Node<Y>>|
        {
            &&& #[trigger] is_bag(bag, oob, responses.len())
            &&& is_tree(nodes)
            &&& #[trigger] grown(nodes, nodes.len() - 1, df, responses, bag, 0, how)
            &&& imp.len() == columns_of(nodes, nodes.len()).len()
            &&& forall|k: int|
                0 <= k < imp.len() ==> (#[trigger] imp[k]).0 == columns_of(nodes, nodes.len())[k]
                    && is_importance(
                    nodes,
                    df,
                    responses,
                    oob,
                    how.factory,
                    ith_tree,
                    imp[k].0,
                    imp[k].1,
                )
        }
}

/// Whether `bag` holds 0.66 of the `nrow` rows, rounded down, each once,
/// and `oob` the other rows, both in ascending order.
pub open spec fn is_bag(bag: Seq<usize>, oob: Seq<usize>, nrow: nat) -> bool {
    &&& bag.len() == bag_rows(nrow)
    &&& strictly_ascending(bag)
    &&& strictly_ascending(oob)
    &&& within(bag, nrow)
    &&& forall|row: usize| oob.contains(row) <==> row < nrow && !bag.contains(row)
}

/// A forest: the seed, and the salt, of all its generators.
pub struct RandomForest {
    seed: u64,
    salt: u64,
}

impl RandomForest {
    /// The seed of the forest.
    pub closed spec fn seed(&self) -> u64 {
        self.seed
    }

    /// The salt that the generators of the forest add to the seed.
    pub closed spec fn salt(&self) -> u64 {
        self.salt
    }

    /// A forest without salt.
    pub fn new(seed: u64) -> (forest: RandomForest)
        ensures
            forest.seed() == seed,
            forest.salt() == 0,
    {
        RandomForest { seed, salt: 0 }
    }

    /// A forest whose generators add `salt` to the seed.
    pub fn with_salt(seed: u64, salt: u64) -> (forest: RandomForest)
        ensures
            forest.seed() == seed,
            forest.salt() == salt,
    {
        RandomForest { seed, salt }
    }

    /// The factory of the generators of a forest of `ntree` trees on a
    /// table of `ncol` columns.
    pub fn factory(&self, ncol: usize, ntree: usize) -> (factory: RngFactory)
        ensures
            factory@ == (crate::random_number_generator::factory::FactoryView {
                seed: self.seed(),
                salt: self.salt(),
                ncol: Some(ncol),
                ntree: Some(ntree),
            }),
    {
        RngFactory::with_salt(self.seed, self.salt, Some(ncol), Some(ntree))
    }
}

/// Strictly ascending rows of a table are no more than the table has rows.
pub proof fn lemma_ascending_len(rows: Seq<usize>, nrow: nat)
    requires
        strictly_ascending(rows),
        within(rows, nrow),
    ensures
        rows.len() <= nrow,
{
    if rows.len() > 0 {
        lemma_ascending_from(rows, rows.len() - 1);
    }
}

/// A row of strictly ascending rows is at least its place.
pub proof fn lemma_ascending_from(rows: Seq<usize>, i: int)
    requires
        strictly_ascending(rows),
        0 <= i < rows.len(),
    ensures
        rows[i] >= i,
    decreases i,
{
    if i > 0 {
        lemma_ascending_from(rows, i - 1);
    }
}

/// Notes the importances that a tree gives in the table.
pub fn gather(table: &mut ImportancePerTree, tree_imp: &ImportanceTree)
    ensures
        table_view(final(table)@) == absorbed(
            table_view(old(table)@),
            tree_imp@,
            tree_imp@.len(),
        ),
{
    let mut k: usize = 0;
    while k < tree_imp.len()
        invariant
            k <= tree_imp@.len(),
            table_view(table@) == absorbed(table_view(old(table)@), tree_imp@, k as nat),
        decreases tree_imp@.len() - k,
    {
        let col = tree_imp[k].0;
        let gain = tree_imp[k].1;
        note(table, col, gain);
        k = k + 1;
    }
}

/// Notes one importance in the table.
fn note(table: &mut ImportancePerTree, col: SplitColId, gain: i64)
    ensures
        table_view(final(table)@) == noted(table_view(old(table)@), col, gain),
{
    let ghost before = table_view(table@);
    let mut m: usize = 0;
    let mut found = false;
    while m < table.len()
        invariant_except_break
            !found,
            place_of(before, col, m as nat) == before.len(),
        invariant
            m <= table@.len(),
            table_view(table@) == before,
        ensures
            m <= table@.len(),
            table_view(table@) == before,
            found ==> m < table@.len() && place_of(before, col, before.len()) == m,
            !found ==> place_of(before, col, before.len()) == before.len(),
        decreases table@.len() - m,
    {
        if table[m].0 == col {
            found = true;
            proof {
                assert(before[m as int].0 == col);
                assert(place_of(before, col, (m + 1) as nat) == m);
                lemma_place_stays(before, col, (m + 1) as nat, before.len());
            }
            break ;
        }
        proof {
            assert(before[m as int].0 != col);
        }
        m = m + 1;
    }
    if found {
        let ghost old_table = table@;
        let ghost old_list = table@[m as int].1@;
        proof {
            lemma_place_of(before, col, before.len());
            assert(before[m as int].0 == col);
            assert(old_table[m as int].0 == col);
        }
        let mut entry = table.remove(m);
        entry.1.push(gain);
        table.insert(m, entry);
        proof {
            let after = table_view(table@);
            let want = before.update(m as int, (col, old_list.push(gain)));
            assert(after.len() == want.len());
            assert forall|n: int| 0 <= n < after.len() implies after[n] == want[n] by {
                if n != m {
                    assert(table@[n] == old_table[n]);
                    assert(before[n] == (old_table[n].0, old_table[n].1@));
                }
            }
            assert(after =~= want);
        }
    } else {
        let mut list: Vec<i64> = Vec::new();
        list.push(gain);
        table.push((col, list));
        assert(table_view(table@) =~= before.push((col, seq![gain])));
    }
}

/// Once a column has a place among the first entries of a table, that is
/// its place in the table.
pub proof fn lemma_place_stays(
    table: Seq<(SplitColId, Seq<i64>)>,
    col: SplitColId,
    upto: nat,
    end: nat,
)
    requires
        upto <= end <= table.len(),
        place_of(table, col, upto) < table.len(),
    ensures
        place_of(table, col, end) == place_of(table, col, upto),
    decreases end - upto,
{
    if upto < end {
        lemma_place_stays(table, col, upto, (end - 1) as nat);
    }
}

impl RandomForest {
    /// The importance that tree `ith_tree` of the forest gives the columns
    /// it splits on. The bag of the tree is drawn by the generator that the
    /// factory has for the bag of this tree, and the tree is grown by the
    /// generator that the factory has for this tree.
    pub fn tree_importance<Y: Copy, T, U, S, F>(
        &self,
        df: &T,
        y: &U,
        mtry: usize,
        shadow_vars: bool,
        rng_factory: &RngFactory,
        max_tree_depth: Option<usize>,
        ith_tree: usize,
        reservoir: &Reservoir<S, F>,
    ) -> (imp: ImportanceTree) where
        T: DataInterface<Y>,
        U: Response<Y>,
        S: Fn(u64, u64) -> usize,
        F: Fn(u64, u64, usize) -> u64,

        requires
            reservoir.ready(),
            y.responses().len() == df.nrow(),
            1 <= bag_rows(df.nrow()) <= u32::MAX,
            df.nrow() <= i64::MAX,
            grows_on(df, mtry, shadow_vars, *rng_factory, ith_tree),
        ensures
            is_tree_importance(
                df,
                y.responses(),
                Growth { mtry, shadow_vars, factory: *rng_factory, max_depth: max_tree_depth },
                ith_tree,
                imp@,
            ),
    {
        let nrow = y.len();
        let mut tree: Tree<Y> = Tree::new(ith_tree, rng_factory);
        let mut rng = rng_factory.new_rng_tree_mask(ith_tree);
        let mask = Mask::random_mask(nrow, bag_size(nrow), &mut rng, reservoir);
        proof {
            lemma_ascending_len(mask@, nrow as nat);
            assert forall|at: int, col: SplitColId|
                0 <= at < tree.nodes().len() && #[trigger] crate::tree::splits_on(
                    tree.nodes(),
                    at,
                    col,
                ) implies df.knows(col) by {}
        }
        tree.build_tree(df, y, &mask, mtry, shadow_vars, max_tree_depth);
        let mut range: Vec<usize> = Vec::with_capacity(nrow);
        let mut r: usize = 0;
        while r < nrow
            invariant
                r <= nrow,
                range@ == crate::random_number_generator::counting(r as nat),
            decreases nrow - r,
        {
            range.push(r);
            r = r + 1;
            assert(range@ =~= crate::random_number_generator::counting(r as nat));
        }
        let oob_mask = mask.inverse(range.as_slice());
        proof {
            assert forall|row: usize| range@.contains(row) <==> row < nrow by {
                if row < nrow {
                    assert(range@[row as int] == row);
                }
            }
            assert forall|i: int| 0 <= i < oob_mask@.len() implies oob_mask@[i] < df.nrow() by {
                assert(oob_mask@.contains(oob_mask@[i]));
            }
            lemma_ascending_len(oob_mask@, nrow as nat);
            assert(is_bag(mask@, oob_mask@, y.responses().len()));
        }
        let imp = tree.importance(df, y, &oob_mask);
        imp
    }

    /// For every column that some tree of the forest splits on, the
    /// importance that each of those trees gives it, tree by tree.
    pub fn importance_per_tree<Y: Copy, T, U, S, F>(
        &self,
        df: &T,
        y: &U,
        ntree: usize,
        mtry: usize,
        shadow_vars: bool,
        max_tree_depth: Option<usize>,
        reservoir: &Reservoir<S, F>,
    ) -> (table: ImportancePerTree) where
        T: DataInterface<Y>,
        U: Response<Y>,
        S: Fn(u64, u64) -> usize,
        F: Fn(u64, u64, usize) -> u64,

        requires
            reservoir.ready(),
            y.responses().len() == df.nrow(),
            1 <= bag_rows(df.nrow()) <= u32::MAX,
            df.nrow() <= i64::MAX,
            df.ncol() <= usize::MAX,
            forall|f: RngFactory, i: usize|
                f@ == self.factory_view(df.ncol() as usize, ntree) && i < ntree ==> #[trigger] grows_on(
                    df,
                    mtry,
                    shadow_vars,
                    f,
                    i,
                ),
        ensures
            exists|trees: Seq<Seq<(SplitColId, i64)>>, f: RngFactory|
                {
                    &&& trees.len() == ntree
                    &&& f@ == self.factory_view(df.ncol() as usize, ntree)
                    &&& #[trigger] all_tree_importances(
                        df,
                        y.responses(),
                        Growth { mtry, shadow_vars, factory: f, max_depth: max_tree_depth },
                        trees,
                    )
                    &&& table_view(table@) == collected(trees, ntree as nat)
                },
    {
        let rng_factory = self.factory(df.get_ncol(), ntree);
        let mut imp: ImportancePerTree = Vec::new();
        let ghost trees: Seq<Seq<(SplitColId, i64)>> = Seq::empty();
        let mut ith_tree: usize = 0;
        assert(table_view(imp@) =~= collected(trees, 0));
        while ith_tree < ntree
            invariant
                ith_tree <= ntree,
                reservoir.ready(),
                y.responses().len() == df.nrow(),
                1 <= bag_rows(df.nrow()) <= u32::MAX,
                df.nrow() <= i64::MAX,
                rng_factory@ == self.factory_view(df.ncol() as usize, ntree),
                forall|f: RngFactory, i: usize|
                    f@ == self.factory_view(df.ncol() as usize, ntree) && i < ntree
                        ==> #[trigger] grows_on(df, mtry, shadow_vars, f, i),
                trees.len() == ith_tree,
                all_tree_importances(
                    df,
                    y.responses(),
                    Growth { mtry, shadow_vars, factory: rng_factory, max_depth: max_tree_depth },
                    trees,
                ),
                table_view(imp@) == collected(trees, ith_tree as nat),
            decreases ntree - ith_tree,
        {
            assert(grows_on(df, mtry, shadow_vars, rng_factory, ith_tree));
            let tree_imp = self.tree_importance(
                df,
                y,
                mtry,
                shadow_vars,
                &rng_factory,
                max_tree_depth,
                ith_tree,
                reservoir,
            );
            gather(&mut imp, &tree_imp);
            proof {
                let longer = trees.push(tree_imp@);
                lemma_collected_prefix(trees, longer, ith_tree as nat);
                trees = longer;
            }
            ith_tree = ith_tree + 1;
        }
        imp
    }

    /// What the factory of a forest of `ntree` trees on `ncol` columns
    /// holds.
    pub open spec fn factory_view(
        &self,
        ncol: usize,
        ntree: usize,
    ) -> crate::random_number_generator::factory::FactoryView {
        crate::random_number_generator::factory::FactoryView {
            seed: self.seed(),
            salt: self.salt(),
            ncol: Some(ncol),
            ntree: Some(ntree),
        }
    }
}

/// The number of candidates that a search on a table of `ncol` columns
/// draws from.
pub open spec fn candidates(ncol: nat, shadow_vars: bool) -> nat {
    if shadow_vars {
        2 * ncol
    } else {
        ncol
    }
}

impl RandomForest {
    /// Whether the table, the response and the sizes of a forest fit each
    /// other and the machine: the table has a column, the response has a
    /// class for every row, the rows can be shuffled, a bag holds a row,
    /// from one candidate up to all can be drawn, and the greatest
    /// increment of a generator of the forest fits the machine word.
    pub open spec fn fits<S, F>(
        &self,
        df: &Frame<S, F>,
        y: &YBool,
        ntree: usize,
        mtry: usize,
        shadow_vars: bool,
    ) -> bool where S: Fn(u64, u64) -> usize, F: Fn(u64, u64, usize) -> u64 {
        let ncol = df.view().columns.len();
        let nrow = df.view().nrow();
        &&& ncol >= 1
        &&& y@.len() == nrow
        &&& nrow <= u32::MAX
        &&& bag_rows(nrow) >= 1
        &&& 1 <= mtry <= u32::MAX
        &&& mtry <= candidates(ncol, shadow_vars) <= usize::MAX
        &&& ncol + 2 * ntree + ntree * ncol + crate::data_interface::multi_x::max_id(df.view().ids)
            + 1 <= usize::MAX
    }

    /// Whether a forest of `ntree` trees can be grown on the table and the
    /// response: whether they fit. If so,
    /// [`RandomForest::importance_per_tree`] can be called.
    pub fn ready_for<S, F>(
        &self,
        df: &Frame<S, F>,
        y: &YBool,
        ntree: usize,
        mtry: usize,
        shadow_vars: bool,
    ) -> (ok: bool) where S: Fn(u64, u64) -> usize, F: Fn(u64, u64, usize) -> u64
        requires
            df.wf(),
        ensures
            ok == self.fits(df, y, ntree, mtry, shadow_vars),
            ok ==> {
                &&& y.responses().len() == df.nrow()
                &&& 1 <= bag_rows(df.nrow()) <= u32::MAX
                &&& df.nrow() <= i64::MAX
                &&& df.ncol() <= usize::MAX
                &&& forall|f: RngFactory, i: usize|
                    f@ == self.factory_view(df.ncol() as usize, ntree) && i < ntree
                        ==> #[trigger] grows_on(df, mtry, shadow_vars, f, i)
            },
    {
        let table = df.table();
        let ncol = table.get_ncol();
        if ncol == 0 {
            return false;
        }
        let columns = table.columns();
        let nrow = columns[0].len();
        assert(table@.columns[0] == columns@[0]@);
        if y.len() != nrow || nrow > 0xffff_ffff || bag_size(nrow) < 1 {
            return false;
        }
        if mtry < 1 || mtry > 0xffff_ffff {
            return false;
        }
        let range: u128 = if shadow_vars {
            2 * (ncol as u128)
        } else {
            ncol as u128
        };
        assert(range == candidates(ncol as nat, shadow_vars));
        if mtry as u128 > range || range > usize::MAX as u128 {
            return false;
        }
        let top = crate::data_interface::multi_x::largest(table.idx_to_splitid_map());
        proof {
            assert(0 <= ntree * ncol <= 0xffff_ffff_ffff_ffff * 0xffff_ffff_ffff_ffff)
                by (nonlinear_arith)
                requires
                    0 <= ntree <= 0xffff_ffff_ffff_ffff,
                    0 <= ncol <= 0xffff_ffff_ffff_ffff,
            ;
        }
        let product: u128 = (ntree as u128) * (ncol as u128);
        if product > usize::MAX as u128 {
            return false;
        }
        let most: u128 = ncol as u128 + 2 * (ntree as u128) + product + top as u128 + 1;
        if most > usize::MAX as u128 {
            return false;
        }
        proof {
            assert forall|f: RngFactory, i: usize|
                f@ == self.factory_view(df.ncol() as usize, ntree) && i < ntree implies #[trigger] grows_on(
                df,
                mtry,
                shadow_vars,
                f,
                i,
            ) by {
                assert(i * ncol <= ntree * ncol) by (nonlinear_arith)
                    requires
                        i < ntree,
                        ncol >= 0,
                ;
                assert forall|col: SplitColId, rows: Seq<usize>|
                    df.knows(col) && rows.len() <= df.nrow() && within(
                        rows,
                        df.nrow(),
                    ) implies #[trigger] df.permutable(col, f, rows, i) by {
                    crate::data_interface::multi_x::lemma_max_id(table@.ids);
                    let k = choose|k: int| 0 <= k < table@.ids.len() && table@.ids[k] == col.col_id;
                    assert(table@.ids[k] <= top);
                }
            }
        }
        true
    }
}

/// Whether tree `ith_tree` can be grown on the table and scored: the
/// factory has the generators of the tree and of its bag, every part of a
/// bag can be searched for a split, and every column that the table has
/// can be permuted on the rows outside a bag.
pub open spec fn grows_on<Y, D: DataInterface<Y>>(
    df: &D,
    mtry: usize,
    shadow_vars: bool,
    factory: RngFactory,
    ith_tree: usize,
) -> bool {
    &&& factory@.serves(Stream::Tree { tree: ith_tree as nat })
    &&& factory@.serves(Stream::TreeMask { tree: ith_tree as nat })
    &&& forall|rows: Seq<usize>|
        0 < rows.len() <= bag_rows(df.nrow()) && within(rows, df.nrow()) ==> #[trigger] df.searchable(
            rows,
            mtry,
            factory,
            shadow_vars,
        )
    &&& forall|col: SplitColId, rows: Seq<usize>|
        df.knows(col) && rows.len() <= df.nrow() && within(rows, df.nrow())
            ==> #[trigger] df.permutable(col, factory, rows, ith_tree)
}

/// Whether `trees[i]` is, for every `i`, what tree `i` of the forest
/// gives.
pub open spec fn all_tree_importances<Y, D: DataInterface<Y>>(
    df: &D,
    responses: Seq<Y>,
    how: Growth,
    trees: Seq<Seq<(SplitColId, i64)>>,
) -> bool {
    forall|i: int|
        0 <= i < trees.len() ==> is_tree_importance(
            df,
            responses,
            how,
            i as usize,
            #[trigger] trees[i],
        )
}

/// The table of the importances of the first trees does not depend on
/// the trees that follow.
pub proof fn lemma_collected_prefix(
    short: Seq<Seq<(SplitColId, i64)>>,
    long: Seq<Seq<(SplitColId, i64)>>,
    upto: nat,
)
    requires
        short.is_prefix_of(long),
        upto <= short.len(),
    ensures
        collected(long, upto) == collected(short, upto),
    decreases upto,
{
    if upto > 0 {
        lemma_collected_prefix(short, long, (upto - 1) as nat);
        assert(long[upto - 1] == short[upto - 1]);
    }
}

/// The sum of the first `upto` values.
pub open spec fn sum_upto(values: Seq<i64>, upto: nat) -> int
    decreases upto,
{
    if upto == 0 || upto > values.len() {
        0
    } else {
        sum_upto(values, (upto - 1) as nat) + values[upto - 1]
    }
}

/// The sum of importances, which divided by their number is their mean.
pub fn sum_of(values: &Vec<i64>) -> (sum: i128)
    ensures
        sum == sum_upto(values@, values@.len()),
{
    let mut sum: i128 = 0;
    let mut k: usize = 0;
    while k < values.len()
        invariant
            k <= values@.len(),
            sum == sum_upto(values@, k as nat),
            -0x8000_0000_0000_0000 * k <= sum <= 0x8000_0000_0000_0000 * k,
        decreases values@.len() - k,
    {
        sum = sum + values[k] as i128;
        k = k + 1;
    }
    sum
}

/// The number of rows in a bag of a table with `nrow` rows.
pub fn bag_size(nrow: usize) -> (k: usize)
    ensures
        k == bag_rows(nrow as nat),
        k <= nrow,
{
    let wide = (nrow as u128) * (SAMPLE_PERCENT as u128) / 100;
    wide as usize
}

/// The number of rows outside a bag of a table with `nrow` rows.
pub fn oob_size(nrow: usize) -> (n: usize)
    ensures
        n == nrow - bag_rows(nrow as nat),
{
    nrow - bag_size(nrow)
}

} // verus!
