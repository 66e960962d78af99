//! A classification tree in a flat arena. The nodes of a subtree stand
//! next to each other, children before their parent, the left subtree
//! before the right one, so the root is the last node.

use crate::data_interface::multi_x::{ColSplitIndex, SplitColId};
use crate::data_interface::{
    is_major, left_rows, lemma_filter_agree, lemma_mismatches_bounded, mismatches, right_rows,
    single_class, ColumnIdentifiable, DataInterface, Predicted, Response,
};
use crate::mask::{
    gathered, lemma_filter_parts, lemma_push_contains, strictly_ascending, within, Mask,
};
use crate::random_number_generator::factory::{RngFactory, Stream};
use crate::random_number_generator::Rng;
use vstd::prelude::*;

verus! {

/// The place of a node in the arena.
pub type NodeHandle = usize;

/// The place of a row among the rows that are predicted.
pub type DfRowId = usize;

/// For every column that a tree splits on, the number of predictions that
/// turn wrong when the column is permuted, less the number that were wrong
/// before.
pub type ImportanceTree = Vec<(SplitColId, i64)>;

/// A node that gives every row that comes to it one class.
#[derive(PartialEq, Eq, Debug, Clone, Copy)]
pub struct Leaf<T> {
    pub class: T,
}

/// A node that sends the rows that its split sends to the first side to
/// its left child, and the others to its right child.
#[derive(PartialEq, Eq, Debug, Clone, Copy)]
pub struct Split {
    pub split_index: ColSplitIndex,
    pub l_child_idx: NodeHandle,
    pub r_child_idx: NodeHandle,
}

/// A node of a tree.
#[derive(PartialEq, Eq, Debug, Clone, Copy)]
pub enum Node<T> {
    Sp(Split),
    Lf(Leaf<T>),
}

impl<T: Copy> Leaf<T> {
    pub fn get_class(&self) -> (class: T)
        ensures
            class == self.class,
    {
        self.class
    }
}

impl<T> Node<T> {
    pub fn create_split(split_index: ColSplitIndex, l_child_idx: NodeHandle, r_child_idx: NodeHandle) -> (node:
        Node<T>)
        ensures
            node == Node::<T>::Sp(Split { split_index, l_child_idx, r_child_idx }),
    {
        Node::Sp(Split { split_index, l_child_idx, r_child_idx })
    }

    pub fn create_leaf(class: T) -> (node: Node<T>)
        ensures
            node == Node::Lf(Leaf { class }),
    {
        Node::Lf(Leaf { class })
    }
}

/// The place of the first node of the subtree whose root stands at `at`.
pub open spec fn first_of<T>(nodes: Seq<Node<T>>, at: int) -> int
    decreases at,
{
    if 0 <= at < nodes.len() {
        match nodes[at] {
            Node::Lf(_) => at,
            Node::Sp(s) => if s.l_child_idx < at {
                first_of(nodes, s.l_child_idx as int)
            } else {
                at
            },
        }
    } else {
        at
    }
}

/// Whether the node at `at` stands right behind its subtrees: its right
/// child right before it, and its left child right before the subtree of
/// the right one.
pub open spec fn node_in_place<T>(nodes: Seq<Node<T>>, at: int) -> bool {
    match nodes[at] {
        Node::Lf(_) => true,
        Node::Sp(s) => {
            &&& s.r_child_idx == at - 1
            &&& s.l_child_idx < s.r_child_idx
            &&& s.l_child_idx == first_of(nodes, s.r_child_idx as int) - 1
        },
    }
}

/// Whether every node of the arena stands right behind its subtrees.
pub open spec fn arena_in_order<T>(nodes: Seq<Node<T>>) -> bool {
    forall|at: int| 0 <= at < nodes.len() ==> #[trigger] node_in_place(nodes, at)
}

/// Whether the arena is one tree: it is not empty, every node stands
/// right behind its subtrees, and the subtree of the last node is the
/// whole arena.
pub open spec fn is_tree<T>(nodes: Seq<Node<T>>) -> bool {
    &&& nodes.len() > 0
    &&& arena_in_order(nodes)
    &&& first_of(nodes, nodes.len() - 1) == 0
}

/// The children of a split stand before it, and the subtree of a node
/// begins at or before the node.
pub proof fn lemma_children_before<T>(nodes: Seq<Node<T>>, at: int)
    requires
        arena_in_order(nodes),
        0 <= at < nodes.len(),
    ensures
        0 <= first_of(nodes, at) <= at,
        nodes[at] matches Node::Sp(s) ==> {
            &&& 0 <= s.l_child_idx < s.r_child_idx < at
            &&& first_of(nodes, at) == first_of(nodes, s.l_child_idx as int)
            &&& first_of(nodes, s.r_child_idx as int) == s.l_child_idx + 1
        },
    decreases at,
{
    assert(node_in_place(nodes, at));
    if let Node::Sp(s) = nodes[at] {
        lemma_children_before(nodes, s.l_child_idx as int);
        lemma_children_before(nodes, s.r_child_idx as int);
    }
}

/// In a tree the children of every split stand before the split, and the
/// subtree of the last node is the whole arena: the last node is the root.
pub proof fn lemma_tree_topology<T>(nodes: Seq<Node<T>>)
    requires
        is_tree(nodes),
    ensures
        forall|at: int|
            0 <= at < nodes.len() ==> (#[trigger] nodes[at] matches Node::Sp(s) ==> s.l_child_idx < at
                && s.r_child_idx < at),
        first_of(nodes, nodes.len() - 1) == 0,
{
    assert forall|at: int| 0 <= at < nodes.len() implies (#[trigger] nodes[at] matches Node::Sp(s)
        ==> s.l_child_idx < at && s.r_child_idx < at) by {
        lemma_children_before(nodes, at);
    }
}

/// In an arena that begins with another, the subtrees of the nodes of the
/// other are what they were.
pub proof fn lemma_first_of_prefix<T>(short: Seq<Node<T>>, long: Seq<Node<T>>, at: int)
    requires
        short.is_prefix_of(long),
        0 <= at < short.len(),
    ensures
        first_of(long, at) == first_of(short, at),
    decreases at,
{
    assert(long[at] == short[at]);
    if let Node::Sp(s) = short[at] {
        if s.l_child_idx < at {
            lemma_first_of_prefix(short, long, s.l_child_idx as int);
        }
    }
}

/// An arena in order stays in order when a node is appended that stands
/// right behind its subtrees.
pub proof fn lemma_push_in_order<T>(nodes: Seq<Node<T>>, node: Node<T>)
    requires
        arena_in_order(nodes),
        node_in_place(nodes.push(node), nodes.len() as int),
    ensures
        arena_in_order(nodes.push(node)),
{
    let long = nodes.push(node);
    assert forall|at: int| 0 <= at < long.len() implies #[trigger] node_in_place(long, at) by {
        if at < nodes.len() {
            assert(node_in_place(nodes, at));
            assert(long[at] == nodes[at]);
            if let Node::Sp(s) = nodes[at] {
                lemma_first_of_prefix(nodes, long, s.r_child_idx as int);
            }
        }
    }
}

/// The columns of the splits among the first `upto` nodes, each once, in
/// the order in which they first occur.
pub open spec fn columns_of<T>(nodes: Seq<Node<T>>, upto: nat) -> Seq<SplitColId>
    decreases upto,
{
    if upto == 0 || upto > nodes.len() {
        Seq::empty()
    } else {
        let before = columns_of(nodes, (upto - 1) as nat);
        match nodes[upto - 1] {
            Node::Sp(s) => if before.contains(s.split_index.column()) {
                before
            } else {
                before.push(s.split_index.column())
            },
            Node::Lf(_) => before,
        }
    }
}

/// Whether the node at `at` is a split on the column.
pub open spec fn splits_on<T>(nodes: Seq<Node<T>>, at: int, col: SplitColId) -> bool {
    nodes[at] matches Node::Sp(s) && s.split_index.column() == col
}

/// Whether a node from `lo` up to `hi` is a split on the column.
pub open spec fn tested<T>(nodes: Seq<Node<T>>, lo: int, hi: int, col: SplitColId) -> bool {
    exists|at: int| lo <= at <= hi && 0 <= at < nodes.len() && #[trigger] splits_on(nodes, at, col)
}

/// The number of splits among the first `upto` nodes: the number of the
/// node at `upto` in the order in which splits are closed, if it is a
/// split.
pub open spec fn splits_before<T>(nodes: Seq<Node<T>>, upto: int) -> int
    decreases upto,
{
    if upto <= 0 || upto > nodes.len() {
        0
    } else {
        splits_before(nodes, upto - 1) + if nodes[upto - 1] is Sp {
            1int
        } else {
            0int
        }
    }
}

/// The number of splits before a node grows with the node, by one for
/// every split that is passed.
pub proof fn lemma_splits_before_grows<T>(nodes: Seq<Node<T>>, i: int, j: int)
    requires
        0 <= i <= j <= nodes.len(),
    ensures
        0 <= splits_before(nodes, i) <= splits_before(nodes, j) <= j,
        i < j && nodes[i] is Sp ==> splits_before(nodes, i) < splits_before(nodes, j),
    decreases j,
{
    if i < j {
        lemma_splits_before_grows(nodes, i, j - 1);
    } else if i > 0 {
        lemma_splits_before_grows(nodes, 0, i - 1);
        lemma_splits_before_grows(nodes, i - 1, i - 1);
    }
}

/// A split whose number lies from the number of splits before `lo` up to
/// the number of the split at `hi` stands from `lo` up to `hi`.
pub proof fn lemma_split_between<T>(nodes: Seq<Node<T>>, lo: int, w: int, hi: int)
    requires
        0 <= lo <= hi < nodes.len(),
        0 <= w < nodes.len(),
        nodes[w] is Sp,
        nodes[hi] is Sp,
        splits_before(nodes, lo) <= splits_before(nodes, w) <= splits_before(nodes, hi),
    ensures
        lo <= w <= hi,
{
    if w > hi {
        lemma_splits_before_grows(nodes, hi, w);
    }
    if w < lo {
        lemma_splits_before_grows(nodes, w, lo);
    }
}

/// Whether `e` is the number of a split on the column among the first
/// `upto` nodes.
pub open spec fn from_split<T>(nodes: Seq<Node<T>>, upto: int, col: SplitColId, e: usize) -> bool {
    exists|w: int|
        0 <= w < upto && w < nodes.len() && #[trigger] splits_on(nodes, w, col) && splits_before(
            nodes,
            w,
        ) == e
}

/// The columns of the splits are distinct, and they are the columns of
/// the splits.
pub proof fn lemma_columns_of<T>(nodes: Seq<Node<T>>, upto: nat)
    requires
        upto <= nodes.len(),
    ensures
        columns_of(nodes, upto).no_duplicates(),
        forall|at: int, col: SplitColId|
            0 <= at < upto && #[trigger] splits_on(nodes, at, col) ==> columns_of(
                nodes,
                upto,
            ).contains(col),
        forall|k: int|
            0 <= k < columns_of(nodes, upto).len() ==> tested(
                nodes,
                0,
                upto - 1,
                #[trigger] columns_of(nodes, upto)[k],
            ),
    decreases upto,
{
    if upto > 0 {
        lemma_columns_of(nodes, (upto - 1) as nat);
        let before = columns_of(nodes, (upto - 1) as nat);
        let now = columns_of(nodes, upto);
        assert forall|at: int, col: SplitColId|
            0 <= at < upto && #[trigger] splits_on(nodes, at, col) implies now.contains(col) by {
            if at < upto - 1 {
                let k = choose|k: int| 0 <= k < before.len() && before[k] == col;
                assert(now[k] == col);
            } else if !before.contains(col) {
                assert(now[before.len() as int] == col);
            } else {
                let k = choose|k: int| 0 <= k < before.len() && before[k] == col;
                assert(now[k] == col);
            }
        }
        assert forall|k: int| 0 <= k < now.len() implies tested(
            nodes,
            0,
            upto - 1,
            #[trigger] now[k],
        ) by {
            if k < before.len() {
                assert(now[k] == before[k]);
                let at = choose|at: int|
                    0 <= at <= upto - 2 && 0 <= at < nodes.len() && #[trigger] splits_on(
                        nodes,
                        at,
                        before[k],
                    );
                assert(splits_on(nodes, at, now[k]));
            } else {
                assert(splits_on(nodes, upto - 1, now[k]));
            }
        }
    }
}

/// The columns of the splits among the first nodes of an arena are those
/// among the same nodes of an arena that begins with it.
pub proof fn lemma_columns_of_prefix<T>(short: Seq<Node<T>>, long: Seq<Node<T>>, upto: nat)
    requires
        short.is_prefix_of(long),
        upto <= short.len(),
    ensures
        columns_of(long, upto) == columns_of(short, upto),
    decreases upto,
{
    if upto > 0 {
        lemma_columns_of_prefix(short, long, (upto - 1) as nat);
        assert(long[upto - 1] == short[upto - 1]);
    }
}

/// How a tree is grown: the number of candidates of a split, whether
/// shadows are probed, the factory of the generators, and the greatest
/// depth.
pub struct Growth {
    pub mtry: usize,
    pub shadow_vars: bool,
    pub factory: RngFactory,
    pub max_depth: Option<usize>,
}

/// Whether a search on the rows gave a split that leaves a side empty.
pub open spec fn split_fails<Y, D: DataInterface<Y>>(
    df: &D,
    responses: Seq<Y>,
    rows: Seq<usize>,
    how: Growth,
) -> bool {
    exists|idx: ColSplitIndex|
        #[trigger] df.chooses(rows, responses, how.mtry, how.factory, how.shadow_vars, idx) && (
        left_rows(df, idx, None, rows).len() == 0 || right_rows(df, idx, None, rows).len() == 0)
}

/// Whether the subtree at `at` is one that growing on `rows` gives. A leaf
/// has the class of all its rows; or the rows have several classes, the
/// leaf has a class that none outnumbers, and the greatest depth is
/// reached or the split that was found leaves a side empty. A split is
/// one that the search on the rows gives; it parts rows of several
/// classes, above the greatest depth, in two sides that are not empty, and
/// its children are grown on the two sides.
pub open spec fn grown<Y, D: DataInterface<Y>>(
    nodes: Seq<Node<Y>>,
    at: int,
    df: &D,
    responses: Seq<Y>,
    rows: Seq<usize>,
    depth: nat,
    how: Growth,
) -> bool
    decreases at,
{
    &&& 0 <= at < nodes.len()
    &&& match nodes[at] {
        Node::Lf(leaf) => {
            ||| single_class(gathered(rows, responses)) == Some(leaf.class)
            ||| {
                &&& single_class(gathered(rows, responses)) is None
                &&& is_major(gathered(rows, responses), leaf.class)
                &&& ((how.max_depth matches Some(m) && depth >= m) || split_fails(
                    df,
                    responses,
                    rows,
                    how,
                ))
            }
        },
        Node::Sp(s) => {
            &&& s.l_child_idx < at
            &&& s.r_child_idx < at
            &&& single_class(gathered(rows, responses)) is None
            &&& (how.max_depth matches Some(m) ==> depth < m)
            &&& df.knows(s.split_index.column())
            &&& df.chooses(rows, responses, how.mtry, how.factory, how.shadow_vars, s.split_index)
            &&& left_rows(df, s.split_index, None, rows).len() > 0
            &&& right_rows(df, s.split_index, None, rows).len() > 0
            &&& grown(
                nodes,
                s.l_child_idx as int,
                df,
                responses,
                left_rows(df, s.split_index, None, rows),
                depth + 1,
                how,
            )
            &&& grown(
                nodes,
                s.r_child_idx as int,
                df,
                responses,
                right_rows(df, s.split_index, None, rows),
                depth + 1,
                how,
            )
        },
    }
}

/// A grown subtree is grown in every arena that begins with its arena.
pub proof fn lemma_grown_prefix<Y, D: DataInterface<Y>>(
    short: Seq<Node<Y>>,
    long: Seq<Node<Y>>,
    at: int,
    df: &D,
    responses: Seq<Y>,
    rows: Seq<usize>,
    depth: nat,
    how: Growth,
)
    requires
        short.is_prefix_of(long),
        grown(short, at, df, responses, rows, depth, how),
    ensures
        grown(long, at, df, responses, rows, depth, how),
    decreases at,
{
    assert(long[at] == short[at]);
    if let Node::Sp(s) = short[at] {
        lemma_grown_prefix(
            short,
            long,
            s.l_child_idx as int,
            df,
            responses,
            left_rows(df, s.split_index, None, rows),
            depth + 1,
            how,
        );
        lemma_grown_prefix(
            short,
            long,
            s.r_child_idx as int,
            df,
            responses,
            right_rows(df, s.split_index, None, rows),
            depth + 1,
            how,
        );
    }
}

/// The two sides of a split hold rows of the rows that were split, and
/// together as many.
pub proof fn lemma_sides<Y, D: DataInterface<Y>>(
    df: &D,
    idx: ColSplitIndex,
    replaced: Option<D::InternalType>,
    rows: Seq<usize>,
)
    ensures
        left_rows(df, idx, replaced, rows).len() + right_rows(df, idx, replaced, rows).len()
            == rows.len(),
        forall|row: usize|
            left_rows(df, idx, replaced, rows).contains(row) <==> rows.contains(row)
                && df.goes_left(idx, replaced, row),
        forall|row: usize|
            right_rows(df, idx, replaced, rows).contains(row) <==> rows.contains(row)
                && !df.goes_left(idx, replaced, row),
    decreases rows.len(),
{
    let keep = |row: usize| df.goes_left(idx, replaced, row);
    let drop = |row: usize| !df.goes_left(idx, replaced, row);
    lemma_filter_parts(rows, keep, drop);
}

/// Rows taken from rows of a table are rows of the table.
pub proof fn lemma_within_part(rows: Seq<usize>, part: Seq<usize>, nrow: nat)
    requires
        within(rows, nrow),
        forall|row: usize| part.contains(row) ==> rows.contains(row),
    ensures
        within(part, nrow),
{
    assert forall|i: int| 0 <= i < part.len() implies part[i] < nrow by {
        assert(part.contains(part[i]));
        let k = choose|k: int| 0 <= k < rows.len() && rows[k] == part[i];
    }
}

/// The column that a split reads when `col` is replaced by `replaced`:
/// `replaced` if the split is on `col`, and the column of the table
/// otherwise.
pub open spec fn read_from<C>(s: Split, col: Option<SplitColId>, replaced: Option<C>) -> Option<C> {
    if col == Some(s.split_index.column()) {
        replaced
    } else {
        None
    }
}

/// The class that the subtree at `at` gives a row: the class of the leaf
/// that the row comes to when every split sends it to its first side or
/// its second. Splits on `col` read `replaced` in place of their column.
pub open spec fn classify<Y, D: DataInterface<Y>>(
    nodes: Seq<Node<Y>>,
    at: int,
    df: &D,
    col: Option<SplitColId>,
    replaced: Option<D::InternalType>,
    row: usize,
) -> Y
    decreases at,
{
    if 0 <= at < nodes.len() {
        match nodes[at] {
            Node::Lf(leaf) => leaf.class,
            Node::Sp(s) => if s.l_child_idx < at && s.r_child_idx < at {
                if df.goes_left(s.split_index, read_from(s, col, replaced), row) {
                    classify(nodes, s.l_child_idx as int, df, col, replaced, row)
                } else {
                    classify(nodes, s.r_child_idx as int, df, col, replaced, row)
                }
            } else {
                arbitrary()
            },
        }
    } else {
        arbitrary()
    }
}

/// The predictions of a tree for the rows of a mask, in the order of the
/// mask.
pub open spec fn predictions<Y, D: DataInterface<Y>>(
    nodes: Seq<Node<Y>>,
    df: &D,
    col: Option<SplitColId>,
    replaced: Option<D::InternalType>,
    rows: Seq<usize>,
) -> Seq<Y> {
    Seq::new(rows.len(), |k: int| classify(nodes, nodes.len() - 1, df, col, replaced, rows[k]))
}

/// Whether `ranks` gives every row of `rows` its place in `rows`.
pub open spec fn rank_inverse(rows: Seq<usize>, ranks: Seq<usize>) -> bool {
    forall|j: int|
        0 <= j < rows.len() ==> (#[trigger] rows[j]) < ranks.len() && ranks[rows[j] as int] == j
}

/// Whether every row of `part` is a row of `rows`.
pub open spec fn part_of(part: Seq<usize>, rows: Seq<usize>) -> bool {
    forall|k: int| 0 <= k < part.len() ==> rows.contains(#[trigger] part[k])
}

/// Whether `after` is `before` with the class of the subtree at `at`
/// written, for every row of `part`, at the place that the row has in
/// `rows`.
pub open spec fn predicted<Y, D: DataInterface<Y>>(
    before: Seq<Option<Y>>,
    after: Seq<Option<Y>>,
    rows: Seq<usize>,
    part: Seq<usize>,
    nodes: Seq<Node<Y>>,
    at: int,
    df: &D,
    col: Option<SplitColId>,
    replaced: Option<D::InternalType>,
) -> bool {
    &&& after.len() == before.len()
    &&& forall|j: int|
        0 <= j < rows.len() && j < before.len() ==> #[trigger] after[j] == if part.contains(rows[j]) {
            Some(classify(nodes, at, df, col, replaced, rows[j]))
        } else {
            before[j]
        }
}

/// A subtree without a split on a column gives every row the class that
/// it gives when the column is replaced.
pub proof fn lemma_untested_classify<Y, D: DataInterface<Y>>(
    nodes: Seq<Node<Y>>,
    at: int,
    df: &D,
    col: SplitColId,
    replaced: Option<D::InternalType>,
    row: usize,
)
    requires
        arena_in_order(nodes),
        0 <= at < nodes.len(),
        !tested(nodes, first_of(nodes, at), at, col),
    ensures
        classify(nodes, at, df, Some(col), replaced, row) == classify(nodes, at, df, None, None, row),
    decreases at,
{
    lemma_children_before(nodes, at);
    if let Node::Sp(s) = nodes[at] {
        assert(!splits_on(nodes, at, col));
        let l = s.l_child_idx as int;
        let r = s.r_child_idx as int;
        lemma_children_before(nodes, l);
        lemma_children_before(nodes, r);
        assert(!tested(nodes, first_of(nodes, l), l, col)) by {
            if tested(nodes, first_of(nodes, l), l, col) {
                let w = choose|w: int|
                    first_of(nodes, l) <= w <= l && 0 <= w < nodes.len() && #[trigger] splits_on(
                        nodes,
                        w,
                        col,
                    );
                assert(first_of(nodes, at) <= w <= at && splits_on(nodes, w, col));
            }
        }
        assert(!tested(nodes, first_of(nodes, r), r, col)) by {
            if tested(nodes, first_of(nodes, r), r, col) {
                let w = choose|w: int|
                    first_of(nodes, r) <= w <= r && 0 <= w < nodes.len() && #[trigger] splits_on(
                        nodes,
                        w,
                        col,
                    );
                assert(first_of(nodes, at) <= w <= at && splits_on(nodes, w, col));
            }
        }
        lemma_untested_classify(nodes, l, df, col, replaced, row);
        lemma_untested_classify(nodes, r, df, col, replaced, row);
    }
}

/// The predictions of the two subtrees of a split, each for its side, are
/// together the predictions of the split.
pub proof fn lemma_predicted_split<Y, D: DataInterface<Y>>(
    before: Seq<Option<Y>>,
    mid: Seq<Option<Y>>,
    after: Seq<Option<Y>>,
    rows: Seq<usize>,
    part: Seq<usize>,
    nodes: Seq<Node<Y>>,
    at: int,
    df: &D,
    col: Option<SplitColId>,
    replaced: Option<D::InternalType>,
)
    requires
        0 <= at < nodes.len(),
        nodes[at] matches Node::Sp(s) && s.l_child_idx < at && s.r_child_idx < at && predicted(
            before,
            mid,
            rows,
            left_rows(df, s.split_index, read_from(s, col, replaced), part),
            nodes,
            s.l_child_idx as int,
            df,
            col,
            replaced,
        ) && predicted(
            mid,
            after,
            rows,
            right_rows(df, s.split_index, read_from(s, col, replaced), part),
            nodes,
            s.r_child_idx as int,
            df,
            col,
            replaced,
        ),
    ensures
        predicted(before, after, rows, part, nodes, at, df, col, replaced),
{
    if let Node::Sp(s) = nodes[at] {
        lemma_sides(df, s.split_index, read_from(s, col, replaced), part);
        let left = left_rows(df, s.split_index, read_from(s, col, replaced), part);
        let right = right_rows(df, s.split_index, read_from(s, col, replaced), part);
        assert forall|j: int| 0 <= j < rows.len() && j < before.len() implies #[trigger] after[j]
            == if part.contains(rows[j]) {
            Some(classify(nodes, at, df, col, replaced, rows[j]))
        } else {
            before[j]
        } by {
            let row = rows[j];
            assert(mid[j] == if left.contains(row) {
                Some(classify(nodes, s.l_child_idx as int, df, col, replaced, row))
            } else {
                before[j]
            });
            assert(after[j] == if right.contains(row) {
                Some(classify(nodes, s.r_child_idx as int, df, col, replaced, row))
            } else {
                mid[j]
            });
        }
    }
}

/// Rows that are part of rows of a table are rows of the table.
pub proof fn lemma_part_within(part: Seq<usize>, rows: Seq<usize>, nrow: nat)
    requires
        part_of(part, rows),
        within(rows, nrow),
    ensures
        within(part, nrow),
{
    assert forall|i: int| 0 <= i < part.len() implies part[i] < nrow by {
        assert(rows.contains(part[i]));
        let k = choose|k: int| 0 <= k < rows.len() && rows[k] == part[i];
    }
}

/// The sides of a split of a part of some rows are parts of those rows.
pub proof fn lemma_sides_part<Y, D: DataInterface<Y>>(
    df: &D,
    idx: ColSplitIndex,
    replaced: Option<D::InternalType>,
    part: Seq<usize>,
    rows: Seq<usize>,
)
    requires
        part_of(part, rows),
    ensures
        part_of(left_rows(df, idx, replaced, part), rows),
        part_of(right_rows(df, idx, replaced, part), rows),
{
    lemma_sides(df, idx, replaced, part);
    let left = left_rows(df, idx, replaced, part);
    let right = right_rows(df, idx, replaced, part);
    assert forall|k: int| 0 <= k < left.len() implies rows.contains(#[trigger] left[k]) by {
        assert(left.contains(left[k]));
        assert(part.contains(left[k]));
        let t = choose|t: int| 0 <= t < part.len() && part[t] == left[k];
        assert(rows.contains(part[t]));
    }
    assert forall|k: int| 0 <= k < right.len() implies rows.contains(#[trigger] right[k]) by {
        assert(right.contains(right[k]));
        assert(part.contains(right[k]));
        let t = choose|t: int| 0 <= t < part.len() && part[t] == right[k];
        assert(rows.contains(part[t]));
    }
}

/// The node that a handle names: the root, which is the last node, if
/// there is no handle.
pub open spec fn target(node_id: Option<NodeHandle>, len: nat) -> int {
    match node_id {
        Some(nid) => nid as int,
        None => len - 1,
    }
}

/// The number of rows whose prediction is not their class.
pub open spec fn errors<Y, D: DataInterface<Y>>(
    nodes: Seq<Node<Y>>,
    df: &D,
    responses: Seq<Y>,
    rows: Seq<usize>,
    col: Option<SplitColId>,
    replaced: Option<D::InternalType>,
) -> int {
    mismatches(gathered(rows, responses), predictions(nodes, df, col, replaced, rows)) as int
}

/// Whether `gain` is the importance that the tree gives the column on the
/// rows: the number of wrong predictions with the column permuted, less
/// their number without.
pub open spec fn is_importance<Y, D: DataInterface<Y>>(
    nodes: Seq<Node<Y>>,
    df: &D,
    responses: Seq<Y>,
    rows: Seq<usize>,
    factory: RngFactory,
    ith_tree: usize,
    col: SplitColId,
    gain: i64,
) -> bool {
    exists|column: D::InternalType|
        {
            &&& df.is_permuted(col, factory, rows, ith_tree, column)
            &&& #[trigger] df.stands_in(column)
            &&& gain == errors(nodes, df, responses, rows, Some(col), Some(column)) - errors(
                nodes,
                df,
                responses,
                rows,
                None,
                None,
            )
        }
}

/// Every row of strictly ascending rows gets its place by `ranks` once
/// each place is written at its row.
pub proof fn lemma_ranks_written(rows: Seq<usize>, ranks: Seq<usize>)
    requires
        strictly_ascending(rows),
        forall|j: int| 0 <= j < rows.len() ==> (#[trigger] rows[j]) < ranks.len(),
        forall|j: int| 0 <= j < rows.len() ==> ranks[(#[trigger] rows[j]) as int] == j,
    ensures
        rank_inverse(rows, ranks),
{
}

/// Whether an entry from `from` up to `to` is for the place.
pub open spec fn entered<Y>(preds: Seq<(Y, usize)>, from: int, to: int, place: int) -> bool {
    exists|x: int| from <= x < to && (#[trigger] preds[x]).1 == place
}

/// What the caches of a tree hold.
pub struct CacheView<Y> {
    /// For every node, the rows that came to it.
    pub masks: Seq<Seq<usize>>,
    /// Classes with the places that they were written to, a run for every
    /// leaf.
    pub preds: Seq<(Y, usize)>,
    /// For every node, where in `preds` the runs of its leaves begin and
    /// end.
    pub pred_ranges: Seq<(usize, usize)>,
    /// For every node, the number of splits that were closed before its
    /// subtree was entered, and the number when it was closed; for a split
    /// the latter is its own number.
    pub split_ranges: Seq<(usize, usize)>,
    /// For every column, the numbers of the splits on it.
    pub places: Seq<(SplitColId, Seq<usize>)>,
}

/// Whether the number `e` is listed for the column.
pub open spec fn listed(places: Seq<(SplitColId, Seq<usize>)>, col: SplitColId, e: usize) -> bool {
    exists|m: int| 0 <= m < places.len() && (#[trigger] places[m]).0 == col && places[m].1.contains(e)
}

/// Whether every number that is listed for a column is the number of a
/// split on that column among the first `upto` nodes.
pub open spec fn only_from_splits<T>(
    places: Seq<(SplitColId, Seq<usize>)>,
    nodes: Seq<Node<T>>,
    upto: int,
) -> bool {
    forall|col: SplitColId, e: usize|
        #[trigger] listed(places, col, e) ==> from_split(nodes, upto, col, e)
}

/// Numbers of splits among the first nodes are numbers of splits among
/// more of the nodes.
pub proof fn lemma_only_from_more<T>(
    places: Seq<(SplitColId, Seq<usize>)>,
    nodes: Seq<Node<T>>,
    upto: int,
    more: int,
)
    requires
        only_from_splits(places, nodes, upto),
        upto <= more,
    ensures
        only_from_splits(places, nodes, more),
{
    assert forall|col: SplitColId, e: usize| #[trigger] listed(places, col, e) implies from_split(
        nodes,
        more,
        col,
        e,
    ) by {
        let w = choose|w: int|
            0 <= w < upto && w < nodes.len() && #[trigger] splits_on(nodes, w, col)
                && splits_before(nodes, w) == e;
        assert(splits_on(nodes, w, col));
    }
}

/// Whether no column has two lists.
pub open spec fn keyed_once(places: Seq<(SplitColId, Seq<usize>)>) -> bool {
    forall|m: int, n: int|
        0 <= m < places.len() && 0 <= n < places.len() && m != n ==> (#[trigger] places[m]).0 != (
        #[trigger] places[n]).0
}

impl<Y> CacheView<Y> {
    /// Whether the caches hold, for the node at `v`, what the first
    /// prediction of `rows` on the table leaves there.
    pub open spec fn holds<D: DataInterface<Y>>(
        self,
        nodes: Seq<Node<Y>>,
        df: &D,
        rows: Seq<usize>,
        ranks: Seq<usize>,
        v: int,
    ) -> bool {
        &&& 0 <= v < nodes.len()
        &&& v < self.masks.len()
        &&& v < self.pred_ranges.len()
        &&& v < self.split_ranges.len()
        &&& part_of(self.masks[v], rows)
        &&& self.pred_ranges[v].0 <= self.pred_ranges[v].1 <= self.preds.len()
        &&& forall|i: int|
            self.pred_ranges[v].0 <= i < self.pred_ranges[v].1 ==> {
                let entry = #[trigger] self.preds[i];
                &&& entry.1 < rows.len()
                &&& self.masks[v].contains(rows[entry.1 as int])
                &&& entry.0 == classify(nodes, v, df, None, None, rows[entry.1 as int])
            }
        &&& forall|k: int|
            0 <= k < self.masks[v].len() ==> self.run_has(v, ranks[(#[trigger] self.masks[v][k]) as int])
        &&& (nodes[v] matches Node::Sp(s) ==> {
            &&& self.masks[s.l_child_idx as int] == left_rows(df, s.split_index, None, self.masks[v])
            &&& self.masks[s.r_child_idx as int] == right_rows(
                df,
                s.split_index,
                None,
                self.masks[v],
            )
            &&& listed(self.places, s.split_index.column(), self.split_ranges[v].1)
        })
        &&& forall|w: int|
            first_of(nodes, v) <= w <= v ==> self.split_ranges[v].0 <= (
            #[trigger] self.split_ranges[w]).1 <= self.split_ranges[v].1
        &&& self.split_ranges[v].0 == splits_before(nodes, first_of(nodes, v))
        &&& self.split_ranges[v].1 == splits_before(nodes, v)
    }

    /// Whether the run of the node at `v` has an entry for the place.
    pub open spec fn run_has(self, v: int, place: usize) -> bool {
        exists|i: int|
            self.pred_ranges[v].0 <= i < self.pred_ranges[v].1 && (#[trigger] self.preds[i]).1
                == place
    }

    /// Whether the caches hold what the first prediction leaves for every
    /// node before `upto`.
    pub open spec fn holds_upto<D: DataInterface<Y>>(
        self,
        nodes: Seq<Node<Y>>,
        df: &D,
        rows: Seq<usize>,
        ranks: Seq<usize>,
        upto: int,
    ) -> bool {
        &&& keyed_once(self.places)
        &&& forall|v: int| 0 <= v < upto ==> #[trigger] self.holds(nodes, df, rows, ranks, v)
    }

    /// Whether `later` holds all that these caches hold, at the same
    /// places.
    pub open spec fn kept_in(self, later: CacheView<Y>) -> bool {
        &&& self.masks.is_prefix_of(later.masks)
        &&& self.preds.is_prefix_of(later.preds)
        &&& self.pred_ranges.is_prefix_of(later.pred_ranges)
        &&& self.split_ranges.is_prefix_of(later.split_ranges)
        &&& forall|col: SplitColId, e: usize|
            listed(self.places, col, e) ==> listed(later.places, col, e)
    }
}

/// What the caches hold for a node, they hold in caches that keep them.
pub proof fn lemma_holds_kept<Y, D: DataInterface<Y>>(
    early: CacheView<Y>,
    later: CacheView<Y>,
    nodes: Seq<Node<Y>>,
    df: &D,
    rows: Seq<usize>,
    ranks: Seq<usize>,
    v: int,
)
    requires
        arena_in_order(nodes),
        early.holds(nodes, df, rows, ranks, v),
        early.kept_in(later),
    ensures
        later.holds(nodes, df, rows, ranks, v),
{
    lemma_children_before(nodes, v);
    assert(later.masks[v] == early.masks[v]);
    assert(later.pred_ranges[v] == early.pred_ranges[v]);
    assert(later.split_ranges[v] == early.split_ranges[v]);
    assert forall|i: int| later.pred_ranges[v].0 <= i < later.pred_ranges[v].1 implies {
        let entry = #[trigger] later.preds[i];
        &&& entry.1 < rows.len()
        &&& later.masks[v].contains(rows[entry.1 as int])
        &&& entry.0 == classify(nodes, v, df, None, None, rows[entry.1 as int])
    } by {
        assert(later.preds[i] == early.preds[i]);
    }
    assert forall|k: int| 0 <= k < later.masks[v].len() implies later.run_has(
        v,
        ranks[(#[trigger] later.masks[v][k]) as int],
    ) by {
        let place = ranks[early.masks[v][k] as int];
        assert(early.run_has(v, place));
        let i = choose|i: int|
            early.pred_ranges[v].0 <= i < early.pred_ranges[v].1 && (#[trigger] early.preds[i]).1
                == place;
        assert(later.preds[i] == early.preds[i]);
    }
    if let Node::Sp(s) = nodes[v] {
        assert(later.masks[s.l_child_idx as int] == early.masks[s.l_child_idx as int]);
        assert(later.masks[s.r_child_idx as int] == early.masks[s.r_child_idx as int]);
    }
    assert forall|w: int| first_of(nodes, v) <= w <= v implies later.split_ranges[v].0 <= (
    #[trigger] later.split_ranges[w]).1 <= later.split_ranges[v].1 by {
        assert(later.split_ranges[w] == early.split_ranges[w]);
    }
}

/// What the caches hold for the nodes before `upto`, they hold in caches
/// that keep them and list every column once.
pub proof fn lemma_holds_upto_kept<Y, D: DataInterface<Y>>(
    early: CacheView<Y>,
    later: CacheView<Y>,
    nodes: Seq<Node<Y>>,
    df: &D,
    rows: Seq<usize>,
    ranks: Seq<usize>,
    upto: int,
)
    requires
        arena_in_order(nodes),
        early.holds_upto(nodes, df, rows, ranks, upto),
        early.kept_in(later),
        keyed_once(later.places),
    ensures
        later.holds_upto(nodes, df, rows, ranks, upto),
{
    assert forall|v: int| 0 <= v < upto implies #[trigger] later.holds(
        nodes,
        df,
        rows,
        ranks,
        v,
    ) by {
        assert(early.holds(nodes, df, rows, ranks, v));
        lemma_holds_kept(early, later, nodes, df, rows, ranks, v);
    }
}

/// A row of ranked rows stands at its rank, and at no other place.
pub proof fn lemma_ranked(rows: Seq<usize>, ranks: Seq<usize>, row: usize)
    requires
        rank_inverse(rows, ranks),
        rows.contains(row),
    ensures
        row < ranks.len(),
        ranks[row as int] < rows.len(),
        rows[ranks[row as int] as int] == row,
        forall|j: int| 0 <= j < rows.len() && rows[j] == row ==> j == ranks[row as int],
{
    let k = choose|k: int| 0 <= k < rows.len() && rows[k] == row;
    assert(rows[k] < ranks.len() && ranks[rows[k] as int] == k);
    assert forall|j: int| 0 <= j < rows.len() && rows[j] == row implies j == ranks[row as int] by {
        assert(rows[j] < ranks.len() && ranks[rows[j] as int] == j);
    }
}

/// A tree with classes of type `Y`, and what its first prediction left in
/// the caches. The caches are written once, by the first prediction, and
/// read by the predictions with a permuted column.
pub struct Tree<Y> {
    /// The arena.
    tree: Vec<Node<Y>>,
    /// The columns of the splits, each once.
    split_cols: Vec<SplitColId>,
    /// For every node, the rows that came to it in the first prediction.
    mask_cache: Vec<Mask>,
    /// The classes that the first prediction wrote, with their places, a
    /// run for every leaf.
    preds_cache: Vec<(Y, DfRowId)>,
    /// For every column, the numbers of the splits on it, counted in the
    /// order in which the splits are closed.
    split_mask_map: Vec<(SplitColId, Vec<usize>)>,
    /// For every node, the number of splits closed before its subtree and
    /// the number when the node was closed.
    split_idx_cache_range: Vec<(usize, usize)>,
    /// For every node, where the runs of its leaves begin and end.
    preds_cache_range: Vec<(usize, usize)>,
    /// The generator that draws candidates and breaks ties.
    rng: Rng,
    /// The factory of the generators that permute columns.
    rng_factory: RngFactory,
    /// The number of the tree in its forest.
    ith_tree: usize,
}

impl<Y: Copy> Tree<Y> {
    /// The nodes of the arena.
    pub closed spec fn nodes(&self) -> Seq<Node<Y>> {
        self.tree@
    }

    /// The columns that the tree splits on, each once.
    pub closed spec fn cols(&self) -> Seq<SplitColId> {
        self.split_cols@
    }

    /// The state of the generator of the tree.
    pub closed spec fn rng_state(&self) -> crate::random_number_generator::RngState {
        self.rng@
    }

    /// The factory that the tree was made with.
    pub closed spec fn factory(&self) -> RngFactory {
        self.rng_factory
    }

    /// The number of the tree in its forest.
    pub closed spec fn ith(&self) -> usize {
        self.ith_tree
    }

    /// Whether no prediction has filled the caches yet.
    pub closed spec fn cache_empty(&self) -> bool {
        &&& self.mask_cache@.len() == 0
        &&& self.preds_cache@.len() == 0
        &&& self.split_mask_map@.len() == 0
        &&& self.split_idx_cache_range@.len() == 0
        &&& self.preds_cache_range@.len() == 0
    }

    /// What the caches hold.
    pub closed spec fn cache(&self) -> CacheView<Y> {
        CacheView {
            masks: Seq::new(self.mask_cache@.len(), |i: int| self.mask_cache@[i]@),
            preds: self.preds_cache@,
            pred_ranges: self.preds_cache_range@,
            split_ranges: self.split_idx_cache_range@,
            places: Seq::new(
                self.split_mask_map@.len(),
                |m: int| (self.split_mask_map@[m].0, self.split_mask_map@[m].1@),
            ),
        }
    }

    /// Whether the two trees have the same nodes, columns, generator and
    /// origin.
    pub open spec fn same_tree(&self, other: &Tree<Y>) -> bool {
        &&& self.nodes() == other.nodes()
        &&& self.cols() == other.cols()
        &&& self.rng_state() == other.rng_state()
        &&& self.factory() == other.factory()
        &&& self.ith() == other.ith()
    }

    /// Whether the table has the column of every split of the tree.
    pub open spec fn applies_to<D: DataInterface<Y>>(&self, df: &D) -> bool {
        forall|at: int, col: SplitColId|
            0 <= at < self.nodes().len() && #[trigger] splits_on(self.nodes(), at, col) ==> df.knows(
                col,
            )
    }

    /// A tree without nodes, with the generator that the factory has for
    /// tree `ith_tree`.
    pub fn new(ith_tree: usize, rng_factory: &RngFactory) -> (tree: Tree<Y>)
        requires
            rng_factory@.serves(Stream::Tree { tree: ith_tree as nat }),
        ensures
            tree.nodes().len() == 0,
            tree.cols().len() == 0,
            tree.cache_empty(),
            tree.rng_state() == rng_factory@.start(Stream::Tree { tree: ith_tree as nat }),
            tree.factory() == *rng_factory,
            tree.ith() == ith_tree,
    {
        let rng = rng_factory.new_rng_tree(ith_tree);
        Tree {
            tree: Vec::new(),
            split_cols: Vec::new(),
            mask_cache: Vec::new(),
            preds_cache: Vec::new(),
            split_mask_map: Vec::new(),
            split_idx_cache_range: Vec::new(),
            preds_cache_range: Vec::new(),
            rng,
            rng_factory: *rng_factory,
            ith_tree,
        }
    }

    /// The nodes of the arena; the last one is the root.
    pub fn get_nodes(&self) -> (nodes: &Vec<Node<Y>>)
        ensures
            nodes@ == self.nodes(),
    {
        &self.tree
    }

    /// The columns that the tree splits on, each once.
    pub fn get_split_cols(&self) -> (cols: &Vec<SplitColId>)
        ensures
            cols@ == self.cols(),
    {
        &self.split_cols
    }

    /// Grows the tree on the rows of the mask. If the rows have one class,
    /// the tree is a leaf of that class. At the greatest depth, or where
    /// the best split leaves a side empty, it is a leaf of the class of the
    /// most rows, drawn by the generator of the tree if there is a tie.
    /// Otherwise it is the best split, over a tree grown on each side.
    pub fn build_tree<T, U>(
        &mut self,
        df: &T,
        y: &U,
        mask: &Mask,
        mtry: usize,
        shadow_vars: bool,
        max_tree_depth: Option<usize>,
    ) where T: DataInterface<Y>, U: Response<Y>
        requires
            old(self).nodes().len() == 0,
            old(self).cols().len() == 0,
            mask@.len() > 0,
            within(mask@, df.nrow()),
            y.responses().len() == df.nrow(),
            forall|rows: Seq<usize>|
                0 < rows.len() <= mask@.len() && within(rows, df.nrow()) ==> #[trigger] df.searchable(
                    rows,
                    mtry,
                    old(self).factory(),
                    shadow_vars,
                ),
        ensures
            is_tree(final(self).nodes()),
            grown(
                final(self).nodes(),
                final(self).nodes().len() - 1,
                df,
                y.responses(),
                mask@,
                0,
                Growth {
                    mtry,
                    shadow_vars,
                    factory: old(self).factory(),
                    max_depth: max_tree_depth,
                },
            ),
            final(self).cols() == columns_of(final(self).nodes(), final(self).nodes().len()),
            final(self).applies_to(df),
            final(self).cache_empty() == old(self).cache_empty(),
            final(self).factory() == old(self).factory(),
            final(self).ith() == old(self).ith(),
    {
        proof {
            mask.lemma_len_fits();
            assert(self.cols() =~= columns_of(self.nodes(), self.nodes().len()));
        }
        self._build_tree(df, y, mask, mtry, shadow_vars, max_tree_depth, 0);
    }

    fn _build_tree<T, U>(
        &mut self,
        df: &T,
        y: &U,
        mask: &Mask,
        mtry: usize,
        shadow_vars: bool,
        max_tree_depth: Option<usize>,
        tree_depth: usize,
    ) -> (handle: NodeHandle) where T: DataInterface<Y>, U: Response<Y>
        requires
            arena_in_order(old(self).nodes()),
            old(self).cols() == columns_of(old(self).nodes(), old(self).nodes().len()),
            old(self).applies_to(df),
            mask@.len() > 0,
            within(mask@, df.nrow()),
            y.responses().len() == df.nrow(),
            tree_depth + mask@.len() <= usize::MAX,
            forall|rows: Seq<usize>|
                0 < rows.len() <= mask@.len() && within(rows, df.nrow()) ==> #[trigger] df.searchable(
                    rows,
                    mtry,
                    old(self).factory(),
                    shadow_vars,
                ),
        ensures
            old(self).nodes().is_prefix_of(final(self).nodes()),
            handle == final(self).nodes().len() - 1,
            first_of(final(self).nodes(), handle as int) == old(self).nodes().len(),
            arena_in_order(final(self).nodes()),
            grown(
                final(self).nodes(),
                handle as int,
                df,
                y.responses(),
                mask@,
                tree_depth as nat,
                Growth {
                    mtry,
                    shadow_vars,
                    factory: old(self).factory(),
                    max_depth: max_tree_depth,
                },
            ),
            final(self).cols() == columns_of(final(self).nodes(), final(self).nodes().len()),
            final(self).applies_to(df),
            final(self).cache_empty() == old(self).cache_empty(),
            final(self).factory() == old(self).factory(),
            final(self).ith() == old(self).ith(),
        decreases mask@.len(),
    {
        let ghost before = self.nodes();
        let ghost how = Growth {
            mtry,
            shadow_vars,
            factory: self.factory(),
            max_depth: max_tree_depth,
        };
        let class = y.get_class(mask);
        if let Some(x) = class {
            let node = Node::create_leaf(x);
            proof {
                lemma_push_in_order(before, node);
            }
            let handle = self.push_node(node);
            proof {
                self.lemma_leaf_applies(before, node, df);
            }
            return handle;
        }
        let at_depth = match max_tree_depth {
            Some(m) => tree_depth >= m,
            None => false,
        };
        if at_depth {
            let major_class = y.get_major_class(mask, &mut self.rng);
            let node = Node::create_leaf(major_class);
            proof {
                lemma_push_in_order(before, node);
            }
            let handle = self.push_node(node);
            proof {
                self.lemma_leaf_applies(before, node, df);
            }
            return handle;
        }
        let factory = self.rng_factory;
        assert(factory == old(self).factory());
        assert(df.searchable(mask@, mtry, factory, shadow_vars));
        let split_idx = df.find_min_idx(mask, y, mtry, &mut self.rng, &factory, shadow_vars);
        let masks = df.make_split(split_idx, mask, &factory, None);
        let ghost left = left_rows(df, split_idx, None, mask@);
        let ghost right = right_rows(df, split_idx, None, mask@);
        proof {
            lemma_sides(df, split_idx, None, mask@);
            assert(masks[0]@ == left) by {
                lemma_filter_agree(
                    mask@,
                    |row: usize| df.goes_left(split_idx, None, row),
                    |row: usize| df.goes_left(split_idx, crate::data_interface::owned(None), row),
                );
            }
            assert(masks[1]@ == right) by {
                lemma_filter_agree(
                    mask@,
                    |row: usize| !df.goes_left(split_idx, None, row),
                    |row: usize| !df.goes_left(split_idx, crate::data_interface::owned(None), row),
                );
            }
        }
        if masks[0].len() == 0 || masks[1].len() == 0 {
            assert(split_fails(df, y.responses(), mask@, how)) by {
                assert(df.chooses(
                    mask@,
                    y.responses(),
                    how.mtry,
                    how.factory,
                    how.shadow_vars,
                    split_idx,
                ));
            }
            let major_class = y.get_major_class(mask, &mut self.rng);
            let node = Node::create_leaf(major_class);
            proof {
                lemma_push_in_order(before, node);
            }
            let handle = self.push_node(node);
            proof {
                self.lemma_leaf_applies(before, node, df);
            }
            return handle;
        }
        proof {
            lemma_within_part(mask@, left, df.nrow());
            lemma_within_part(mask@, right, df.nrow());
            assert(self.factory() == old(self).factory());
        }
        let l_node = self._build_tree(
            df,
            y,
            &masks[0],
            mtry,
            shadow_vars,
            max_tree_depth,
            tree_depth + 1,
        );
        let ghost middle = self.nodes();
        let r_node = self._build_tree(
            df,
            y,
            &masks[1],
            mtry,
            shadow_vars,
            max_tree_depth,
            tree_depth + 1,
        );
        let ghost grown_both = self.nodes();
        let node = Node::create_split(split_idx, l_node, r_node);
        proof {
            let long = grown_both.push(node);
            lemma_children_before(grown_both, r_node as int);
            lemma_first_of_prefix(grown_both, long, r_node as int);
            lemma_first_of_prefix(middle, grown_both, l_node as int);
            lemma_first_of_prefix(grown_both, long, l_node as int);
            assert(node_in_place(long, grown_both.len() as int));
            lemma_push_in_order(grown_both, node);
            lemma_grown_prefix(
                middle,
                long,
                l_node as int,
                df,
                y.responses(),
                left,
                (tree_depth + 1) as nat,
                how,
            );
            lemma_grown_prefix(
                grown_both,
                long,
                r_node as int,
                df,
                y.responses(),
                right,
                (tree_depth + 1) as nat,
                how,
            );
        }
        let handle = self.push_node(node);
        proof {
            assert forall|at: int, col: SplitColId|
                0 <= at < self.nodes().len() && #[trigger] splits_on(
                    self.nodes(),
                    at,
                    col,
                ) implies df.knows(col) by {
                if at < grown_both.len() {
                    assert(splits_on(grown_both, at, col));
                }
            }
        }
        handle
    }

    /// A tree that applied to a table still does after a leaf is appended.
    proof fn lemma_leaf_applies<T: DataInterface<Y>>(&self, before: Seq<Node<Y>>, node: Node<Y>, df: &T)
        requires
            node is Lf,
            self.nodes() == before.push(node),
            forall|at: int, col: SplitColId|
                0 <= at < before.len() && #[trigger] splits_on(before, at, col) ==> df.knows(col),
        ensures
            self.applies_to(df),
    {
        assert forall|at: int, col: SplitColId|
            0 <= at < self.nodes().len() && #[trigger] splits_on(
                self.nodes(),
                at,
                col,
            ) implies df.knows(col) by {
            if at < before.len() {
                assert(splits_on(before, at, col));
            }
        }
    }

    /// Whether the tree is one tree and knows the columns of its splits.
    pub open spec fn wf(&self) -> bool {
        &&& is_tree(self.nodes())
        &&& self.cols() == columns_of(self.nodes(), self.nodes().len())
    }

    /// Whether the caches hold what the first prediction of `rows` on the
    /// table leaves in them.
    pub open spec fn cached_for<D: DataInterface<Y>>(
        &self,
        df: &D,
        rows: Seq<usize>,
        ranks: Seq<usize>,
    ) -> bool {
        &&& self.cache().masks.len() == self.nodes().len()
        &&& self.cache().pred_ranges.len() == self.nodes().len()
        &&& self.cache().split_ranges.len() == self.nodes().len()
        &&& self.cache().holds_upto(self.nodes(), df, rows, ranks, self.nodes().len() as int)
        &&& only_from_splits(self.cache().places, self.nodes(), self.nodes().len() as int)
        &&& self.cache().masks[self.nodes().len() - 1] == rows
    }

    /// The tree of the given nodes, if they are one tree: every split
    /// right behind its right subtree, and that right behind its left one.
    pub fn from_nodes(ith_tree: usize, rng_factory: &RngFactory, nodes: Vec<Node<Y>>) -> (made: Option<
        Tree<Y>,
    >)
        requires
            rng_factory@.serves(Stream::Tree { tree: ith_tree as nat }),
        ensures
            made is Some <==> is_tree(nodes@),
            made matches Some(tree) ==> {
                &&& tree.nodes() == nodes@
                &&& tree.wf()
                &&& tree.cache_empty()
                &&& tree.rng_state() == rng_factory@.start(Stream::Tree { tree: ith_tree as nat })
                &&& tree.factory() == *rng_factory
                &&& tree.ith() == ith_tree
            },
    {
        let mut tree: Tree<Y> = Tree::new(ith_tree, rng_factory);
        let mut firsts: Vec<usize> = Vec::with_capacity(nodes.len());
        let mut at: usize = 0;
        assert(tree.cols() =~= columns_of(tree.nodes(), 0));
        while at < nodes.len()
            invariant
                at <= nodes@.len(),
                firsts@.len() == at,
                tree.nodes() == nodes@.take(at as int),
                tree.cols() == columns_of(tree.nodes(), at as nat),
                tree.cache_empty(),
                tree.rng_state() == rng_factory@.start(Stream::Tree { tree: ith_tree as nat }),
                tree.factory() == *rng_factory,
                tree.ith() == ith_tree,
                forall|w: int| 0 <= w < at ==> #[trigger] node_in_place(nodes@, w),
                forall|w: int| 0 <= w < at ==> #[trigger] firsts@[w] == first_of(nodes@, w),
            decreases nodes@.len() - at,
        {
            let node = nodes[at];
            match node {
                Node::Lf(_) => {
                    firsts.push(at);
                },
                Node::Sp(s) => {
                    if at == 0 || s.r_child_idx != at - 1 || s.l_child_idx >= s.r_child_idx {
                        assert(!node_in_place(nodes@, at as int));
                        return None;
                    }
                    let begin = firsts[s.r_child_idx];
                    if begin == 0 || s.l_child_idx != begin - 1 {
                        assert(!node_in_place(nodes@, at as int));
                        return None;
                    }
                    firsts.push(firsts[s.l_child_idx]);
                },
            }
            tree.push_node(node);
            at = at + 1;
            assert(tree.nodes() =~= nodes@.take(at as int));
        }
        assert(nodes@.take(at as int) =~= nodes@);
        if nodes.len() == 0 || firsts[nodes.len() - 1] != 0 {
            return None;
        }
        Some(tree)
    }

    /// The classes that the tree gives the rows of the mask, in the order
    /// of the mask. `mask_ranks` gives every row of the mask its place in
    /// the mask.
    ///
    /// Without a permuted column this is the first prediction, which fills
    /// the caches. With one, splits on that column read the column as
    /// [`DataInterface::permute_index`] gives it, and the result is what
    /// walking the whole tree on such a table gives, though subtrees
    /// without a split on the column are taken from the caches.
    pub fn predict<T: DataInterface<Y>>(
        &mut self,
        df: &T,
        mask: &Mask,
        permuted_col: Option<SplitColId>,
        mask_ranks: &[usize],
    ) -> (out: Predicted<Y>)
        requires
            is_tree(old(self).nodes()),
            old(self).applies_to(df),
            within(mask@, df.nrow()),
            rank_inverse(mask@, mask_ranks@),
            match permuted_col {
                None => old(self).cache_empty(),
                Some(col) => {
                    &&& old(self).cached_for(df, mask@, mask_ranks@)
                    &&& df.knows(col)
                    &&& df.permutable(col, old(self).factory(), mask@, old(self).ith())
                },
            },
        ensures
            final(self).same_tree(old(self)),
            final(self).cached_for(df, mask@, mask_ranks@),
            permuted_col is None ==> out@ == predictions(final(self).nodes(), df, None, None, mask@),
            permuted_col matches Some(col) ==> final(self).cache() == old(self).cache() && exists|
                column: T::InternalType,
            |
                {
                    &&& df.is_permuted(col, final(self).factory(), mask@, final(self).ith(), column)
                    &&& #[trigger] df.stands_in(column)
                    &&& out@ == predictions(
                        final(self).nodes(),
                        df,
                        Some(col),
                        Some(column),
                        mask@,
                    )
                },
    {
        let ghost nodes = self.nodes();
        let mut preds: Vec<Option<Y>> = Vec::with_capacity(mask.len());
        let mut k: usize = 0;
        while k < mask.len()
            invariant
                k <= mask@.len(),
                preds@.len() == k,
            decreases mask@.len() - k,
        {
            preds.push(None);
            k = k + 1;
        }
        let ghost before = preds@;
        let ghost replaced: Option<T::InternalType> = None;
        proof {
            mask.lemma_len_fits();
            assert(part_of(mask@, mask@));
        }
        match permuted_col {
            None => {
                self._predict_write_cache(df, mask, None, &mut preds, mask_ranks, 0, Ghost(mask@));
            },
            Some(col) => {
                let factory = self.rng_factory;
                let permuted_vec = df.permute_index(col, &factory, mask, self.ith_tree);
                proof {
                    replaced = Some(permuted_vec);
                }
                self._predict(
                    df,
                    mask,
                    permuted_col,
                    &permuted_vec,
                    None,
                    false,
                    &mut preds,
                    mask_ranks,
                    Ghost(mask@),
                );
            },
        }
        let mut out: Vec<Y> = Vec::with_capacity(preds.len());
        let mut k: usize = 0;
        while k < preds.len()
            invariant
                k <= preds@.len(),
                preds@.len() == mask@.len(),
                before.len() == mask@.len(),
                predicted(
                    before,
                    preds@,
                    mask@,
                    mask@,
                    nodes,
                    nodes.len() - 1,
                    df,
                    permuted_col,
                    replaced,
                ),
                out@ == predictions(nodes, df, permuted_col, replaced, mask@).take(k as int),
            decreases preds@.len() - k,
        {
            assert(mask@.contains(mask@[k as int]));
            assert(preds@[k as int] == Some(
                classify(nodes, nodes.len() - 1, df, permuted_col, replaced, mask@[k as int]),
            ));
            out.push(preds[k].unwrap());
            k = k + 1;
            assert(out@ =~= predictions(nodes, df, permuted_col, replaced, mask@).take(k as int));
        }
        assert(out@ =~= predictions(nodes, df, permuted_col, replaced, mask@));
        out
    }

    /// The importance that the tree gives every column that it splits on,
    /// on the rows of the mask: how many more of the rows it predicts wrong
    /// when the column is permuted on these rows. The columns come in the
    /// order in which the tree first splits on them.
    pub fn importance<T, U>(&mut self, df: &T, y: &U, mask: &Mask) -> (imp: ImportanceTree) where
        T: DataInterface<Y>,
        U: Response<Y>,

        requires
            old(self).wf(),
            old(self).applies_to(df),
            old(self).cache_empty(),
            within(mask@, df.nrow()),
            y.responses().len() == df.nrow(),
            strictly_ascending(mask@),
            mask@.len() <= i64::MAX,
            forall|col: SplitColId|
                df.knows(col) ==> #[trigger] df.permutable(
                    col,
                    old(self).factory(),
                    mask@,
                    old(self).ith(),
                ),
        ensures
            final(self).same_tree(old(self)),
            imp@.len() == final(self).cols().len(),
            forall|k: int|
                0 <= k < imp@.len() ==> (#[trigger] imp@[k]).0 == final(self).cols()[k]
                    && is_importance(
                    final(self).nodes(),
                    df,
                    y.responses(),
                    mask@,
                    final(self).factory(),
                    final(self).ith(),
                    imp@[k].0,
                    imp@[k].1,
                ),
    {
        let ghost nodes = self.nodes();
        let rows = mask.get_mask();
        let n = y.len();
        let mut mask_ranks: Vec<usize> = Vec::with_capacity(n);
        let mut r: usize = 0;
        while r < n
            invariant
                r <= n,
                mask_ranks@.len() == r,
            decreases n - r,
        {
            mask_ranks.push(usize::MAX);
            r = r + 1;
        }
        let mut rank: usize = 0;
        while rank < rows.len()
            invariant
                rank <= rows@.len(),
                rows@ == mask@,
                strictly_ascending(mask@),
                within(mask@, df.nrow()),
                mask_ranks@.len() == df.nrow(),
                forall|j: int| 0 <= j < rank ==> mask_ranks@[(#[trigger] mask@[j]) as int] == j,
            decreases rows@.len() - rank,
        {
            mask_ranks[rows[rank]] = rank;
            rank = rank + 1;
        }
        proof {
            lemma_ranks_written(mask@, mask_ranks@);
            lemma_columns_of(nodes, nodes.len());
        }
        let preds = self.predict(df, mask, None, mask_ranks.as_slice());
        let mut importance: ImportanceTree = Vec::new();
        let pred_err = y.pred_incorrect(mask, &preds);
        proof {
            lemma_mismatches_bounded(gathered(mask@, y.responses()), preds@);
        }
        let mut k: usize = 0;
        while k < self.split_cols.len()
            invariant
                k <= self.split_cols@.len(),
                self.same_tree(old(self)),
                self.nodes() == nodes,
                is_tree(nodes),
                self.applies_to(df),
                self.cols() == self.split_cols@,
                self.cols() == columns_of(nodes, nodes.len()),
                self.cached_for(df, mask@, mask_ranks@),
                within(mask@, df.nrow()),
                y.responses().len() == df.nrow(),
                rank_inverse(mask@, mask_ranks@),
                mask@.len() <= i64::MAX,
                pred_err == errors(nodes, df, y.responses(), mask@, None, None),
                pred_err <= mask@.len(),
                forall|col: SplitColId|
                    df.knows(col) ==> #[trigger] df.permutable(
                        col,
                        self.factory(),
                        mask@,
                        self.ith(),
                    ),
                importance@.len() == k,
                forall|t: int|
                    0 <= t < k ==> (#[trigger] importance@[t]).0 == self.cols()[t] && is_importance(
                        nodes,
                        df,
                        y.responses(),
                        mask@,
                        self.factory(),
                        self.ith(),
                        importance@[t].0,
                        importance@[t].1,
                    ),
            decreases self.split_cols@.len() - k,
        {
            let col = self.split_cols[k];
            proof {
                lemma_columns_of(nodes, nodes.len());
                assert(tested(nodes, 0, nodes.len() - 1, columns_of(nodes, nodes.len())[k as int]));
                let at = choose|at: int|
                    0 <= at <= nodes.len() - 1 && 0 <= at < nodes.len() && #[trigger] splits_on(
                        nodes,
                        at,
                        col,
                    );
                assert(df.knows(col));
            }
            let preds_perm = self.predict(df, mask, Some(col), mask_ranks.as_slice());
            let pred_perm_err = y.pred_incorrect(mask, &preds_perm);
            proof {
                lemma_mismatches_bounded(gathered(mask@, y.responses()), preds_perm@);
            }
            let gain = pred_perm_err as i64 - pred_err as i64;
            importance.push((col, gain));
            k = k + 1;
        }
        importance
    }

    /// The first prediction: predicts the rows of the mask with the subtree
    /// at `node_id`, and fills the caches for the nodes of the subtree.
    /// `split_idx` is the number of splits closed so far; the number after
    /// the subtree is returned.
    fn _predict_write_cache<T: DataInterface<Y>>(
        &mut self,
        df: &T,
        mask: &Mask,
        node_id: Option<NodeHandle>,
        preds: &mut Vec<Option<Y>>,
        mask_ranks: &[usize],
        split_idx: usize,
        Ghost(rows): Ghost<Seq<usize>>,
    ) -> (next: usize)
        requires
            arena_in_order(old(self).nodes()),
            0 <= target(node_id, old(self).nodes().len()) < old(self).nodes().len(),
            old(self).applies_to(df),
            old(self).cache().masks.len() == first_of(
                old(self).nodes(),
                target(node_id, old(self).nodes().len()),
            ),
            old(self).cache().pred_ranges.len() == old(self).cache().masks.len(),
            old(self).cache().split_ranges.len() == old(self).cache().masks.len(),
            old(self).cache().holds_upto(
                old(self).nodes(),
                df,
                rows,
                mask_ranks@,
                old(self).cache().masks.len() as int,
            ),
            part_of(mask@, rows),
            within(rows, df.nrow()),
            rank_inverse(rows, mask_ranks@),
            old(preds)@.len() == rows.len(),
            old(self).cache().preds.len() + mask@.len() <= usize::MAX,
            split_idx == splits_before(old(self).nodes(), old(self).cache().masks.len() as int),
            only_from_splits(
                old(self).cache().places,
                old(self).nodes(),
                old(self).cache().masks.len() as int,
            ),
        ensures
            next == splits_before(
                old(self).nodes(),
                target(node_id, old(self).nodes().len()) + 1,
            ),
            only_from_splits(
                final(self).cache().places,
                final(self).nodes(),
                final(self).cache().masks.len() as int,
            ),
            final(self).same_tree(old(self)),
            final(self).cache().masks.len() == target(node_id, old(self).nodes().len()) + 1,
            final(self).cache().pred_ranges.len() == final(self).cache().masks.len(),
            final(self).cache().split_ranges.len() == final(self).cache().masks.len(),
            final(self).cache().holds_upto(
                final(self).nodes(),
                df,
                rows,
                mask_ranks@,
                final(self).cache().masks.len() as int,
            ),
            old(self).cache().kept_in(final(self).cache()),
            final(self).cache().masks[target(node_id, old(self).nodes().len())] == mask@,
            final(self).cache().preds.len() == old(self).cache().preds.len() + mask@.len(),
            final(self).cache().pred_ranges[target(node_id, old(self).nodes().len())] == (
                old(self).cache().preds.len() as usize,
                final(self).cache().preds.len() as usize,
            ),
            final(self).cache().split_ranges[target(node_id, old(self).nodes().len())].0 == split_idx,
            final(self).cache().split_ranges[target(node_id, old(self).nodes().len())].1 <= next,
            split_idx <= next <= target(node_id, old(self).nodes().len()) + 1,
            predicted(
                old(preds)@,
                final(preds)@,
                rows,
                mask@,
                final(self).nodes(),
                target(node_id, old(self).nodes().len()),
                df,
                None,
                None,
            ),
        decreases target(node_id, old(self).nodes().len()),
    {
        let ghost nodes = self.nodes();
        let ghost v = target(node_id, nodes.len());
        let ghost before = preds@;
        let ghost early = self.cache();
        let at = match node_id {
            None => self.tree.len() - 1,
            Some(nid) => nid,
        };
        let node = self.tree[at];
        proof {
            lemma_children_before(nodes, v);
            lemma_part_within(mask@, rows, df.nrow());
            lemma_splits_before_grows(nodes, 0, v);
            lemma_splits_before_grows(nodes, 0, first_of(nodes, v));
        }
        match node {
            Node::Lf(leaf) => {
                self.cache_leaf(
                    df,
                    mask,
                    leaf.get_class(),
                    preds,
                    mask_ranks,
                    split_idx,
                    Ghost(rows),
                );
                split_idx
            },
            Node::Sp(split) => {
                let factory = self.rng_factory;
                assert(splits_on(nodes, v, split.split_index.column()));
                let masks = df.make_split(split.split_index, mask, &factory, None);
                let ghost left = left_rows(df, split.split_index, None, mask@);
                let ghost right = right_rows(df, split.split_index, None, mask@);
                proof {
                    lemma_sides(df, split.split_index, None, mask@);
                    lemma_sides_part(df, split.split_index, None, mask@, rows);
                    assert(masks[0]@ == left) by {
                        lemma_filter_agree(
                            mask@,
                            |row: usize| df.goes_left(split.split_index, None, row),
                            |row: usize|
                                df.goes_left(
                                    split.split_index,
                                    crate::data_interface::owned(None),
                                    row,
                                ),
                        );
                    }
                    assert(masks[1]@ == right) by {
                        lemma_filter_agree(
                            mask@,
                            |row: usize| !df.goes_left(split.split_index, None, row),
                            |row: usize|
                                !df.goes_left(
                                    split.split_index,
                                    crate::data_interface::owned(None),
                                    row,
                                ),
                        );
                    }
                    lemma_children_before(nodes, split.l_child_idx as int);
                    lemma_children_before(nodes, split.r_child_idx as int);
                }
                let preds_len_0 = self.preds_cache.len();
                let mut new_idx = self._predict_write_cache(
                    df,
                    &masks[0],
                    Some(split.l_child_idx),
                    preds,
                    mask_ranks,
                    split_idx,
                    Ghost(rows),
                );
                let ghost mid = preds@;
                let ghost mid_cache = self.cache();
                new_idx = self._predict_write_cache(
                    df,
                    &masks[1],
                    Some(split.r_child_idx),
                    preds,
                    mask_ranks,
                    new_idx,
                    Ghost(rows),
                );
                let ghost both = self.cache();
                proof {
                    let l = split.l_child_idx as int;
                    let r = split.r_child_idx as int;
                    assert(node_in_place(nodes, v));
                    assert(new_idx == splits_before(nodes, v));
                    assert(both.masks[l] == mid_cache.masks[l]);
                    assert(both.pred_ranges[l] == mid_cache.pred_ranges[l]);
                    assert(both.split_ranges[l] == mid_cache.split_ranges[l]);
                    assert(read_from::<T::InternalType>(split, None, None) == None::<T::InternalType>);
                    lemma_predicted_split(before, mid, preds@, rows, mask@, nodes, v, df, None, None);
                }
                self.cache_split(
                    df,
                    mask,
                    split,
                    split_idx,
                    new_idx,
                    preds_len_0,
                    Ghost(rows),
                    Ghost(mask_ranks@),
                );
                proof {
                    let later = self.cache();
                    assert(early.kept_in(later)) by {
                        assert(early.kept_in(mid_cache));
                        assert(mid_cache.kept_in(both));
                        assert(both.kept_in(later));
                    }
                    assert(node_in_place(nodes, v));
                    assert(new_idx <= v);
                    assert(self.tree.len() == nodes.len());
                }
                new_idx + 1
            },
        }
    }

    /// Predicts the rows of the mask with the subtree at `node_id`, reading
    /// `permuted_vec` in place of the permuted column. A subtree that the
    /// rows reach as in the first prediction, and that has no split on the
    /// permuted column, is not walked: its predictions are taken from the
    /// caches.
    fn _predict<T: DataInterface<Y>>(
        &self,
        df: &T,
        mask: &Mask,
        permuted_col: Option<SplitColId>,
        permuted_vec: &T::InternalType,
        node_id: Option<NodeHandle>,
        altered: bool,
        preds: &mut Vec<Option<Y>>,
        mask_ranks: &[usize],
        Ghost(rows): Ghost<Seq<usize>>,
    )
        requires
            arena_in_order(self.nodes()),
            0 <= target(node_id, self.nodes().len()) < self.nodes().len(),
            self.applies_to(df),
            df.stands_in(*permuted_vec),
            permuted_col is Some,
            self.cache().masks.len() == self.nodes().len(),
            self.cache().pred_ranges.len() == self.nodes().len(),
            self.cache().split_ranges.len() == self.nodes().len(),
            self.cache().holds_upto(self.nodes(), df, rows, mask_ranks@, self.nodes().len() as int),
            only_from_splits(self.cache().places, self.nodes(), self.nodes().len() as int),
            part_of(mask@, rows),
            within(rows, df.nrow()),
            rank_inverse(rows, mask_ranks@),
            old(preds)@.len() == rows.len(),
            !altered ==> mask@ == self.cache().masks[target(node_id, self.nodes().len())],
        ensures
            predicted(
                old(preds)@,
                final(preds)@,
                rows,
                mask@,
                self.nodes(),
                target(node_id, self.nodes().len()),
                df,
                permuted_col,
                Some(*permuted_vec),
            ),
        decreases target(node_id, self.nodes().len()),
    {
        let ghost nodes = self.nodes();
        let ghost v = target(node_id, nodes.len());
        let ghost before = preds@;
        let ghost c = self.cache();
        let ghost replaced = Some(*permuted_vec);
        let at = match node_id {
            None => self.tree.len() - 1,
            Some(nid) => nid,
        };
        let node = self.tree[at];
        proof {
            lemma_children_before(nodes, v);
            lemma_part_within(mask@, rows, df.nrow());
        }
        match node {
            Node::Lf(leaf) => {
                let class = leaf.get_class();
                let picked = mask.get_mask();
                let mut k: usize = 0;
                while k < picked.len()
                    invariant
                        k <= picked@.len(),
                        picked@ == mask@,
                        part_of(mask@, rows),
                        rank_inverse(rows, mask_ranks@),
                        before.len() == rows.len(),
                        preds@.len() == rows.len(),
                        forall|j: int|
                            0 <= j < rows.len() ==> #[trigger] preds@[j] == if mask@.take(
                                k as int,
                            ).contains(rows[j]) {
                                Some(class)
                            } else {
                                before[j]
                            },
                    decreases picked@.len() - k,
                {
                    let row = picked[k];
                    proof {
                        assert(rows.contains(mask@[k as int]));
                        lemma_ranked(rows, mask_ranks@, row);
                        assert(mask@.take(k + 1) =~= mask@.take(k as int).push(row));
                        assert forall|j: int| 0 <= j < rows.len() implies (mask@.take(k + 1).contains(
                            rows[j],
                        ) <==> mask@.take(k as int).contains(rows[j]) || j == mask_ranks@[row as int]) by {
                            lemma_push_contains(mask@.take(k as int), row, rows[j]);
                        }
                    }
                    preds[mask_ranks[row]] = Some(class);
                    k = k + 1;
                }
                assert(mask@.take(k as int) =~= mask@);
            },
            Node::Sp(split) => {
                let col = permuted_col.unwrap();
                let permute = col == split.split_index.get_col_id();
                let ghost read = read_from(split, permuted_col, replaced);
                let ghost left = left_rows(df, split.split_index, read, mask@);
                let ghost right = right_rows(df, split.split_index, read, mask@);
                let factory = self.rng_factory;
                let from_cache = self.mask_cache.len() > 0 && !permute && !altered;
                let own: Option<[Mask; 2]> = if from_cache {
                    None
                } else {
                    assert(splits_on(nodes, v, split.split_index.column()));
                    if permute {
                        Some(df.make_split(split.split_index, mask, &factory, Some(permuted_vec)))
                    } else {
                        Some(df.make_split(split.split_index, mask, &factory, None))
                    }
                };
                let l_mask: &Mask = match &own {
                    Some(sides) => &sides[0],
                    None => &self.mask_cache[split.l_child_idx],
                };
                let r_mask: &Mask = match &own {
                    Some(sides) => &sides[1],
                    None => &self.mask_cache[split.r_child_idx],
                };
                proof {
                    assert(c.holds(nodes, df, rows, mask_ranks@, v));
                    lemma_sides_part(df, split.split_index, read, mask@, rows);
                    if from_cache {
                        assert(l_mask@ == c.masks[split.l_child_idx as int]);
                        assert(r_mask@ == c.masks[split.r_child_idx as int]);
                    } else {
                        lemma_filter_agree(
                            mask@,
                            |row: usize| df.goes_left(split.split_index, read, row),
                            |row: usize|
                                df.goes_left(
                                    split.split_index,
                                    crate::data_interface::owned(
                                        if permute {
                                            Some(permuted_vec)
                                        } else {
                                            None
                                        },
                                    ),
                                    row,
                                ),
                        );
                        lemma_filter_agree(
                            mask@,
                            |row: usize| !df.goes_left(split.split_index, read, row),
                            |row: usize|
                                !df.goes_left(
                                    split.split_index,
                                    crate::data_interface::owned(
                                        if permute {
                                            Some(permuted_vec)
                                        } else {
                                            None
                                        },
                                    ),
                                    row,
                                ),
                        );
                    }
                    assert(l_mask@ == left);
                    assert(r_mask@ == right);
                }
                let mut done = false;
                if !permute && !altered {
                    done = self._preds_read_cache(
                        df,
                        split.l_child_idx,
                        &col,
                        preds,
                        Ghost(rows),
                        Ghost(mask_ranks@),
                        Ghost(replaced),
                    );
                }
                if !done {
                    self._predict(
                        df,
                        l_mask,
                        permuted_col,
                        permuted_vec,
                        Some(split.l_child_idx),
                        altered || permute,
                        preds,
                        mask_ranks,
                        Ghost(rows),
                    );
                }
                let ghost mid = preds@;
                let mut done = false;
                if !permute && !altered {
                    done = self._preds_read_cache(
                        df,
                        split.r_child_idx,
                        &col,
                        preds,
                        Ghost(rows),
                        Ghost(mask_ranks@),
                        Ghost(replaced),
                    );
                }
                if !done {
                    self._predict(
                        df,
                        r_mask,
                        permuted_col,
                        permuted_vec,
                        Some(split.r_child_idx),
                        altered || permute,
                        preds,
                        mask_ranks,
                        Ghost(rows),
                    );
                }
                proof {
                    lemma_predicted_split(
                        before,
                        mid,
                        preds@,
                        rows,
                        mask@,
                        nodes,
                        v,
                        df,
                        permuted_col,
                        replaced,
                    );
                }
            },
        }
    }

    /// Writes the cached predictions of the subtree at `node_id`, if it is
    /// a split, no split in it is on the permuted column, and its run in
    /// the cache begins before the end of the cache. Says whether it did.
    fn _preds_read_cache<T: DataInterface<Y>>(
        &self,
        df: &T,
        node_id: usize,
        permuted_col: &SplitColId,
        preds: &mut Vec<Option<Y>>,
        Ghost(rows): Ghost<Seq<usize>>,
        Ghost(ranks): Ghost<Seq<usize>>,
        Ghost(replaced): Ghost<Option<T::InternalType>>,
    ) -> (replayed: bool)
        requires
            arena_in_order(self.nodes()),
            node_id < self.nodes().len(),
            self.cache().masks.len() == self.nodes().len(),
            self.cache().pred_ranges.len() == self.nodes().len(),
            self.cache().split_ranges.len() == self.nodes().len(),
            self.cache().holds_upto(self.nodes(), df, rows, ranks, self.nodes().len() as int),
            only_from_splits(self.cache().places, self.nodes(), self.nodes().len() as int),
            rank_inverse(rows, ranks),
            old(preds)@.len() == rows.len(),
        ensures
            replayed == {
                &&& self.nodes()[node_id as int] is Sp
                &&& !tested(
                    self.nodes(),
                    first_of(self.nodes(), node_id as int),
                    node_id as int,
                    *permuted_col,
                )
                &&& self.cache().pred_ranges[node_id as int].0 < self.cache().preds.len()
            },
            replayed ==> predicted(
                old(preds)@,
                final(preds)@,
                rows,
                self.cache().masks[node_id as int],
                self.nodes(),
                node_id as int,
                df,
                Some(*permuted_col),
                replaced,
            ),
            !replayed ==> final(preds)@ == old(preds)@,
    {
        let ghost nodes = self.nodes();
        let ghost c = self.cache();
        let ghost v = node_id as int;
        let ghost before = preds@;
        let node = self.tree[node_id];
        if let Node::Sp(_) = node {
            assert(c.holds(nodes, df, rows, ranks, v));
            let range = self.split_idx_cache_range[node_id];
            let mut m: usize = 0;
            while m < self.split_mask_map.len()
                invariant
                    m <= self.split_mask_map@.len(),
                    c == self.cache(),
                    nodes == self.nodes(),
                    v == node_id,
                    arena_in_order(nodes),
                    0 <= v < nodes.len(),
                    nodes[v] is Sp,
                    only_from_splits(c.places, nodes, nodes.len() as int),
                    range.0 == splits_before(nodes, first_of(nodes, v)),
                    range.1 == splits_before(nodes, v),
                    preds@ == before,
                    range == c.split_ranges[v],
                    forall|n: int, e: usize|
                        0 <= n < m && (#[trigger] c.places[n]).0 == *permuted_col
                            && #[trigger] c.places[n].1.contains(e) ==> !(range.0 <= e <= range.1),
                decreases self.split_mask_map@.len() - m,
            {
                if self.split_mask_map[m].0 == *permuted_col {
                    let idxs = &self.split_mask_map[m].1;
                    assert(idxs@ == c.places[m as int].1);
                    let mut t: usize = 0;
                    while t < idxs.len()
                        invariant
                            t <= idxs@.len(),
                            preds@ == before,
                            m < c.places.len(),
                            idxs@ == c.places[m as int].1,
                            c.places[m as int].0 == *permuted_col,
                            c == self.cache(),
                            nodes == self.nodes(),
                            v == node_id,
                            arena_in_order(nodes),
                            0 <= v < nodes.len(),
                            nodes[v] is Sp,
                            only_from_splits(c.places, nodes, nodes.len() as int),
                            range.0 == splits_before(nodes, first_of(nodes, v)),
                            range.1 == splits_before(nodes, v),
                            forall|u: int|
                                0 <= u < t ==> !(range.0 <= (#[trigger] idxs@[u]) <= range.1),
                        decreases idxs@.len() - t,
                    {
                        let idx = idxs[t];
                        if range.0 <= idx && range.1 >= idx {
                            proof {
                                assert(c.places[m as int].1.contains(idx));
                                assert(listed(c.places, *permuted_col, idx));
                                let w = choose|w: int|
                                    0 <= w < nodes.len() && w < nodes.len() && #[trigger] splits_on(
                                        nodes,
                                        w,
                                        *permuted_col,
                                    ) && splits_before(nodes, w) == idx;
                                lemma_children_before(nodes, v);
                                lemma_split_between(nodes, first_of(nodes, v), w, v);
                                assert(splits_on(nodes, w, *permuted_col));
                            }
                            return false;
                        }
                        t = t + 1;
                    }
                }
                m = m + 1;
            }
            proof {
                assert forall|w: int|
                    first_of(nodes, v) <= w <= v && 0 <= w < nodes.len() implies !#[trigger] splits_on(
                    nodes,
                    w,
                    *permuted_col,
                ) by {
                    if splits_on(nodes, w, *permuted_col) {
                        lemma_children_before(nodes, v);
                        assert(c.holds(nodes, df, rows, ranks, w));
                        let e = c.split_ranges[w].1;
                        assert(listed(c.places, *permuted_col, e));
                        let n = choose|n: int|
                            0 <= n < c.places.len() && (#[trigger] c.places[n]).0 == *permuted_col
                                && c.places[n].1.contains(e);
                        assert(c.places[n].1.contains(e));
                        assert(range.0 <= e <= range.1);
                    }
                }
                assert(!tested(nodes, first_of(nodes, v), v, *permuted_col));
            }
            let from = self.preds_cache_range[node_id].0;
            let to = self.preds_cache_range[node_id].1;
            if from < self.preds_cache.len() {
                let mut i: usize = from;
                while i < to
                    invariant
                        from <= i <= to,
                        to <= self.preds_cache@.len(),
                        c == self.cache(),
                        c.preds == self.preds_cache@,
                        c.pred_ranges[v] == (from, to),
                        c.holds(nodes, df, rows, ranks, v),
                        preds@.len() == rows.len(),
                        before.len() == rows.len(),
                        forall|j: int|
                            0 <= j < rows.len() ==> #[trigger] preds@[j] == if entered(
                                c.preds,
                                from as int,
                                i as int,
                                j,
                            ) {
                                Some(classify(nodes, v, df, None, None, rows[j]))
                            } else {
                                before[j]
                            },
                    decreases to - i,
                {
                    let pred = self.preds_cache[i];
                    proof {
                        assert(c.preds[i as int] == pred);
                        assert forall|j: int| 0 <= j < rows.len() implies (entered(
                            c.preds,
                            from as int,
                            i + 1,
                            j,
                        ) <==> entered(c.preds, from as int, i as int, j) || j == pred.1) by {
                            if entered(c.preds, from as int, i + 1, j) {
                                let x = choose|x: int|
                                    from <= x < i + 1 && (#[trigger] c.preds[x]).1 == j;
                                if x < i {
                                    assert(c.preds[x].1 == j);
                                }
                            }
                            if entered(c.preds, from as int, i as int, j) {
                                let x = choose|x: int| from <= x < i && (#[trigger] c.preds[x]).1 == j;
                                assert(c.preds[x].1 == j);
                            }
                        }
                    }
                    preds[pred.1] = Some(pred.0);
                    i = i + 1;
                }
                proof {
                    assert forall|j: int| 0 <= j < rows.len() && j < before.len() implies #[trigger] preds@[j]
                        == if c.masks[v].contains(rows[j]) {
                        Some(classify(nodes, v, df, Some(*permuted_col), replaced, rows[j]))
                    } else {
                        before[j]
                    } by {
                        lemma_untested_classify(nodes, v, df, *permuted_col, replaced, rows[j]);
                        if entered(c.preds, from as int, to as int, j) {
                            let x = choose|x: int| from <= x < to && (#[trigger] c.preds[x]).1 == j;
                            assert(c.masks[v].contains(rows[c.preds[x].1 as int]));
                        }
                        if c.masks[v].contains(rows[j]) {
                            let k = choose|k: int| 0 <= k < c.masks[v].len() && c.masks[v][k] == rows[j];
                            assert(c.run_has(v, ranks[c.masks[v][k] as int]));
                            assert(rows[j] < ranks.len() && ranks[rows[j] as int] == j);
                            let x = choose|x: int|
                                c.pred_ranges[v].0 <= x < c.pred_ranges[v].1 && (
                                #[trigger] c.preds[x]).1 == ranks[rows[j] as int];
                            assert(c.preds[x].1 == j);
                        }
                    }
                }
                return true;
            }
        }
        false
    }

    /// Writes the class of a leaf for the rows of the mask that came to
    /// it, into the predictions and into the caches.
    fn cache_leaf<T: DataInterface<Y>>(
        &mut self,
        df: &T,
        mask: &Mask,
        class: Y,
        preds: &mut Vec<Option<Y>>,
        mask_ranks: &[usize],
        split_idx: usize,
        Ghost(rows): Ghost<Seq<usize>>,
    )
        requires
            arena_in_order(old(self).nodes()),
            old(self).cache().masks.len() < old(self).nodes().len(),
            old(self).nodes()[old(self).cache().masks.len() as int] == Node::Lf(Leaf { class }),
            old(self).cache().pred_ranges.len() == old(self).cache().masks.len(),
            old(self).cache().split_ranges.len() == old(self).cache().masks.len(),
            old(self).cache().holds_upto(
                old(self).nodes(),
                df,
                rows,
                mask_ranks@,
                old(self).cache().masks.len() as int,
            ),
            only_from_splits(
                old(self).cache().places,
                old(self).nodes(),
                old(self).cache().masks.len() as int,
            ),
            split_idx == splits_before(old(self).nodes(), old(self).cache().masks.len() as int),
            part_of(mask@, rows),
            rank_inverse(rows, mask_ranks@),
            old(preds)@.len() == rows.len(),
            old(self).cache().preds.len() + mask@.len() <= usize::MAX,
        ensures
            only_from_splits(
                final(self).cache().places,
                final(self).nodes(),
                final(self).cache().masks.len() as int,
            ),
            final(self).same_tree(old(self)),
            final(self).cache().masks.len() == old(self).cache().masks.len() + 1,
            final(self).cache().pred_ranges.len() == final(self).cache().masks.len(),
            final(self).cache().split_ranges.len() == final(self).cache().masks.len(),
            final(self).cache().holds_upto(
                final(self).nodes(),
                df,
                rows,
                mask_ranks@,
                final(self).cache().masks.len() as int,
            ),
            old(self).cache().kept_in(final(self).cache()),
            final(self).cache().masks[old(self).cache().masks.len() as int] == mask@,
            final(self).cache().preds.len() == old(self).cache().preds.len() + mask@.len(),
            final(self).cache().pred_ranges[old(self).cache().masks.len() as int] == (
                old(self).cache().preds.len() as usize,
                final(self).cache().preds.len() as usize,
            ),
            final(self).cache().split_ranges[old(self).cache().masks.len() as int] == (
                split_idx,
                split_idx,
            ),
            predicted(
                old(preds)@,
                final(preds)@,
                rows,
                mask@,
                final(self).nodes(),
                old(self).cache().masks.len() as int,
                df,
                None,
                None,
            ),
    {
        let ghost early = self.cache();
        let ghost v = self.cache().masks.len() as int;
        let ghost nodes = self.nodes();
        let ghost before = preds@;
        let start = self.preds_cache.len();
        self.mask_cache.push(mask.clone());
        self.preds_cache_range.push((start, start + mask.len()));
        let picked = mask.get_mask();
        let mut k: usize = 0;
        while k < picked.len()
            invariant
                k <= picked@.len(),
                picked@ == mask@,
                part_of(mask@, rows),
                rank_inverse(rows, mask_ranks@),
                before.len() == rows.len(),
                preds@.len() == rows.len(),
                start + mask@.len() <= usize::MAX,
                self.preds_cache@.len() == start + k,
                early.preds.is_prefix_of(self.preds_cache@),
                early.preds.len() == start,
                forall|t: int|
                    0 <= t < k ==> #[trigger] self.preds_cache@[start + t] == (
                        class,
                        mask_ranks@[mask@[t] as int],
                    ),
                forall|j: int|
                    0 <= j < rows.len() ==> #[trigger] preds@[j] == if mask@.take(k as int).contains(
                        rows[j],
                    ) {
                        Some(class)
                    } else {
                        before[j]
                    },
                self.tree@ == nodes,
                self.split_cols@ == old(self).split_cols@,
                self.rng == old(self).rng,
                self.rng_factory == old(self).rng_factory,
                self.ith_tree == old(self).ith_tree,
                self.mask_cache@ == old(self).mask_cache@.push(self.mask_cache@[v]),
                self.mask_cache@[v]@ == mask@,
                self.preds_cache_range@ == old(self).preds_cache_range@.push(
                    (start, (start + mask@.len()) as usize),
                ),
                self.split_idx_cache_range@ == old(self).split_idx_cache_range@,
                self.split_mask_map@ == old(self).split_mask_map@,
                v == old(self).mask_cache@.len(),
            decreases picked@.len() - k,
        {
            let row = picked[k];
            proof {
                assert(rows.contains(mask@[k as int]));
                lemma_ranked(rows, mask_ranks@, row);
                assert(mask@.take(k + 1) =~= mask@.take(k as int).push(row));
                assert forall|j: int| 0 <= j < rows.len() implies (mask@.take(k + 1).contains(
                    rows[j],
                ) <==> mask@.take(k as int).contains(rows[j]) || j == mask_ranks@[row as int]) by {
                    lemma_push_contains(mask@.take(k as int), row, rows[j]);
                }
            }
            let place = mask_ranks[row];
            preds[place] = Some(class);
            self.preds_cache.push((class, place));
            k = k + 1;
        }
        self.split_idx_cache_range.push((split_idx, split_idx));
        proof {
            let later = self.cache();
            assert(mask@.take(k as int) =~= mask@);
            assert(early.masks.is_prefix_of(later.masks));
            assert(early.places =~= later.places);
            assert(later.masks[v] == mask@);
            assert(later.holds(nodes, df, rows, mask_ranks@, v)) by {
                assert forall|i: int| later.pred_ranges[v].0 <= i < later.pred_ranges[v].1 implies {
                    let entry = #[trigger] later.preds[i];
                    &&& entry.1 < rows.len()
                    &&& later.masks[v].contains(rows[entry.1 as int])
                    &&& entry.0 == classify(nodes, v, df, None, None, rows[entry.1 as int])
                } by {
                    let t = i - start;
                    assert(self.preds_cache@[start + t] == (class, mask_ranks@[mask@[t] as int]));
                    assert(rows.contains(mask@[t]));
                    lemma_ranked(rows, mask_ranks@, mask@[t]);
                }
                assert forall|t: int| 0 <= t < later.masks[v].len() implies later.run_has(
                    v,
                    mask_ranks@[(#[trigger] later.masks[v][t]) as int],
                ) by {
                    assert(self.preds_cache@[start + t] == (class, mask_ranks@[mask@[t] as int]));
                    assert(later.pred_ranges[v] == (start, (start + mask@.len()) as usize));
                    assert(later.preds[start + t].1 == mask_ranks@[later.masks[v][t] as int]);
                }
                assert(first_of(nodes, v) == v);
            }
            lemma_holds_upto_kept(early, later, nodes, df, rows, mask_ranks@, v);
            lemma_only_from_more(early.places, nodes, v, v + 1);
        }
    }

    /// Closes a split whose two subtrees were predicted: writes what the
    /// caches hold for the split itself.
    fn cache_split<T: DataInterface<Y>>(
        &mut self,
        df: &T,
        mask: &Mask,
        split: Split,
        split_idx: usize,
        new_idx: usize,
        preds_len_0: usize,
        Ghost(rows): Ghost<Seq<usize>>,
        Ghost(ranks): Ghost<Seq<usize>>,
    )
        requires
            arena_in_order(old(self).nodes()),
            old(self).cache().masks.len() < old(self).nodes().len(),
            old(self).nodes()[old(self).cache().masks.len() as int] == Node::<Y>::Sp(split),
            old(self).cache().pred_ranges.len() == old(self).cache().masks.len(),
            old(self).cache().split_ranges.len() == old(self).cache().masks.len(),
            old(self).cache().holds_upto(
                old(self).nodes(),
                df,
                rows,
                ranks,
                old(self).cache().masks.len() as int,
            ),
            part_of(mask@, rows),
            old(self).cache().masks[split.l_child_idx as int] == left_rows(
                df,
                split.split_index,
                None,
                mask@,
            ),
            old(self).cache().masks[split.r_child_idx as int] == right_rows(
                df,
                split.split_index,
                None,
                mask@,
            ),
            old(self).cache().pred_ranges[split.l_child_idx as int].0 == preds_len_0,
            old(self).cache().pred_ranges[split.l_child_idx as int].1
                == old(self).cache().pred_ranges[split.r_child_idx as int].0,
            old(self).cache().pred_ranges[split.r_child_idx as int].1 == old(self).cache().preds.len(),
            old(self).cache().split_ranges[split.l_child_idx as int].0 == split_idx,
            old(self).cache().split_ranges[split.l_child_idx as int].1
                <= old(self).cache().split_ranges[split.r_child_idx as int].0,
            old(self).cache().split_ranges[split.r_child_idx as int].1 <= new_idx,
            only_from_splits(
                old(self).cache().places,
                old(self).nodes(),
                old(self).cache().masks.len() as int,
            ),
            new_idx == splits_before(old(self).nodes(), old(self).cache().masks.len() as int),
        ensures
            only_from_splits(
                final(self).cache().places,
                final(self).nodes(),
                final(self).cache().masks.len() as int,
            ),
            final(self).same_tree(old(self)),
            final(self).cache().masks.len() == old(self).cache().masks.len() + 1,
            final(self).cache().pred_ranges.len() == final(self).cache().masks.len(),
            final(self).cache().split_ranges.len() == final(self).cache().masks.len(),
            final(self).cache().holds_upto(
                final(self).nodes(),
                df,
                rows,
                ranks,
                final(self).cache().masks.len() as int,
            ),
            old(self).cache().kept_in(final(self).cache()),
            final(self).cache().masks[old(self).cache().masks.len() as int] == mask@,
            final(self).cache().preds == old(self).cache().preds,
            final(self).cache().pred_ranges[old(self).cache().masks.len() as int] == (
                preds_len_0,
                old(self).cache().preds.len() as usize,
            ),
            final(self).cache().split_ranges[old(self).cache().masks.len() as int] == (
                split_idx,
                new_idx,
            ),
    {
        let ghost early = self.cache();
        let ghost v = self.cache().masks.len() as int;
        let ghost nodes = self.nodes();
        let ghost l = split.l_child_idx as int;
        let ghost r = split.r_child_idx as int;
        self.mask_cache.push(mask.clone());
        self.split_idx_cache_range.push((split_idx, new_idx));
        self.preds_cache_range.push((preds_len_0, self.preds_cache.len()));
        let ghost pushed = self.cache();
        proof {
            assert(early.masks.is_prefix_of(pushed.masks));
            assert(early.places =~= pushed.places);
        }
        self.list_split(split.split_index.get_col_id(), new_idx);
        proof {
            let later = self.cache();
            assert(early.kept_in(later));
            lemma_children_before(nodes, v);
            lemma_children_before(nodes, l);
            lemma_children_before(nodes, r);
            lemma_sides(df, split.split_index, None, mask@);
            assert(early.holds(nodes, df, rows, ranks, l));
            assert(early.holds(nodes, df, rows, ranks, r));
            lemma_holds_kept(early, later, nodes, df, rows, ranks, l);
            lemma_holds_kept(early, later, nodes, df, rows, ranks, r);
            assert(later.masks[v] == mask@);
            assert(later.split_ranges[l] == early.split_ranges[l]);
            assert(later.split_ranges[v].0 == splits_before(nodes, first_of(nodes, v)));
            assert(later.holds(nodes, df, rows, ranks, v)) by {
                assert forall|i: int| later.pred_ranges[v].0 <= i < later.pred_ranges[v].1 implies {
                    let entry = #[trigger] later.preds[i];
                    &&& entry.1 < rows.len()
                    &&& later.masks[v].contains(rows[entry.1 as int])
                    &&& entry.0 == classify(nodes, v, df, None, None, rows[entry.1 as int])
                } by {
                    let entry = later.preds[i];
                    let row = rows[entry.1 as int];
                    if i < later.pred_ranges[l].1 {
                        assert(later.masks[l].contains(row));
                        assert(df.goes_left(split.split_index, None, row));
                    } else {
                        assert(later.masks[r].contains(row));
                        assert(!df.goes_left(split.split_index, None, row));
                    }
                }
                assert forall|k: int| 0 <= k < later.masks[v].len() implies later.run_has(
                    v,
                    ranks[(#[trigger] later.masks[v][k]) as int],
                ) by {
                    let row = mask@[k];
                    assert(mask@.contains(row));
                    if df.goes_left(split.split_index, None, row) {
                        assert(later.masks[l].contains(row));
                        let t = choose|t: int| 0 <= t < later.masks[l].len() && later.masks[l][t] == row;
                        assert(later.run_has(l, ranks[later.masks[l][t] as int]));
                        let i = choose|i: int|
                            later.pred_ranges[l].0 <= i < later.pred_ranges[l].1 && (
                            #[trigger] later.preds[i]).1 == ranks[row as int];
                        assert(later.preds[i].1 == ranks[row as int]);
                    } else {
                        assert(later.masks[r].contains(row));
                        let t = choose|t: int| 0 <= t < later.masks[r].len() && later.masks[r][t] == row;
                        assert(later.run_has(r, ranks[later.masks[r][t] as int]));
                        let i = choose|i: int|
                            later.pred_ranges[r].0 <= i < later.pred_ranges[r].1 && (
                            #[trigger] later.preds[i]).1 == ranks[row as int];
                        assert(later.preds[i].1 == ranks[row as int]);
                    }
                }
                assert forall|w: int| first_of(nodes, v) <= w <= v implies later.split_ranges[v].0 <= (
                #[trigger] later.split_ranges[w]).1 <= later.split_ranges[v].1 by {
                    assert(first_of(nodes, l) <= l <= l);
                    assert(later.split_ranges[l].0 <= later.split_ranges[l].1 <= later.split_ranges[l].1);
                    assert(first_of(nodes, r) <= r <= r);
                    assert(later.split_ranges[r].0 <= later.split_ranges[r].1 <= later.split_ranges[r].1);
                    assert(later.split_ranges[v] == (split_idx, new_idx));
                    assert(later.split_ranges[l] == early.split_ranges[l]);
                    assert(later.split_ranges[r] == early.split_ranges[r]);
                    if w <= l {
                        assert(first_of(nodes, l) <= w <= l);
                        assert(later.split_ranges[l].0 <= later.split_ranges[w].1
                            <= later.split_ranges[l].1);
                        assert(split_idx <= later.split_ranges[w].1 <= new_idx);
                    } else if w <= r {
                        assert(first_of(nodes, r) <= w <= r);
                        assert(later.split_ranges[r].0 <= later.split_ranges[w].1
                            <= later.split_ranges[r].1);
                        assert(split_idx <= later.split_ranges[w].1 <= new_idx);
                    } else {
                        assert(node_in_place(nodes, v));
                    }
                }
            }
            lemma_holds_upto_kept(early, later, nodes, df, rows, ranks, v);
            assert forall|c: SplitColId, e: usize| #[trigger] listed(
                later.places,
                c,
                e,
            ) implies from_split(nodes, v + 1, c, e) by {
                if listed(pushed.places, c, e) {
                    assert(listed(early.places, c, e));
                    lemma_only_from_more(early.places, nodes, v, v + 1);
                } else {
                    assert(splits_on(nodes, v, c));
                }
            }
        }
    }

    /// Lists the number of a split for its column.
    fn list_split(&mut self, col: SplitColId, number: usize)
        requires
            keyed_once(old(self).cache().places),
        ensures
            final(self).same_tree(old(self)),
            keyed_once(final(self).cache().places),
            listed(final(self).cache().places, col, number),
            forall|c: SplitColId, e: usize|
                listed(old(self).cache().places, c, e) ==> listed(final(self).cache().places, c, e),
            forall|c: SplitColId, e: usize|
                #[trigger] listed(final(self).cache().places, c, e) ==> listed(
                    old(self).cache().places,
                    c,
                    e,
                ) || (c == col && e == number),
            final(self).cache().masks == old(self).cache().masks,
            final(self).cache().preds == old(self).cache().preds,
            final(self).cache().pred_ranges == old(self).cache().pred_ranges,
            final(self).cache().split_ranges == old(self).cache().split_ranges,
    {
        let ghost before = self.cache().places;
        let mut m: usize = 0;
        let mut found = false;
        while m < self.split_mask_map.len()
            invariant_except_break
                !found,
                forall|n: int| 0 <= n < m ==> (#[trigger] before[n]).0 != col,
            invariant
                m <= self.split_mask_map@.len(),
                self.cache().places == before,
            ensures
                m <= self.split_mask_map@.len(),
                self.cache().places == before,
                found ==> m < self.split_mask_map@.len() && before[m as int].0 == col,
                !found ==> forall|n: int| 0 <= n < before.len() ==> (#[trigger] before[n]).0 != col,
            decreases self.split_mask_map@.len() - m,
        {
            if self.split_mask_map[m].0 == col {
                found = true;
                break ;
            }
            m = m + 1;
        }
        if found {
            let ghost old_list = self.split_mask_map@[m as int].1@;
            let mut entry = self.split_mask_map.remove(m);
            entry.1.push(number);
            self.split_mask_map.insert(m, entry);
            proof {
                let after = self.cache().places;
                assert(after.len() == before.len());
                assert(after[m as int] == (col, old_list.push(number)));
                assert forall|n: int| 0 <= n < before.len() && n != m implies after[n]
                    == before[n] by {}
                assert(after[m as int].1[old_list.len() as int] == number);
                assert forall|c: SplitColId, e: usize| listed(before, c, e) implies listed(
                    after,
                    c,
                    e,
                ) by {
                    let n = choose|n: int|
                        0 <= n < before.len() && (#[trigger] before[n]).0 == c && before[n].1.contains(
                            e,
                        );
                    if n == m {
                        lemma_push_contains(old_list, number, e);
                    }
                    assert(after[n].0 == c && after[n].1.contains(e));
                }
                assert forall|a: int, b: int|
                    0 <= a < after.len() && 0 <= b < after.len() && a != b implies (
                #[trigger] after[a]).0 != (#[trigger] after[b]).0 by {
                    assert(after[a].0 == before[a].0);
                    assert(after[b].0 == before[b].0);
                }
                assert forall|c: SplitColId, e: usize| #[trigger] listed(after, c, e) implies listed(
                    before,
                    c,
                    e,
                ) || (c == col && e == number) by {
                    let n = choose|n: int|
                        0 <= n < after.len() && (#[trigger] after[n]).0 == c && after[n].1.contains(
                            e,
                        );
                    if n == m {
                        lemma_push_contains(old_list, number, e);
                        if e != number {
                            assert(before[n].0 == c && before[n].1.contains(e));
                        }
                    } else {
                        assert(before[n].0 == c && before[n].1.contains(e));
                    }
                }
            }
        } else {
            let mut list: Vec<usize> = Vec::new();
            list.push(number);
            self.split_mask_map.push((col, list));
            proof {
                let after = self.cache().places;
                assert(after.len() == before.len() + 1);
                assert(after[before.len() as int].0 == col);
                assert(after[before.len() as int].1[0] == number);
                assert forall|c: SplitColId, e: usize| listed(before, c, e) implies listed(
                    after,
                    c,
                    e,
                ) by {
                    let n = choose|n: int|
                        0 <= n < before.len() && (#[trigger] before[n]).0 == c && before[n].1.contains(
                            e,
                        );
                    assert(after[n] == before[n]);
                }
                assert forall|a: int, b: int|
                    0 <= a < after.len() && 0 <= b < after.len() && a != b implies (
                #[trigger] after[a]).0 != (#[trigger] after[b]).0 by {
                    if a < before.len() {
                        assert(after[a] == before[a]);
                    }
                    if b < before.len() {
                        assert(after[b] == before[b]);
                    }
                }
                assert forall|c: SplitColId, e: usize| #[trigger] listed(after, c, e) implies listed(
                    before,
                    c,
                    e,
                ) || (c == col && e == number) by {
                    let n = choose|n: int|
                        0 <= n < after.len() && (#[trigger] after[n]).0 == c && after[n].1.contains(
                            e,
                        );
                    if n < before.len() {
                        assert(after[n] == before[n]);
                        assert(before[n].0 == c && before[n].1.contains(e));
                    } else {
                        let t = choose|t: int| 0 <= t < after[n].1.len() && after[n].1[t] == e;
                        assert(after[n].1[0] == number);
                    }
                }
            }
        }
    }

    /// Appends a node, and its column if it is a split on a column that
    /// the tree has not split on yet.
    fn push_node(&mut self, node: Node<Y>) -> (handle: NodeHandle)
        requires
            old(self).cols() == columns_of(old(self).nodes(), old(self).nodes().len()),
        ensures
            final(self).nodes() == old(self).nodes().push(node),
            handle == old(self).nodes().len(),
            final(self).cols() == columns_of(final(self).nodes(), final(self).nodes().len()),
            final(self).rng_state() == old(self).rng_state(),
            final(self).factory() == old(self).factory(),
            final(self).ith() == old(self).ith(),
            final(self).cache_empty() == old(self).cache_empty(),
    {
        proof {
            lemma_columns_of_prefix(
                self.tree@,
                self.tree@.push(node),
                self.tree@.len(),
            );
        }
        if let Node::Sp(s) = node {
            let col = s.split_index.get_col_id();
            let mut found = false;
            let mut k: usize = 0;
            while k < self.split_cols.len()
                invariant
                    k <= self.split_cols@.len(),
                    found == self.split_cols@.take(k as int).contains(col),
                decreases self.split_cols@.len() - k,
            {
                proof {
                    assert(self.split_cols@.take(k + 1) =~= self.split_cols@.take(k as int).push(
                        self.split_cols@[k as int],
                    ));
                    lemma_push_contains(
                        self.split_cols@.take(k as int),
                        self.split_cols@[k as int],
                        col,
                    );
                }
                if self.split_cols[k] == col {
                    found = true;
                }
                k = k + 1;
            }
            assert(self.split_cols@.take(k as int) =~= self.split_cols@);
            if !found {
                self.split_cols.push(col);
            }
        }
        self.tree.push(node);
        self.tree.len() - 1
    }
}

} // verus!
