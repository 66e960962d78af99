use variant_forest::data_interface::frame::Frame;
use variant_forest::data_interface::multi_x::{ColSplitIndex, MultiPivot, MultiX, SplitColId, XDf};
use variant_forest::data_interface::three_val::{ThreeValCol, ThreeValPivot};
use variant_forest::data_interface::y_bool::YBool;
use variant_forest::data_interface::{DataInterface, Predicted, Response};
use variant_forest::mask::Mask;
use variant_forest::random_number_generator::factory::RngFactory;
use variant_forest::random_number_generator::{Reservoir, Rng};
use variant_forest::tree::{Leaf, Node, Split, Tree};

struct MyDf();

struct Y();

struct Void();

fn sp(col_id: usize) -> ColSplitIndex {
    ColSplitIndex { col_id, pivot: MultiPivot::ThreeVal(ThreeValPivot::NotRed), shadow: false }
}

fn col(col_id: usize) -> SplitColId {
    SplitColId { col_id, shadow: false }
}

impl DataInterface<usize> for MyDf {
    type InternalType = Void;

    fn get_ncol(&self) -> usize {
        panic!("the test does not come here");
    }

    fn find_min_idx<T>(
        &self,
        mask: &Mask,
        _y: &T,
        _mtry: usize,
        _rng: &mut Rng,
        _rng_factory: &RngFactory,
        _shadow_vars: bool,
    ) -> ColSplitIndex
    where
        T: Response<usize>,
    {
        match mask.get_mask().as_slice() {
            &[1, 2, 3, 4, 5] => sp(1),
            &[1, 2, 3] => sp(2),
            _ => panic!("Unexpected mask in test Data Interface"),
        }
    }

    fn make_split(
        &self,
        _idx: ColSplitIndex,
        mask: &Mask,
        _rng_factory: &RngFactory,
        _permute: Option<&Void>,
    ) -> [Mask; 2] {
        match mask.get_mask().as_slice() {
            &[1, 2, 3, 4, 5] => [Mask::new(vec![1, 2, 3]), Mask::new(vec![4, 5])],
            &[1, 2, 3] => [Mask::new(vec![1, 2]), Mask::new(vec![3])],
            &[1, 2, 5] => [Mask::new(vec![1, 2]), Mask::new(vec![5])],
            &[1, 2] => [Mask::new(vec![1, 2]), Mask::new(vec![])],
            &[5] => [Mask::new(vec![]), Mask::new(vec![5])],
            _ => panic!("Unexpected mask in test Data Interface"),
        }
    }

    fn permute_index(
        &self,
        _idx: SplitColId,
        _rng_factory: &RngFactory,
        _oob_mask: &Mask,
        _ith_tree: usize,
    ) -> Void {
        return Void();
    }
}

impl Response<usize> for Y {
    fn pred_incorrect(&self, _mask: &Mask, _preds: &Predicted<usize>) -> u64 {
        0
    }

    fn pred_error(&self, _mask: &Mask, preds: &Predicted<usize>) -> (u64, usize) {
        (0, preds.len())
    }

    fn get_class(&self, mask: &Mask) -> Option<usize> {
        match mask.get_mask().as_slice() {
            &[1, 2] => Some(1),
            &[3] => Some(2),
            &[4, 5] => Some(3),
            _ => None,
        }
    }

    fn get_major_class(&self, _mask: &Mask, _rng: &mut Rng) -> usize {
        panic!("the test does not come here");
    }

    fn as_vector(&self) -> Vec<usize> {
        panic!("the test does not come here");
    }

    fn as_vector_ref(&self) -> &Vec<usize> {
        panic!("the test does not come here");
    }

    fn len(&self) -> usize {
        6
    }
}

fn five_nodes() -> Vec<Node<usize>> {
    vec![
        Node::create_leaf(1 as usize),
        Node::create_leaf(2 as usize),
        Node::create_split(sp(2usize), 0, 1),
        Node::create_leaf(3 as usize),
        Node::create_split(sp(1usize), 2, 3),
    ]
}

#[test]
fn build_tree() {
    let rng_factory = RngFactory::new(1, Some(100), Some(100));
    let mut tree = Tree::new(1, &rng_factory);
    let df = MyDf();
    let y = Y();
    let mask = Mask::new(vec![1, 2, 3, 4, 5]);

    tree.build_tree(&df, &y, &mask, 1, false, None);
    let expected_res = five_nodes();

    assert_eq!(tree.get_nodes(), &expected_res)
}

#[test]
fn predict() {
    let rng_factory = RngFactory::new(1, Some(100), Some(100));
    let mut tree = Tree::from_nodes(1, &rng_factory, five_nodes()).unwrap();

    let res = tree.predict(&MyDf(), &Mask::new(vec![1, 2, 5]), None, &vec![10, 0, 1, 10, 10, 2]);
    assert_eq!(res, vec![1, 1, 3])
}

#[test]
fn importance() {
    let rng_factory = RngFactory::new(1, Some(100), Some(100));
    let mut tree = Tree::from_nodes(1, &rng_factory, five_nodes()).unwrap();
    assert_eq!(tree.get_split_cols(), &vec![col(2), col(1)]);

    let mut res = tree.importance(&MyDf(), &Y(), &Mask::new(vec![1, 2, 3, 4, 5]));
    res.sort_by_key(|entry| entry.0.col_id);
    assert_eq!(res, vec![(col(1), 0), (col(2), 0)]);
}

#[test]
fn from_nodes_takes_only_trees_in_order() {
    let rng_factory = RngFactory::new(1, Some(100), Some(100));
    assert!(Tree::<usize>::from_nodes(1, &rng_factory, vec![]).is_none());
    assert!(Tree::from_nodes(1, &rng_factory, vec![Node::create_leaf(7usize)]).is_some());
    let two_roots = vec![Node::create_leaf(1usize), Node::create_leaf(2usize)];
    assert!(Tree::from_nodes(1, &rng_factory, two_roots).is_none());
    let swapped = vec![
        Node::create_leaf(1usize),
        Node::create_leaf(2usize),
        Node::create_split(sp(0), 1, 0),
    ];
    assert!(Tree::from_nodes(1, &rng_factory, swapped).is_none());
    let shared = vec![
        Node::create_leaf(1usize),
        Node::create_leaf(2usize),
        Node::create_split(sp(0), 0, 1),
        Node::create_split(sp(0), 1, 2),
    ];
    assert!(Tree::from_nodes(1, &rng_factory, shared).is_none());
    let forward = vec![Node::create_split(sp(0), 1, 2), Node::create_leaf(1usize)];
    assert!(Tree::from_nodes(1, &rng_factory, forward).is_none());
    let tree = Tree::from_nodes(1, &rng_factory, five_nodes()).unwrap();
    for (at, node) in tree.get_nodes().iter().enumerate() {
        if let Node::Sp(Split { l_child_idx, r_child_idx, .. }) = node {
            assert!(*l_child_idx < at && *r_child_idx < at);
        }
    }
    assert_eq!(Leaf { class: 4usize }.get_class(), 4);
}

fn uniform(raw: u64) -> f64 {
    raw as f64 / u64::MAX as f64
}

fn skip(raw: u64, weight: u64) -> usize {
    (uniform(raw).ln() / (1. - f64::from_bits(weight)).ln()).floor() as usize
}

fn fade(weight: u64, raw: u64, k: usize) -> u64 {
    (f64::from_bits(weight) * (uniform(raw).ln() / k as f64).exp()).to_bits()
}

fn noisy_columns(nrow: usize, ncol: usize, seed: u64) -> Vec<Vec<i8>> {
    let mut rng = Rng::new(seed, 1);
    (0..ncol).map(|_| (0..nrow).map(|_| rng.next_usize(3) as i8).collect()).collect()
}

fn table_of(cols: &Vec<Vec<i8>>) -> XDf {
    XDf::new(cols.iter().map(|c| MultiX::ThreeVal(ThreeValCol::new(c))).collect())
}

fn walk(nodes: &Vec<Node<bool>>, at: usize, cols: &Vec<Vec<i8>>, row: usize) -> bool {
    match nodes[at] {
        Node::Lf(leaf) => leaf.class,
        Node::Sp(split) => {
            let MultiPivot::ThreeVal(pivot) = split.split_index.pivot;
            let named = match pivot {
                ThreeValPivot::NotRed => 0,
                ThreeValPivot::NotGreen => 1,
                ThreeValPivot::NotBlue => 2,
            };
            if cols[split.split_index.col_id][row] != named {
                walk(nodes, split.l_child_idx, cols, row)
            } else {
                walk(nodes, split.r_child_idx, cols, row)
            }
        }
    }
}

#[test]
fn grown_tree_is_in_order_and_fits_its_rows() {
    let nrow = 60;
    let cols = noisy_columns(nrow, 4, 17);
    let y_vec: Vec<bool> = (0..nrow).map(|r| cols[0][r] == 1 || cols[2][r] == 2).collect();
    let y = YBool::new(&y_vec);
    let df = Frame::new(table_of(&cols), Reservoir::new(skip, fade));
    let factory = RngFactory::new(5, Some(4), Some(3));
    let mut tree: Tree<bool> = Tree::new(0, &factory);
    let bag = Mask::new((0..40).collect());
    tree.build_tree(&df, &y, &bag, 4, false, None);
    let nodes = tree.get_nodes().clone();
    assert!(Tree::from_nodes(0, &factory, nodes.clone()).is_some());
    for row in 0..40 {
        assert_eq!(walk(&nodes, nodes.len() - 1, &cols, row), y_vec[row]);
    }
    for c in tree.get_split_cols() {
        assert!(nodes.iter().any(|n| matches!(n, Node::Sp(s) if s.split_index.col_id == c.col_id)));
    }
}

#[test]
fn depth_limit_gives_majority_leaves() {
    let cols = vec![vec![0i8, 0, 1, 1, 2, 2]];
    let y = YBool::new(&[true, false, false, false, true, true]);
    let df = Frame::new(table_of(&cols), Reservoir::new(skip, fade));
    let factory = RngFactory::new(5, Some(1), Some(1));
    let mut stump: Tree<bool> = Tree::new(0, &factory);
    stump.build_tree(&df, &y, &Mask::new((0..6).collect()), 1, false, Some(0));
    assert_eq!(stump.get_nodes().len(), 1);
    let mut one: Tree<bool> = Tree::new(0, &factory);
    one.build_tree(&df, &y, &Mask::new((1..6).collect()), 1, false, Some(1));
    assert_eq!(
        one.get_nodes(),
        &vec![
            Node::create_leaf(false),
            Node::create_leaf(true),
            Node::create_split(
                ColSplitIndex {
                    col_id: 0,
                    pivot: MultiPivot::ThreeVal(ThreeValPivot::NotBlue),
                    shadow: false
                },
                0,
                1
            ),
        ]
    );
}

#[test]
fn first_prediction_walks_every_row_to_its_leaf() {
    let nrow = 80;
    let cols = noisy_columns(nrow, 5, 23);
    let y_vec: Vec<bool> = (0..nrow).map(|r| cols[1][r] == 0 && cols[3][r] != 1).collect();
    let y = YBool::new(&y_vec);
    let df = Frame::new(table_of(&cols), Reservoir::new(skip, fade));
    let factory = RngFactory::new(9, Some(5), Some(2));
    let mut tree: Tree<bool> = Tree::new(1, &factory);
    tree.build_tree(&df, &y, &Mask::new((0..50).collect()), 2, false, Some(4));
    let oob = Mask::new((50..80).collect());
    let mut ranks = vec![usize::MAX; nrow];
    for (rank, &row) in oob.get_mask().iter().enumerate() {
        ranks[row] = rank;
    }
    let preds = tree.predict(&df, &oob, None, &ranks);
    let nodes = tree.get_nodes().clone();
    let expected: Vec<bool> =
        (50..80).map(|row| walk(&nodes, nodes.len() - 1, &cols, row)).collect();
    assert_eq!(preds, expected);
}

#[test]
fn cached_prediction_equals_prediction_on_the_permuted_table() {
    for seed in 0..20u64 {
        let nrow = 90;
        let cols = noisy_columns(nrow, 5, 100 + seed);
        let y_vec: Vec<bool> =
            (0..nrow).map(|r| (cols[0][r] == 1) != (cols[2][r] == 2) || cols[4][r] == 0).collect();
        let y = YBool::new(&y_vec);
        let df = Frame::new(table_of(&cols), Reservoir::new(skip, fade));
        let factory = RngFactory::new(seed, Some(5), Some(4));
        let mut tree: Tree<bool> = Tree::new(2, &factory);
        let mut bag_rng = factory.new_rng_tree_mask(2);
        let bag = Mask::random_mask(nrow, 59, &mut bag_rng, &Reservoir::new(skip, fade));
        tree.build_tree(&df, &y, &bag, 2, false, None);
        let oob = bag.inverse(&(0..nrow).collect::<Vec<usize>>());
        let mut ranks = vec![usize::MAX; nrow];
        for (rank, &row) in oob.get_mask().iter().enumerate() {
            ranks[row] = rank;
        }
        let baseline = tree.predict(&df, &oob, None, &ranks);
        let used: Vec<SplitColId> = tree.get_split_cols().clone();
        assert!(!used.is_empty());
        for c in used {
            let cached = tree.predict(&df, &oob, Some(c), &ranks);
            let permuted = df.table().permute_index(c, &factory, &oob, 2);
            let mut replaced: Vec<MultiX> = df.table().columns().clone();
            replaced[c.col_id] = permuted;
            let changed = Frame::new(XDf::new(replaced), Reservoir::new(skip, fade));
            let mut fresh =
                Tree::from_nodes(2, &factory, tree.get_nodes().clone()).unwrap();
            let scratch = fresh.predict(&changed, &oob, None, &ranks);
            assert_eq!(cached, scratch);
            assert_eq!(cached.len(), baseline.len());
        }
    }
}

#[test]
fn importance_is_the_change_in_wrong_predictions() {
    let nrow = 90;
    let cols = noisy_columns(nrow, 4, 77);
    let y_vec: Vec<bool> = (0..nrow).map(|r| cols[1][r] == 2).collect();
    let y = YBool::new(&y_vec);
    let df = Frame::new(table_of(&cols), Reservoir::new(skip, fade));
    let factory = RngFactory::new(3, Some(4), Some(1));
    let bag = Mask::new((0..60).collect());
    let oob = Mask::new((60..90).collect());
    let mut tree: Tree<bool> = Tree::new(0, &factory);
    tree.build_tree(&df, &y, &bag, 4, false, None);
    let imp = tree.importance(&df, &y, &oob);
    assert_eq!(imp.len(), tree.get_split_cols().len());

    let mut again = Tree::from_nodes(0, &factory, tree.get_nodes().clone()).unwrap();
    let mut ranks = vec![usize::MAX; nrow];
    for (rank, &row) in oob.get_mask().iter().enumerate() {
        ranks[row] = rank;
    }
    let base = again.predict(&df, &oob, None, &ranks);
    let wrong = y.pred_incorrect(&oob, &base) as i64;
    for (k, (c, gain)) in imp.iter().enumerate() {
        assert_eq!(*c, tree.get_split_cols()[k]);
        let perm = again.predict(&df, &oob, Some(*c), &ranks);
        assert_eq!(*gain, y.pred_incorrect(&oob, &perm) as i64 - wrong);
    }
    assert_eq!(imp[0].0, col(1));
    assert!(imp[0].1 > 0);
}
