use variant_forest::data_interface::frame::Frame;
use variant_forest::data_interface::multi_x::{MultiX, SplitColId, XDf};
use variant_forest::data_interface::three_val::ThreeValCol;
use variant_forest::data_interface::y_bool::{YBool, Y};
use variant_forest::random_forest::{
    bag_size, gather, oob_size, sum_of, ImportancePerTree, RandomForest,
};
use variant_forest::random_number_generator::{Reservoir, Rng, SALT};

const SEED: u64 = 139547392210478;

fn uniform(raw: u64) -> f64 {
    raw as f64 / u64::MAX as f64
}

fn skip(raw: u64, weight: u64) -> usize {
    (uniform(raw).ln() / (1. - f64::from_bits(weight)).ln()).floor() as usize
}

fn fade(weight: u64, raw: u64, k: usize) -> u64 {
    (f64::from_bits(weight) * (uniform(raw).ln() / k as f64).exp()).to_bits()
}

fn new_threeval_col(x: &[i8]) -> MultiX {
    return MultiX::ThreeVal(ThreeValCol::new(x));
}

fn sample_0_1(rng: &mut Rng, k: usize) -> Vec<i8> {
    (0..k).map(|_| rng.rand_uni_above_half() as i8).collect::<Vec<i8>>()
}

fn importance(
    seed: u64,
    cols: Vec<MultiX>,
    y: &YBool,
    nrow: usize,
    ntree: usize,
    mtry: usize,
    max_tree_depth: Option<usize>,
) -> Vec<Option<f64>> {
    let ncol = cols.len();
    let df = Frame::new(XDf::new(cols), Reservoir::new(skip, fade));
    let rf = RandomForest::with_salt(seed, SALT);
    let table = rf.importance_per_tree::<Y, _, _, _, _>(
        &df,
        y,
        ntree,
        mtry,
        false,
        max_tree_depth,
        &Reservoir::new(skip, fade),
    );
    let oob_n = oob_size(nrow) as f64;
    (0..ncol)
        .map(|c| {
            table
                .iter()
                .find(|entry| entry.0 == SplitColId { col_id: c, shadow: false })
                .map(|entry| sum_of(&entry.1) as f64 / entry.1.len() as f64 / oob_n)
        })
        .collect()
}

#[test]
fn rf_importance_mtry_1() {
    let mut rng = Rng::with_salt(SEED, SALT, 1);
    let xp1 = sample_0_1(&mut rng, 100);
    let xp2 = sample_0_1(&mut rng, 100);
    let xp3 = sample_0_1(&mut rng, 100);
    let y = YBool::new(&xp1.iter().map(|&x| x == 1).collect::<Vec<bool>>());
    let x1 = new_threeval_col(&xp1);
    let x2 = new_threeval_col(&xp2);
    let x3 = new_threeval_col(&xp3);

    let res = importance(0, vec![x1, x2, x3], &y, 100, 1000, 1, None);
    assert!(res[0].unwrap() > 0.30);
    assert!(res[1].unwrap().abs() < 0.02);
    assert!(res[2].unwrap().abs() < 0.02);
}

#[test]
fn rf_importance_interactions() {
    let mut rng = Rng::with_salt(SEED, SALT, 1);
    let xp1 = sample_0_1(&mut rng, 100);
    let xp2 = sample_0_1(&mut rng, 100);
    let _xp3 = sample_0_1(&mut rng, 100);

    let y_ins: Vec<bool> =
        xp1.iter().zip(xp2.iter()).map(|row| *row.0 == 1 && *row.1 == 1).collect();
    let y = YBool::new(&y_ins);

    let x1 = new_threeval_col(&xp1);
    let x2 = new_threeval_col(&xp2);

    let mut my_df_vec = vec![x1, x2];

    for _ in 1..100 {
        let xp = sample_0_1(&mut rng, 100);
        let x = new_threeval_col(&xp);
        my_df_vec.push(x);
    }

    let res = importance(0, my_df_vec, &y, 100, 1000, 10, None);
    assert!(res[0].unwrap() > 0.04);
    assert!(res[1].unwrap() > 0.04);
    for i in 2..100 {
        assert!(res[i].unwrap().abs() < 0.02);
    }
}

#[test]
fn rf_importance_srx() {
    let a = [2, 1, 2, 1, 2, 1, 2, 1, 2, 1, 2, 1, 2, 1, 2, 1, 2, 1, 2, 1, 2, 1, 2, 1, 2, 1, 2, 1, 2, 1, 2, 1];
    let b = [2, 2, 1, 1, 2, 2, 1, 1, 2, 2, 1, 1, 2, 2, 1, 1, 2, 2, 1, 1, 2, 2, 1, 1, 2, 2, 1, 1, 2, 2, 1, 1];
    let n1 = [2, 2, 2, 2, 1, 1, 1, 1, 2, 2, 2, 2, 1, 1, 1, 1, 2, 2, 2, 2, 1, 1, 1, 1, 2, 2, 2, 2, 1, 1, 1, 1];
    let n2 = [2, 2, 2, 2, 2, 2, 2, 2, 1, 1, 1, 1, 1, 1, 1, 1, 2, 2, 2, 2, 2, 2, 2, 2, 1, 1, 1, 1, 1, 1, 1, 1];
    let n3 = [2, 2, 2, 2, 2, 2, 2, 2, 2, 2, 2, 2, 2, 2, 2, 2, 1, 1, 1, 1, 1, 1, 1, 1, 1, 1, 1, 1, 1, 1, 1, 1];
    let aob = [2, 2, 2, 1, 2, 2, 2, 1, 2, 2, 2, 1, 2, 2, 2, 1, 2, 2, 2, 1, 2, 2, 2, 1, 2, 2, 2, 1, 2, 2, 2, 1];
    let anb = [2, 1, 1, 1, 2, 1, 1, 1, 2, 1, 1, 1, 2, 1, 1, 1, 2, 1, 1, 1, 2, 1, 1, 1, 2, 1, 1, 1, 2, 1, 1, 1];
    let na = [1, 2, 1, 2, 1, 2, 1, 2, 1, 2, 1, 2, 1, 2, 1, 2, 1, 2, 1, 2, 1, 2, 1, 2, 1, 2, 1, 2, 1, 2, 1, 2];
    let y_vec = [
        false, true, true, false, false, true, true, false, false, true, true, false, false, true,
        true, false, false, true, true, false, false, true, true, false, false, true, true, false,
        false, true, true, false,
    ];
    let y = YBool::new(&y_vec);
    let cols: Vec<MultiX> =
        [a, b, n1, n2, n3, aob, anb, na].iter().map(|c| new_threeval_col(c)).collect();

    let res = importance(0, cols, &y, 32, 1000, 3, None);
    assert!(res[2].unwrap().abs() < 0.06);
    assert!(res[3].unwrap().abs() < 0.06);
    assert!(res[4].unwrap().abs() < 0.06);

    assert!(res[0].unwrap() > 0.1);
    assert!(res[1].unwrap() > 0.1);
    assert!(res[5].unwrap() > 0.1);
    assert!(res[6].unwrap() > 0.1);
    assert!(res[7].unwrap() > 0.1);
}

#[test]
fn it_does_not_predict_xor_with_max_tree_depth_1() {
    let mut rng = Rng::with_salt(SEED, SALT, 1);
    let xp1 = sample_0_1(&mut rng, 100);
    let xp2 = sample_0_1(&mut rng, 100);
    let xp3 = sample_0_1(&mut rng, 100);
    let y_vec: Vec<Y> =
        xp1.iter().zip(xp2.iter()).map(|row| ((*row.0 == 0) ^ (*row.1 == 0)) as bool).collect();

    let y = YBool::new(&y_vec);
    let cols = || vec![new_threeval_col(&xp1), new_threeval_col(&xp2), new_threeval_col(&xp3)];

    let res = importance(0, cols(), &y, 100, 1000, 1, Some(1));
    assert!(res[0].unwrap() < 0.05);
    let res = importance(0, cols(), &y, 100, 1000, 1, Some(2));
    assert!(res[0].unwrap() > 0.1);
}

#[test]
fn bag_holds_two_thirds_rounded_down() {
    for nrow in 0..5000usize {
        assert_eq!(bag_size(nrow), (nrow as f64 * 0.66).floor() as usize);
        assert_eq!(oob_size(nrow), nrow - bag_size(nrow));
    }
    assert_eq!(bag_size(100), 66);
    assert_eq!(bag_size(32), 21);
    assert_eq!(oob_size(32), 11);
    assert_eq!(bag_size(1 << 40), (((1u64 << 40) as f64) * 0.66).floor() as usize);
}

#[test]
fn gather_notes_every_importance_under_its_column() {
    let a = SplitColId { col_id: 3, shadow: false };
    let b = SplitColId { col_id: 1, shadow: false };
    let mut table: ImportancePerTree = Vec::new();
    gather(&mut table, &vec![(a, 2), (b, -1)]);
    gather(&mut table, &vec![(b, 4)]);
    gather(&mut table, &vec![]);
    gather(&mut table, &vec![(b, 0), (a, 7)]);
    assert_eq!(table, vec![(a, vec![2, 7]), (b, vec![-1, 4, 0])]);
    assert_eq!(sum_of(&table[1].1), 3);
    assert_eq!(sum_of(&vec![i64::MAX, i64::MAX, 1]), 2 * (i64::MAX as i128) + 1);
    assert_eq!(sum_of(&vec![]), 0);
}

#[test]
fn forest_is_the_same_for_the_same_seed() {
    let mut rng = Rng::new(5, 1);
    let xp1 = sample_0_1(&mut rng, 60);
    let xp2 = sample_0_1(&mut rng, 60);
    let y = YBool::new(&xp2.iter().map(|&x| x == 1).collect::<Vec<bool>>());
    let run = |seed: u64| {
        let df = Frame::new(
            XDf::new(vec![new_threeval_col(&xp1), new_threeval_col(&xp2)]),
            Reservoir::new(skip, fade),
        );
        RandomForest::new(seed).importance_per_tree::<Y, _, _, _, _>(
            &df,
            &y,
            30,
            1,
            false,
            None,
            &Reservoir::new(skip, fade),
        )
    };
    assert_eq!(run(4), run(4));
    assert_ne!(run(4), run(5));
}

#[test]
fn tree_importance_is_what_the_tree_of_the_forest_gives() {
    let mut rng = Rng::new(5, 1);
    let xp1 = sample_0_1(&mut rng, 60);
    let xp2 = sample_0_1(&mut rng, 60);
    let y = YBool::new(&xp2.iter().map(|&x| x == 1).collect::<Vec<bool>>());
    let df = Frame::new(
        XDf::new(vec![new_threeval_col(&xp1), new_threeval_col(&xp2)]),
        Reservoir::new(skip, fade),
    );
    let rf = RandomForest::new(8);
    let reservoir = Reservoir::new(skip, fade);
    let factory = rf.factory(2, 3);
    let mut table: ImportancePerTree = Vec::new();
    for i in 0..3 {
        let imp = rf.tree_importance::<Y, _, _, _, _>(&df, &y, 1, false, &factory, None, i, &reservoir);
        gather(&mut table, &imp);
    }
    assert_eq!(
        table,
        rf.importance_per_tree::<Y, _, _, _, _>(&df, &y, 3, 1, false, None, &reservoir)
    );
}

#[test]
fn forest_is_ready_where_table_response_and_sizes_fit() {
    let table = || {
        Frame::new(
            XDf::new(vec![new_threeval_col(&[0, 1, 2, 0]), new_threeval_col(&[1, 1, 0, 2])]),
            Reservoir::new(skip, fade),
        )
    };
    let y = YBool::new(&[true, false, true, false]);
    let rf = RandomForest::new(1);
    assert!(rf.ready_for(&table(), &y, 10, 1, false));
    assert!(rf.ready_for(&table(), &y, 10, 2, false));
    assert!(rf.ready_for(&table(), &y, 0, 2, false));
    assert!(rf.ready_for(&table(), &y, 10, 4, true));
    assert!(!rf.ready_for(&table(), &y, 10, 0, false));
    assert!(!rf.ready_for(&table(), &y, 10, 3, false));
    assert!(!rf.ready_for(&table(), &y, 10, 5, true));
    assert!(!rf.ready_for(&table(), &YBool::new(&[true, false, true]), 10, 1, false));
    assert!(!rf.ready_for(&table(), &y, usize::MAX / 2, 1, false));
    let one_row = Frame::new(XDf::new(vec![new_threeval_col(&[0])]), Reservoir::new(skip, fade));
    assert!(!rf.ready_for(&one_row, &YBool::new(&[true]), 10, 1, false));
    let two_rows =
        Frame::new(XDf::new(vec![new_threeval_col(&[0, 1])]), Reservoir::new(skip, fade));
    assert!(rf.ready_for(&two_rows, &YBool::new(&[true, false]), 10, 1, false));
    let none = Frame::new(XDf::new(vec![]), Reservoir::new(skip, fade));
    assert!(!rf.ready_for(&none, &YBool::new(&[]), 10, 1, false));
}
