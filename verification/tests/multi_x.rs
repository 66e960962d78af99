use variant_forest::data_interface::frame::Frame;
use variant_forest::data_interface::multi_x::{ColSplitIndex, MultiPivot, MultiX, SplitColId, XDf};
use variant_forest::data_interface::three_val::{ThreeValCol, ThreeValPivot};
use variant_forest::data_interface::y_bool::YBool;
use variant_forest::data_interface::{
    ColumnIdentifiable, DataInterface, Permutable, Shadowable, Splittable,
};
use variant_forest::gini::GiniScore;
use variant_forest::mask::Mask;
use variant_forest::random_number_generator::factory::RngFactory;
use variant_forest::random_number_generator::{Reservoir, Rng};

fn as_float(score: &GiniScore) -> f64 {
    score.numerator() as f64 / score.denominator() as f64
}

fn uniform(raw: u64) -> f64 {
    raw as f64 / u64::MAX as f64
}

fn skip(raw: u64, weight: u64) -> usize {
    (uniform(raw).ln() / (1. - f64::from_bits(weight)).ln()).floor() as usize
}

fn fade(weight: u64, raw: u64, k: usize) -> u64 {
    (f64::from_bits(weight) * (uniform(raw).ln() / k as f64).exp()).to_bits()
}

#[test]
fn split_with_pivot_multi_x() {
    let x_vec = ThreeValCol::new(&vec![0, 0, 1, 2, 2, 1, 0, 1]);
    let mask = Mask::new(vec![0, 1, 2, 3, 4, 5, 6]);
    let mult_x = MultiX::ThreeVal(x_vec);
    assert_eq!(
        mult_x.split_with_pivot(&mask, &MultiPivot::ThreeVal(ThreeValPivot::NotRed), None),
        [Mask::new(vec![2, 3, 4, 5]), Mask::new(vec![0, 1, 6])]
    );
}

#[test]
fn gen_optimal_pivot_multi_x() {
    let x = MultiX::ThreeVal(ThreeValCol::new(&vec![0, 2, 2, 1, 1, 0, 2, 0, 1]));
    let y = YBool::new(&vec![false, true, true, false, true, false, true, true, false]);
    let (piv, score) = x.gen_optimal_pivot(&Mask::new((0..=8).collect()), &y, None);
    assert_eq!(piv, MultiPivot::ThreeVal(ThreeValPivot::NotBlue));
    assert!((as_float(&score) - (6. / 9. - (4 * 4 + 2 * 2) as f64 / 6. / 9.)).abs() < 1e-12);
}

#[test]
fn find_min_idx_df() {
    let x1 = MultiX::ThreeVal(ThreeValCol::new(&vec![0, 2, 2, 1, 1, 0, 2, 0, 1]));
    let x2 = MultiX::ThreeVal(ThreeValCol::new(&vec![0, 1, 2, 0, 1, 0, 1, 2, 0]));
    let df = Frame::new(XDf::new(vec![x1, x2]), Reservoir::new(skip, fade));
    let y = YBool::new(&vec![false, true, true, false, true, false, true, true, false]);
    let mask = &Mask::new((0..=8).collect());
    let res = df.find_min_idx(
        &mask,
        &y,
        2,
        &mut Rng::new(4, 1),
        &RngFactory::new(1, Some(100), Some(100)),
        false,
    );
    assert_eq!(res.col_id, 1);
    assert_eq!(res.pivot, MultiPivot::ThreeVal(ThreeValPivot::NotRed));
}

#[test]
fn make_split_df() {
    let x_vec1 = ThreeValCol::new(&vec![0, 0, 1, 2, 2, 1, 0, 1]);
    let x_vec2 = ThreeValCol::new(&vec![0, 1, 1, 1, 0, 1, 0, 1]);
    let mask = Mask::new(vec![0, 1, 2, 3, 4, 5, 6]);
    let mult1 = MultiX::ThreeVal(x_vec1);
    let mult2 = MultiX::ThreeVal(x_vec2);
    let x_df = XDf::new(vec![mult1, mult2]);
    assert_eq!(x_df.idx_to_splitid_map(), &vec![0, 1]);
    assert_eq!(x_df.splitid_to_idx_map(), &vec![0, 1]);
    let idx = ColSplitIndex {
        col_id: 0,
        pivot: MultiPivot::ThreeVal(ThreeValPivot::NotRed),
        shadow: false,
    };
    assert_eq!(
        x_df.make_split(idx, &mask, &RngFactory::new(1, Some(100), Some(100)), None),
        [Mask::new(vec![2, 3, 4, 5]), Mask::new(vec![0, 1, 6])]
    );
}

#[test]
fn shadowable_can_subset() {
    let x_vec1 = ThreeValCol::new(&vec![0, 0, 0]);
    let x_vec2 = ThreeValCol::new(&vec![0, 0, 1]);
    let x_vec3 = ThreeValCol::new(&vec![0, 1, 0]);
    let x_vec4 = ThreeValCol::new(&vec![1, 0, 0]);

    let mult1 = MultiX::ThreeVal(x_vec1);
    let mult2 = MultiX::ThreeVal(x_vec2);
    let mult3 = MultiX::ThreeVal(x_vec3);
    let mult4 = MultiX::ThreeVal(x_vec4);

    let x_df = XDf::new(vec![mult1, mult2, mult3.clone(), mult4.clone()]);
    let idxs: Vec<SplitColId> = (2..=3)
        .rev()
        .map(|i| SplitColId { col_id: i, shadow: false })
        .collect();
    let new_df = x_df.subset(&idxs);

    assert_eq!(new_df.columns(), &vec![mult4, mult3]);
    assert_eq!(new_df.idx_to_splitid_map(), &vec![3, 2]);
    assert_eq!(new_df.splitid_to_idx_map(), &vec![0, 1, 1, 0]);
}

#[test]
fn shadowable_can_create_shadows() {
    let x_vec1 = ThreeValCol::new(&vec![0, 0, 0, 0]);
    let x_vec2 = ThreeValCol::new(&vec![0, 0, 1, 0]);
    let x_vec3 = ThreeValCol::new(&vec![0, 1, 0, 1]);
    let x_vec4 = ThreeValCol::new(&vec![1, 0, 1, 1]);
    let x_vec5 = ThreeValCol::new(&vec![1, 1, 1, 1]);

    let mult1 = MultiX::ThreeVal(x_vec1);
    let mult2 = MultiX::ThreeVal(x_vec2);
    let mult3 = MultiX::ThreeVal(x_vec3);
    let mult4 = MultiX::ThreeVal(x_vec4);
    let mult5 = MultiX::ThreeVal(x_vec5);

    let mut x_df = XDf::new(vec![mult1, mult2, mult3, mult4, mult5]);
    x_df.add_shadows(RngFactory::new(1, None, None));

    assert_eq!(x_df.get_ncol(), 10);
    assert_eq!(x_df.idx_to_splitid_map(), &(0..10).collect::<Vec<usize>>());
    assert_eq!(x_df.splitid_to_idx_map(), &(0..10).collect::<Vec<usize>>());
}

#[test]
fn shadowable_can_create_shadows_with_less_than_five_attributes() {
    let x_vec1 = ThreeValCol::new(&vec![0, 0, 0]);
    let x_vec2 = ThreeValCol::new(&vec![0, 0, 1]);
    let x_vec3 = ThreeValCol::new(&vec![0, 1, 0]);
    let x_vec4 = ThreeValCol::new(&vec![1, 0, 0]);

    let mult1 = MultiX::ThreeVal(x_vec1);
    let mult2 = MultiX::ThreeVal(x_vec2);
    let mult3 = MultiX::ThreeVal(x_vec3);
    let mult4 = MultiX::ThreeVal(x_vec4);

    let x_df = XDf::new(vec![mult1, mult2, mult3, mult4]);
    let idxs: Vec<SplitColId> = (1..=2)
        .rev()
        .map(|i| SplitColId { col_id: i, shadow: false })
        .collect();

    let mut new_df = x_df.subset(&idxs);
    new_df.add_shadows(RngFactory::new(1, None, None));

    assert_eq!(new_df.get_ncol(), 10);
    assert_eq!(new_df.idx_to_splitid_map(), &vec![2, 1, 3, 4, 5, 6, 7, 8, 9, 10]);
}

#[test]
fn shadows_are_permuted_copies_under_new_split_ids() {
    let cols: Vec<MultiX> = vec![
        MultiX::ThreeVal(ThreeValCol::new(&[0, 1, 2, 0, 1, 2])),
        MultiX::ThreeVal(ThreeValCol::new(&[2, 2, 1, 1, 0, 0])),
        MultiX::ThreeVal(ThreeValCol::new(&[0, 0, 0, 1, 1, 2])),
    ];
    let mut df = XDf::new(vec![cols[0].clone(), cols[1].clone(), cols[2].clone()]);
    let factory = RngFactory::new(11, None, None);
    df.add_shadows(factory);
    assert_eq!(df.get_ncol(), 9);
    let full = Mask::new((0..6).collect());
    for i in 0..6 {
        let expected = cols[i % 3].permute(factory.new_rng_shadow(i), &full);
        assert_eq!(df.columns()[3 + i], expected);
    }
    let ids: Vec<usize> = df.get_col_ids().iter().map(|c| c.col_id).collect();
    assert_eq!(ids, (0..9).collect::<Vec<usize>>());
    let mut sorted = ids.clone();
    sorted.sort();
    sorted.dedup();
    assert_eq!(sorted.len(), ids.len());
    assert!(df.get_col_ids().iter().all(|c| !c.shadow));
}

#[test]
fn subset_of_own_ids_keeps_the_ids() {
    let df = XDf::new(vec![
        MultiX::ThreeVal(ThreeValCol::new(&[0, 1])),
        MultiX::ThreeVal(ThreeValCol::new(&[2, 1])),
        MultiX::ThreeVal(ThreeValCol::new(&[1, 1])),
    ]);
    let part = df.subset(&vec![
        SplitColId { col_id: 2, shadow: false },
        SplitColId { col_id: 0, shadow: false },
    ]);
    let again = part.subset(&part.get_col_ids());
    assert_eq!(again.get_col_ids(), part.get_col_ids());
    assert_eq!(again.columns(), part.columns());
    assert_eq!(df.subset(&df.get_col_ids()), df);
}

#[test]
fn split_ids_resolve_after_subset() {
    let a = MultiX::ThreeVal(ThreeValCol::new(&[0, 1, 2, 0]));
    let b = MultiX::ThreeVal(ThreeValCol::new(&[1, 1, 0, 0]));
    let c = MultiX::ThreeVal(ThreeValCol::new(&[2, 0, 2, 0]));
    let df = XDf::new(vec![a, b, c.clone()]);
    let part = df.subset(&vec![
        SplitColId { col_id: 2, shadow: false },
        SplitColId { col_id: 1, shadow: false },
    ]);
    let mask = Mask::new(vec![0, 1, 2, 3]);
    let idx = ColSplitIndex {
        col_id: 2,
        pivot: MultiPivot::ThreeVal(ThreeValPivot::NotBlue),
        shadow: false,
    };
    let factory = RngFactory::new(1, Some(3), Some(1));
    assert_eq!(
        part.make_split(idx, &mask, &factory, None),
        c.split_with_pivot(&mask, &MultiPivot::ThreeVal(ThreeValPivot::NotBlue), None)
    );
    assert_eq!(idx.get_col_id(), SplitColId { col_id: 2, shadow: false });
}

#[test]
fn make_split_reads_a_replacement_column() {
    let a = MultiX::ThreeVal(ThreeValCol::new(&[0, 1, 2, 0]));
    let other = MultiX::ThreeVal(ThreeValCol::new(&[2, 2, 0, 0]));
    let df = XDf::new(vec![a]);
    let mask = Mask::new(vec![0, 1, 2, 3]);
    let idx = ColSplitIndex {
        col_id: 0,
        pivot: MultiPivot::ThreeVal(ThreeValPivot::NotRed),
        shadow: false,
    };
    let factory = RngFactory::new(1, Some(1), Some(1));
    let sides = df.make_split(idx, &mask, &factory, Some(&other));
    assert_eq!(sides, [Mask::new(vec![0, 1]), Mask::new(vec![2, 3])]);
}

#[test]
fn permute_index_uses_the_stream_of_the_tree_and_the_column() {
    let a = MultiX::ThreeVal(ThreeValCol::new(&[0, 1, 2, 0, 1, 2]));
    let b = MultiX::ThreeVal(ThreeValCol::new(&[1, 1, 0, 0, 2, 2]));
    let df = XDf::new(vec![a, b.clone()]);
    let factory = RngFactory::new(3, Some(2), Some(10));
    let oob = Mask::new(vec![0, 2, 3, 5]);
    let got = df.permute_index(SplitColId { col_id: 1, shadow: false }, &factory, &oob, 4);
    assert_eq!(got, b.permute(factory.new_rng_permutation(4, 1), &oob));
    assert_eq!(got.len(), 6);
}

#[test]
fn find_min_among_takes_the_first_of_the_cheapest() {
    let same = MultiX::ThreeVal(ThreeValCol::new(&[0, 0, 1, 1, 2, 2]));
    let noise = MultiX::ThreeVal(ThreeValCol::new(&[0, 1, 2, 0, 1, 2]));
    let df = XDf::new(vec![noise, same.clone(), same]);
    let y = YBool::new(&[true, true, false, false, false, false]);
    let mask = Mask::new((0..6).collect());
    let factory = RngFactory::new(1, Some(3), Some(1));
    let best = df.find_min_among(&vec![0, 2, 1], &mask, &y, &factory);
    assert_eq!(best.col_id, 2);
    assert_eq!(best.pivot, MultiPivot::ThreeVal(ThreeValPivot::NotRed));
    assert!(!best.shadow);
    let best = df.find_min_among(&vec![1, 2, 0], &mask, &y, &factory);
    assert_eq!(best.col_id, 1);
    let only = df.find_min_among(&vec![0], &mask, &y, &factory);
    assert_eq!(only.col_id, 0);
}

#[test]
fn candidates_beyond_the_columns_probe_shuffled_columns() {
    let values = [0i8, 0, 0, 1, 1, 1, 2, 2, 2];
    let df = XDf::new(vec![MultiX::ThreeVal(ThreeValCol::new(&values))]);
    let y = YBool::new(&[true, true, true, false, false, false, false, false, false]);
    let mask = Mask::new((0..9).collect());
    let factory = RngFactory::new(8, Some(1), Some(1));
    let probe = df.find_min_among(&vec![1], &mask, &y, &factory);
    assert_eq!(probe.col_id, 0);
    assert!(probe.shadow);
    let mut shuffled = values.to_vec();
    factory.new_rng_shadow(0).shuffle(&mut shuffled);
    let plain = XDf::new(vec![MultiX::ThreeVal(ThreeValCol::new(&shuffled))]);
    assert_eq!(plain.find_min_among(&vec![0], &mask, &y, &factory).pivot, probe.pivot);
}
