use variant_forest::data_interface::y_bool::YBool;
use variant_forest::data_interface::Response;
use variant_forest::mask::Mask;
use variant_forest::random_number_generator::Rng;

#[test]
fn pred_incorrect_returns_correct_value() {
    let y = YBool::new(&vec![true, true, true, false, false, false, false, false]);
    let mask = Mask::new(vec![0, 1, 2, 3, 4, 5, 6, 7]);
    let preds = vec![true, true, true, false, false, false, false, true];
    assert_eq!(y.pred_incorrect(&mask, &preds), 1);
}

#[test]
fn pred_incorrect_returns_correct_value_all_correct() {
    let y = YBool::new(&vec![true, true, true, false, false, false, false, false]);
    let mask = Mask::new(vec![0, 1, 2, 3, 4, 5, 6, 7]);
    let preds = vec![true, true, true, false, false, false, false, false];
    assert_eq!(y.pred_incorrect(&mask, &preds), 0);
}

fn as_float(share: (u64, usize)) -> f64 {
    share.0 as f64 / share.1 as f64
}

#[test]
fn pred_error_returns_correct_value() {
    let y = YBool::new(&vec![true, true, true, false, false, false, false, false]);
    let mask = Mask::new(vec![0, 1, 2, 3, 4, 5, 6, 7]);
    let preds = vec![true, true, true, false, false, false, false, true];
    assert_eq!(as_float(y.pred_error(&mask, &preds)), 1. / 8.);
}

#[test]
fn pred_error_returns_correct_value_all_correct() {
    let y = YBool::new(&vec![true, true, true, false, false, false, false, false]);
    let mask = Mask::new(vec![0, 1, 2, 3, 4, 5, 6, 7]);
    let preds = vec![true, true, true, false, false, false, false, false];
    assert_eq!(as_float(y.pred_error(&mask, &preds)), 0.);
}

#[test]
fn get_class_returns_none_with_many_classes() {
    let y = YBool::new(&vec![true, true, false, true]);
    let mask = Mask::new(vec![0, 1, 2, 3]);
    assert!(y.get_class(&mask).is_none());
}

#[test]
fn get_class_returns_false_class() {
    let y = YBool::new(&vec![true, true, false, true]);
    let mask = Mask::new(vec![2]);
    assert_eq!(y.get_class(&mask), Some(false));
}

#[test]
fn get_class_returns_true_class() {
    let y = YBool::new(&vec![true, true, false, true]);
    let mask = Mask::new(vec![0, 1, 3]);
    assert_eq!(y.get_class(&mask), Some(true));
}

#[test]
fn get_major_class() {
    let mut rng = Rng::new(0, 1);
    let y = YBool::new(&vec![true, true, false, true]);
    let mask = Mask::new(vec![0, 1, 2, 3]);
    assert_eq!(y.get_major_class(&mask, &mut rng), true);

    let y = YBool::new(&vec![true, false, false, false]);
    let mask = Mask::new(vec![0, 1, 2, 3]);
    assert_eq!(y.get_major_class(&mask, &mut rng), false);

    let y = YBool::new(&vec![true, true, false, false]);
    let mask = Mask::new(vec![0, 1, 2, 3]);
    assert_eq!(y.get_major_class(&mask, &mut rng), true);
}

#[test]
fn major_class_draws_only_on_a_tie() {
    let y = YBool::new(&vec![true, true, false, false, false]);
    let mut rng = Rng::new(4, 2);
    let mut untouched = Rng::new(4, 2);
    assert_eq!(y.get_major_class(&Mask::new(vec![0, 2, 3]), &mut rng), false);
    assert_eq!(rng.next_u32(), untouched.next_u32());
    let mut expected = rng;
    let coin = expected.rand_uni_above_half();
    assert_eq!(y.get_major_class(&Mask::new(vec![0, 1, 2, 3]), &mut rng), coin);
    assert_eq!(rng.next_u32(), expected.next_u32());
}

#[test]
fn pred_incorrect_counts_only_the_masked_rows() {
    let y = YBool::new(&vec![true, false, true, false]);
    let mask = Mask::new(vec![1, 2]);
    assert_eq!(y.pred_incorrect(&mask, &vec![true, false]), 2);
    assert_eq!(y.pred_incorrect(&mask, &vec![false, true]), 0);
    assert_eq!(y.pred_incorrect(&mask, &vec![true]), 1);
}

#[test]
fn response_as_vector() {
    let y = YBool::new(&vec![true, false, true]);
    assert_eq!(y.as_vector(), vec![true, false, true]);
    assert_eq!(y.as_vector_ref(), &vec![true, false, true]);
    assert_eq!(y.len(), 3);
}
