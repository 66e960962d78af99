use variant_forest::data_interface::three_val::{ThreeValCol, ThreeValPivot, ThreeVal};
use variant_forest::data_interface::y_bool::YBool;
use variant_forest::data_interface::{Permutable, Splittable};
use variant_forest::gini::GiniScore;
use variant_forest::mask::Mask;
use variant_forest::random_number_generator::Rng;

fn as_float(score: &GiniScore) -> f64 {
    score.numerator() as f64 / score.denominator() as f64
}

fn close(a: f64, b: f64) -> bool {
    (a - b).abs() < 1e-12
}

#[test]
fn make_split() {
    let x_vec = ThreeValCol::new(&[0, 0, 1, 2, 2, 1, 0, 1]);
    let mask = Mask::new(vec![0, 1, 2, 3, 4, 5, 6]);
    assert_eq!(
        x_vec.split_with_pivot(&mask, &ThreeValPivot::NotRed, None),
        [Mask::new(vec![2, 3, 4, 5]), Mask::new(vec![0, 1, 6])]
    );
}

#[test]
fn gen_optimal_pivot() {
    let x = ThreeValCol::new(&vec![0, 2, 2, 1, 1, 0, 2, 0, 1]);
    let y = YBool::new(&vec![false, true, true, false, true, false, true, true, false]);
    let (piv, score) = x.gen_optimal_pivot(&Mask::new((0..=8).collect()), &y, None);
    assert_eq!(piv, ThreeValPivot::NotBlue);
    assert!(close(as_float(&score), 6. / 9. - (4 * 4 + 2 * 2) as f64 / 6. / 9.));
}

#[test]
fn gen_optimal_pivot_uses_mask() {
    let x = ThreeValCol::new(&vec![1, 0, 2, 2, 1, 1, 0, 2, 0, 1, 1, 1]);
    let y = YBool::new(&vec![
        false, false, true, true, false, true, false, true, true, false, false, false,
    ]);
    let (piv, score) = x.gen_optimal_pivot(&Mask::new((1..=9).collect()), &y, None);
    assert_eq!(piv, ThreeValPivot::NotBlue);
    assert!(close(as_float(&score), 6. / 9. - (4 * 4 + 2 * 2) as f64 / 6. / 9.));
}

#[test]
fn pivot_matches_every_value_but_the_one_it_names() {
    assert!(!ThreeValPivot::NotRed.matches(&ThreeVal::Red));
    assert!(ThreeValPivot::NotRed.matches(&ThreeVal::Green));
    assert!(ThreeValPivot::NotRed.matches(&ThreeVal::Blue));
    assert!(ThreeValPivot::NotGreen.matches(&ThreeVal::Red));
    assert!(!ThreeValPivot::NotGreen.matches(&ThreeVal::Green));
    assert!(ThreeValPivot::NotBlue.matches(&ThreeVal::Green));
    assert!(!ThreeValPivot::NotBlue.matches(&ThreeVal::Blue));
}

#[test]
fn split_sends_the_named_value_to_the_second_side() {
    let x = ThreeValCol::new(&[0, 1, 2, 0, 1, 2]);
    let mask = Mask::new(vec![0, 1, 2, 3, 4, 5]);
    let green = x.split_with_pivot(&mask, &ThreeValPivot::NotGreen, None);
    assert_eq!(green[0].get_mask(), &vec![0, 2, 3, 5]);
    assert_eq!(green[1].get_mask(), &vec![1, 4]);
    let blue = x.split_with_pivot(&mask, &ThreeValPivot::NotBlue, None);
    assert_eq!(blue[0].get_mask(), &vec![0, 1, 3, 4]);
    assert_eq!(blue[1].get_mask(), &vec![2, 5]);
}

#[test]
fn split_parts_the_mask() {
    let x = ThreeValCol::new(&[0, 1, 2, 0, 1, 2, 2, 1]);
    let mask = Mask::new(vec![1, 3, 4, 6, 7]);
    for pivot in [ThreeValPivot::NotRed, ThreeValPivot::NotGreen, ThreeValPivot::NotBlue] {
        let sides = x.split_with_pivot(&mask, &pivot, None);
        let mut all: Vec<usize> = sides[0].get_mask().clone();
        all.extend(sides[1].get_mask().iter());
        all.sort();
        assert_eq!(&all, mask.get_mask());
        for row in sides[0].get_mask() {
            assert!(!sides[1].get_mask().contains(row));
        }
    }
}

#[test]
fn ties_go_to_the_pivot_that_comes_first() {
    let x = ThreeValCol::new(&[0, 1, 2, 0, 1, 2]);
    let y = YBool::new(&[true, true, true, false, false, false]);
    let (piv, score) = x.gen_optimal_pivot(&Mask::new((0..6).collect()), &y, None);
    assert_eq!(piv, ThreeValPivot::NotBlue);
    assert!(close(as_float(&score), 0.5));
    let x = ThreeValCol::new(&[0, 0, 1, 1, 2, 2]);
    let y = YBool::new(&[true, true, false, false, false, false]);
    let (piv, score) = x.gen_optimal_pivot(&Mask::new((0..6).collect()), &y, None);
    assert_eq!(piv, ThreeValPivot::NotRed);
    assert_eq!(score.numerator(), 0);
}

#[test]
fn permute_keeps_rows_outside_the_mask() {
    let x = ThreeValCol::new(&[0, 1, 2, 0, 1, 2, 2, 1, 0, 0]);
    let mask = Mask::new(vec![1, 2, 3, 4, 5, 6, 7]);
    let res = x.permute(Rng::new(1, 1), &mask);
    assert_eq!(res.len(), 10);
    let before = x.split_with_pivot(&Mask::new(vec![0, 8, 9]), &ThreeValPivot::NotRed, None);
    let after = res.split_with_pivot(&Mask::new(vec![0, 8, 9]), &ThreeValPivot::NotRed, None);
    assert_eq!(before, after);
    let full = Mask::new((0..10).collect());
    for pivot in [ThreeValPivot::NotRed, ThreeValPivot::NotGreen, ThreeValPivot::NotBlue] {
        assert_eq!(
            x.split_with_pivot(&full, &pivot, None)[1].len(),
            res.split_with_pivot(&full, &pivot, None)[1].len()
        );
    }
    assert_ne!(res, x);
}

#[test]
fn permute_shuffles_the_masked_values_in_place() {
    let x = ThreeValCol::new(&[0, 1, 2, 0, 1, 2]);
    let mask = Mask::new(vec![0, 2, 4]);
    let res = x.permute(Rng::new(7, 3), &mask);
    let mut picked = vec![0i8, 2, 1];
    Rng::new(7, 3).shuffle(&mut picked);
    let expected = ThreeValCol::new(&[picked[0], 1, picked[1], 0, picked[2], 2]);
    assert_eq!(res, expected);
}

#[test]
fn shadow_generator_shuffles_the_column_before_the_search() {
    let values = [0i8, 0, 0, 1, 1, 1, 2, 2, 2];
    let x = ThreeValCol::new(&values);
    let y = YBool::new(&[true, true, true, false, false, false, false, false, false]);
    let mask = Mask::new((0..9).collect());
    let mut shuffled = values.to_vec();
    Rng::new(5, 2).shuffle(&mut shuffled);
    let probe = x.gen_optimal_pivot(&mask, &y, Some(Rng::new(5, 2)));
    let plain = ThreeValCol::new(&shuffled).gen_optimal_pivot(&mask, &y, None);
    assert_eq!(probe.0, plain.0);
    assert_eq!(probe.1.numerator(), plain.1.numerator());
    assert_eq!(probe.1.denominator(), plain.1.denominator());
}
