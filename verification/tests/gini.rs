use variant_forest::data_interface::three_val::{ThreeVal, ThreeValOpt};
use variant_forest::gini::x_bool_y_bool::gini_x_bool_y_bool;
use variant_forest::gini::x_threeval_y_bool::gini_x_threeval_y_bool;
use variant_forest::gini::GiniScore;

fn as_float(score: &GiniScore) -> f64 {
    score.numerator() as f64 / score.denominator() as f64
}

fn close(a: f64, b: f64) -> bool {
    (a - b).abs() < 1e-12
}

fn values(x: &[i8]) -> Vec<ThreeValOpt> {
    x.iter()
        .map(|&x| {
            Some(match x {
                0 => ThreeVal::Red,
                1 => ThreeVal::Green,
                2 => ThreeVal::Blue,
                _ => panic!("Out of enum bounds"),
            })
        })
        .collect()
}

#[test]
fn x_bool_y_bool_gini_calculated_correctly() {
    let x = vec![true, false, false, false, false, true, false, true, false];
    let y = vec![false, true, true, false, true, false, true, true, false];

    let one = 3. / 9. - (1 + 2 * 2) as f64 / 3. / 9.;
    let other = 6. / 9. - (4 * 4 + 2 * 2) as f64 / 6. / 9.;
    assert!(close(as_float(&gini_x_bool_y_bool(&x, &y)), one + other));
}

#[test]
fn gini_can_handle_single_x_class() {
    let x = vec![true, true, true, true];
    let y = vec![true, true, false, false];
    assert!(close(as_float(&gini_x_bool_y_bool(&x, &y)), 0.5));

    let x = vec![false, false, false, false];
    let y = vec![true, true, false, false];
    assert!(close(as_float(&gini_x_bool_y_bool(&x, &y)), 0.5));
}

#[test]
fn gini_can_handle_single_y_class() {
    let x = vec![true, true, false, false];
    let y = vec![true, true, true, true];
    assert!(close(as_float(&gini_x_bool_y_bool(&x, &y)), 0.));

    let x = vec![true, true, false, false];
    let y = vec![false, false, false, false];
    assert!(close(as_float(&gini_x_bool_y_bool(&x, &y)), 0.));
}

#[test]
fn part_gini_calculated_correctly() {
    let one = 3. / 9. - (1 + 2 * 2) as f64 / 3. / 9.;
    let other = 6. / 9. - (4 * 4 + 2 * 2) as f64 / 6. / 9.;
    assert!(close(as_float(&GiniScore::of_partition(1, 2, 4, 2, 9)), one + other));
}

#[test]
fn part_gini_can_handle_single_x_class() {
    assert!(close(as_float(&GiniScore::of_partition(2, 2, 0, 0, 4)), 0.5));
    assert!(close(as_float(&GiniScore::of_partition(0, 0, 2, 2, 4)), 0.5));
}

#[test]
fn part_gini_can_handle_single_y_class() {
    assert!(close(as_float(&GiniScore::of_partition(2, 0, 2, 0, 4)), 0.));
    assert!(close(as_float(&GiniScore::of_partition(0, 2, 0, 2, 4)), 0.));
}

#[test]
fn x_threeval_y_bool_gini_calculated_correctly() {
    let x = values(&[0, 2, 2, 1, 1, 0, 2, 0, 1]);
    let y = vec![false, true, true, false, true, false, true, true, false];

    let res = gini_x_threeval_y_bool(&x, &y, 9);
    assert!(close(
        as_float(&res.0),
        3. / 9. - (1. + 2. * 2.) / 3. / 9. + 6. / 9. - (2. * 2. + 4. * 4.) / 6. / 9.
    ));
    assert!(close(
        as_float(&res.1),
        3. / 9. - (1. + 2. * 2.) / 3. / 9. + 6. / 9. - (2. * 2. + 4. * 4.) / 6. / 9.
    ));
    assert!(close(as_float(&res.2), 6. / 9. - (4 * 4 + 2 * 2) as f64 / 6. / 9.));
}

#[test]
fn score_is_an_exact_ratio() {
    let score = GiniScore::of_partition(1, 2, 4, 2, 9);
    assert_eq!(score.numerator(), 2 * (1 * 2 * 6 + 4 * 2 * 3));
    assert_eq!(score.denominator(), 3 * 6 * 9);
    let empty = GiniScore::of_partition(0, 0, 0, 0, 5);
    assert_eq!(empty.numerator(), 0);
    assert_eq!(empty.denominator(), 5);
}

#[test]
fn scores_are_compared_without_rounding() {
    let a = GiniScore::of_partition(1, 2, 4, 2, 9);
    let b = GiniScore::of_partition(2, 4, 3, 0, 9);
    assert!(b.lt(&a));
    assert!(!a.lt(&b));
    assert!(!a.lt(&a));
    let big = 4_000_000_000usize;
    let c = GiniScore::of_partition(big / 2, big / 2 - 1, big / 2, big / 2 - 1, 2 * big - 2);
    let d = GiniScore::of_partition(big / 2, big / 2 - 1, big / 2 - 1, big / 2, 2 * big - 2);
    assert!(!c.lt(&d));
    assert!(!d.lt(&c));
    let e = GiniScore::of_partition(big / 2 + 1, big / 2 - 2, big / 2, big / 2 - 1, 2 * big - 2);
    assert!(e.lt(&c));
    assert!(!c.lt(&e));
}

#[test]
fn three_way_costs_use_the_given_number_of_rows() {
    let x = values(&[0, 1]);
    let y = vec![true, false];
    let res = gini_x_threeval_y_bool(&x, &y, 4);
    assert_eq!(res.0.numerator(), 0);
    assert_eq!(res.0.denominator(), 4);
    assert_eq!(res.2.numerator(), 2);
    assert_eq!(res.2.denominator(), 8);
}
