use variant_forest::mask::Mask;
use variant_forest::random_number_generator::{Reservoir, Rng};

#[test]
fn inverse_mask() {
    let mask = Mask::new(vec![1, 3]);
    let mut res = mask.inverse(&(0..5).collect::<Vec<usize>>()).get_mask().clone();
    res.sort();
    assert_eq!(res, vec![0, 2, 4]);
}

#[test]
fn new_mask_is_sorted() {
    let mask = Mask::new(vec![5, 1, 4, 1, 0]);
    assert_eq!(mask.get_mask(), &vec![0, 1, 1, 4, 5]);
    assert_eq!(mask.len(), 5);
    assert_eq!(Mask::new(vec![]).len(), 0);
}

#[test]
fn inverse_is_sorted_and_without_repeats() {
    let mask = Mask::new(vec![2, 9]);
    let rest = mask.inverse(&[7, 2, 3, 3, 0, 7]);
    assert_eq!(rest.get_mask(), &vec![0, 3, 7]);
    let none = Mask::new(vec![]);
    assert_eq!(none.inverse(&[2, 1]).get_mask(), &vec![1, 2]);
    assert_eq!(mask.inverse(&[]).len(), 0);
}

#[test]
fn get_by_mask_gathers_in_mask_order() {
    let mask = Mask::new(vec![3, 0, 2]);
    assert_eq!(mask.get_by_mask(&["a", "b", "c", "d"]), vec!["a", "c", "d"]);
}

#[test]
fn clone_keeps_the_rows() {
    let mask = Mask::new(vec![3, 0, 2]);
    assert_eq!(mask.clone(), mask);
}

fn uniform(raw: u64) -> f64 {
    raw as f64 / u64::MAX as f64
}

fn skip(raw: u64, weight: u64) -> usize {
    (uniform(raw).ln() / (1. - f64::from_bits(weight)).ln()).floor() as usize
}

fn fade(weight: u64, raw: u64, k: usize) -> u64 {
    (f64::from_bits(weight) * (uniform(raw).ln() / k as f64).exp()).to_bits()
}

#[test]
fn get_random_mask() {
    const N: usize = 100000;
    const FRAC: f64 = 0.5;
    let reservoir = Reservoir::new(skip, fade);
    let k = (6 as f64 * FRAC).floor() as usize;

    let counts = (1..N)
        .map(|i| Mask::random_mask(6, k, &mut Rng::new(i as u64, 1), &reservoir))
        .fold(vec![], |mut acc: Vec<usize>, a| {
            acc.extend(a.get_mask().clone());
            acc
        })
        .iter()
        .fold([0; 6], |mut acc, &a| {
            assert!(a < N);
            acc[a] += 1;
            acc
        });
    for x in counts {
        let p = x as f64 / N as f64;
        assert!((p - FRAC).abs() < 0.01);
    }
}

#[test]
fn random_mask_is_strictly_ascending() {
    let reservoir = Reservoir::new(skip, fade);
    for seed in 0..100u64 {
        let mask = Mask::random_mask(50, 33, &mut Rng::new(seed, 2), &reservoir);
        assert_eq!(mask.len(), 33);
        let rows = mask.get_mask();
        assert!(rows.windows(2).all(|w| w[0] < w[1]));
        assert!(rows.iter().all(|&r| r < 50));
    }
}
