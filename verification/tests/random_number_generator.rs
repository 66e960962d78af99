use variant_forest::random_number_generator::factory::RngFactory;
use variant_forest::random_number_generator::{Reservoir, Rng, ABOVE_HALF, SALT};

#[test]
fn cmp_with_c() {
    let mut x = Rng::new(21, 1);
    let x_out: Vec<u32> = (0..6).map(|_| x.next_u32()).collect();
    let pcg32_c_out = vec![
        4046551126, 3645130801, 1491492233, 2234036793, 669229171, 981735442,
    ];
    assert_eq!(x_out, pcg32_c_out);

    let mut x = Rng::new(33198495, 1);
    let x_out: Vec<u32> = (0..6).map(|_| x.next_u32()).collect();
    let pcg32_c_out = vec![
        3221354117, 560577576, 1464394025, 77867303, 6303390, 439113613,
    ];
    assert_eq!(x_out, pcg32_c_out);
}

#[test]
fn upto() {
    let mut x = Rng::new(912, 1);
    let n = 3;
    let mut cc: Vec<u32> = std::iter::repeat(0).take(n).collect();
    for _ in 0..100 {
        cc[x.next_usize(n as u32)] += 1;
    }
    assert_eq!(cc[1], 32);
}

#[test]
fn shuffle() {
    let mut x = Rng::new(81, 1);
    let mut v: Vec<u32> = vec![];
    x.shuffle(&mut v);
    v.push(1);
    x.shuffle(&mut v);
    v.push(2);
    x.shuffle(&mut v);
    assert_eq!(v, vec![1, 2]);
}

#[test]
fn same_seed_and_increment_give_the_same_stream() {
    let mut a = Rng::new(77, 5);
    let mut b = Rng::new(77, 5);
    for _ in 0..1000 {
        assert_eq!(a.next_u32(), b.next_u32());
    }
}

#[test]
fn next_u64_joins_two_outputs_high_first() {
    let mut a = Rng::new(21, 1);
    let mut b = Rng::new(21, 1);
    let hi = b.next_u32() as u64;
    let lo = b.next_u32() as u64;
    assert_eq!(a.next_u64(), (hi << 32) + lo);
    assert_eq!(hi, 4046551126);
    assert_eq!(lo, 3645130801);
}

#[test]
fn step_skips_one_output() {
    let mut a = Rng::new(21, 1);
    a.step();
    assert_eq!(a.next_u32(), 3645130801);
}

#[test]
fn salt_moves_the_seed() {
    let mut a = Rng::with_salt(20, 1, 1);
    assert_eq!(a.next_u32(), 4046551126);
    let mut b = Rng::with_salt(0, SALT, 3);
    let mut c = Rng::new(SALT, 3);
    assert_eq!(b.next_u64(), c.next_u64());
}

#[test]
fn next_usize_stays_below_the_bound() {
    let mut x = Rng::new(5, 9);
    for up_to in 1..200u32 {
        for _ in 0..20 {
            assert!(x.next_usize(up_to) < up_to as usize);
        }
    }
    let mut y = Rng::new(5, 9);
    let before = y;
    assert_eq!(y.next_usize(1), 0);
    let mut z = before;
    assert_eq!(y.next_u32(), z.next_u32());
}

#[test]
fn next_usize_takes_the_high_half_of_the_product() {
    let mut a = Rng::new(912, 1);
    let mut b = Rng::new(912, 1);
    let out = b.next_u32() as u64;
    let product = out * 1024;
    assert_eq!(a.next_usize(1024), (product >> 32) as usize);
}

#[test]
fn shuffle_keeps_the_items() {
    let mut x = Rng::new(3, 4);
    let mut v: Vec<u32> = (0..50).collect();
    x.shuffle(&mut v);
    assert_ne!(v, (0..50).collect::<Vec<u32>>());
    let mut sorted = v.clone();
    sorted.sort();
    assert_eq!(sorted, (0..50).collect::<Vec<u32>>());
}

#[test]
fn shuffle_is_fisher_yates() {
    let mut a = Rng::new(81, 7);
    let mut b = Rng::new(81, 7);
    let mut v: Vec<u32> = vec![10, 20, 30, 40];
    a.shuffle(&mut v);
    let mut w: Vec<u32> = vec![10, 20, 30, 40];
    for e in 0..3 {
        let ee = e + b.next_usize((4 - e) as u32);
        w.swap(e, ee);
    }
    assert_eq!(v, w);
}

#[test]
fn rand_uni_bits_is_the_first_nonzero_draw() {
    let mut a = Rng::new(122, 1);
    let mut b = Rng::new(122, 1);
    let expected = b.next_u64();
    assert_ne!(expected, 0);
    assert_eq!(a.rand_uni_bits(), expected);
}

#[test]
fn above_half_agrees_with_the_rounded_quotient() {
    let edge: u64 = 1 << 63;
    for raw in [
        1u64,
        edge - 1,
        edge,
        edge + 1,
        edge + 1023,
        edge + 1024,
        edge + 1025,
        edge + 2048,
        u64::MAX,
    ] {
        let uniform = raw as f64 / u64::MAX as f64;
        assert_eq!(uniform > 0.5, raw >= ABOVE_HALF);
    }
    let mut a = Rng::new(0, 1);
    let mut b = Rng::new(0, 1);
    let raw = b.rand_uni_bits();
    assert_eq!(a.rand_uni_above_half(), raw as f64 / u64::MAX as f64 > 0.5);
}

#[test]
fn factory_streams_use_their_increments() {
    let factory = RngFactory::new(9, Some(10), Some(100));
    let mut shadow = factory.new_rng_shadow(3);
    assert_eq!(shadow.next_u64(), Rng::new(9, 4).next_u64());
    let mut tree = factory.new_rng_tree(7);
    assert_eq!(tree.next_u64(), Rng::new(9, 18).next_u64());
    let mut mask = factory.new_rng_tree_mask(7);
    assert_eq!(mask.next_u64(), Rng::new(9, 118).next_u64());
    let mut perm = factory.new_rng_permutation(7, 2);
    assert_eq!(perm.next_u64(), Rng::new(9, 283).next_u64());
    let salted = RngFactory::with_salt(9, 5, Some(10), Some(100));
    assert_eq!(salted.new_rng_tree(7).next_u64(), Rng::with_salt(9, 5, 18).next_u64());
}

fn uniform(raw: u64) -> f64 {
    raw as f64 / u64::MAX as f64
}

fn skip(raw: u64, weight: u64) -> usize {
    (uniform(raw).ln() / (1. - f64::from_bits(weight)).ln()).floor() as usize
}

fn fade(weight: u64, raw: u64, k: usize) -> u64 {
    (f64::from_bits(weight) * (uniform(raw).ln() / k as f64).exp()).to_bits()
}

#[test]
fn sample_k_eq_n() {
    let mut rng = Rng::new(7, 1);
    let x = ["A", "B", "C", "D", "E", "F", "G"];
    assert_eq!(rng.sample(&x, 7, &Reservoir::new(skip, fade)), &x);
}

#[test]
fn sample_k_1() {
    let x: [usize; 4] = [0, 1, 2, 3];
    let reservoir = Reservoir::new(skip, fade);
    let res: Vec<_> = (1..100_000)
        .map(|i| {
            let mut rng = Rng::new(i, 1);
            rng.sample(&x, 1, &reservoir)[0]
        })
        .fold(vec![0, 0, 0, 0], |mut acc, a| {
            acc[a] += 1;
            acc
        })
        .into_iter()
        .map(|a| a as f64 / 100_000.)
        .collect();
    assert!((res[0] - 0.25).abs() < 0.01);
    assert!((res[1] - 0.25).abs() < 0.01);
    assert!((res[2] - 0.25).abs() < 0.01);
    assert!((res[3] - 0.25).abs() < 0.01);
}

#[test]
fn rand_uni() {
    let mut rng = Rng::new(122, 1);
    let max = (1..10000).map(|_| uniform(rng.rand_uni_bits())).max_by(|a, b| a.total_cmp(b));
    let min = (1..10000).map(|_| uniform(rng.rand_uni_bits())).min_by(|a, b| a.total_cmp(b));
    let mean = (1..100_000).map(|_| uniform(rng.rand_uni_bits())).sum::<f64>() / 100_000.;
    assert!((max.unwrap() - 1.).abs() < 0.001);
    assert!((min.unwrap() - 0.).abs() < 0.001);
    assert!((mean - 0.5).abs() < 0.001);
}

#[test]
fn sample_holds_different_places() {
    let reservoir = Reservoir::new(skip, fade);
    for seed in 0..200u64 {
        let mut rng = Rng::new(seed, 3);
        let picked = reservoir.draw(&mut rng, 30, 7);
        assert_eq!(picked.len(), 7);
        let mut sorted = picked.clone();
        sorted.sort();
        sorted.dedup();
        assert_eq!(sorted.len(), 7);
        assert!(sorted.iter().all(|&p| p < 30));
    }
    let mut rng = Rng::new(1, 3);
    assert_ne!(reservoir.draw(&mut rng, 30, 7), (0..7).collect::<Vec<usize>>());
}

#[test]
fn sample_holds_whatever_the_two_functions_give() {
    let wild = Reservoir::new(|raw: u64, _w: u64| (raw % 5) as usize, |_w: u64, raw: u64, _k: usize| raw);
    let mut rng = Rng::new(2, 9);
    let picked = wild.draw(&mut rng, 50, 10);
    let mut sorted = picked.clone();
    sorted.sort();
    sorted.dedup();
    assert_eq!(sorted.len(), 10);
    assert!(sorted.iter().all(|&p| p < 50));
    let far = Reservoir::new(|_r: u64, _w: u64| usize::MAX, |w: u64, _r: u64, _k: usize| w);
    assert_eq!(far.draw(&mut rng, 50, 3), vec![0, 1, 2]);
}

#[test]
fn sample_follows_algorithm_l() {
    let reservoir = Reservoir::new(skip, fade);
    let mut rng = Rng::new(31, 2);
    let mut twin = Rng::new(31, 2);
    let (n, k) = (40usize, 5usize);
    let mut res: Vec<usize> = (0..k).collect();
    let mut w = (uniform(twin.rand_uni_bits()).ln() / k as f64).exp();
    let mut i = k - 1;
    while i <= n {
        i += (uniform(twin.rand_uni_bits()).ln() / (1. - w).ln()).floor() as usize + 1;
        if i < n {
            res[twin.next_usize(k as u32)] = i;
            w *= (uniform(twin.rand_uni_bits()).ln() / k as f64).exp();
        }
    }
    assert_eq!(reservoir.draw(&mut rng, n, k), res);
    assert_eq!(rng.next_u32(), twin.next_u32());
}
