use variant_forest::boruta::{mtry_for, shadows_among, Boruta, BorutaRes, FOREST_SEED, SHADOW_SEED};
use variant_forest::data_interface::frame::Frame;
use variant_forest::data_interface::multi_x::{MultiX, SplitColId, XDf};
use variant_forest::data_interface::three_val::ThreeValCol;
use variant_forest::data_interface::y_bool::{YBool, Y};
use variant_forest::data_interface::Shadowable;
use variant_forest::random_forest::{sum_of, RandomForest};
use variant_forest::random_number_generator::factory::RngFactory;
use variant_forest::random_number_generator::{Reservoir, SALT};

fn uniform(raw: u64) -> f64 {
    raw as f64 / u64::MAX as f64
}

fn skip(raw: u64, weight: u64) -> usize {
    (uniform(raw).ln() / (1. - f64::from_bits(weight)).ln()).floor() as usize
}

fn fade(weight: u64, raw: u64, k: usize) -> u64 {
    (f64::from_bits(weight) * (uniform(raw).ln() / k as f64).exp()).to_bits()
}

fn binom_half_cdf(k: u64, n: u64) -> f64 {
    if k >= n {
        return 1.0;
    }
    let mut term = 0.5f64.powi(n as i32);
    let mut sum = term;
    for i in 0..k {
        term = term * (n - i) as f64 / (i + 1) as f64;
        sum += term;
    }
    sum
}

fn zscores(seed: u64, df: XDf, y: &YBool, ntree: usize, mtry: usize) -> Vec<(SplitColId, f64)> {
    let frame = Frame::new(df, Reservoir::new(skip, fade));
    RandomForest::with_salt(seed, SALT)
        .importance_per_tree::<Y, _, _, _, _>(
            &frame,
            y,
            ntree,
            mtry,
            false,
            None,
            &Reservoir::new(skip, fade),
        )
        .iter()
        .map(|(key, val)| {
            let mean = sum_of(val) as f64 / val.len() as f64;
            let var =
                val.iter().map(|&x| (x as f64 - mean).powi(2)).sum::<f64>() / val.len() as f64;
            (*key, mean / var.sqrt())
        })
        .collect()
}

fn run_boruta(df: XDf, y: YBool, pval_th: f64, max_runs: usize, ntree: usize) -> BorutaRes {
    let mut state = Boruta::new(df.get_col_ids());
    while !state.finished(max_runs) {
        let iter = state.begin_run();
        let idxs = state.attributes();
        let mut cur_df = df.subset(&idxs);
        cur_df.add_shadows(RngFactory::with_salt((iter + SHADOW_SEED) as u64, SALT, None, None));
        let all = cur_df.get_col_ids();
        let scores = zscores((iter + FOREST_SEED) as u64, cur_df, &y, ntree, mtry_for(all.len()));
        let score_of = |idx: &SplitColId| scores.iter().find(|s| s.0 == *idx).map(|s| s.1);
        let max_shadow = shadows_among(&all, &idxs)
            .iter()
            .map(|idx| score_of(idx).unwrap_or(-1.))
            .max_by(|a, b| a.total_cmp(b))
            .unwrap();
        let hit: Vec<bool> =
            idxs.iter().map(|idx| score_of(idx).is_some_and(|z| z > max_shadow)).collect();
        state.record_hits(&idxs, &hit);
        let hits = state.tentative_hits();
        let threshold = pval_th / hits.len() as f64;
        let too_few: Vec<bool> =
            hits.iter().map(|&h| binom_half_cdf(h as u64, iter as u64) < threshold).collect();
        let many: Vec<bool> = hits
            .iter()
            .map(|&h| h > 0 && binom_half_cdf(h as u64 - 1, iter as u64) > 1. - threshold)
            .collect();
        state.decide(&too_few, &many);
    }
    state.finish()
}

#[test]
fn boruta_srx() {
    let a = [2, 1, 2, 1, 2, 1, 2, 1, 2, 1, 2, 1, 2, 1, 2, 1, 2, 1, 2, 1, 2, 1, 2, 1, 2, 1, 2, 1, 2, 1, 2, 1];
    let b = [2, 2, 1, 1, 2, 2, 1, 1, 2, 2, 1, 1, 2, 2, 1, 1, 2, 2, 1, 1, 2, 2, 1, 1, 2, 2, 1, 1, 2, 2, 1, 1];
    let n1 = [2, 2, 2, 2, 1, 1, 1, 1, 2, 2, 2, 2, 1, 1, 1, 1, 2, 2, 2, 2, 1, 1, 1, 1, 2, 2, 2, 2, 1, 1, 1, 1];
    let n2 = [2, 2, 2, 2, 2, 2, 2, 2, 1, 1, 1, 1, 1, 1, 1, 1, 2, 2, 2, 2, 2, 2, 2, 2, 1, 1, 1, 1, 1, 1, 1, 1];
    let n3 = [2, 2, 2, 2, 2, 2, 2, 2, 2, 2, 2, 2, 2, 2, 2, 2, 1, 1, 1, 1, 1, 1, 1, 1, 1, 1, 1, 1, 1, 1, 1, 1];
    let aob = [2, 2, 2, 1, 2, 2, 2, 1, 2, 2, 2, 1, 2, 2, 2, 1, 2, 2, 2, 1, 2, 2, 2, 1, 2, 2, 2, 1, 2, 2, 2, 1];
    let anb = [2, 1, 1, 1, 2, 1, 1, 1, 2, 1, 1, 1, 2, 1, 1, 1, 2, 1, 1, 1, 2, 1, 1, 1, 2, 1, 1, 1, 2, 1, 1, 1];
    let na = [1, 2, 1, 2, 1, 2, 1, 2, 1, 2, 1, 2, 1, 2, 1, 2, 1, 2, 1, 2, 1, 2, 1, 2, 1, 2, 1, 2, 1, 2, 1, 2];
    let y_vec = [
        false, true, true, false, false, true, true, false, false, true, true, false, false, true,
        true, false, false, true, true, false, false, true, true, false, false, true, true, false,
        false, true, true, false,
    ];
    let y = YBool::new(&y_vec);
    let cols: Vec<MultiX> = [a, b, n1, n2, n3, aob, anb, na]
        .iter()
        .map(|c| MultiX::ThreeVal(ThreeValCol::new(c)))
        .collect();
    let my_df = XDf::new(cols);

    let boruta_res = run_boruta(my_df, y, 0.05, 100, 1000);
    let mut res_confirmed =
        boruta_res.get_confirmed().iter().map(|split_col| split_col.col_id).collect::<Vec<_>>();
    res_confirmed.sort();
    assert_eq!(res_confirmed, [0, 1, 5, 6, 7]);

    let mut res_rejected =
        boruta_res.get_rejected().iter().map(|split_col| split_col.col_id).collect::<Vec<_>>();
    res_rejected.sort();
    assert_eq!(res_rejected, [2, 3, 4]);
}
