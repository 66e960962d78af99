use variant_forest::boruta::{mtry_for, shadows_among, Boruta};
use variant_forest::data_interface::multi_x::SplitColId;

fn col(col_id: usize) -> SplitColId {
    SplitColId { col_id, shadow: false }
}

#[test]
fn every_column_begins_tentative() {
    let state = Boruta::new(vec![col(0), col(1), col(2)]);
    assert_eq!(state.attributes(), vec![col(0), col(1), col(2)]);
    assert_eq!(state.tentative_hits(), vec![0, 0, 0]);
    assert!(!state.finished(1));
    assert!(state.finished(0));
    let res = state.finish();
    assert_eq!(res.get_tentative(), vec![col(0), col(1), col(2)]);
    assert!(res.get_confirmed().is_empty());
    assert!(res.get_rejected().is_empty());
}

#[test]
fn hits_are_counted_for_the_columns_that_beat_the_shadows() {
    let mut state = Boruta::new(vec![col(4), col(7), col(9)]);
    assert_eq!(state.begin_run(), 1);
    let attrs = state.attributes();
    state.record_hits(&attrs, &vec![true, false, true]);
    assert_eq!(state.begin_run(), 2);
    state.record_hits(&attrs, &vec![true, false, false]);
    assert_eq!(state.tentative_hits(), vec![2, 0, 1]);
    state.record_hits(&vec![col(7), col(100)], &vec![true, true]);
    assert_eq!(state.tentative_hits(), vec![2, 1, 1]);
}

#[test]
fn decisions_move_columns_out_of_the_tentative_ones() {
    let mut state = Boruta::new(vec![col(0), col(1), col(2), col(3)]);
    state.begin_run();
    let attrs = state.attributes();
    state.record_hits(&attrs, &vec![true, false, true, false]);
    state.decide(&vec![false, true, true, false], &vec![true, true, true, true]);
    assert_eq!(state.result().get_confirmed(), vec![col(0)]);
    assert_eq!(state.result().get_rejected(), vec![col(1), col(2)]);
    assert_eq!(state.result().get_tentative(), vec![col(3)]);
    assert_eq!(state.attributes(), vec![col(3), col(0)]);
    assert_eq!(state.tentative_hits(), vec![0]);
    state.begin_run();
    state.record_hits(&state.attributes(), &vec![true, true]);
    state.decide(&vec![false], &vec![true]);
    assert!(state.finished(100));
    let res = state.finish();
    assert_eq!(res.get_confirmed(), vec![col(0), col(3)]);
    assert_eq!(res.get_rejected(), vec![col(1), col(2)]);
    assert!(res.get_tentative().is_empty());
}

#[test]
fn a_column_without_a_hit_is_not_confirmed() {
    let mut state = Boruta::new(vec![col(0)]);
    state.begin_run();
    state.decide(&vec![false], &vec![true]);
    assert_eq!(state.result().get_tentative(), vec![col(0)]);
    assert!(state.finished(1));
    assert!(!state.finished(2));
}

#[test]
fn shadows_are_the_columns_that_are_no_attributes() {
    let all = vec![col(2), col(1), col(3), col(4), col(5)];
    assert_eq!(shadows_among(&all, &vec![col(1), col(2)]), vec![col(3), col(4), col(5)]);
    assert_eq!(shadows_among(&all, &vec![]), all);
    assert!(shadows_among(&vec![], &all).is_empty());
}

#[test]
fn mtry_is_the_square_root_rounded_down() {
    for ncol in 0..3000usize {
        assert_eq!(mtry_for(ncol), (ncol as f64).sqrt().floor() as usize);
    }
    assert_eq!(mtry_for(18), 4);
    assert_eq!(mtry_for(16), 4);
    assert_eq!(mtry_for(15), 3);
    assert_eq!(mtry_for(1 << 40), 1 << 20);
}
