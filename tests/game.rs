use streak_game::{
    combo_mult, flip, flip_outcome, reward, round_to_cent, Flip, SimError, SimResults, State, Tier,
    UpgradeTrack, DRAW_SCALE,
};

#[test]
fn check_round_to_cent() {
    // 0.051234 dollars, in millionths of a dollar
    assert_eq!(round_to_cent(51_234), 50_000);
}

#[test]
fn check_combo_reward_penny() {
    let rewards: Vec<u64> = (1..10).map(|i| reward(1, 15, i)).collect();
    let expected = [1, 2, 3, 4, 6, 8, 12, 18, 26];
    assert_eq!(rewards, expected);
}

#[test]
fn check_combo_reward_dollar() {
    let rewards: Vec<u64> = (1..10).map(|i| reward(100, 35, i)).collect();
    let expected = [
        100, 400, 1300, 4300, 15100, 52600, 183900, 643400, 2251900,
    ];
    assert_eq!(rewards, expected);
}

#[test]
fn reward_ceils_before_multiplying() {
    // 1.5^4 = 5.0625 rounds up to 6
    assert_eq!(combo_mult(15, 5), Some(6));
    assert_eq!(reward(5, 15, 5), 30);
    // 1.0^n is always 1
    for s in 1..=10 {
        assert_eq!(reward(1, 10, s), 1);
    }
    assert_eq!(combo_mult(35, 10), Some(78_816));
}

#[test]
fn combo_mult_reports_power_overflow() {
    assert_eq!(combo_mult(u64::MAX, 3), None);
    assert_eq!(combo_mult(u64::MAX, 1), Some(1));
    assert_eq!(combo_mult(0, 4), Some(0));
}

#[test]
fn rounding_twice_is_rounding_once() {
    for x in [0u64, 4_999, 5_000, 15_000, 51_234, 123_456_789, u64::MAX] {
        let once = round_to_cent(x);
        assert_eq!(round_to_cent(once), once);
    }
    assert_eq!(round_to_cent(5_000), 10_000);
    assert_eq!(round_to_cent(4_999), 0);
}

#[test]
fn upgrade_never_moves_down_or_overspends() {
    let mut t = UpgradeTrack::coin();
    assert_eq!(t.upgrade_cost(), Some(25));
    assert_eq!(t.try_upgrade(24), None);
    assert_eq!(t.current_index(), 0);
    assert_eq!(t.try_upgrade(1_000_000), Some(25));
    assert_eq!(t.current_index(), 1);
    assert_eq!(t.current_value(), 5);
}

#[test]
fn final_tier_has_no_cost_and_no_upgrade() {
    for (mut t, n) in [
        (UpgradeTrack::coin(), 5),
        (UpgradeTrack::chance(), 9),
        (UpgradeTrack::combo(), 6),
    ] {
        for _ in 1..n {
            t.upgrade();
        }
        assert_eq!(t.current_index(), n - 1);
        assert_eq!(t.upgrade_cost(), None);
        assert_eq!(t.try_upgrade(u64::MAX), None);
        assert_eq!(t.current_index(), n - 1);
    }
}

#[test]
fn track_requires_exactly_last_tier_without_cost() {
    let ok = vec![
        Tier { value: 1, upgrade_cost: Some(3) },
        Tier { value: 2, upgrade_cost: None },
    ];
    assert!(UpgradeTrack::new(ok).is_some());
    let early_end = vec![
        Tier { value: 1, upgrade_cost: None },
        Tier { value: 2, upgrade_cost: None },
    ];
    assert!(UpgradeTrack::new(early_end).is_none());
    let no_end = vec![Tier { value: 1, upgrade_cost: Some(3) }];
    assert!(UpgradeTrack::new(no_end).is_none());
    assert!(UpgradeTrack::new(Vec::new()).is_none());
}

#[test]
fn draw_equal_to_chance_is_heads() {
    assert_eq!(flip_outcome(DRAW_SCALE / 4, 25), Flip::H);
    assert_eq!(flip_outcome(DRAW_SCALE / 4 + 1, 25), Flip::T);
    assert_eq!(flip_outcome(DRAW_SCALE / 5, 20), Flip::H);
    assert_eq!(flip_outcome(DRAW_SCALE / 5 + 1, 20), Flip::T);
    assert_eq!(flip_outcome(0, 0), Flip::H);
    assert_eq!(flip_outcome(DRAW_SCALE - 1, 100), Flip::H);
}

#[test]
fn upgrades_run_in_order_against_current_cash() {
    let mut s = State::new();
    let mut res = SimResults::new();
    // first round: nothing affordable at 0 cents; a head pays a penny
    assert_eq!(s.step(&mut res, 0), Ok(false));
    assert_eq!(s.cash(), 1);
    assert_eq!(s.streak(), 1);
    // second round: the penny buys the 25% chance tier before the flip
    assert_eq!(s.step(&mut res, DRAW_SCALE - 1), Ok(false));
    assert_eq!(s.heads_chance().current_value(), 25);
    assert_eq!(s.cash(), 0);
    assert_eq!(s.streak(), 0);
    assert_eq!(res.flips, 2);
    assert_eq!(res.histo[1], 1);
}

#[test]
fn flip_counter_limit_is_an_error() {
    let mut s = State::new();
    let mut res = SimResults::new();
    res.flips = usize::MAX;
    assert_eq!(s.step(&mut res, 0), Err(SimError::FlipLimit));
}

#[test]
fn oversized_reward_is_an_error() {
    let coin = UpgradeTrack::new(vec![Tier { value: u64::MAX, upgrade_cost: None }]).unwrap();
    let sure = UpgradeTrack::new(vec![Tier { value: 100, upgrade_cost: None }]).unwrap();
    let mut s = State::with_tracks(coin, sure, UpgradeTrack::combo());
    let mut res = SimResults::new();
    assert_eq!(s.step(&mut res, 0), Ok(false));
    assert_eq!(s.cash(), u64::MAX);
    assert_eq!(s.step(&mut res, 0), Err(SimError::CashOverflow));
}

#[test]
fn certain_heads_ends_in_ten_flips() {
    let sure = UpgradeTrack::new(vec![Tier { value: 100, upgrade_cost: None }]).unwrap();
    let mut s = State::with_tracks(UpgradeTrack::coin(), sure, UpgradeTrack::combo());
    let res = s.flip_until_10().unwrap();
    assert_eq!(res.flips, 10);
    let mut expected = vec![0usize; 11];
    expected[10] = 1;
    assert_eq!(res.histo, expected);
    assert_eq!(s.cash(), 10);
    assert_eq!(s.streak(), 10);
}

#[test]
fn random_run_histogram_accounts_for_every_flip() {
    let mut s = State::new();
    let res = s.flip_until_10().unwrap();
    assert_eq!(res.histo[10], 1);
    let accounted: usize = res
        .histo
        .iter()
        .enumerate()
        .map(|(i, c)| c * if i < 10 { i + 1 } else { 10 })
        .sum();
    assert_eq!(accounted, res.flips);
}

#[test]
fn flip_with_certain_heads_is_always_heads() {
    let sure = UpgradeTrack::new(vec![Tier { value: 100, upgrade_cost: None }]).unwrap();
    let s = State::with_tracks(UpgradeTrack::coin(), sure, UpgradeTrack::combo());
    for _ in 0..1000 {
        assert_eq!(flip(&s), Flip::H);
    }
}

#[test]
fn flip_with_no_chance_is_almost_never_heads() {
    let never = UpgradeTrack::new(vec![Tier { value: 0, upgrade_cost: None }]).unwrap();
    let s = State::with_tracks(UpgradeTrack::coin(), never, UpgradeTrack::combo());
    let heads = (0..1000).filter(|_| flip(&s) == Flip::H).count();
    assert!(heads <= 1);
}
