use poki_launcher::frecency::{decayed_score, reinforce, undecay};

#[test]
fn half_life_halves_the_score() {
    assert_eq!(decayed_score(1000, 0, 3600), 1000);
    assert_eq!(decayed_score(1000, 3600, 3600), 500);
    assert_eq!(decayed_score(1000, 7200, 3600), 250);
    assert_eq!(decayed_score(1001, 3600, 3600), 500);
}

#[test]
fn decay_is_linear_within_a_half_life() {
    // halfway through: factor 1.5
    assert_eq!(decayed_score(1500, 50, 100), 1000);
    assert_eq!(undecay(1000, 50, 100), 1500);
    assert_eq!(undecay(1000, 150, 100), 3000);
}

#[test]
fn undecay_saturates() {
    assert_eq!(undecay(u64::MAX, 100, 100), u64::MAX);
    assert_eq!(undecay(1, 6400, 100), u64::MAX);
    assert_eq!(undecay(0, 6400, 100), 0);
    assert_eq!(decayed_score(u64::MAX, 100 * 200, 100), 0);
}

#[test]
fn reinforce_raises_present_value() {
    let before = decayed_score(4000, 250, 100);
    let stored = reinforce(4000, 1000, 250, 100);
    let after = decayed_score(stored, 250, 100);
    assert!(after > before);
    assert_eq!(reinforce(0, 1000, 0, 100), 1000);
    assert_eq!(reinforce(1000, 1000, 100, 100), 3000);
}
