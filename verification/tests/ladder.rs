use tap_escrow_manager::ladder::{
    checked_next_balance, next_balance as target, DEBT_LIMIT, GRT, MAX_ADJUSTMENT, MIN_DEPOSIT,
    TOP_TIER,
};

#[test]
fn next_balance() {
    let tests = [
        (0, MIN_DEPOSIT),
        (GRT, MIN_DEPOSIT),
        (MIN_DEPOSIT / 2, MIN_DEPOSIT),
        (MIN_DEPOSIT, MIN_DEPOSIT * 2),
        (MIN_DEPOSIT + 1, MIN_DEPOSIT * 2),
        (30 * GRT, 64 * GRT),
        (70 * GRT, 128 * GRT),
        (100 * GRT, 256 * GRT),
    ];
    for (debt, expected) in tests {
        assert_eq!(target(debt), expected);
    }
}

#[test]
fn constants_have_their_values() {
    assert_eq!(GRT, 1_000_000_000_000_000_000);
    assert_eq!(MIN_DEPOSIT, 2_000_000_000_000_000_000);
    assert_eq!(MAX_ADJUSTMENT, 10_000_000_000_000_000_000_000);
}

#[test]
fn tier_changes_exactly_at_sixty_percent() {
    // 60% of 2 tokens is 1.2 tokens
    assert_eq!(target(1_200_000_000_000_000_000 - 1), 2 * GRT);
    assert_eq!(target(1_200_000_000_000_000_000), 4 * GRT);
    // 60% of 4 tokens is 2.4 tokens
    assert_eq!(target(2_400_000_000_000_000_000 - 1), 4 * GRT);
    assert_eq!(target(2_400_000_000_000_000_000), 8 * GRT);
}

#[test]
fn ladder_doubles_up_to_16384_then_strides() {
    // 60% of 8192 tokens
    let edge = 8192 * 6 * GRT / 10;
    assert_eq!(target(edge - 1), 8192 * GRT);
    assert_eq!(target(edge), 16384 * GRT);
    // 60% of 16384 tokens: the next tier is one stride further, not double
    let edge = 16384 * 6 * GRT / 10;
    assert_eq!(target(edge - 1), 16384 * GRT);
    assert_eq!(target(edge), 26384 * GRT);
    let edge = 26384 * 6 * GRT / 10;
    assert_eq!(target(edge), 36384 * GRT);
    // one million tokens of debt: the first tier 16384 + 10000 k above a million / 0.6
    assert_eq!(target(1_000_000 * GRT), 1_676_384 * GRT);
}

#[test]
fn ladder_is_monotone_on_samples() {
    let samples = [
        0,
        1,
        GRT,
        MIN_DEPOSIT,
        3 * GRT,
        30 * GRT,
        70 * GRT,
        100 * GRT,
        9_999 * GRT,
        10_000 * GRT,
        123_456 * GRT,
        5_000_000 * GRT,
    ];
    let mut last = 0;
    for debt in samples {
        let balance = target(debt);
        assert!(balance >= last);
        assert!(balance >= MIN_DEPOSIT);
        assert!(10 * debt < 6 * balance);
        last = balance;
    }
}

#[test]
fn ladder_below_sixty_percent_of_minimum_is_minimum() {
    for debt in [0, 1, GRT, 1_199_999_999_999_999_999] {
        assert!(10 * debt < 6 * MIN_DEPOSIT);
        assert_eq!(target(debt), MIN_DEPOSIT);
    }
}

#[test]
fn checked_ladder_ends_at_the_debt_limit() {
    assert_eq!(checked_next_balance(0), Some(MIN_DEPOSIT));
    assert_eq!(checked_next_balance(70 * GRT), Some(128 * GRT));
    assert_eq!(checked_next_balance(DEBT_LIMIT - 1), Some(TOP_TIER * GRT));
    assert_eq!(target(DEBT_LIMIT - 1), TOP_TIER * GRT);
    assert_eq!(target(DEBT_LIMIT - 6_000 * GRT), TOP_TIER * GRT);
    assert_eq!(target(DEBT_LIMIT - 6_000 * GRT - 1), (TOP_TIER - 10_000) * GRT);
    assert_eq!(checked_next_balance(DEBT_LIMIT), None);
    assert_eq!(checked_next_balance(u128::MAX), None);
    assert_eq!(DEBT_LIMIT, TOP_TIER * 600_000_000_000_000_000);
    assert!(TOP_TIER.checked_mul(GRT).is_some());
    assert!((TOP_TIER + 10_000).checked_mul(GRT).is_none());
}
