//! The tier ladder: from a receiver's debt to the balance its escrow account
//! should hold.

use vstd::prelude::*;

verus! {

/// One whole token, in its smallest unit (18 decimals).
pub const GRT: u128 = 1_000_000_000_000_000_000;

/// The lowest balance an escrow account is topped up to.
pub const MIN_DEPOSIT: u128 = 2 * GRT;

/// The most that one round of deposits should move.
pub const MAX_ADJUSTMENT: u128 = 10_000 * GRT;

/// Sixty percent of one token: a tier is outgrown once the debt reaches this
/// much for each token of the tier.
pub const TIER_FILL: u128 = 600_000_000_000_000_000;

/// How many tokens a tier may grow by in one step once doubling would grow it
/// by more.
pub const TIER_STRIDE: u128 = 10_000;

/// The tier that follows `tier`, in whole tokens: twice as much, but never
/// more than one stride further.
pub open spec fn next_tier(tier: nat) -> nat {
    if 2 * tier <= tier + 10_000 {
        2 * tier
    } else {
        tier + 10_000
    }
}

/// Whether `debt` has used up sixty percent of a balance of `tier` tokens.
pub open spec fn outgrows(debt: nat, tier: nat) -> bool {
    debt >= tier * 600_000_000_000_000_000
}

/// The first tier, counting from `tier` upwards along the ladder, that `debt`
/// does not outgrow.
pub open spec fn settle(tier: nat, debt: nat) -> nat
    decreases debt - tier,
{
    if tier >= 1 && outgrows(debt, tier) {
        settle(next_tier(tier), debt)
    } else {
        tier
    }
}

/// The target balance for `debt`, in the token's smallest unit.
pub open spec fn target_balance(debt: nat) -> nat {
    settle(2, debt) * 1_000_000_000_000_000_000
}

/// Climbing the ladder never goes down.
pub proof fn lemma_settle_at_least(tier: nat, debt: nat)
    ensures
        settle(tier, debt) >= tier,
    decreases debt - tier,
{
    if tier >= 1 && outgrows(debt, tier) {
        lemma_settle_at_least(next_tier(tier), debt);
    }
}

/// The tier that is settled on is not outgrown, and it is at least one token
/// when the climb started from at least one.
pub proof fn lemma_settle_holds(tier: nat, debt: nat)
    requires
        tier >= 1,
    ensures
        !outgrows(debt, settle(tier, debt)),
        settle(tier, debt) >= 1,
    decreases debt - tier,
{
    if outgrows(debt, tier) {
        lemma_settle_holds(next_tier(tier), debt);
    }
}

/// From the same tier, a larger debt settles no lower.
pub proof fn lemma_settle_monotone(tier: nat, a: nat, b: nat)
    requires
        a <= b,
    ensures
        settle(tier, a) <= settle(tier, b),
    decreases b - tier,
{
    if tier >= 1 && outgrows(a, tier) {
        lemma_settle_monotone(next_tier(tier), a, b);
    } else {
        lemma_settle_at_least(tier, b);
    }
}

/// The ladder is monotone: a larger debt never gets a smaller target.
pub proof fn lemma_target_monotone(a: nat, b: nat)
    requires
        a <= b,
    ensures
        target_balance(a) <= target_balance(b),
{
    lemma_settle_monotone(2, a, b);
}

/// The ladder has a floor: no target is below the minimum deposit.
pub proof fn lemma_target_floor(debt: nat)
    ensures
        target_balance(debt) >= MIN_DEPOSIT,
{
    lemma_settle_at_least(2, debt);
}

/// Below sixty percent of the minimum deposit the target is the minimum
/// deposit itself.
pub proof fn lemma_target_at_minimum(debt: nat)
    requires
        10 * debt < 6 * MIN_DEPOSIT,
    ensures
        target_balance(debt) == MIN_DEPOSIT,
{
}

/// The target leaves the debt under sixty percent of itself.
pub proof fn lemma_target_covers(debt: nat)
    ensures
        10 * debt < 6 * target_balance(debt),
{
    lemma_settle_holds(2, debt);
}

/// Where the ladder goes by strides, the climb ends on the first rung that
/// is more than the debt divided by sixty percent of a token.
proof fn lemma_settle_by_strides(tier: nat, debt: nat, last: nat)
    requires
        16_384 <= tier <= last,
        (last - tier) % 10_000 == 0,
        debt / 600_000_000_000_000_000 < last,
        tier < last ==> last - 10_000 <= debt / 600_000_000_000_000_000,
    ensures
        settle(tier, debt) == last,
    decreases last - tier,
{
    if tier < last {
        assert(outgrows(debt, tier));
        lemma_settle_by_strides(tier + 10_000, debt, last);
    }
}

/// The balance an escrow account should hold for `debt`: the first tier of
/// the ladder 2, 4, 8, ... tokens (growing by at most 10 000 tokens a step)
/// of which `debt` is less than sixty percent.
///
/// The tiers double up to 16 384 tokens. Beyond that the tier is not climbed
/// to stride by stride but computed, so that a large debt takes no longer
/// than a small one.
pub fn next_balance(debt: u128) -> (balance: u128)
    requires
        target_balance(debt as nat) <= u128::MAX,
    ensures
        balance == target_balance(debt as nat),
        balance >= MIN_DEPOSIT,
        10 * debt < 6 * balance,
{
    proof {
        lemma_target_floor(debt as nat);
        lemma_target_covers(debt as nat);
    }
    let mut next_round: u128 = MIN_DEPOSIT / GRT;
    while next_round < 16_384 && debt >= next_round * TIER_FILL
        invariant
            on_ladder(next_round as nat),
            next_round <= 16_384,
            settle(next_round as nat, debt as nat) == settle(2, debt as nat),
        decreases 16_384 - next_round,
    {
        next_round = next_round * 2;
    }
    if next_round == 16_384 && debt >= next_round * TIER_FILL {
        let reached: u128 = debt / TIER_FILL;
        let strides: u128 = (reached - 16_384) / TIER_STRIDE + 1;
        next_round = 16_384 + strides * TIER_STRIDE;
        proof {
            lemma_settle_by_strides(16_384, debt as nat, next_round as nat);
        }
    }
    next_round * GRT
}

/// The highest tier whose balance can be written down: 16 384 tokens and a
/// whole number of strides, just under 2^128 of the smallest unit.
pub const TOP_TIER: u128 = 340_282_366_920_938_456_384;

/// The least debt that outgrows the top tier, and so has no target balance
/// that can be written down.
pub const DEBT_LIMIT: u128 = 204_169_420_152_563_073_830_400_000_000_000_000_000;

/// Whether `tier` is a rung of the ladder: one of 2, 4, ..., 8 192, or
/// 16 384 and a whole number of strides.
pub open spec fn on_ladder(tier: nat) -> bool {
    ||| tier == 2
    ||| tier == 4
    ||| tier == 8
    ||| tier == 16
    ||| tier == 32
    ||| tier == 64
    ||| tier == 128
    ||| tier == 256
    ||| tier == 512
    ||| tier == 1024
    ||| tier == 2048
    ||| tier == 4096
    ||| tier == 8192
    ||| (tier >= 16384 && (tier - 16384) % 10_000 == 0)
}

proof fn lemma_settle_below_limit(tier: nat, debt: nat)
    requires
        on_ladder(tier),
        tier <= TOP_TIER,
        debt < DEBT_LIMIT,
    ensures
        settle(tier, debt) <= TOP_TIER,
    decreases debt - tier,
{
    if outgrows(debt, tier) {
        lemma_settle_below_limit(next_tier(tier), debt);
    }
}

proof fn lemma_settle_beyond_limit(tier: nat, debt: nat)
    requires
        on_ladder(tier),
        tier <= TOP_TIER,
        debt >= DEBT_LIMIT,
    ensures
        settle(tier, debt) >= TOP_TIER + 10_000,
    decreases debt - tier,
{
    assert(outgrows(debt, tier));
    if next_tier(tier) <= TOP_TIER {
        lemma_settle_beyond_limit(next_tier(tier), debt);
    } else {
        lemma_settle_at_least(next_tier(tier), debt);
    }
}

/// The debts whose target balance fits in 128 bits are those below the
/// limit.
pub proof fn lemma_ladder_range(debt: nat)
    ensures
        (target_balance(debt) <= u128::MAX) == (debt < DEBT_LIMIT),
{
    if debt < DEBT_LIMIT {
        lemma_settle_below_limit(2, debt);
    } else {
        lemma_settle_beyond_limit(2, debt);
    }
}

/// The balance an escrow account should hold for `debt`, where that balance
/// can be written down.
pub fn checked_next_balance(debt: u128) -> (balance: Option<u128>)
    ensures
        balance is Some == (target_balance(debt as nat) <= u128::MAX),
        balance is Some == (debt < DEBT_LIMIT),
        balance matches Some(b) ==> b == target_balance(debt as nat),
{
    proof {
        lemma_ladder_range(debt as nat);
    }
    if debt < DEBT_LIMIT {
        Some(next_balance(debt))
    } else {
        None
    }
}

} // verus!
