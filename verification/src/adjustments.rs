//! What a tick deposits: the shortfall of every receiver against the tier
//! ladder, and the reduction of a round that would move too much at once.

use vstd::prelude::*;
use crate::address::Address;
use crate::ladder::{checked_next_balance, target_balance, GRT, MAX_ADJUSTMENT, MIN_DEPOSIT};
use crate::order::Key;
use crate::sorted_map::{
    collected, has_key, has_key_within, holds_at, lemma_entry_in_map, lemma_listing, listing,
    SortedMap,
};

verus! {

/// By how much a reduced deposit is raised at a time.
pub const ADJUSTMENT_STEP: u128 = 100 * GRT;

/// What `amounts` holds for `receiver`; nothing, if it has no entry.
pub open spec fn amount_of(amounts: Map<Address, u128>, receiver: Address) -> int {
    if amounts.contains_key(receiver) {
        amounts[receiver] as int
    } else {
        0
    }
}

/// The least debt that the configuration assumes for `receiver`, which it
/// gives in whole tokens.
pub open spec fn floor_of(floors: Map<Address, u64>, receiver: Address) -> int {
    if floors.contains_key(receiver) {
        floors[receiver] * 1_000_000_000_000_000_000
    } else {
        0
    }
}

/// The debt to `receiver` that a tick goes by: the larger of what the
/// aggregator has counted and what the configuration assumes.
pub open spec fn owed(debts: Map<Address, u128>, floors: Map<Address, u64>, receiver: Address) -> int {
    if amount_of(debts, receiver) >= floor_of(floors, receiver) {
        amount_of(debts, receiver)
    } else {
        floor_of(floors, receiver)
    }
}

/// What the escrow account of `receiver` lacks of its target balance.
pub open spec fn shortfall(
    escrow: Map<Address, u128>,
    debts: Map<Address, u128>,
    floors: Map<Address, u64>,
    receiver: Address,
) -> int {
    let target = target_balance(owed(debts, floors, receiver) as nat);
    if target > amount_of(escrow, receiver) {
        target - amount_of(escrow, receiver)
    } else {
        0
    }
}

/// Whether a tick looks at `receiver`: it is active, or it has an escrow
/// account.
pub open spec fn is_receiver(active: Seq<Address>, escrow: Map<Address, u128>, receiver: Address) -> bool {
    active.contains(receiver) || escrow.contains_key(receiver)
}

/// Whether the debt to `receiver` is beyond the reach of the ladder.
pub open spec fn off_ladder(
    active: Seq<Address>,
    escrow: Map<Address, u128>,
    debts: Map<Address, u128>,
    floors: Map<Address, u64>,
    receiver: Address,
) -> bool {
    is_receiver(active, escrow, receiver) && target_balance(owed(debts, floors, receiver) as nat)
        > u128::MAX
}

/// The deposits that a tick wants: for every receiver that lacks something,
/// what it lacks.
pub open spec fn planned(
    active: Seq<Address>,
    escrow: Map<Address, u128>,
    debts: Map<Address, u128>,
    floors: Map<Address, u64>,
) -> Map<Address, u128> {
    Map::new(
        |r: Address| is_receiver(active, escrow, r) && shortfall(escrow, debts, floors, r) > 0,
        |r: Address| shortfall(escrow, debts, floors, r) as u128,
    )
}

/// A deposit of what an account lacks brings the account to its target.
pub proof fn lemma_deposit_settles(
    escrow: Map<Address, u128>,
    debts: Map<Address, u128>,
    floors: Map<Address, u64>,
    receiver: Address,
)
    ensures
        amount_of(escrow, receiver) + shortfall(escrow, debts, floors, receiver) >= target_balance(
            owed(debts, floors, receiver) as nat,
        ),
        amount_of(escrow, receiver) < target_balance(owed(debts, floors, receiver) as nat)
            ==> amount_of(escrow, receiver) + shortfall(escrow, debts, floors, receiver)
            == target_balance(owed(debts, floors, receiver) as nat),
{
}

/// A tick is safe to run again: where every account that it looks at holds
/// its target or more, it wants no deposit.
pub proof fn lemma_settled_tick_wants_nothing(
    active: Seq<Address>,
    escrow: Map<Address, u128>,
    debts: Map<Address, u128>,
    floors: Map<Address, u64>,
)
    requires
        forall|r: Address|
            #![trigger is_receiver(active, escrow, r)]
            is_receiver(active, escrow, r) ==> amount_of(escrow, r) >= target_balance(
                owed(debts, floors, r) as nat,
            ),
    ensures
        planned(active, escrow, debts, floors) == Map::<Address, u128>::empty(),
{
    assert(planned(active, escrow, debts, floors) =~= Map::<Address, u128>::empty());
}

/// The receivers that a tick looks at: the active ones and those with an
/// escrow account, each once, in ascending order.
fn gather_receivers(active: &Vec<Address>, escrow: &SortedMap<Address, u128>) -> (receivers:
    SortedMap<Address, ()>)
    requires
        escrow.wf(),
    ensures
        receivers.wf(),
        forall|r: Address|
            #![trigger receivers.map().contains_key(r)]
            receivers.map().contains_key(r) == is_receiver(active@, escrow.map(), r),
{
    let mut receivers: SortedMap<Address, ()> = SortedMap::new();
    let mut i: usize = 0;
    while i < active.len()
        invariant
            i <= active@.len(),
            receivers.wf(),
            forall|r: Address|
                #![trigger receivers.map().contains_key(r)]
                receivers.map().contains_key(r) == active@.take(i as int).contains(r),
        decreases active@.len() - i,
    {
        receivers.insert(active[i], ());
        proof {
            let head = active@.take(i as int);
            let next = active@.take(i + 1);
            assert(next =~= head.push(active@[i as int]));
            assert forall|r: Address| receivers.map().contains_key(r) == next.contains(r) by {
                if head.contains(r) {
                    let j = choose|j: int| 0 <= j < head.len() && head[j] == r;
                    assert(next[j] == r);
                }
                if next.contains(r) {
                    let j = choose|j: int| 0 <= j < next.len() && next[j] == r;
                    if j < i {
                        assert(head[j] == r);
                    }
                }
                assert(next[i as int] == active@[i as int]);
            }
        }
        i += 1;
    }
    proof {
        assert(active@.take(active@.len() as int) =~= active@);
    }
    let n: usize = escrow.len();
    let mut j: usize = 0;
    while j < n
        invariant
            j <= n,
            n == escrow@.len(),
            escrow.wf(),
            receivers.wf(),
            forall|r: Address|
                #![trigger receivers.map().contains_key(r)]
                receivers.map().contains_key(r) == (active@.contains(r) || has_key_within(
                    escrow@,
                    r,
                    j as int,
                )),
        decreases n - j,
    {
        let key = escrow.key_at(j);
        let ghost before = receivers.map();
        receivers.insert(key, ());
        proof {
            assert(holds_at(escrow@, key, j as int));
            assert forall|r: Address|
                receivers.map().contains_key(r) == (active@.contains(r) || has_key_within(
                    escrow@,
                    r,
                    j as int + 1,
                )) by {
                if has_key_within(escrow@, r, j as int + 1) {
                    let k = choose|k: int| 0 <= k < j as int + 1 && holds_at(escrow@, r, k);
                    if k < j {
                        assert(has_key_within(escrow@, r, j as int));
                    }
                }
                if has_key_within(escrow@, r, j as int) {
                    let k = choose|k: int| 0 <= k < j as int && holds_at(escrow@, r, k);
                    assert(has_key_within(escrow@, r, j as int + 1));
                }
                if r == key {
                    assert(has_key_within(escrow@, r, j as int + 1));
                }
                assert(receivers.map().contains_key(r) == (r == key || before.contains_key(r)));
            }
        }
        j += 1;
    }
    proof {
        assert forall|r: Address|
            receivers.map().contains_key(r) == is_receiver(active@, escrow.map(), r) by {
            if escrow.map().contains_key(r) {
                let k = choose|k: int| holds_at(escrow@, r, k);
                assert(holds_at(escrow@, r, k));
                assert(has_key_within(escrow@, r, n as int));
            }
            if has_key_within(escrow@, r, n as int) {
                let k = choose|k: int| 0 <= k < n as int && holds_at(escrow@, r, k);
                assert(has_key(escrow@, r));
            }
        }
    }
    receivers
}

/// The deposits of one tick, before any cap: for every active receiver and
/// every receiver with an escrow account, what its balance lacks of the
/// target for its debt. Receivers that lack nothing are left out.
///
/// `escrow` holds the balances on the chain, `debts` the aggregator's
/// snapshot, and `floors` the least debts that the configuration assumes,
/// in whole tokens. Where the debt to some receiver is beyond the reach of
/// the ladder, the first such receiver comes back as the error.
pub fn plan_adjustments(
    active: &Vec<Address>,
    escrow: &SortedMap<Address, u128>,
    debts: &SortedMap<Address, u128>,
    floors: &SortedMap<Address, u64>,
) -> (r: Result<SortedMap<Address, u128>, Address>)
    requires
        escrow.wf(),
        debts.wf(),
        floors.wf(),
    ensures
        match r {
            Ok(adjustments) => {
                &&& adjustments.wf()
                &&& adjustments.map() == planned(active@, escrow.map(), debts.map(), floors.map())
                &&& forall|a: Address|
                    !off_ladder(active@, escrow.map(), debts.map(), floors.map(), a)
                &&& forall|a: Address|
                    adjustments.map().contains_key(a) ==> #[trigger] adjustments.map()[a] > 0
            },
            Err(receiver) => {
                &&& off_ladder(active@, escrow.map(), debts.map(), floors.map(), receiver)
                &&& forall|a: Address|
                    off_ladder(active@, escrow.map(), debts.map(), floors.map(), a)
                        ==> !a.before(receiver)
            },
        },
{
    let receivers = gather_receivers(active, escrow);
    let mut out: SortedMap<Address, u128> = SortedMap::new();
    let n: usize = receivers.len();
    let mut i: usize = 0;
    let ghost e = escrow.map();
    let ghost d = debts.map();
    let ghost f = floors.map();
    while i < n
        invariant
            i <= n,
            n == receivers@.len(),
            receivers.wf(),
            escrow.wf(),
            debts.wf(),
            floors.wf(),
            e == escrow.map(),
            d == debts.map(),
            f == floors.map(),
            out.wf(),
            forall|r: Address|
                #![trigger receivers.map().contains_key(r)]
                receivers.map().contains_key(r) == is_receiver(active@, e, r),
            forall|r: Address|
                #![trigger out.map().contains_key(r)]
                out.map().contains_key(r) == (has_key_within(receivers@, r, i as int) && shortfall(
                    e,
                    d,
                    f,
                    r,
                ) > 0),
            forall|r: Address|
                out.map().contains_key(r) ==> #[trigger] out.map()[r] == shortfall(e, d, f, r),
            forall|r: Address|
                has_key_within(receivers@, r, i as int) ==> target_balance(owed(d, f, r) as nat)
                    <= u128::MAX,
        decreases n - i,
    {
        let receiver = receivers.key_at(i);
        proof {
            lemma_entry_in_map(receivers@, i as int);
        }
        let counted: u128 = match debts.get(&receiver) {
            Some(v) => *v,
            None => 0,
        };
        let assumed: u128 = match floors.get(&receiver) {
            Some(v) => (*v as u128) * GRT,
            None => 0,
        };
        let debt: u128 = if counted >= assumed { counted } else { assumed };
        assert(debt == owed(d, f, receiver));
        let target: u128 = match checked_next_balance(debt) {
            Some(t) => t,
            None => {
                proof {
                    assert(receivers.map().contains_key(receiver));
                    assert(is_receiver(active@, e, receiver));
                    assert(off_ladder(active@, e, d, f, receiver));
                    assert forall|a: Address| off_ladder(active@, e, d, f, a) implies !a.before(
                        receiver,
                    ) by {
                        assert(receivers.map().contains_key(a));
                        let k = choose|k: int| holds_at(receivers@, a, k);
                        assert(holds_at(receivers@, a, k));
                        if k < i {
                            assert(has_key_within(receivers@, a, i as int));
                        } else if k > i {
                            assert(receivers@[i as int].0.before(receivers@[k].0));
                            Address::before_irreflexive(a);
                            if a.before(receiver) {
                                Address::before_transitive(a, receiver, a);
                            }
                        } else {
                            Address::before_irreflexive(a);
                        }
                    }
                }
                return Err(receiver);
            },
        };
        let balance: u128 = match escrow.get(&receiver) {
            Some(v) => *v,
            None => 0,
        };
        let ghost before = out.map();
        if target > balance {
            out.insert(receiver, target - balance);
        }
        proof {
            assert(holds_at(receivers@, receiver, i as int));
            assert forall|r: Address|
                out.map().contains_key(r) == (has_key_within(receivers@, r, i as int + 1) && shortfall(
                    e,
                    d,
                    f,
                    r,
                ) > 0) by {
                if has_key_within(receivers@, r, i as int + 1) {
                    let j = choose|j: int| 0 <= j < i as int + 1 && holds_at(receivers@, r, j);
                    if j < i {
                        assert(has_key_within(receivers@, r, i as int));
                    }
                }
                if has_key_within(receivers@, r, i as int) {
                    let j = choose|j: int| 0 <= j < i as int && holds_at(receivers@, r, j);
                    assert(has_key_within(receivers@, r, i as int + 1));
                }
                if r == receiver {
                    assert(has_key_within(receivers@, r, i as int + 1));
                }
            }
            assert forall|r: Address|
                has_key_within(receivers@, r, i as int + 1) implies target_balance(
                owed(d, f, r) as nat,
            ) <= u128::MAX by {
                let j = choose|j: int| 0 <= j < i as int + 1 && holds_at(receivers@, r, j);
                if j < i {
                    assert(has_key_within(receivers@, r, i as int));
                }
            }
        }
        i += 1;
    }
    proof {
        assert forall|r: Address| has_key_within(receivers@, r, n as int) == is_receiver(
            active@,
            e,
            r,
        ) by {
            if has_key_within(receivers@, r, n as int) {
                let j = choose|j: int| 0 <= j < n as int && holds_at(receivers@, r, j);
                assert(has_key(receivers@, r));
            }
            if receivers.map().contains_key(r) {
                let k = choose|k: int| holds_at(receivers@, r, k);
                assert(holds_at(receivers@, r, k));
                assert(has_key_within(receivers@, r, n as int));
            }
        }
        assert(out.map() =~= planned(active@, e, d, f));
        assert forall|a: Address| out.map().contains_key(a) implies #[trigger] out.map()[a]
            > 0 by {
            assert(out.map()[a] == shortfall(e, d, f, a));
        }
    }
    Ok(out)
}

/// What a receiver that wants `desired` is granted after `raises` raises:
/// the minimum deposit and one step for each raise, but no more than it
/// wants; and the minimum deposit if it wants no more than that.
pub open spec fn level(desired: u128, raises: int) -> int {
    if desired <= 2_000_000_000_000_000_000 {
        2_000_000_000_000_000_000
    } else if 2_000_000_000_000_000_000 + raises * 100_000_000_000_000_000_000 < desired {
        2_000_000_000_000_000_000 + raises * 100_000_000_000_000_000_000
    } else {
        desired as int
    }
}

/// The grants after `rounds` whole rounds over the receivers and `index`
/// receivers of the next round.
pub open spec fn raised(desired: Seq<(Address, u128)>, rounds: int, index: int) -> Seq<int> {
    Seq::new(
        desired.len(),
        |k: int|
            level(
                desired[k].1,
                if k < index {
                    rounds + 1
                } else {
                    rounds
                },
            ),
    )
}

/// The sum of a list of amounts.
pub open spec fn sum(amounts: Seq<int>) -> int
    decreases amounts.len(),
{
    if amounts.len() == 0 {
        0
    } else {
        sum(amounts.drop_last()) + amounts.last()
    }
}

/// The amounts of a list of deposits.
pub open spec fn amounts(deposits: Seq<(Address, u128)>) -> Seq<int> {
    Seq::new(deposits.len(), |k: int| deposits[k].1 as int)
}

/// The sum of the grants after `rounds` rounds and `index` receivers.
pub open spec fn granted(desired: Seq<(Address, u128)>, rounds: int, index: int) -> int {
    sum(raised(desired, rounds, index))
}

/// Whether the raise of receiver `index1` in round `rounds1` comes before
/// that of receiver `index2` in round `rounds2`.
pub open spec fn earlier(rounds1: int, index1: int, rounds2: int, index2: int) -> bool {
    rounds1 < rounds2 || (rounds1 == rounds2 && index1 < index2)
}

/// Whether the reduction stops after `index` receivers of round `rounds`:
/// the grants reach the cap there, and nowhere before.
pub open spec fn stops_at(desired: Seq<(Address, u128)>, rounds: int, index: int) -> bool {
    &&& rounds >= 0
    &&& 1 <= index <= desired.len()
    &&& granted(desired, rounds, index) >= MAX_ADJUSTMENT
    &&& forall|r: int, i: int|
        r >= 0 && 1 <= i <= desired.len() && earlier(r, i, rounds, index) ==> #[trigger] granted(
            desired,
            r,
            i,
        ) < MAX_ADJUSTMENT
}

/// The deposits of `desired`, each with the grant of `grants` in its place.
pub open spec fn with_grants(desired: Seq<(Address, u128)>, grants: Seq<int>) -> Seq<
    (Address, u128),
> {
    Seq::new(desired.len(), |k: int| (desired[k].0, grants[k] as u128))
}

proof fn lemma_sum_push(s: Seq<int>, v: int)
    ensures
        sum(s.push(v)) == sum(s) + v,
{
    assert(s.push(v).drop_last() =~= s);
}

proof fn lemma_sum_update(s: Seq<int>, i: int, v: int)
    requires
        0 <= i < s.len(),
    ensures
        sum(s.update(i, v)) == sum(s) - s[i] + v,
    decreases s.len(),
{
    let t = s.update(i, v);
    if i == s.len() - 1 {
        assert(t.drop_last() =~= s.drop_last());
    } else {
        assert(t.drop_last() =~= s.drop_last().update(i, v));
        lemma_sum_update(s.drop_last(), i, v);
    }
}

proof fn lemma_sum_le(a: Seq<int>, b: Seq<int>)
    requires
        a.len() == b.len(),
        forall|k: int| 0 <= k < a.len() ==> a[k] <= b[k],
    ensures
        sum(a) <= sum(b),
    decreases a.len(),
{
    if a.len() > 0 {
        lemma_sum_le(a.drop_last(), b.drop_last());
    }
}

/// One raise changes one grant, by no more than a step and never downwards.
pub proof fn lemma_one_raise(desired: Seq<(Address, u128)>, rounds: int, index: int)
    requires
        rounds >= 0,
        0 <= index < desired.len(),
    ensures
        raised(desired, rounds, index + 1) == raised(desired, rounds, index).update(
            index,
            level(desired[index].1, rounds + 1),
        ),
        granted(desired, rounds, index) <= granted(desired, rounds, index + 1) <= granted(
            desired,
            rounds,
            index,
        ) + ADJUSTMENT_STEP,
        granted(desired, rounds, index + 1) == granted(desired, rounds, index) - level(
            desired[index].1,
            rounds,
        ) + level(desired[index].1, rounds + 1),
{
    let before = raised(desired, rounds, index);
    let after = raised(desired, rounds, index + 1);
    assert(after =~= before.update(index, level(desired[index].1, rounds + 1)));
    lemma_sum_update(before, index, level(desired[index].1, rounds + 1));
}

/// A round that has gone over every receiver is the start of the next.
pub proof fn lemma_round_over(desired: Seq<(Address, u128)>, rounds: int)
    ensures
        raised(desired, rounds + 1, 0) == raised(desired, rounds, desired.len() as int),
{
    assert(raised(desired, rounds + 1, 0) =~= raised(desired, rounds, desired.len() as int));
}

proof fn lemma_stop_bounds(desired: Seq<(Address, u128)>, rounds: int, index: int)
    requires
        stops_at(desired, rounds, index),
    ensures
        forall|k: int|
            0 <= k < desired.len() ==> MIN_DEPOSIT <= (#[trigger] raised(desired, rounds, index)[k])
                <= u128::MAX,
        forall|k: int|
            0 <= k < desired.len() && desired[k].1 >= MIN_DEPOSIT ==> (#[trigger] raised(
                desired,
                rounds,
                index,
            )[k]) <= desired[k].1,
        granted(desired, 0, 1) <= MAX_ADJUSTMENT + ADJUSTMENT_STEP ==> granted(
            desired,
            rounds,
            index,
        ) <= MAX_ADJUSTMENT + ADJUSTMENT_STEP,
{
    if rounds == 0 && index == 1 {
    } else if index > 1 {
        assert(earlier(rounds, index - 1, rounds, index));
        assert(granted(desired, rounds, index - 1) < MAX_ADJUSTMENT);
        lemma_one_raise(desired, rounds, index - 1);
    } else {
        let n = desired.len() as int;
        assert(earlier(rounds - 1, n, rounds, index));
        assert(granted(desired, rounds - 1, n) < MAX_ADJUSTMENT);
        lemma_round_over(desired, rounds - 1);
        lemma_one_raise(desired, rounds, 0);
    }
}

/// A reduction stops in one place, so a list of deposits has one reduction.
pub proof fn lemma_one_reduction(
    desired: Seq<(Address, u128)>,
    first: Seq<(Address, u128)>,
    second: Seq<(Address, u128)>,
)
    requires
        is_reduction(desired, first),
        is_reduction(desired, second),
    ensures
        first == second,
{
    let (r1, i1) = choose|rounds: int, index: int|
        stops_at(desired, rounds, index) && first == with_grants(
            desired,
            raised(desired, rounds, index),
        );
    let (r2, i2) = choose|rounds: int, index: int|
        stops_at(desired, rounds, index) && second == with_grants(
            desired,
            raised(desired, rounds, index),
        );
    if earlier(r1, i1, r2, i2) {
        assert(granted(desired, r1, i1) < MAX_ADJUSTMENT);
    }
    if earlier(r2, i2, r1, i1) {
        assert(granted(desired, r2, i2) < MAX_ADJUSTMENT);
    }
}

/// The batch cap. A reduction keeps the receivers, in their order; its
/// deposits add up to the cap or more; every deposit is at least the
/// minimum deposit, and no more than what was wanted where that was at
/// least the minimum deposit; and the deposits add up to no more than the
/// cap and one step, unless the minimum deposits of all receivers, with the
/// first raise of the first receiver, already add up to more.
pub proof fn lemma_batch_cap(desired: Seq<(Address, u128)>, reduced: Seq<(Address, u128)>)
    requires
        is_reduction(desired, reduced),
    ensures
        reduced.len() == desired.len(),
        forall|k: int| 0 <= k < desired.len() ==> (#[trigger] reduced[k]).0 == desired[k].0,
        sum(amounts(reduced)) >= MAX_ADJUSTMENT,
        forall|k: int| 0 <= k < desired.len() ==> (#[trigger] reduced[k]).1 >= MIN_DEPOSIT,
        forall|k: int|
            0 <= k < desired.len() && desired[k].1 >= MIN_DEPOSIT ==> (#[trigger] reduced[k]).1
                <= desired[k].1,
        granted(desired, 0, 1) <= MAX_ADJUSTMENT + ADJUSTMENT_STEP ==> sum(amounts(reduced))
            <= MAX_ADJUSTMENT + ADJUSTMENT_STEP,
{
    let (rounds, index) = choose|rounds: int, index: int|
        stops_at(desired, rounds, index) && reduced == with_grants(
            desired,
            raised(desired, rounds, index),
        );
    let grants = raised(desired, rounds, index);
    lemma_stop_bounds(desired, rounds, index);
    assert forall|k: int| 0 <= k < desired.len() implies (#[trigger] reduced[k]).1
        == grants[k] by {}
    assert(amounts(reduced) =~= grants);
}

/// The most rounds that a reduction can take.
pub const ROUND_LIMIT: u128 = 3_402_823_669_209_384_634;

/// Whether `reduced` is what the reduction makes of `desired`: the deposits
/// of `desired` with the grants at which the reduction stops.
pub open spec fn is_reduction(desired: Seq<(Address, u128)>, reduced: Seq<(Address, u128)>) -> bool {
    exists|rounds: int, index: int|
        stops_at(desired, rounds, index) && reduced == with_grants(
            desired,
            raised(desired, rounds, index),
        )
}

/// Cuts a round of deposits that would move more than the cap down to one
/// that moves about as much as the cap.
///
/// Of two deposits for one receiver the later one counts. The receivers are
/// taken in ascending order of their addresses. Each starts with the minimum
/// deposit; then, round after round and receiver after receiver, a deposit
/// that is below what is wanted is raised by one step, but not beyond what
/// is wanted. The reduction stops with the first raise after which the
/// deposits add up to the cap or more.
pub fn reduce_adjustments(adjustments: Vec<(Address, u128)>) -> (reduced: Vec<(Address, u128)>)
    requires
        sum(amounts(listing(collected(adjustments@)))) > MAX_ADJUSTMENT,
    ensures
        is_reduction(listing(collected(adjustments@)), reduced@),
{
    let desired: SortedMap<Address, u128> = SortedMap::from_pairs(&adjustments);
    proof {
        lemma_listing(desired@);
    }
    reduce_sorted(&desired)
}

/// The reduction of deposits that are held in ascending order of their
/// receivers, each receiver once.
pub fn reduce_sorted(desired: &SortedMap<Address, u128>) -> (reduced: Vec<(Address, u128)>)
    requires
        desired.wf(),
        sum(amounts(desired@)) > MAX_ADJUSTMENT,
    ensures
        is_reduction(desired@, reduced@),
{
    let ghost want = desired@;
    let n: usize = desired.len();
    let mut out: Vec<u128> = Vec::new();
    let mut total: u128 = 0;
    let mut k: usize = 0;
    while k < n
        invariant
            k <= n,
            n == want.len(),
            out@.len() == k,
            forall|j: int| 0 <= j < k ==> out@[j] == 2_000_000_000_000_000_000,
            total == k * 2_000_000_000_000_000_000,
            total == sum(Seq::new(k as nat, |j: int| out@[j] as int)),
        decreases n - k,
    {
        let ghost before = Seq::new(k as nat, |j: int| out@[j] as int);
        out.push(MIN_DEPOSIT);
        total = total + MIN_DEPOSIT;
        k += 1;
        proof {
            assert(Seq::new(k as nat, |j: int| out@[j] as int) =~= before.push(
                2_000_000_000_000_000_000,
            ));
            lemma_sum_push(before, 2_000_000_000_000_000_000);
        }
    }
    proof {
        assert(Seq::new(n as nat, |j: int| out@[j] as int) =~= raised(want, 0, 0));
        if n == 0 {
            assert(amounts(want) =~= Seq::<int>::empty());
        }
    }
    let mut rounds: u128 = 0;
    let mut index: usize = 0;
    let mut done: bool = false;
    while !done
        invariant
            n == want.len(),
            n >= 1,
            want == desired@,
            desired.wf(),
            out@.len() == n,
            rounds <= ROUND_LIMIT,
            done ==> 1 <= index <= n,
            !done ==> index < n,
            Seq::new(n as nat, |j: int| out@[j] as int) == raised(want, rounds as int, index as int),
            total == granted(want, rounds as int, index as int),
            !done && (rounds > 0 || index > 0) ==> total < MAX_ADJUSTMENT,
            rounds == 0 && index == 0 ==> total == n * 2_000_000_000_000_000_000,
            forall|r: int, i: int|
                r >= 0 && 1 <= i <= n && earlier(r, i, rounds as int, index as int)
                    ==> #[trigger] granted(want, r, i) < MAX_ADJUSTMENT,
            done ==> total >= MAX_ADJUSTMENT,
            sum(amounts(want)) > MAX_ADJUSTMENT,
        decreases ROUND_LIMIT - rounds, n - index, if done { 0int } else { 1int },
    {
        let wanted: u128 = *desired.value_at(index);
        let have: u128 = out[index];
        let ghost grants = raised(want, rounds as int, index as int);
        proof {
            assert(grants[index as int] == have);
            assert(have == level(wanted, rounds as int));
            lemma_one_raise(want, rounds as int, index as int);
        }
        if have < wanted {
            let next: u128 = if wanted - have > ADJUSTMENT_STEP {
                have + ADJUSTMENT_STEP
            } else {
                wanted
            };
            total = total + (next - have);
            out[index] = next;
        }
        proof {
            assert(Seq::new(n as nat, |j: int| out@[j] as int) =~= grants.update(
                index as int,
                level(wanted, rounds as int + 1),
            ));
        }
        index += 1;
        if total >= MAX_ADJUSTMENT {
            done = true;
        } else if index == n {
            proof {
                lemma_round_over(want, rounds as int);
                // some receiver still wants more than it has, or the deposits
                // would add up to more than the cap
                let now = raised(want, rounds as int, n as int);
                if forall|j: int| 0 <= j < n ==> #[trigger] now[j] >= want[j].1 {
                    assert forall|j: int| 0 <= j < amounts(want).len() implies amounts(want)[j]
                        <= now[j] by {
                        assert(now[j] >= want[j].1);
                    }
                    lemma_sum_le(amounts(want), now);
                    assert(false);
                }
                let j = choose|j: int| 0 <= j < n && !(#[trigger] now[j] >= want[j].1);
                assert(now[j] == level(want[j].1, rounds as int + 1));
                assert((rounds + 1) * 100_000_000_000_000_000_000 < u128::MAX);
                assert forall|r: int, i: int|
                    r >= 0 && 1 <= i <= n && earlier(r, i, rounds as int + 1, 0)
                        implies #[trigger] granted(want, r, i) < MAX_ADJUSTMENT by {
                    if r == rounds && i == n {
                    } else {
                        assert(earlier(r, i, rounds as int, n as int));
                    }
                }
            }
            index = 0;
            rounds = rounds + 1;
        } else {
            proof {
                assert forall|r: int, i: int|
                    r >= 0 && 1 <= i <= n && earlier(r, i, rounds as int, index as int)
                        implies #[trigger] granted(want, r, i) < MAX_ADJUSTMENT by {
                    if r == rounds && i == index - 1 {
                    } else {
                        assert(earlier(r, i, rounds as int, index as int - 1));
                    }
                }
            }
        }
        proof {
            if done {
                assert forall|r: int, i: int|
                    r >= 0 && 1 <= i <= n && earlier(r, i, rounds as int, index as int)
                        implies #[trigger] granted(want, r, i) < MAX_ADJUSTMENT by {
                    if r == rounds && i == index - 1 {
                    } else {
                        assert(earlier(r, i, rounds as int, index as int - 1));
                    }
                }
            }
        }
    }
    let mut reduced: Vec<(Address, u128)> = Vec::new();
    let mut k: usize = 0;
    let ghost grants = raised(want, rounds as int, index as int);
    while k < n
        invariant
            k <= n,
            n == want.len(),
            want == desired@,
            out@.len() == n,
            Seq::new(n as nat, |j: int| out@[j] as int) == grants,
            reduced@.len() == k,
            forall|j: int| 0 <= j < k ==> reduced@[j] == (want[j].0, out@[j]),
        decreases n - k,
    {
        reduced.push((desired.key_at(k), out[k]));
        k += 1;
    }
    proof {
        assert(stops_at(want, rounds as int, index as int));
        assert forall|j: int| 0 <= j < n implies reduced@[j] == with_grants(want, grants)[j] by {
            assert(grants[j] == out@[j] as int);
        }
        assert(reduced@ =~= with_grants(want, grants));
    }
    reduced
}

/// Whether `batch` is the round of deposits that a tick makes of what it
/// wants: all of it where that stays within the cap, and its reduction
/// where it does not.
pub open spec fn is_batch(desired: Seq<(Address, u128)>, batch: Seq<(Address, u128)>) -> bool {
    if sum(amounts(desired)) > MAX_ADJUSTMENT {
        is_reduction(desired, batch)
    } else {
        batch == desired
    }
}

proof fn lemma_sum_prefix(deposits: Seq<(Address, u128)>, n: int)
    requires
        0 <= n <= deposits.len(),
    ensures
        0 <= sum(amounts(deposits.take(n))) <= sum(amounts(deposits)),
        n < deposits.len() ==> sum(amounts(deposits.take(n + 1))) == sum(
            amounts(deposits.take(n)),
        ) + deposits[n].1,
    decreases deposits.len() - n,
{
    if n < deposits.len() {
        assert(amounts(deposits.take(n + 1)).drop_last() =~= amounts(deposits.take(n)));
        lemma_sum_prefix(deposits, n + 1);
        lemma_sum_nonnegative(deposits.take(n));
    } else {
        assert(deposits.take(n) =~= deposits);
        lemma_sum_nonnegative(deposits);
    }
}

proof fn lemma_sum_nonnegative(deposits: Seq<(Address, u128)>)
    ensures
        sum(amounts(deposits)) >= 0,
    decreases deposits.len(),
{
    if deposits.len() > 0 {
        assert(amounts(deposits).drop_last() =~= amounts(deposits.drop_last()));
        lemma_sum_nonnegative(deposits.drop_last());
    }
}

/// The round of deposits that a tick makes of what it wants.
pub fn cap_adjustments(desired: &SortedMap<Address, u128>) -> (batch: Vec<(Address, u128)>)
    requires
        desired.wf(),
    ensures
        is_batch(desired@, batch@),
{
    let n: usize = desired.len();
    let mut total: u128 = 0;
    let mut i: usize = 0;
    let mut batch: Vec<(Address, u128)> = Vec::new();
    proof {
        assert(desired@.take(0) =~= Seq::<(Address, u128)>::empty());
        assert(amounts(desired@.take(0)) =~= Seq::<int>::empty());
    }
    while i < n
        invariant
            i <= n,
            n == desired@.len(),
            desired.wf(),
            total == sum(amounts(desired@.take(i as int))),
            total <= MAX_ADJUSTMENT,
            batch@ == desired@.take(i as int),
        decreases n - i,
    {
        let amount: u128 = *desired.value_at(i);
        proof {
            lemma_sum_prefix(desired@, i as int);
            lemma_sum_prefix(desired@, i as int + 1);
        }
        if amount > MAX_ADJUSTMENT - total {
            return reduce_sorted(desired);
        }
        total = total + amount;
        batch.push((desired.key_at(i), amount));
        proof {
            assert(batch@ =~= desired@.take(i as int + 1));
        }
        i += 1;
    }
    proof {
        assert(desired@.take(n as int) =~= desired@);
    }
    batch
}

} // verus!
