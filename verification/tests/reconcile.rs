use tap_escrow_manager::address::Address;
use tap_escrow_manager::ladder::{DEBT_LIMIT, GRT, MAX_ADJUSTMENT};
use tap_escrow_manager::reconcile::{Action, Phase, Reconciler, Severity, TickFailure};
use tap_escrow_manager::sorted_map::SortedMap;

fn addr(n: u8) -> Address {
    Address::new([n; 20])
}

fn numbered(n: u32) -> Address {
    let mut bytes = [0u8; 20];
    bytes[16..].copy_from_slice(&n.to_be_bytes());
    Address::new(bytes)
}

fn debts(pairs: &[(u8, u128)]) -> SortedMap<Address, u128> {
    SortedMap::from_pairs(&pairs.iter().map(|(a, v)| (addr(*a), *v)).collect())
}

fn tick(
    floors: &[(u8, u64)],
    active: &[u8],
    escrow: &[(u8, u128)],
    snapshot: &[(u8, u128)],
) -> (Reconciler, Action) {
    let floors: Vec<(Address, u64)> = floors.iter().map(|(a, v)| (addr(*a), *v)).collect();
    let mut reconciler = Reconciler::new(&floors);
    assert_eq!(reconciler.on_tick(), Action::QueryReceivers);
    let active: Vec<Address> = active.iter().map(|a| addr(*a)).collect();
    assert_eq!(reconciler.on_receivers(Ok(active)), Action::QueryAccounts);
    let escrow: Vec<(Address, u128)> = escrow.iter().map(|(a, v)| (addr(*a), *v)).collect();
    let action = reconciler.on_accounts(Ok(escrow), &debts(snapshot));
    (reconciler, action)
}

#[test]
fn tick_for_a_fresh_receiver_deposits_the_minimum() {
    let (reconciler, action) = tick(&[], &[1], &[], &[(1, 0)]);
    assert_eq!(action, Action::Deposit(vec![(addr(1), 2 * GRT)]));
    assert_eq!(reconciler.current_phase(), Phase::Deposit);
}

#[test]
fn tick_with_a_balance_above_target_deposits_nothing() {
    let (reconciler, action) = tick(&[], &[1], &[(1, 4 * GRT)], &[(1, 0)]);
    assert_eq!(action, Action::Rest);
    assert_eq!(reconciler.current_phase(), Phase::Idle);
}

#[test]
fn tick_tops_up_the_one_receiver_that_lacks() {
    let (_, action) = tick(&[], &[1, 2], &[(1, 2 * GRT), (2, 2 * GRT)], &[(1, 0), (2, 70 * GRT)]);
    assert_eq!(action, Action::Deposit(vec![(addr(2), 126 * GRT)]));
}

#[test]
fn tick_goes_by_the_configured_floor() {
    let (_, action) = tick(&[(1, 70), (1, 100)], &[1], &[], &[]);
    assert_eq!(action, Action::Deposit(vec![(addr(1), 256 * GRT)]));
}

#[test]
fn tick_reduces_a_round_above_the_cap() {
    let mut reconciler = Reconciler::new(&vec![]);
    reconciler.on_tick();
    let active: Vec<Address> = (0..1000u32).map(numbered).collect();
    reconciler.on_receivers(Ok(active));
    // a debt of 10 tokens has a target of 32; with 12 on the account 20 are lacking
    let escrow: Vec<(Address, u128)> = (0..1000u32).map(|n| (numbered(n), 12 * GRT)).collect();
    let snapshot: Vec<(Address, u128)> = (0..1000u32).map(|n| (numbered(n), 10 * GRT)).collect();
    let action = reconciler.on_accounts(Ok(escrow), &SortedMap::from_pairs(&snapshot));
    let batch = match action {
        Action::Deposit(batch) => batch,
        _ => panic!("the tick should deposit"),
    };
    assert_eq!(batch.len(), 1000);
    let total: u128 = batch.iter().map(|(_, v)| v).sum();
    assert!(total >= MAX_ADJUSTMENT);
    assert!(total <= MAX_ADJUSTMENT + 100 * GRT);
    for (n, (receiver, amount)) in batch.iter().enumerate() {
        assert_eq!(*receiver, numbered(n as u32));
        assert_eq!(*amount, if n < 445 { 20 * GRT } else { 2 * GRT });
    }
}

#[test]
fn deposit_that_landed_pins_the_next_reading() {
    let (mut reconciler, _) = tick(&[], &[1], &[], &[]);
    assert_eq!(reconciler.on_deposited(Ok(Some(1234))), Action::Pin(1234));
    assert_eq!(reconciler.current_phase(), Phase::Idle);
    assert_eq!(reconciler.on_tick(), Action::QueryReceivers);
}

#[test]
fn deposit_that_failed_gives_the_tick_up() {
    let (mut reconciler, _) = tick(&[], &[1], &[], &[]);
    assert_eq!(
        reconciler.on_deposited(Err("execution reverted".to_string())),
        Action::Skip(Severity::Error, TickFailure::Deposit)
    );
    assert_eq!(reconciler.current_phase(), Phase::Idle);
    let (mut reconciler, _) = tick(&[], &[1], &[], &[]);
    assert_eq!(
        reconciler.on_deposited(Ok(None)),
        Action::Skip(Severity::Error, TickFailure::InvalidReceipt)
    );
    assert_eq!(reconciler.current_phase(), Phase::Idle);
}

#[test]
fn failed_queries_give_the_tick_up() {
    let mut reconciler = Reconciler::new(&vec![]);
    reconciler.on_tick();
    assert_eq!(
        reconciler.on_receivers(Err("timeout".to_string())),
        Action::Skip(Severity::Error, TickFailure::Receivers)
    );
    assert_eq!(reconciler.current_phase(), Phase::Idle);
    reconciler.on_tick();
    reconciler.on_receivers(Ok(vec![addr(1)]));
    assert_eq!(
        reconciler.on_accounts(Err("timeout".to_string()), &debts(&[])),
        Action::Skip(Severity::Error, TickFailure::Accounts)
    );
    assert_eq!(reconciler.current_phase(), Phase::Idle);
}

#[test]
fn missing_block_is_only_a_warning() {
    let mut reconciler = Reconciler::new(&vec![]);
    reconciler.on_tick();
    reconciler.on_receivers(Ok(vec![addr(1)]));
    assert_eq!(
        reconciler.on_accounts(Err("subgraph error: missing block: 99".to_string()), &debts(&[])),
        Action::Skip(Severity::Warning, TickFailure::MissingBlock)
    );
    assert_eq!(reconciler.current_phase(), Phase::Idle);
}

#[test]
fn debt_beyond_the_ladder_gives_the_tick_up() {
    let (reconciler, action) = tick(&[], &[1, 2], &[], &[(2, DEBT_LIMIT)]);
    assert_eq!(action, Action::Skip(Severity::Error, TickFailure::DebtBeyondLadder(addr(2))));
    assert_eq!(reconciler.current_phase(), Phase::Idle);
}

#[test]
fn signal_leaves_the_loop_for_good() {
    let mut reconciler = Reconciler::new(&vec![]);
    reconciler.on_tick();
    assert_eq!(reconciler.on_signal(), Action::Exit);
    assert_eq!(reconciler.current_phase(), Phase::Stopped);
    assert_eq!(reconciler.on_tick(), Action::Exit);
    assert_eq!(reconciler.on_receivers(Ok(vec![])), Action::Exit);
    assert_eq!(reconciler.on_accounts(Ok(vec![]), &debts(&[])), Action::Exit);
    assert_eq!(reconciler.on_deposited(Ok(Some(1))), Action::Exit);
    assert_eq!(reconciler.current_phase(), Phase::Stopped);
}

#[test]
fn events_out_of_turn_change_nothing() {
    let mut reconciler = Reconciler::new(&vec![]);
    assert_eq!(reconciler.on_receivers(Ok(vec![addr(1)])), Action::Rest);
    assert_eq!(reconciler.on_accounts(Ok(vec![]), &debts(&[])), Action::Rest);
    assert_eq!(reconciler.on_deposited(Ok(Some(1))), Action::Rest);
    assert_eq!(reconciler.current_phase(), Phase::Idle);
    reconciler.on_tick();
    // a second tick during a tick is not a new tick
    assert_eq!(reconciler.on_tick(), Action::Rest);
    assert_eq!(reconciler.on_deposited(Ok(Some(1))), Action::Rest);
    assert_eq!(reconciler.current_phase(), Phase::Receivers);
}
