//! The reconciliation loop, as the decisions it takes.
//!
//! A tick asks for the active receivers, then for the escrow accounts, then
//! deposits what the accounts lack, and rests until the next tick. The
//! reconciler is told what happened and answers with what to do; its caller
//! waits, asks and sends.

use vstd::prelude::*;
use crate::address::Address;
use crate::adjustments::{cap_adjustments, is_batch, off_ladder, plan_adjustments, planned};
use crate::sorted_map::{collected, lemma_listing, listing, SortedMap};
use crate::text::{mentions, mentions_phrase};

verus! {

/// Where the loop stands.
#[derive(Clone, Copy, Debug, PartialEq, Eq, Structural)]
pub enum Phase {
    /// Between two ticks.
    Idle,
    /// In a tick, waiting for the active receivers.
    Receivers,
    /// In a tick, waiting for the escrow accounts.
    Accounts,
    /// In a tick, waiting for the deposits to land.
    Deposit,
    /// After a signal to stop.
    Stopped,
}

/// How loudly a tick that was given up is reported.
#[derive(Clone, Copy, Debug, PartialEq, Eq, Structural)]
pub enum Severity {
    Warning,
    Error,
}

/// Why a tick was given up.
#[derive(Clone, Copy, Debug, PartialEq, Eq)]
pub enum TickFailure {
    /// The active receivers could not be had.
    Receivers,
    /// The escrow accounts could not be had, because the subgraph is
    /// missing the block that was asked for.
    MissingBlock,
    /// The escrow accounts could not be had, for another reason.
    Accounts,
    /// The debt to this receiver is beyond the reach of the tier ladder.
    DebtBeyondLadder(Address),
    /// The deposits were not made.
    Deposit,
    /// The deposits were made, but their receipt names no block.
    InvalidReceipt,
}

/// What the caller is to do next.
#[derive(Clone, Debug, PartialEq, Eq)]
pub enum Action {
    /// Wait for the next tick.
    Rest,
    /// Ask for the active receivers.
    QueryReceivers,
    /// Ask for the escrow accounts of the payer.
    QueryAccounts,
    /// Make these deposits in one transaction.
    Deposit(Vec<(Address, u128)>),
    /// Report that the tick was given up, and wait for the next tick.
    Skip(Severity, TickFailure),
    /// Make the next reading of the escrow accounts ask for blocks from
    /// this one on, report that the adjustments are complete, and wait for
    /// the next tick.
    Pin(u64),
    /// Leave the loop.
    Exit,
}

/// The reconciliation loop of one payer.
pub struct Reconciler {
    phase: Phase,
    floors: SortedMap<Address, u64>,
    active: Vec<Address>,
}

impl Reconciler {
    /// The configured floors are held in order, each receiver once.
    pub closed spec fn wf(&self) -> bool {
        self.floors.wf()
    }

    /// Where the loop stands.
    pub closed spec fn phase(&self) -> Phase {
        self.phase
    }

    /// The least debts that the configuration assumes, in whole tokens.
    pub closed spec fn floors(&self) -> Map<Address, u64> {
        self.floors.map()
    }

    /// The active receivers of the running tick.
    pub closed spec fn active(&self) -> Seq<Address> {
        self.active@
    }

    /// A loop between two ticks, with the least debts that the
    /// configuration assumes. Of two entries for one receiver the later one
    /// counts.
    pub fn new(floors: &Vec<(Address, u64)>) -> (r: Reconciler)
        ensures
            r.wf(),
            r.phase() == Phase::Idle,
            r.floors() == collected(floors@),
    {
        Reconciler { phase: Phase::Idle, floors: SortedMap::from_pairs(floors), active: Vec::new() }
    }

    /// Where the loop stands.
    pub fn current_phase(&self) -> (phase: Phase)
        ensures
            phase == self.phase(),
    {
        self.phase
    }

    /// A signal to stop has come: the loop is left, whatever it was doing.
    pub fn on_signal(&mut self) -> (action: Action)
        requires
            old(self).wf(),
        ensures
            final(self).wf(),
            final(self).phase() == Phase::Stopped,
            final(self).floors() == old(self).floors(),
            action == Action::Exit,
    {
        self.phase = Phase::Stopped;
        Action::Exit
    }

    /// The timer has fired. Between two ticks this begins a tick; during a
    /// tick it changes nothing.
    pub fn on_tick(&mut self) -> (action: Action)
        requires
            old(self).wf(),
        ensures
            final(self).wf(),
            final(self).floors() == old(self).floors(),
            match old(self).phase() {
                Phase::Idle => final(self).phase() == Phase::Receivers && action
                    == Action::QueryReceivers,
                Phase::Stopped => final(self).phase() == Phase::Stopped && action == Action::Exit,
                _ => final(self).phase() == old(self).phase() && final(self).active() == old(
                    self,
                ).active() && action == Action::Rest,
            },
    {
        match self.phase {
            Phase::Idle => {
                self.phase = Phase::Receivers;
                Action::QueryReceivers
            },
            Phase::Stopped => Action::Exit,
            _ => Action::Rest,
        }
    }

    /// The query for the active receivers has ended. If it failed, the tick
    /// is given up; else the tick goes on to the escrow accounts.
    pub fn on_receivers(&mut self, result: Result<Vec<Address>, String>) -> (action: Action)
        requires
            old(self).wf(),
        ensures
            final(self).wf(),
            final(self).floors() == old(self).floors(),
            match old(self).phase() {
                Phase::Receivers => match result {
                    Ok(active) => final(self).phase() == Phase::Accounts && final(self).active()
                        == active@ && action == Action::QueryAccounts,
                    Err(_) => final(self).phase() == Phase::Idle && action == Action::Skip(
                        Severity::Error,
                        TickFailure::Receivers,
                    ),
                },
                Phase::Stopped => final(self).phase() == Phase::Stopped && action == Action::Exit,
                _ => final(self).phase() == old(self).phase() && final(self).active() == old(
                    self,
                ).active() && action == Action::Rest,
            },
    {
        match self.phase {
            Phase::Receivers => match result {
                Ok(active) => {
                    self.active = active;
                    self.phase = Phase::Accounts;
                    Action::QueryAccounts
                },
                Err(_) => {
                    self.phase = Phase::Idle;
                    Action::Skip(Severity::Error, TickFailure::Receivers)
                },
            },
            Phase::Stopped => Action::Exit,
            _ => Action::Rest,
        }
    }

    /// The query for the escrow accounts has ended; `debts` is the latest
    /// snapshot of the aggregator.
    ///
    /// If the query failed, the tick is given up: with a warning where the
    /// failure speaks of a missing block, with an error otherwise. Else the
    /// tick looks at every active receiver and every receiver with an
    /// account. It is given up if the debt to one of them is beyond the
    /// reach of the ladder. It ends without a deposit if no account lacks
    /// anything. Otherwise it goes on to deposit what the accounts lack,
    /// reduced where that is more than the cap.
    pub fn on_accounts(
        &mut self,
        result: Result<Vec<(Address, u128)>, String>,
        debts: &SortedMap<Address, u128>,
    ) -> (action: Action)
        requires
            old(self).wf(),
            debts.wf(),
        ensures
            final(self).wf(),
            final(self).floors() == old(self).floors(),
            match old(self).phase() {
                Phase::Accounts => match result {
                    Err(reason) => final(self).phase() == Phase::Idle && action == (if mentions_phrase(
                        reason@,
                        "missing block"@,
                    ) {
                        Action::Skip(Severity::Warning, TickFailure::MissingBlock)
                    } else {
                        Action::Skip(Severity::Error, TickFailure::Accounts)
                    }),
                    Ok(accounts) => {
                        let escrow = collected(accounts@);
                        let wanted = planned(
                            old(self).active(),
                            escrow,
                            debts.map(),
                            old(self).floors(),
                        );
                        if exists|a: Address|
                            off_ladder(old(self).active(), escrow, debts.map(), old(self).floors(), a) {
                            &&& final(self).phase() == Phase::Idle
                            &&& action matches Action::Skip(
                                Severity::Error,
                                TickFailure::DebtBeyondLadder(receiver),
                            )
                            &&& off_ladder(
                                old(self).active(),
                                escrow,
                                debts.map(),
                                old(self).floors(),
                                receiver,
                            )
                        } else if wanted == Map::<Address, u128>::empty() {
                            final(self).phase() == Phase::Idle && action == Action::Rest
                        } else {
                            &&& final(self).phase() == Phase::Deposit
                            &&& action matches Action::Deposit(batch)
                            &&& is_batch(listing(wanted), batch@)
                        }
                    },
                },
                Phase::Stopped => final(self).phase() == Phase::Stopped && action == Action::Exit,
                _ => final(self).phase() == old(self).phase() && final(self).active() == old(
                    self,
                ).active() && action == Action::Rest,
            },
    {
        match self.phase {
            Phase::Accounts => {},
            Phase::Stopped => {
                return Action::Exit;
            },
            _ => {
                return Action::Rest;
            },
        }
        self.phase = Phase::Idle;
        let accounts = match result {
            Ok(accounts) => accounts,
            Err(reason) => {
                if mentions(reason.as_str(), "missing block") {
                    return Action::Skip(Severity::Warning, TickFailure::MissingBlock);
                } else {
                    return Action::Skip(Severity::Error, TickFailure::Accounts);
                }
            },
        };
        let escrow: SortedMap<Address, u128> = SortedMap::from_pairs(&accounts);
        let wanted = match plan_adjustments(&self.active, &escrow, debts, &self.floors) {
            Ok(wanted) => wanted,
            Err(receiver) => {
                return Action::Skip(Severity::Error, TickFailure::DebtBeyondLadder(receiver));
            },
        };
        if wanted.is_empty() {
            return Action::Rest;
        }
        proof {
            lemma_listing(wanted@);
        }
        let batch = cap_adjustments(&wanted);
        self.phase = Phase::Deposit;
        Action::Deposit(batch)
    }

    /// The transaction with the deposits has ended: with the number of the
    /// block that holds it, with a receipt that names no block, or with a
    /// failure. Only in the first case are the adjustments complete.
    pub fn on_deposited(&mut self, result: Result<Option<u64>, String>) -> (action: Action)
        requires
            old(self).wf(),
        ensures
            final(self).wf(),
            final(self).floors() == old(self).floors(),
            match old(self).phase() {
                Phase::Deposit => final(self).phase() == Phase::Idle && action == (match result {
                    Ok(Some(block)) => Action::Pin(block),
                    Ok(None) => Action::Skip(Severity::Error, TickFailure::InvalidReceipt),
                    Err(_) => Action::Skip(Severity::Error, TickFailure::Deposit),
                }),
                Phase::Stopped => final(self).phase() == Phase::Stopped && action == Action::Exit,
                _ => final(self).phase() == old(self).phase() && final(self).active() == old(
                    self,
                ).active() && action == Action::Rest,
            },
    {
        match self.phase {
            Phase::Deposit => {
                self.phase = Phase::Idle;
                match result {
                    Ok(Some(block)) => Action::Pin(block),
                    Ok(None) => Action::Skip(Severity::Error, TickFailure::InvalidReceipt),
                    Err(_) => Action::Skip(Severity::Error, TickFailure::Deposit),
                }
            },
            Phase::Stopped => Action::Exit,
            _ => Action::Rest,
        }
    }
}

} // verus!
