//! Escrow replenishment for a payer in a query-fee marketplace.
//!
//! A payer funds, on the chain, one escrow account for every receiver, so
//! that the fees which receivers earn off the chain can be settled. This
//! crate holds the decisions of the service that keeps the accounts funded:
//!
//! - [`ladder`]: the tier ladder, from a debt to the balance that an
//!   account should hold;
//! - [`adjustments`]: what a tick deposits, and the cap on a round of
//!   deposits;
//! - [`aggregator`]: the fees per receiver and hour over a sliding window;
//! - [`wire`] and [`records`]: the fee records as they are written on the
//!   wire;
//! - [`feed`]: from Kafka messages to updates of the aggregator, and the
//!   hand-over from the aggregated topic to the realtime topic at startup;
//! - [`ravs`]: vouchers, as they are written in Kafka messages;
//! - [`pager`] and [`queries`]: the reading of a subgraph page by page, and
//!   the text of the queries;
//! - [`executor`]: what is computed before anything is sent to the chain;
//! - [`reconcile`]: the reconciliation loop as a state machine;
//! - [`config`]: the Kafka part of the configuration;
//! - [`address`], [`order`], [`sorted_map`], [`text`]: addresses, ordered
//!   keys, maps in key order, and the search for a phrase.
//!
//! Nothing here waits on a network. The caller feeds in what arrived and
//! performs what comes back.

pub mod address;
pub mod adjustments;
pub mod aggregator;
pub mod config;
pub mod executor;
pub mod feed;
pub mod ladder;
pub mod order;
pub mod pager;
pub mod queries;
pub mod ravs;
pub mod reconcile;
pub mod records;
pub mod sorted_map;
pub mod text;
pub mod wire;
