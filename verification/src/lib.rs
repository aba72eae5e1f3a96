//! Verified core of a terminal investment dashboard: exact decimal amounts,
//! the holdings computed from a portfolio's transactions, the tables of
//! portfolios and transactions, a per-symbol circuit breaker and cache policy
//! for quote fetching, the search of the transaction history by symbol,
//! rebalancing advice towards target allocations, the watchlist of the
//! configuration file, and the keyboard-driven screen state.

pub mod amount;
pub mod text;
pub mod order;
pub mod ledger;
pub mod breaker;
pub mod records;
pub mod ui;
pub mod quotes;
pub mod store;
pub mod search;
pub mod targets;
pub mod rebalance;
pub mod watchlist;
