//! Discrete-event model of a Lloyd's-style property insurance market: identifiers
//! and simulation time, the event vocabulary and its append-only log, the event
//! queue, the broker's routing, insurers' books, the policy-routing market, the
//! dispatcher that routes each event to them, catastrophe placement, and the
//! statistics and invariant audits of a recorded event stream.

pub mod types;
pub mod config;
pub mod events;
pub mod schedule;
pub mod calendar;
pub mod broker;
pub mod insurer;
pub mod market;
pub mod coordinator;
pub mod perils;
pub mod stream;
pub mod stats;
pub mod analysis;
pub mod integrity;
