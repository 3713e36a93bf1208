//! Flash-memory read dispatch.
//!
//! Given a target description with one or more non-volatile memory (NVM)
//! regions, each served by a flash algorithm and reachable only from certain
//! cores, this library determines which algorithm and core serve each region,
//! groups regions so that each distinct (algorithm, core) pair is handled by
//! exactly one programming session, and lays out the sequence of session
//! steps a driver must perform for a verified read of a byte range.
//!
//! The hardware side (probe transport, flasher protocol) is not part of this
//! library: a driver executes the planned steps against the probe.

pub mod dispatch;
pub mod error;
pub mod group;
pub mod plan;
pub mod region;
pub mod resolve;
pub mod target;
