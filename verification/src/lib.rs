//! A verified model of a concurrent TCP connectivity probe: targets are a
//! single IP address or every address of a CIDR block, crossed with an
//! inclusive port range; every (address, port) pair that accepts a TCP
//! connection is reported, one line per open pair, after the whole scan
//! completes.
//!
//! This crate holds the scan's logic: expanding a target into its addresses,
//! building the full cartesian set of scan targets, deciding what each probe
//! outcome contributes to the report, and rendering a report line. The actual
//! socket work and the result channel live in the surrounding program, which
//! feeds plain outcomes back into these functions.
pub mod address;
pub mod render;
pub mod report;
pub mod scheduler;
