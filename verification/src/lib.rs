//! Earliest-arrival routing over a static public-transit schedule.
//!
//! A schedule of trips and stop events is turned into a time-expanded graph
//! whose nodes are individual departures and arrivals; queries search that
//! graph by clock time.

pub mod builder;
pub mod calendar;
pub mod error;
pub mod graph;
pub mod loader;
pub mod network;
pub mod queue;
pub mod records;
pub mod schedule;
pub mod search;
pub mod spatial;
pub mod table;
