//! A sharded, time-windowed event counter for rate limiting.
//!
//! `series` holds one key's time buckets, `keymap` the series of one
//! partition, `local` the lock-striped counter with its clock, `config` the
//! parser for collection rules, `rest` the per-request decision and
//! `matcher` the linking of collections.

pub mod config;
pub mod keymap;
pub mod local;
pub mod matcher;
pub mod rest;
pub mod series;
