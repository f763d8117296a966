//! Commute planning core: a cache of transit connections for a handful of
//! desired routes, with reconciliation against the configuration, eviction
//! of stale connections, refresh of emptied entries and a merged view
//! ordered by the moment one has to leave.

pub mod mvg;
pub mod config;
pub mod cache;
pub mod connection;
