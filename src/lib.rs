//! Classifies cache keys into label sets with ordered pattern rules, counts
//! and sizes the keys of each label set over one refresh cycle, and decides
//! cycle by cycle which published series to update and which to remove.

pub mod config;
pub mod template;
pub mod keys;
pub mod aggregate;
pub mod reconcile;
pub mod profile;
