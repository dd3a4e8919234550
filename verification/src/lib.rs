//! Finds packages that a resolved dependency graph pins at more than one
//! version, and explains through which dependents each stale pin is reached.

pub mod chain;
pub mod detect;
pub mod graph;
pub mod index;
pub mod lockfile;
pub mod names;
pub mod record;
pub mod registry;
pub mod report;
pub mod version;
