//! Configuration values the engine is started with.
//!
//! The surrounding binary deserializes the configuration file into these
//! plain values before the engine starts.

use vstd::prelude::*;

verus! {

/// A named snapshot pattern: snapshots whose short name matches
/// `match_string` are scored under this pattern's name.
pub struct Snapshot {
    pub name: String,
    pub match_string: String,
}

/// A dataset entry: the dataset `name` is watched against the named
/// snapshot patterns; with `recurse`, so is every filesystem below it.
pub struct Dataset {
    pub name: String,
    pub snapshots: Vec<String>,
    pub recurse: bool,
}

/// A pool entry.
pub struct Pool {
    pub name: String,
}

/// The full configuration: explicit entries, the two discovery flags,
/// the listen address for the exposition endpoint and the scrape
/// interval in milliseconds.
pub struct Config {
    pub snapshots: Vec<Snapshot>,
    pub datasets: Vec<Dataset>,
    pub pools: Vec<Pool>,
    pub listen: String,
    pub all_pools: bool,
    pub all_datasets: bool,
    pub interval: u64,
}

/// Default for the two discovery flags: discover everything.
pub fn default_true() -> (r: bool)
    ensures
        r == true,
{
    true
}

/// Default scrape interval in milliseconds: one minute.
pub fn default_interval() -> (r: u64)
    ensures
        r == 60000,
{
    60_000
}

} // verus!
