//! Command-line options, as plain values.

use vstd::prelude::*;

verus! {

/// The command-line options: the path of the configuration file.
pub struct Options {
    pub config: String,
}

} // verus!
