//! How much the tool reports while it runs.
use vstd::prelude::*;

verus! {

/// How much is reported.
#[derive(Debug, Clone, Copy, PartialEq, Eq, Structural)]
pub enum Verbosity {
    Normal,
    Verbose,
    Trace,
}

} // verus!
