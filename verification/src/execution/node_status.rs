//! Where a node stands in a run.

use vstd::prelude::*;

verus! {

/// `Pending`: waiting for its inputs; `Running`: handed out to be run;
/// `Success` / `Failed`: run, with an output or an error; `Skipped`: never
/// run, because no input selected it; `Blocked`: never run, because an input
/// failed or was itself blocked.
#[derive(Clone, Copy, PartialEq, Eq, Structural, Debug)]
pub enum NodeStatus {
    Pending,
    Running,
    Success,
    Failed,
    Skipped,
    Blocked,
}

} // verus!
