//! Plain records exchanged between the plate solver, the command-line tools
//! and the viewer: solve outcomes and timings, and star visibility.

use vstd::prelude::*;

verus! {

/// Overall outcome of a blind plate solve.
#[derive(Debug, Clone, Copy, PartialEq, Eq, Structural)]
pub enum SolveStatus {
    Solved,
    Failed,
}

/// Failure details of a solve that did not succeed.
#[derive(Debug, Clone, PartialEq, Eq)]
pub struct SolveFailure {
    pub code: String,
    pub message: String,
}

/// Per-stage timing in milliseconds.
#[derive(Debug, Clone, Copy, PartialEq, Eq, Structural)]
pub struct SolveTimingMs {
    pub detect: u64,
    pub solve: u64,
    pub total: u64,
}

/// Whether a projected catalog star lands in the frame.
#[derive(Debug, Clone, Copy, PartialEq, Eq, Structural)]
pub enum Visibility {
    Visible,
    OutOfFrustum,
    BehindCamera,
}

} // verus!
