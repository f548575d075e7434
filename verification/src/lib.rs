//! A verified pipeline from a kernel-tracing utility's line-oriented
//! output to process-tree traces.
//!
//! One record per line comes in; the [`strace`] module scans it into a
//! header and body and, on demand, parses argument text into a recursive
//! value tree. The [`window`] module restores ascending timestamp order
//! over a sliding buffer, the [`strace::analyzer`] keeps a live model of
//! the process tree and classifies each line into a semantic [`event`],
//! and the [`perfetto`] and [`otel`] sinks turn events into flame-chart
//! packets and remote-span commands for an unverified writer to encode.

pub mod bytes;
pub mod event;
pub mod otel;
pub mod perfetto;
pub mod strace;
pub mod time;
pub mod window;

use vstd::prelude::*;

verus! {

/// Process identifier as it appears at the start of a trace line.
pub type Pid = i32;

} // verus!
