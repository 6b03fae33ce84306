//! A lightweight call-tree profiling library.
//!
//! Instrumented code marks named, timed *scopes* (one per function or block)
//! and *frames* (one per iteration of a render or update loop). Every thread
//! records its own nested scope timings into a [`thread_profiler::ThreadProfiler`];
//! the per-thread histories are gathered in a [`global::GlobalProfiler`],
//! serialized to a durable byte format by [`codec`], and analyzed offline by
//! [`analyze`], which derives each sample's self duration (its elapsed time
//! minus the time of its direct children) and the session's total time.

use vstd::prelude::*;
use vstd::string::StringExecFns;

pub mod sample;
pub mod clock;
pub mod thread_profiler;
pub mod global;
pub mod codec;
pub mod analyze;
pub mod timefmt;

verus! {

/// The error kinds the library reports.
#[derive(Debug)]
pub enum ProfilerError {
    /// A file could not be read or written; the payload carries the cause.
    ///
    /// The library itself performs no I/O: this variant exists so that the
    /// surrounding application can surface a failed read or write through the
    /// same error type that the codec uses.
    Io(String),
    /// The given bytes are not a valid encoding of the data model; the
    /// payload names the offending part of the input.
    Format(String),
    /// A frame boundary was crossed while scopes were still open, or a scope
    /// was closed while none was open.
    Usage,
}

impl ProfilerError {
    /// A human-readable description of the error.
    pub fn message(&self) -> (r: String)
        ensures
            (self is Io ==> r@ == "i/o error: "@ + self->Io_0@),
            (self is Format ==> r@ == "format error: "@ + self->Format_0@),
            (self is Usage ==> r@ == "usage error: scope open or close out of order"@),
    {
        match self {
            ProfilerError::Io(cause) => {
                let mut r = "i/o error: ".to_owned();
                r.append(cause.as_str());
                r
            },
            ProfilerError::Format(what) => {
                let mut r = "format error: ".to_owned();
                r.append(what.as_str());
                r
            },
            ProfilerError::Usage => "usage error: scope open or close out of order".to_owned(),
        }
    }
}

} // verus!
