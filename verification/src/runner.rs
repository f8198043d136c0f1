//! The external-command abstraction: queries are issued through a
//! `CommandRunner`, which runs the named device-management tool and hands back
//! its captured standard output as a list of byte lines. The library itself
//! never spawns a process; callers supply a runner (the shipped binary uses a
//! real subprocess runner, tests use stubs), so every query function is
//! deterministic in the runner's answers.

use vstd::prelude::*;

verus! {

/// Why a query failed.
#[derive(Clone, Copy, Debug, PartialEq, Eq, Structural)]
pub enum QueryError {
    /// The external command could not be run at all.
    ExecutionFailure,
    /// The tool's own output began with its failure marker.
    ToolReportedFailure,
    /// A line had none of the expected shapes.
    MalformedOutput,
}

/// Runs the external device-management tool and captures its standard output,
/// split into lines (without line terminators). An `Err` means the command
/// could not be executed at all; the content of the captured text is never
/// promised, so callers must cope with every possible output.
pub trait CommandRunner {
    /// Runs the tool with its "list devices" argument.
    fn list_devices(&mut self, cmd_name: &str) -> Result<Vec<Vec<u8>>, ()>;

    /// Runs the tool with its "topology for one execution context" argument.
    fn context_topology(&mut self, cmd_name: &str, context: usize) -> Result<Vec<Vec<u8>>, ()>;

    /// Runs the tool with its "pairwise topology for two devices" argument.
    fn pair_topology(&mut self, cmd_name: &str, first: usize, second: usize) -> Result<
        Vec<Vec<u8>>,
        (),
    >;
}

/// Relies on num_cpus::get: the number of CPUs available to the current
/// system, documented to always be at least 1.
#[verifier::external_body]
pub(crate) fn cpu_count() -> (n: usize)
    ensures
        n >= 1,
{
    num_cpus::get()
}

} // verus!
