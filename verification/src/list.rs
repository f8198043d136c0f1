//! Device counting: the external tool is asked to list the devices it sees,
//! and the number of devices is the number of non-blank lines it prints.

use vstd::prelude::*;

use crate::runner::CommandRunner;
use crate::runner::QueryError;
use crate::text::count_nonblank_lines;

verus! {

/// One listed device, as the tool names it.
#[derive(Clone, Debug)]
pub struct NvsmiGPUEntry {
    pub name: String,
    pub uuid: String,
}

/// The outcome of a "list devices" query.
#[derive(Clone, Copy, Debug, PartialEq, Eq, Structural)]
pub struct NvsmiList {
    pub num_devices: usize,
}

impl NvsmiList {
    /// Queries the default tool for the device count.
    pub fn query_default<R: CommandRunner>(runner: &mut R) -> (r: Result<NvsmiList, QueryError>)
        ensures
            r is Err ==> r->Err_0 == QueryError::ExecutionFailure,
    {
        Self::query(runner, "nvidia-smi")
    }

    /// Runs the tool's "list devices" query and counts the non-blank lines
    /// of its output. Malformed output is tolerated: any text yields a
    /// count, and only a command that cannot run at all is an error.
    pub fn query<R: CommandRunner>(runner: &mut R, cmd_name: &str) -> (r: Result<
        NvsmiList,
        QueryError,
    >)
        ensures
            r is Err ==> r->Err_0 == QueryError::ExecutionFailure,
    {
        match runner.list_devices(cmd_name) {
            Ok(lines) => Ok(NvsmiList { num_devices: count_nonblank_lines(&lines) }),
            Err(_) => Err(QueryError::ExecutionFailure),
        }
    }
}

} // verus!
