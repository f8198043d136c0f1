//! Discovery of accelerator-device topology from the textual output of an
//! external device-management tool: counting listed devices, parsing
//! per-context affinity reports, and grouping devices that share a single
//! interconnect switch.

use vstd::prelude::*;

mod affinity;
mod list;
mod runner;
mod text;
mod topology;

pub use affinity::ContextParse;
pub use affinity::NvsmiAffinity;
pub use affinity::context_verdict;
pub use affinity::parse_context_lines;
pub use list::NvsmiGPUEntry;
pub use list::NvsmiList;
pub use runner::CommandRunner;
pub use runner::QueryError;
pub use text::count_nonblank_lines;
pub use text::pair_line_connected;
pub use text::spec_count_nonblank;
pub use text::spec_pair_connected;
pub use topology::NvsmiTopology;

verus! {

/// The view of a map from indices to index lists: each list as a sequence.
pub open spec fn lists_view(m: Map<usize, Vec<usize>>) -> Map<usize, Seq<usize>> {
    Map::new(|k: usize| m.contains_key(k), |k: usize| m[k]@)
}

/// The number of devices that the default tool lists, or the error if it
/// could not be run.
pub fn num_gpus<R: CommandRunner>(runner: &mut R) -> (r: Result<usize, QueryError>)
    ensures
        r is Err ==> r->Err_0 == QueryError::ExecutionFailure,
{
    match NvsmiList::query_default(runner) {
        Ok(list) => Ok(list.num_devices),
        Err(e) => Err(e),
    }
}

} // verus!
