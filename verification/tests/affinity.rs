use std::collections::HashMap;

use nvsmi::CommandRunner;
use nvsmi::NvsmiAffinity;
use nvsmi::QueryError;

fn gpus_header() -> Vec<u8> {
    b"The GPUs affine to this CPU are listed below".to_vec()
}

/// Answers each context-topology probe with a canned output, by context
/// index.
struct AffinityScript {
    per_context: Vec<Vec<Vec<u8>>>,
}

impl CommandRunner for AffinityScript {
    fn list_devices(&mut self, _cmd_name: &str) -> Result<Vec<Vec<u8>>, ()> {
        Ok(vec![])
    }

    fn context_topology(&mut self, _cmd_name: &str, context: usize) -> Result<Vec<Vec<u8>>, ()> {
        match self.per_context.get(context) {
            Some(lines) => Ok(lines.clone()),
            None => Err(()),
        }
    }

    fn pair_topology(&mut self, _cmd_name: &str, _first: usize, _second: usize) -> Result<Vec<Vec<u8>>, ()> {
        Ok(vec![])
    }
}

/// Reports no affine devices for every context, however many are probed.
struct NoGpusEver;

impl CommandRunner for NoGpusEver {
    fn list_devices(&mut self, _cmd_name: &str) -> Result<Vec<Vec<u8>>, ()> {
        Ok(vec![])
    }

    fn context_topology(&mut self, _cmd_name: &str, _context: usize) -> Result<Vec<Vec<u8>>, ()> {
        Ok(vec![b"No GPUs have affinity to this CPU".to_vec()])
    }

    fn pair_topology(&mut self, _cmd_name: &str, _first: usize, _second: usize) -> Result<Vec<Vec<u8>>, ()> {
        Ok(vec![])
    }
}

/// A tool that cannot be executed at all.
struct NeverRuns;

impl CommandRunner for NeverRuns {
    fn list_devices(&mut self, _cmd_name: &str) -> Result<Vec<Vec<u8>>, ()> {
        Err(())
    }

    fn context_topology(&mut self, _cmd_name: &str, _context: usize) -> Result<Vec<Vec<u8>>, ()> {
        Err(())
    }

    fn pair_topology(&mut self, _cmd_name: &str, _first: usize, _second: usize) -> Result<Vec<Vec<u8>>, ()> {
        Err(())
    }
}

#[test]
fn affinity_maps_are_exact_inverses() {
    let mut runner = AffinityScript {
        per_context: vec![
            vec![gpus_header(), b" 1, 5".to_vec()],
            vec![b"No GPUs have affinity to this CPU".to_vec()],
            vec![gpus_header(), b"1".to_vec()],
        ],
    };
    let aff = NvsmiAffinity::query(&mut runner, "nvidia-smi-stub", 3).unwrap();

    let mut forward: HashMap<usize, Vec<usize>> = HashMap::new();
    forward.insert(0, vec![1, 5]);
    forward.insert(1, vec![]);
    forward.insert(2, vec![1]);
    assert_eq!(aff.threads_to_devices, forward);

    let mut inverse: HashMap<usize, Vec<usize>> = HashMap::new();
    inverse.insert(1, vec![0, 2]);
    inverse.insert(5, vec![0]);
    assert_eq!(aff.devices_to_threads, inverse);
}

#[test]
fn every_context_appears_as_a_forward_key() {
    let mut runner = NoGpusEver;
    let aff = NvsmiAffinity::query(&mut runner, "nvidia-smi-stub", 4).unwrap();
    assert_eq!(aff.threads_to_devices.len(), 4);
    for c in 0..4 {
        assert_eq!(aff.threads_to_devices.get(&c), Some(&vec![]));
    }
    assert!(aff.devices_to_threads.is_empty());
}

#[test]
fn duplicate_listed_devices_collapse_in_the_inverse() {
    let mut runner = AffinityScript {
        per_context: vec![vec![gpus_header(), b"0, 0, 3".to_vec()]],
    };
    let aff = NvsmiAffinity::query(&mut runner, "nvidia-smi-stub", 1).unwrap();
    assert_eq!(aff.threads_to_devices.get(&0), Some(&vec![0, 0, 3]));
    assert_eq!(aff.devices_to_threads.get(&0), Some(&vec![0]));
    assert_eq!(aff.devices_to_threads.get(&3), Some(&vec![0]));
    assert_eq!(aff.devices_to_threads.len(), 2);
}

#[test]
fn inverse_context_lists_are_ascending() {
    let mut runner = AffinityScript {
        per_context: vec![
            vec![gpus_header(), b"7".to_vec()],
            vec![gpus_header(), b"7, 2".to_vec()],
            vec![gpus_header(), b"2, 7".to_vec()],
        ],
    };
    let aff = NvsmiAffinity::query(&mut runner, "nvidia-smi-stub", 3).unwrap();
    assert_eq!(aff.devices_to_threads.get(&7), Some(&vec![0, 1, 2]));
    assert_eq!(aff.devices_to_threads.get(&2), Some(&vec![1, 2]));
}

#[test]
fn failure_marker_fails_the_whole_query() {
    let good = vec![gpus_header(), b"0".to_vec()];
    let mut runner = AffinityScript {
        per_context: vec![
            good.clone(),
            good.clone(),
            good.clone(),
            vec![b"Failed to query affinity".to_vec()],
            good.clone(),
        ],
    };
    let r = NvsmiAffinity::query(&mut runner, "nvidia-smi-stub", 5);
    assert_eq!(r.unwrap_err(), QueryError::ToolReportedFailure);
}

#[test]
fn malformed_first_line_is_a_hard_error() {
    let mut runner = AffinityScript {
        per_context: vec![vec![b"unexpected banner".to_vec()]],
    };
    let r = NvsmiAffinity::query(&mut runner, "nvidia-smi-stub", 1);
    assert_eq!(r.unwrap_err(), QueryError::MalformedOutput);
}

#[test]
fn missing_device_line_is_a_hard_error() {
    let mut runner = AffinityScript { per_context: vec![vec![gpus_header()]] };
    let r = NvsmiAffinity::query(&mut runner, "nvidia-smi-stub", 1);
    assert_eq!(r.unwrap_err(), QueryError::MalformedOutput);
}

#[test]
fn unparsable_device_token_is_a_hard_error() {
    let mut runner = AffinityScript {
        per_context: vec![vec![gpus_header(), b"0, x".to_vec()]],
    };
    let r = NvsmiAffinity::query(&mut runner, "nvidia-smi-stub", 1);
    assert_eq!(r.unwrap_err(), QueryError::MalformedOutput);
}

#[test]
fn execution_failure_aborts_the_affinity_query() {
    let r = NvsmiAffinity::query(&mut NeverRuns, "missing-tool", 2);
    assert_eq!(r.unwrap_err(), QueryError::ExecutionFailure);
}

#[test]
fn default_affinity_query_covers_every_cpu() {
    let mut runner = NoGpusEver;
    let aff = NvsmiAffinity::query_default(&mut runner).unwrap();
    assert!(aff.threads_to_devices.len() >= 1);
    assert_eq!(aff.threads_to_devices.get(&0), Some(&vec![]));
    assert!(aff.devices_to_threads.is_empty());
}
