use nvsmi::CommandRunner;
use nvsmi::NvsmiTopology;
use nvsmi::QueryError;

/// Answers pairwise-topology probes from a fixed, symmetric connectivity
/// list; the device listing names `num_devices` stub devices.
struct PairScript {
    num_devices: usize,
    connected: Vec<(usize, usize)>,
}

impl CommandRunner for PairScript {
    fn list_devices(&mut self, _cmd_name: &str) -> Result<Vec<Vec<u8>>, ()> {
        let mut lines = Vec::new();
        for i in 0..self.num_devices {
            lines.push(format!("GPU {}: stub device", i).into_bytes());
        }
        Ok(lines)
    }

    fn context_topology(&mut self, _cmd_name: &str, _context: usize) -> Result<Vec<Vec<u8>>, ()> {
        Ok(vec![b"No GPUs are affine to this CPU".to_vec()])
    }

    fn pair_topology(&mut self, _cmd_name: &str, first: usize, second: usize) -> Result<Vec<Vec<u8>>, ()> {
        if self.connected.contains(&(first, second)) || self.connected.contains(&(second, first)) {
            Ok(vec![
                format!("GPU{} is connected to GPU{} via a single PCIe switch", first, second)
                    .into_bytes(),
                b"a later line that must be ignored".to_vec(),
            ])
        } else {
            Ok(vec![format!("GPU{} and GPU{} do not share a switch", first, second).into_bytes()])
        }
    }
}

/// A tool that cannot be executed at all.
struct NoRun;

impl CommandRunner for NoRun {
    fn list_devices(&mut self, _cmd_name: &str) -> Result<Vec<Vec<u8>>, ()> {
        Err(())
    }

    fn context_topology(&mut self, _cmd_name: &str, _context: usize) -> Result<Vec<Vec<u8>>, ()> {
        Err(())
    }

    fn pair_topology(&mut self, _cmd_name: &str, _first: usize, _second: usize) -> Result<Vec<Vec<u8>>, ()> {
        Err(())
    }
}

#[test]
fn single_device_is_one_singleton_group() {
    let topo = NvsmiTopology::from_observations(1, &vec![]);
    assert_eq!(topo.group_iter, vec![0]);
    assert_eq!(topo.group_ranks, vec![0]);
    assert_eq!(topo.switch_groups.len(), 1);
    assert_eq!(topo.switch_groups.get(&0), Some(&vec![0]));
    assert_eq!(topo.switch_roots.get(&0), Some(&0));
    assert_eq!(topo.num_groups(), 1);
}

#[test]
fn chain_inherits_root_from_first_rooted_device() {
    let topo = NvsmiTopology::from_observations(3, &vec![(0, 1), (1, 2)]);
    assert_eq!(topo.switch_roots.get(&0), Some(&0));
    assert_eq!(topo.switch_roots.get(&1), Some(&0));
    assert_eq!(topo.switch_roots.get(&2), Some(&0));
    assert_eq!(topo.switch_groups.get(&0), Some(&vec![0, 1, 2]));
    assert_eq!(topo.group_iter, vec![0]);
    assert_eq!(topo.group_ranks, vec![0, 0, 0]);
    assert_eq!(topo.num_groups(), 1);
}

#[test]
fn observation_with_only_second_device_rooted_is_ignored() {
    let topo = NvsmiTopology::from_observations(3, &vec![(2, 1), (0, 1)]);
    assert_eq!(topo.group_iter, vec![2, 0]);
    assert_eq!(topo.switch_groups.get(&2), Some(&vec![2, 1]));
    assert_eq!(topo.switch_groups.get(&0), Some(&vec![0]));
    assert_eq!(topo.group_ranks, vec![0, 2, 2]);
    assert_eq!(topo.num_groups(), 2);
}

#[test]
fn root_lookup_is_idempotent() {
    let topo = NvsmiTopology::from_observations(4, &vec![(1, 3), (1, 0)]);
    for d in 0..4 {
        let r = *topo.switch_roots.get(&d).unwrap();
        assert_eq!(*topo.switch_roots.get(&r).unwrap(), r);
    }
}

#[test]
fn groups_partition_the_device_range() {
    let topo = NvsmiTopology::from_observations(5, &vec![(0, 3), (1, 4)]);
    let mut seen = vec![0usize; 5];
    for (root, members) in topo.switch_groups.iter() {
        for m in members.iter() {
            assert_eq!(topo.switch_roots.get(m), Some(root));
            seen[*m] += 1;
        }
    }
    assert_eq!(seen, vec![1, 1, 1, 1, 1]);
}

#[test]
fn repeated_build_is_identical() {
    let obs = vec![(0, 1), (2, 3), (1, 2)];
    let a = NvsmiTopology::from_observations(5, &obs);
    let b = NvsmiTopology::from_observations(5, &obs);
    assert_eq!(a.group_iter, b.group_iter);
    assert_eq!(a.group_ranks, b.group_ranks);
    assert_eq!(a.switch_groups, b.switch_groups);
    assert_eq!(a.switch_roots, b.switch_roots);
}

#[test]
fn query_groups_connected_pairs_and_isolates_the_rest() {
    let mut runner = PairScript { num_devices: 3, connected: vec![(0, 1)] };
    let topo = NvsmiTopology::query(&mut runner, "nvidia-smi-stub", 3).unwrap();
    assert_eq!(topo.group_iter, vec![0, 2]);
    assert_eq!(topo.switch_groups.get(&0), Some(&vec![0, 1]));
    assert_eq!(topo.switch_groups.get(&2), Some(&vec![2]));
    assert_eq!(topo.group_ranks, vec![0, 0, 2]);
    assert_eq!(topo.num_groups(), 2);
}

#[test]
fn unconnected_pair_ends_in_separate_groups() {
    let mut runner = PairScript { num_devices: 6, connected: vec![] };
    let topo = NvsmiTopology::query(&mut runner, "nvidia-smi-stub", 6).unwrap();
    assert_eq!(topo.switch_roots.get(&2), Some(&2));
    assert_eq!(topo.switch_roots.get(&5), Some(&5));
    assert_eq!(topo.group_iter, vec![0, 1, 2, 3, 4, 5]);
    assert_eq!(topo.num_groups(), 6);
}

#[test]
fn query_twice_with_identical_output_is_identical() {
    let mut first = PairScript { num_devices: 4, connected: vec![(0, 2), (2, 3)] };
    let mut second = PairScript { num_devices: 4, connected: vec![(0, 2), (2, 3)] };
    let a = NvsmiTopology::query(&mut first, "nvidia-smi-stub", 4).unwrap();
    let b = NvsmiTopology::query(&mut second, "nvidia-smi-stub", 4).unwrap();
    assert_eq!(a.group_iter, b.group_iter);
    assert_eq!(a.group_ranks, b.group_ranks);
    assert_eq!(a.switch_groups, b.switch_groups);
    assert_eq!(a.switch_roots, b.switch_roots);
}

#[test]
fn topology_query_fails_only_on_execution_failure() {
    let r = NvsmiTopology::query(&mut NoRun, "missing-tool", 2);
    assert_eq!(r.unwrap_err(), QueryError::ExecutionFailure);
}

#[test]
fn default_topology_query_counts_devices_first() {
    let mut runner = PairScript { num_devices: 2, connected: vec![(0, 1)] };
    let topo = NvsmiTopology::query_default(&mut runner).unwrap();
    assert_eq!(topo.group_ranks, vec![0, 0]);
    assert_eq!(topo.num_groups(), 1);
}
