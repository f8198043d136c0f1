use nvsmi::CommandRunner;
use nvsmi::ContextParse;
use nvsmi::NvsmiList;
use nvsmi::QueryError;
use nvsmi::context_verdict;
use nvsmi::count_nonblank_lines;
use nvsmi::num_gpus;
use nvsmi::pair_line_connected;
use nvsmi::parse_context_lines;

/// Only lists devices; every probe fails.
struct ListOnly {
    lines: Vec<Vec<u8>>,
}

impl CommandRunner for ListOnly {
    fn list_devices(&mut self, _cmd_name: &str) -> Result<Vec<Vec<u8>>, ()> {
        Ok(self.lines.clone())
    }

    fn context_topology(&mut self, _cmd_name: &str, _context: usize) -> Result<Vec<Vec<u8>>, ()> {
        Err(())
    }

    fn pair_topology(&mut self, _cmd_name: &str, _first: usize, _second: usize) -> Result<Vec<Vec<u8>>, ()> {
        Err(())
    }
}

/// A tool that cannot be executed at all.
struct Unrunnable;

impl CommandRunner for Unrunnable {
    fn list_devices(&mut self, _cmd_name: &str) -> Result<Vec<Vec<u8>>, ()> {
        Err(())
    }

    fn context_topology(&mut self, _cmd_name: &str, _context: usize) -> Result<Vec<Vec<u8>>, ()> {
        Err(())
    }

    fn pair_topology(&mut self, _cmd_name: &str, _first: usize, _second: usize) -> Result<Vec<Vec<u8>>, ()> {
        Err(())
    }
}

#[test]
fn first_line_failure_marker_is_detected() {
    let lines = vec![b"Failed to initialize the management library".to_vec()];
    assert!(matches!(parse_context_lines(&lines), ContextParse::Failed));
}

#[test]
fn no_gpus_marker_yields_an_empty_device_list() {
    let lines = vec![b"No GPUs have affinity to this CPU".to_vec()];
    match parse_context_lines(&lines) {
        ContextParse::Devices(v) => assert!(v.is_empty()),
        _ => panic!("expected an empty device list"),
    }
}

#[test]
fn device_list_line_is_parsed_with_trimming() {
    let lines = vec![
        b"The GPUs affine to this CPU are:".to_vec(),
        b" 0,\t3 , 12".to_vec(),
        b"a later line that must be ignored".to_vec(),
    ];
    match parse_context_lines(&lines) {
        ContextParse::Devices(v) => assert_eq!(v, vec![0, 3, 12]),
        _ => panic!("expected a device list"),
    }
}

#[test]
fn empty_output_is_malformed() {
    let lines: Vec<Vec<u8>> = vec![];
    assert!(matches!(parse_context_lines(&lines), ContextParse::Malformed));
}

#[test]
fn unrecognized_first_line_is_malformed() {
    let lines = vec![b"GPU 0: some banner".to_vec()];
    assert!(matches!(parse_context_lines(&lines), ContextParse::Malformed));
}

#[test]
fn header_without_device_line_is_malformed() {
    let lines = vec![b"The GPUs affine to this CPU are:".to_vec()];
    assert!(matches!(parse_context_lines(&lines), ContextParse::Malformed));
}

#[test]
fn empty_device_token_is_malformed() {
    let lines = vec![b"The GPUs affine to this CPU are:".to_vec(), b"0,,1".to_vec()];
    assert!(matches!(parse_context_lines(&lines), ContextParse::Malformed));
}

#[test]
fn non_digit_device_token_is_malformed() {
    let lines = vec![b"The GPUs affine to this CPU are:".to_vec(), b"3,four".to_vec()];
    assert!(matches!(parse_context_lines(&lines), ContextParse::Malformed));
}

#[test]
fn oversized_device_index_is_malformed() {
    let lines = vec![
        b"The GPUs affine to this CPU are:".to_vec(),
        b"99999999999999999999999999999999".to_vec(),
    ];
    assert!(matches!(parse_context_lines(&lines), ContextParse::Malformed));
}

#[test]
fn each_report_maps_to_its_error_kind() {
    assert_eq!(
        context_verdict(ContextParse::Failed).unwrap_err(),
        QueryError::ToolReportedFailure
    );
    assert_eq!(
        context_verdict(ContextParse::Malformed).unwrap_err(),
        QueryError::MalformedOutput
    );
    assert_eq!(context_verdict(ContextParse::Devices(vec![4, 2])), Ok(vec![4, 2]));
    let report = parse_context_lines(&vec![b"Failed to initialize".to_vec()]);
    assert_eq!(context_verdict(report).unwrap_err(), QueryError::ToolReportedFailure);
}

#[test]
fn connectivity_needs_both_phrases() {
    assert!(pair_line_connected(
        &b"GPU0 is connected to GPU1 via a single PCIe switch".to_vec()
    ));
    assert!(!pair_line_connected(&b"GPU0 is connected to GPU1 via multiple hops".to_vec()));
    assert!(!pair_line_connected(&b"GPU0 and GPU1 share a single PCIe switch".to_vec()));
    assert!(!pair_line_connected(&b"".to_vec()));
}

#[test]
fn device_count_ignores_blank_lines() {
    let lines = vec![b"GPU 0".to_vec(), b"".to_vec(), b"GPU 1".to_vec()];
    assert_eq!(count_nonblank_lines(&lines), 2);
    let empty: Vec<Vec<u8>> = vec![];
    assert_eq!(count_nonblank_lines(&empty), 0);
}

#[test]
fn num_gpus_counts_listed_devices() {
    let mut runner = ListOnly {
        lines: vec![b"GPU 0: stub A".to_vec(), b"GPU 1: stub B".to_vec()],
    };
    assert_eq!(num_gpus(&mut runner), Ok(2));
    let list = NvsmiList::query(&mut runner, "nvidia-smi-stub").unwrap();
    assert_eq!(list.num_devices, 2);
}

#[test]
fn num_gpus_propagates_execution_failure() {
    assert_eq!(num_gpus(&mut Unrunnable), Err(QueryError::ExecutionFailure));
    assert_eq!(
        NvsmiList::query_default(&mut Unrunnable).unwrap_err(),
        QueryError::ExecutionFailure
    );
}
