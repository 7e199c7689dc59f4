use analyzer::graph::Graph;
use analyzer::treewidth::flowcutter::{self, ffi_edges, ffi_failure_message, ffi_result};
use analyzer::treewidth::subprocess::{
    self, check_solver_binary, finish, parse_output, to_pace_text, wait_step, SolverStep, WaitAction, WaitPhase,
};
use analyzer::treewidth::{compute_oracle, ensure_oracle_available, TwError};

const UNAVAILABLE: &str =
    "FlowCutter FFI is not built; initialise the flow-cutter-pace17 submodule before compiling analyzer";

#[test]
fn oracle_reports_unavailable() {
    match ensure_oracle_available() {
        Err(TwError::OracleUnavailable(msg)) => assert_eq!(msg, UNAVAILABLE),
        _ => panic!("expected the oracle to be unavailable"),
    }
    let graph = Graph::from_edges(4, &[(0, 1), (1, 2), (2, 3)]);
    match compute_oracle(&graph) {
        Err(e) => {
            assert!(matches!(e, TwError::OracleUnavailable(_)));
            assert_eq!(e.message(), format!("oracle unavailable: {UNAVAILABLE}"));
        }
        Ok(_) => panic!("expected an error"),
    }
}

#[test]
fn oracle_error_messages() {
    let e = flowcutter::TwError::SolverFailed("boom".to_string());
    assert_eq!(e.message(), "solver failed: boom");
}

#[test]
fn ffi_edge_arrays_list_each_edge_once() {
    let graph = Graph::from_edges(3, &[(0, 1), (1, 2), (2, 0)]);
    match ffi_edges(&graph) {
        Ok(e) => {
            assert_eq!(e.node_count, 3);
            assert_eq!(e.edge_u, vec![0, 0, 1]);
            assert_eq!(e.edge_v, vec![1, 2, 2]);
        }
        Err(_) => panic!("small graph must fit"),
    }
}

#[test]
fn ffi_status_codes() {
    assert!(matches!(ffi_result(0, 5), Ok(5)));
    let cases = [
        (-1, "flowcutter ffi failed: null output pointer".to_string()),
        (-2, "flowcutter ffi failed: null edge arrays".to_string()),
        (-3, "flowcutter ffi failed: edge endpoint out of range".to_string()),
        (-4, "flowcutter ffi failed with C++ exception".to_string()),
        (7, "flowcutter ffi failed with status code 7".to_string()),
        (-12, "flowcutter ffi failed with status code -12".to_string()),
        (i32::MIN, format!("flowcutter ffi failed with status code {}", i32::MIN)),
    ];
    for (rc, text) in cases {
        assert_eq!(ffi_failure_message(rc), text);
        match ffi_result(rc, 9) {
            Err(flowcutter::TwError::SolverFailed(msg)) => assert_eq!(msg, text),
            _ => panic!("status {rc} must fail"),
        }
    }
}

#[test]
fn parse_output_takes_largest_bag() {
    let out = "s td 3 3 4\nb 1 1 2\nb 2 2 3 4\r\nb 3 4\n1 2\n";
    assert!(matches!(parse_output(out), Ok(2)));
    // Bags may be separated by any white space; a line must start with `b`.
    assert!(matches!(parse_output("  b\t7  1 2 3 4 5\nxb 1 2 3 4 5 6 7 8"), Ok(4)));
    // The last line needs no line break.
    assert!(matches!(parse_output("b 1 1 2 3"), Ok(2)));
}

#[test]
fn parse_output_without_bags_fails() {
    match parse_output("c nothing\n") {
        Err(subprocess::TwError::SolverFailed(msg)) => {
            assert_eq!(msg, "no bag lines found in output: \"c nothing\\n\"")
        }
        _ => panic!("expected a failure"),
    }
    // A bag line with no vertex gives size 0, which is refused too.
    assert!(matches!(parse_output("b 1\n"), Err(subprocess::TwError::SolverFailed(_))));
    // A first word longer than `b` is no bag line.
    assert!(matches!(parse_output("bag 1 2 3\n"), Err(subprocess::TwError::SolverFailed(_))));
    let long: String = std::iter::repeat('x').take(400).collect();
    match parse_output(&long) {
        Err(subprocess::TwError::SolverFailed(msg)) => {
            let head: String = std::iter::repeat('x').take(300).collect();
            assert_eq!(msg, format!("no bag lines found in output: {:?}", head));
        }
        _ => panic!("expected a failure"),
    }
}

#[test]
fn finish_reports_timeout_only_without_output() {
    assert!(matches!(finish(" \n", true), Err(subprocess::TwError::Timeout)));
    assert!(matches!(finish("", false), Err(subprocess::TwError::SolverFailed(_))));
    assert!(matches!(finish("b 1 1 2\n", true), Ok(1)));
}

#[test]
fn pace_text_of_a_path() {
    let graph = Graph::from_edges(3, &[(0, 1), (1, 2)]);
    assert_eq!(to_pace_text(&graph), "p tw 3 2\n1 2\n2 3\n");
    match subprocess::compute(&graph) {
        SolverStep::Run(text) => assert_eq!(text, "p tw 3 2\n1 2\n2 3\n"),
        SolverStep::Done(_) => panic!("a path needs the solver"),
    }
}

#[test]
fn trivial_graphs_need_no_solver() {
    assert!(matches!(subprocess::compute(&Graph::from_edges(1, &[])), SolverStep::Done(Ok(0))));
    assert!(matches!(subprocess::compute(&Graph::from_edges(4, &[])), SolverStep::Done(Ok(0))));
}

#[test]
fn solver_binary_checks() {
    match check_solver_binary("  \t", true) {
        Err(subprocess::TwError::SolverNotFound(msg)) => {
            assert_eq!(msg, "FLOW_CUTTER_BIN is empty; set it to the FlowCutter executable path")
        }
        _ => panic!("blank name must be refused"),
    }
    assert!(check_solver_binary("flow_cutter_pace17", true).is_ok());
    match check_solver_binary("fc", false) {
        Err(e) => assert_eq!(
            e.message(),
            "solver not found: could not find 'fc' (set FLOW_CUTTER_BIN=/absolute/path/to/flow_cutter_pace17)"
        ),
        Ok(()) => panic!("missing binary must be reported"),
    }
    assert_eq!(subprocess::TwError::Timeout.message(), "solver timed out");
}

#[test]
fn waiting_for_the_solver() {
    let limit: u128 = 30_000_000_000;
    // Within the limit: done when the program ended, else look again in 20 ms.
    assert!(matches!(wait_step(&WaitPhase::Running, true, limit + 5, limit), WaitAction::Done(false)));
    assert!(matches!(wait_step(&WaitPhase::Running, false, limit - 1, limit), WaitAction::Sleep(20)));
    // At the limit the program is asked to stop.
    assert!(matches!(wait_step(&WaitPhase::Running, false, limit, limit), WaitAction::Terminate));
    // In the grace period: an ended program still counts as timed out.
    assert!(matches!(wait_step(&WaitPhase::Stopping, true, 0, limit), WaitAction::Done(true)));
    assert!(matches!(wait_step(&WaitPhase::Stopping, false, 199_999_999, limit), WaitAction::Sleep(10)));
    // After 200 ms it is killed, whether or not it ended meanwhile.
    assert!(matches!(wait_step(&WaitPhase::Stopping, false, 200_000_000, limit), WaitAction::Kill));
    assert!(matches!(wait_step(&WaitPhase::Stopping, true, 200_000_000, limit), WaitAction::Kill));
}
