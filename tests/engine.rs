use mrt::execute::{
    build_invocation, get_color_args, stops_run, Execution, ExecutionError, ExecutionOutcome, ExecutionPolicy,
    Platform, Step,
};

fn strings(v: Vec<&str>) -> Vec<String> {
    v.into_iter().map(String::from).collect()
}

fn outcome(code: i32, out: &str) -> Result<ExecutionOutcome, ExecutionError> {
    Ok(ExecutionOutcome { exit_code: code, stdout: out.to_string(), stderr: String::new() })
}

fn policy(concurrent: bool, abort: bool) -> ExecutionPolicy {
    ExecutionPolicy { concurrent, stream_output: false, run_in_shell: false, abort_on_nonzero: abort }
}

#[test]
fn missing_command_is_an_error() {
    let r = Execution::new(Vec::new(), strings(vec!["/a"]), policy(false, false), Platform::Posix);
    assert!(matches!(r, Err(ExecutionError::NoCommandSpecified)));
    let r2 = Execution::new(Vec::new(), Vec::new(), policy(false, false), Platform::Posix);
    assert!(matches!(r2, Err(ExecutionError::NoCommandSpecified)));
}

#[test]
fn no_targets_is_no_error() {
    let e = Execution::new(strings(vec!["ls"]), Vec::new(), policy(false, false), Platform::Posix).unwrap();
    assert_eq!(e.next_target(), None);
    assert!(e.finish().is_empty());
}

#[test]
fn concurrent_outcomes_come_back_in_target_order() {
    let targets = strings(vec!["/a", "/b", "/c"]);
    let mut e = Execution::new(strings(vec!["ls"]), targets, policy(true, false), Platform::Posix).unwrap();
    // The last target finishes first.
    assert_eq!(e.record(2, outcome(0, "c")), Step::Continue);
    assert_eq!(e.record(0, outcome(0, "a")), Step::Continue);
    assert_eq!(e.record(1, outcome(0, "b")), Step::Continue);
    let done = e.finish();
    let order: Vec<&str> = done.iter().map(|(p, _)| p.as_str()).collect();
    assert_eq!(order, vec!["/a", "/b", "/c"]);
    let outs: Vec<String> = done.iter().map(|(_, r)| r.as_ref().unwrap().stdout.clone()).collect();
    assert_eq!(outs, strings(vec!["a", "b", "c"]));
}

#[test]
fn spawn_failure_affects_only_its_target() {
    let targets = strings(vec!["/a", "/b", "/c"]);
    let mut e = Execution::new(strings(vec!["nope"]), targets, policy(false, true), Platform::Posix).unwrap();
    let mut steps = Vec::new();
    while let Some(i) = e.next_target() {
        let r = if i == 1 { Err(ExecutionError::Spawn(String::from("not found"))) } else { outcome(0, "ok") };
        steps.push(e.record(i, r));
    }
    assert_eq!(steps, vec![Step::Continue, Step::Continue, Step::Continue]);
    let done = e.finish();
    assert_eq!(done.len(), 3);
    assert!(done[0].1.is_ok());
    assert!(matches!(done[1].1, Err(ExecutionError::Spawn(_))));
    assert!(done[2].1.is_ok());
}

#[test]
fn abort_on_nonzero_leaves_later_targets_unrun() {
    let targets = strings(vec!["/a", "/b", "/c", "/d"]);
    let mut e = Execution::new(strings(vec!["make"]), targets, policy(false, true), Platform::Posix).unwrap();
    let mut ran = Vec::new();
    while let Some(i) = e.next_target() {
        ran.push(i);
        let code = if i == 1 { 2 } else { 0 };
        if e.record(i, outcome(code, "")) == Step::Abort {
            break;
        }
    }
    assert_eq!(ran, vec![0, 1]);
    assert_eq!(e.next_target(), None);
    let done = e.finish();
    let order: Vec<&str> = done.iter().map(|(p, _)| p.as_str()).collect();
    assert_eq!(order, vec!["/a", "/b"]);
}

#[test]
fn nonzero_exit_without_abort_policy_continues() {
    let mut e = Execution::new(strings(vec!["false"]), strings(vec!["/a", "/b"]), policy(false, false), Platform::Posix)
        .unwrap();
    assert_eq!(e.record(0, outcome(1, "")), Step::Continue);
    assert_eq!(e.next_target(), Some(1));
}

#[test]
fn stops_run_only_on_nonzero_exit_with_policy() {
    assert!(stops_run(policy(false, true), &outcome(3, "")));
    assert!(!stops_run(policy(false, true), &outcome(0, "")));
    assert!(!stops_run(policy(false, false), &outcome(3, "")));
    assert!(!stops_run(policy(false, true), &Err(ExecutionError::Io(String::from("broken pipe")))));
}

#[test]
fn color_flags_for_known_programs() {
    assert_eq!(get_color_args("git"), strings(vec!["-c", "color.ui=always"]));
    assert_eq!(get_color_args("ls"), strings(vec!["--color=always"]));
    assert!(get_color_args("vim").is_empty());
}

#[test]
fn direct_invocation_injects_color_flags() {
    let inv = build_invocation(&strings(vec!["git", "status"]), false, Platform::Posix);
    assert_eq!(inv.program, "git");
    assert_eq!(inv.args, strings(vec!["-c", "color.ui=always", "status"]));
    let inv2 = build_invocation(&strings(vec!["echo", "hi"]), false, Platform::Posix);
    assert_eq!(inv2.program, "echo");
    assert_eq!(inv2.args, strings(vec!["hi"]));
}

#[test]
fn shell_invocation_wraps_joined_command() {
    let inv = build_invocation(&strings(vec!["echo", "a", "b"]), true, Platform::Posix);
    assert_eq!(inv.program, "sh");
    assert_eq!(inv.args, strings(vec!["-c", "echo a b"]));
    let win = build_invocation(&strings(vec!["dir"]), true, Platform::Windows);
    assert_eq!(win.program, "powershell");
    assert_eq!(win.args, strings(vec!["/C", "dir"]));
}

#[test]
fn outcome_from_lines_joins_and_defaults_exit_code() {
    let o = ExecutionOutcome::from_lines(None, &strings(vec!["x", "y"]), &Vec::new());
    assert_eq!(o.exit_code, -1);
    assert_eq!(o.stdout, "x\ny");
    assert_eq!(o.stderr, "");
    let o2 = ExecutionOutcome::from_lines(Some(4), &Vec::new(), &strings(vec!["e"]));
    assert_eq!(o2.exit_code, 4);
    assert_eq!(o2.stderr, "e");
}

#[test]
fn policy_from_flags_streams_unless_parallel_and_buffered() {
    assert!(ExecutionPolicy::from_flags(false, false, false, false).stream_output);
    assert!(!ExecutionPolicy::from_flags(true, false, false, false).stream_output);
    assert!(ExecutionPolicy::from_flags(true, true, false, false).stream_output);
}

#[test]
fn invocation_is_kept_by_the_run() {
    let e = Execution::new(strings(vec!["ls", "-l"]), strings(vec!["/x"]), policy(false, false), Platform::Posix).unwrap();
    assert_eq!(e.invocation().program, "ls");
    assert_eq!(e.invocation().args, strings(vec!["--color=always", "-l"]));
    assert_eq!(e.targets(), &strings(vec!["/x"]));
}
