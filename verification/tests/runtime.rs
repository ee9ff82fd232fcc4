use cosmic_ext_applet_container_manager::domain::{Action, Backend, Container};
use cosmic_ext_applet_container_manager::runtime::{
    action_args, action_outcome, after_inspect, backend_program, discovery_args,
    discovery_description, discovery_outcome, drain_step, host_prefix_args, inspect_args,
    merge_discoveries, plan_action, poll_decision, timeout_error, ActionStep, BackendErrors,
    BackendSet, ChildStatus, CommandOutput, Discovery, DrainStep, PollAction, ReadOutcome,
    RuntimeError, LIST_FORMAT, MAX_CAPTURE_BYTES, POLL_INTERVAL_NANOS, SYSTEM_ACTION_TIMEOUT_SECS,
    SYSTEM_COMMAND_TIMEOUT_SECS,
};

fn output(success: bool, status: &str, stdout: &[u8], stderr: &[u8]) -> CommandOutput {
    CommandOutput {
        success,
        status: status.to_string(),
        stdout: stdout.to_vec(),
        stderr: stderr.to_vec(),
    }
}

fn value(state: &str) -> Container {
    Container {
        backend: Backend::Docker,
        id: "abc123".into(),
        image: "web:1".into(),
        name: "web".into(),
        state: state.into(),
        status: "status".into(),
    }
}

fn row(backend: Backend, id: &str) -> Container {
    Container {
        backend,
        id: id.into(),
        image: "team/web:1".into(),
        name: "web".into(),
        state: "running".into(),
        status: "Up".into(),
    }
}

#[test]
fn fixed_argument_vectors() {
    assert_eq!(
        discovery_args(),
        vec!["ps", "-a", "--no-trunc", "--format", "{{.ID}}\t{{.Image}}\t{{.Names}}\t{{.State}}\t{{.Status}}"]
    );
    assert_eq!(LIST_FORMAT, "{{.ID}}\t{{.Image}}\t{{.Names}}\t{{.State}}\t{{.Status}}");
    assert_eq!(inspect_args("abc123"), vec!["inspect", "--format", "{{.State.Status}}", "abc123"]);
    assert_eq!(action_args(Action::Delete, "abc123"), vec!["rm", "abc123"]);
    assert_eq!(action_args(Action::Restart, "x"), vec!["restart", "x"]);
    assert_eq!(host_prefix_args(Backend::Podman), vec!["--host", "--watch-bus", "podman"]);
    assert_eq!(backend_program(Backend::Docker), "docker");
    assert_eq!(Backend::from_name(backend_program(Backend::Podman)), Some(Backend::Podman));
    assert_eq!(discovery_description(Backend::Podman), "Podman discovery");
}

#[test]
fn system_deadlines_allow_the_container_grace_period() {
    assert!(SYSTEM_ACTION_TIMEOUT_SECS >= 30);
    assert!(SYSTEM_COMMAND_TIMEOUT_SECS <= 10);
}

#[test]
fn discovery_outcome_parses_a_successful_listing() {
    let result =
        discovery_outcome(Backend::Docker, output(true, "exit status: 0", b"id1\tteam/web:1\tweb\trunning\tUp\n", b""));
    let items = result.unwrap();
    assert_eq!(items.len(), 1);
    assert_eq!(items[0].backend, Backend::Docker);
    assert_eq!(items[0].image, "team/web:1");
}

#[test]
fn discovery_outcome_reports_failures() {
    let error = discovery_outcome(Backend::Podman, output(false, "exit status: 127", b"", b"  unavailable\n"))
        .unwrap_err();
    assert_eq!(error.message(), "unavailable");
    let error = discovery_outcome(Backend::Podman, output(false, "exit status: 127", b"ignored", b" \n"))
        .unwrap_err();
    assert_eq!(error.to_string(), "Podman exited with exit status: 127");
    let error = discovery_outcome(Backend::Docker, output(true, "exit status: 0", &[0x66, 0xff], b""))
        .unwrap_err();
    let expected = format!("invalid UTF-8: {}", String::from_utf8(vec![0x66, 0xff]).unwrap_err());
    assert_eq!(error.message(), expected);
    let error = discovery_outcome(Backend::Docker, output(true, "exit status: 0", b"\nid\tx\n", b""))
        .unwrap_err();
    assert_eq!(error.message(), "invalid container output on line 2");
}

#[test]
fn merge_keeps_dockers_copy_of_identical_rows() {
    let result = merge_discoveries(vec![
        (Backend::Podman, Ok(vec![row(Backend::Podman, "same-full-id")])),
        (Backend::Docker, Ok(vec![row(Backend::Docker, "same-full-id")])),
    ]);
    assert_eq!(result.containers.len(), 1);
    assert_eq!(result.containers[0].backend, Backend::Docker);
    assert!(result.successful_backends.contains(Backend::Docker));
    assert!(result.successful_backends.contains(Backend::Podman));
}

#[test]
fn merge_isolates_errors_by_engine() {
    let result = merge_discoveries(vec![
        (Backend::Docker, Ok(vec![row(Backend::Docker, "id1")])),
        (Backend::Podman, Err(RuntimeError::new("unavailable".to_string()))),
    ]);
    assert_eq!(result.containers.len(), 1);
    assert_eq!(result.successful_backends.to_vec(), vec![Backend::Docker]);
    assert!(result.errors.contains_key(Backend::Podman));
    assert!(!result.errors.contains_key(Backend::Docker));
    assert_eq!(result.errors.get(Backend::Podman), Some("unavailable"));
}

#[test]
fn merge_of_an_empty_answer_reports_the_engine() {
    let result = merge_discoveries(vec![(Backend::Podman, Ok(Vec::new()))]);
    assert!(result.containers.is_empty());
    assert_eq!(result.successful_backends.to_vec(), vec![Backend::Podman]);
    assert!(result.errors.is_empty());
}

#[test]
fn distinct_rows_are_kept_and_repeated_rows_dropped() {
    let mut other = row(Backend::Podman, "same");
    other.status = "Up 2".into();
    let result = merge_discoveries(vec![
        (Backend::Podman, Ok(vec![row(Backend::Podman, "p1"), other])),
        (Backend::Docker, Ok(vec![row(Backend::Docker, "same"), row(Backend::Docker, "same")])),
        (Backend::Docker, Err(RuntimeError::new("first".to_string()))),
        (Backend::Docker, Err(RuntimeError::new("second".to_string()))),
    ]);
    let ids: Vec<(Backend, String, String)> = result
        .containers
        .iter()
        .map(|c| (c.backend, c.id.clone(), c.status.clone()))
        .collect();
    assert_eq!(
        ids,
        vec![
            (Backend::Docker, "same".to_string(), "Up".to_string()),
            (Backend::Podman, "p1".to_string(), "Up".to_string()),
            (Backend::Podman, "same".to_string(), "Up 2".to_string()),
        ]
    );
    assert_eq!(result.errors.get(Backend::Docker), Some("second"));
}

#[test]
fn empty_merge_and_defaults() {
    let result = merge_discoveries(Vec::new());
    assert!(result.containers.is_empty());
    assert!(result.successful_backends.is_empty());
    assert!(result.errors.is_empty());
    let default = Discovery::default();
    assert!(default.successful_backends.is_empty());
    assert!(BackendSet::default().to_vec().is_empty());
    assert!(BackendErrors::default().is_empty());
}

#[test]
fn backend_set_insert_reports_novelty() {
    let mut set = BackendSet::new();
    assert!(set.insert(Backend::Podman));
    assert!(!set.insert(Backend::Podman));
    assert!(set.insert(Backend::Docker));
    assert_eq!(set.to_vec(), vec![Backend::Docker, Backend::Podman]);
}

#[test]
fn actions_start_only_when_allowed_and_on_the_right_engine() {
    match plan_action(Backend::Podman, &value("exited"), Action::Start) {
        ActionStep::Finished(Err(e)) => assert_eq!(e.message(), "runtime does not match container backend"),
        _ => panic!("mismatched runtime must be refused"),
    }
    match plan_action(Backend::Docker, &value("running"), Action::Start) {
        ActionStep::Finished(Err(e)) => assert_eq!(e.message(), "start is not allowed for this container"),
        _ => panic!("start of a running container must be refused"),
    }
    match plan_action(Backend::Docker, &value("running"), Action::Delete) {
        ActionStep::Finished(Err(e)) => assert_eq!(e.message(), "rm is not allowed for this container"),
        _ => panic!("removal of a running container must be refused"),
    }
    match plan_action(Backend::Docker, &value("exited"), Action::Start) {
        ActionStep::Run { args, description } => {
            assert_eq!(args, vec!["start", "abc123"]);
            assert_eq!(description, "Docker start");
        }
        _ => panic!("start of an exited container must run"),
    }
    match plan_action(Backend::Docker, &value("running"), Action::Stop) {
        ActionStep::Run { args, .. } => assert_eq!(args, vec!["stop", "abc123"]),
        _ => panic!("stop of a running container must run"),
    }
}

#[test]
fn removal_rechecks_the_state_first() {
    match plan_action(Backend::Docker, &value("exited"), Action::Delete) {
        ActionStep::Inspect { args, description } => {
            assert_eq!(args, vec!["inspect", "--format", "{{.State.Status}}", "abc123"]);
            assert_eq!(description, "Docker inspect");
        }
        _ => panic!("removal must inspect first"),
    }
    match after_inspect(Backend::Docker, &value("exited"), output(true, "exit status: 0", b"exited\n", b"")) {
        ActionStep::Run { args, description } => {
            assert_eq!(args, vec!["rm", "abc123"]);
            assert_eq!(description, "Docker rm");
        }
        _ => panic!("an exited container may be removed"),
    }
}

#[test]
fn inspect_reporting_running_stops_the_removal() {
    match after_inspect(Backend::Docker, &value("exited"), output(true, "exit status: 0", b"running\n", b"")) {
        ActionStep::Finished(Err(e)) => {
            assert_eq!(e.message(), "container is not removable in current state \"running\"")
        }
        _ => panic!("a running container must not be removed"),
    }
    match after_inspect(Backend::Docker, &value("exited"), output(false, "exit status: 1", b"", b"")) {
        ActionStep::Finished(Err(e)) => assert_eq!(e.message(), "Docker inspect exited with exit status: 1"),
        _ => panic!("a failed inspect must stop the removal"),
    }
    match after_inspect(Backend::Docker, &value("exited"), output(true, "exit status: 0", &[0xc3], b"")) {
        ActionStep::Finished(Err(e)) => assert!(e.message().starts_with("invalid inspect UTF-8: ")),
        _ => panic!("undecodable state must stop the removal"),
    }
}

#[test]
fn action_outcomes() {
    assert!(action_outcome(Backend::Docker, &output(true, "exit status: 0", b"", b"")).is_ok());
    let error = action_outcome(Backend::Podman, &output(false, "exit status: 125", b"", b"no such container\n"))
        .unwrap_err();
    assert_eq!(error.message(), "no such container");
}

#[test]
fn polling_never_waits_past_the_deadline() {
    assert_eq!(poll_decision(ChildStatus::Exited, 5, 10), PollAction::Collect);
    assert_eq!(poll_decision(ChildStatus::CheckFailed, 5, 10), PollAction::Abandon);
    assert_eq!(poll_decision(ChildStatus::StillRunning, 10, 10), PollAction::Terminate);
    assert_eq!(poll_decision(ChildStatus::StillRunning, 4, 10), PollAction::Wait(6));
    assert_eq!(
        poll_decision(ChildStatus::StillRunning, 0, 1_000_000_000),
        PollAction::Wait(POLL_INTERVAL_NANOS)
    );
}

#[test]
fn timeout_error_keeps_the_error_stream() {
    let error = timeout_error("Docker start", "150ms", b"started action");
    assert_eq!(error.message(), "Docker start timed out after 150ms: started action");
    let error = timeout_error("Podman discovery", "400ms", b"  \n");
    assert_eq!(error.message(), "Podman discovery timed out after 400ms");
}

#[test]
fn draining_keeps_at_most_the_capture_limit() {
    let mut captured = vec![7u8; MAX_CAPTURE_BYTES - 2];
    assert!(matches!(
        drain_step(&mut captured, ReadOutcome::Data(vec![1, 2, 3, 4]), "x"),
        DrainStep::Continue
    ));
    assert_eq!(captured.len(), MAX_CAPTURE_BYTES);
    assert_eq!(&captured[MAX_CAPTURE_BYTES - 2..], &[1, 2]);
    assert!(matches!(drain_step(&mut captured, ReadOutcome::Data(vec![9]), "x"), DrainStep::Continue));
    assert_eq!(captured.len(), MAX_CAPTURE_BYTES);
    let mut small = Vec::new();
    assert!(matches!(drain_step(&mut small, ReadOutcome::Data(Vec::new()), "x"), DrainStep::Stop));
    assert!(matches!(drain_step(&mut small, ReadOutcome::WouldBlock, "x"), DrainStep::Stop));
    assert!(matches!(drain_step(&mut small, ReadOutcome::Interrupted, "x"), DrainStep::Continue));
    match drain_step(&mut small, ReadOutcome::Failed("broken pipe".to_string()), "Docker rm") {
        DrainStep::Fail(e) => assert_eq!(e.message(), "could not read Docker rm output: broken pipe"),
        _ => panic!("a failed read must fail"),
    }
    assert!(small.is_empty());
}
