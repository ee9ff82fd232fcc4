use cosmic_ext_applet_container_manager::domain::{
    visible_actions, Action, ActionErrorState, ActionTracker, Backend, Container, ContainerState,
};

fn container(state: &str) -> Container {
    Container {
        backend: Backend::Docker,
        id: "abc123".into(),
        image: "registry.example/team/widget-service:latest".into(),
        name: "actual-runtime-name".into(),
        state: state.into(),
        status: "Up 2 hours".into(),
    }
}

#[test]
fn image_label_strips_path_and_preserves_tag() {
    assert_eq!(container("running").image_label(), "widget-service:latest");
    let mut digest = container("exited");
    digest.image = "registry.example/team/image@sha256:deadbeef".into();
    assert_eq!(digest.image_label(), "image@sha256:deadbeef");
}

#[test]
fn running_container_cannot_be_deleted() {
    assert!(!container("running").allows(Action::Delete));
    assert!(container("exited").allows(Action::Delete));
}

#[test]
fn only_explicit_inactive_states_allow_start_or_delete() {
    for state in ["created", "exited", "stopped"] {
        assert!(container(state).allows(Action::Start), "{state} should be startable");
        assert!(container(state).allows(Action::Delete), "{state} should be removable");
    }

    for state in ["paused", "restarting", "removing", "unknown", "broken-state", ""] {
        assert!(!container(state).allows(Action::Start), "{state:?} must fail closed for start");
        assert!(!container(state).allows(Action::Delete), "{state:?} must fail closed for delete");
    }
}

#[test]
fn only_running_allows_stop_or_restart() {
    assert!(container("RUNNING").allows(Action::Stop));
    assert!(container("running").allows(Action::Restart));

    for state in ["created", "exited", "stopped", "paused", "restarting", "removing", "unknown"] {
        assert!(!container(state).allows(Action::Stop), "{state} must not allow stop");
        assert!(!container(state).allows(Action::Restart), "{state} must not allow restart");
    }
}

#[test]
fn row_identity_is_backend_aware_and_duplicate_actions_are_rejected() {
    let mut tracker = ActionTracker::default();
    assert!(tracker.begin(Backend::Docker, "abc123"));
    assert!(!tracker.begin(Backend::Docker, "abc123"));
    assert!(tracker.begin(Backend::Podman, "abc123"));
    tracker.finish(Backend::Docker, "abc123");
    assert!(tracker.begin(Backend::Docker, "abc123"));
}

#[test]
fn action_errors_are_isolated_by_backend_and_container() {
    let mut errors = ActionErrorState::default();
    errors.finish(Backend::Docker, "first", Err("permission denied".into()));
    errors.finish(Backend::Docker, "second", Err("daemon unavailable".into()));

    assert_eq!(errors.get(Backend::Docker, "first"), Some("permission denied"));
    assert_eq!(errors.get(Backend::Docker, "second"), Some("daemon unavailable"));

    errors.begin(Backend::Docker, "second");
    assert_eq!(errors.get(Backend::Docker, "first"), Some("permission denied"));
    assert_eq!(errors.get(Backend::Docker, "second"), None);

    errors.finish(Backend::Docker, "first", Ok(()));
    assert_eq!(errors.get(Backend::Docker, "first"), None);
}

fn app_container(running: bool) -> Container {
    Container {
        backend: Backend::Docker,
        id: "container-id".into(),
        name: "container-name".into(),
        image: "example/image:latest".into(),
        status: if running { "Up 2 minutes".into() } else { "Exited (0) 2 minutes ago".into() },
        state: if running { "running".into() } else { "exited".into() },
    }
}

#[test]
fn running_rows_only_show_valid_actions() {
    assert_eq!(visible_actions(&app_container(true)), vec![Action::Stop, Action::Restart]);
}

#[test]
fn stopped_rows_only_show_valid_actions() {
    assert_eq!(visible_actions(&app_container(false)), vec![Action::Start, Action::Delete]);
}

#[test]
fn backend_names_and_lookup() {
    assert_eq!(Backend::Docker.name(), "Docker");
    assert_eq!(Backend::Podman.name(), "Podman");
    assert_eq!(Backend::from_name("docker"), Some(Backend::Docker));
    assert_eq!(Backend::from_name("podman"), Some(Backend::Podman));
    assert_eq!(Backend::from_name("Docker"), None);
    assert_eq!(Backend::from_name(""), None);
    assert_eq!(Backend::from_name("dockerd"), None);
}

#[test]
fn subcommands_are_fixed() {
    assert_eq!(Action::Start.subcommand(), "start");
    assert_eq!(Action::Stop.subcommand(), "stop");
    assert_eq!(Action::Restart.subcommand(), "restart");
    assert_eq!(Action::Delete.subcommand(), "rm");
}

#[test]
fn every_state_word_is_recognised_in_any_ascii_case() {
    let cases = [
        ("configured", ContainerState::Configured),
        ("Created", ContainerState::Created),
        ("DEAD", ContainerState::Dead),
        ("exited", ContainerState::Exited),
        ("Initialized", ContainerState::Initialized),
        ("paused", ContainerState::Paused),
        ("ReMoViNg", ContainerState::Removing),
        ("restarting", ContainerState::Restarting),
        ("running", ContainerState::Running),
        ("STOPPED", ContainerState::Stopped),
        ("unknown", ContainerState::Unknown),
        ("up", ContainerState::Unrecognized),
        ("running ", ContainerState::Unrecognized),
        ("runnİng", ContainerState::Unrecognized),
    ];
    for (text, state) in cases {
        assert_eq!(ContainerState::from_runtime(text), state, "{text:?}");
    }
}

#[test]
fn dead_containers_can_only_be_deleted() {
    let dead = ContainerState::Dead;
    assert!(dead.allows(Action::Delete));
    assert!(!dead.allows(Action::Start));
    assert!(!dead.allows(Action::Stop));
    assert!(!dead.allows(Action::Restart));
    let configured = ContainerState::Configured;
    assert!(configured.allows(Action::Start));
    assert!(ContainerState::Initialized.allows(Action::Delete));
    for action in [Action::Start, Action::Stop, Action::Restart, Action::Delete] {
        assert!(!ContainerState::Unrecognized.allows(action));
    }
}

#[test]
fn is_running_ignores_case() {
    assert!(container("Running").is_running());
    assert!(!container("exited").is_running());
}

#[test]
fn image_label_without_path_or_with_trailing_slash() {
    let mut c = container("running");
    c.image = "nginx:1.27".into();
    assert_eq!(c.image_label(), "nginx:1.27");
    c.image = "registry.example/team/".into();
    assert_eq!(c.image_label(), "");
    c.image = "ünïcode/ïmage:tag".into();
    assert_eq!(c.image_label(), "ïmage:tag");
}

#[test]
fn tracker_contains_follows_begin_and_finish() {
    let mut tracker = ActionTracker::new();
    assert!(!tracker.contains(Backend::Podman, "x"));
    assert!(tracker.begin(Backend::Podman, "x"));
    assert!(tracker.contains(Backend::Podman, "x"));
    assert!(!tracker.contains(Backend::Docker, "x"));
    tracker.finish(Backend::Docker, "x");
    assert!(tracker.contains(Backend::Podman, "x"));
    tracker.finish(Backend::Podman, "x");
    assert!(!tracker.contains(Backend::Podman, "x"));
}

#[test]
fn error_state_lists_rows_in_order() {
    let mut errors = ActionErrorState::new();
    errors.finish(Backend::Podman, "b", Err("p-b".into()));
    errors.finish(Backend::Docker, "z", Err("d-z".into()));
    errors.finish(Backend::Docker, "a", Err("d-a".into()));
    errors.finish(Backend::Docker, "a", Err("d-a2".into()));
    let listed = errors.iter();
    let expected = vec![
        ((Backend::Docker, "a".to_string()), "d-a2".to_string()),
        ((Backend::Docker, "z".to_string()), "d-z".to_string()),
        ((Backend::Podman, "b".to_string()), "p-b".to_string()),
    ];
    assert_eq!(listed, expected);
    assert_eq!(errors.get(Backend::Podman, "a"), None);
}
