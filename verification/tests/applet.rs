use cosmic_ext_applet_container_manager::applet::{
    engine_names, AppModel, Effect, ListNotice, Message, RowMode,
};
use cosmic_ext_applet_container_manager::domain::{Action, Backend, Container};
use cosmic_ext_applet_container_manager::runtime::{merge_discoveries, BackendSet};

fn container(state: &str) -> Container {
    Container {
        backend: Backend::Docker,
        id: "container-id".into(),
        name: "container-name".into(),
        image: "example/image:latest".into(),
        status: "Up".into(),
        state: state.into(),
    }
}

#[test]
fn engine_names_only_include_successfully_queried_backends() {
    let mut backends = BackendSet::new();
    backends.insert(Backend::Podman);
    backends.insert(Backend::Docker);
    assert_eq!(engine_names(&backends), "Docker, Podman");
}

#[test]
fn engine_names_of_one_or_no_engine() {
    let mut podman = BackendSet::new();
    podman.insert(Backend::Podman);
    assert_eq!(engine_names(&podman), "Podman");
    assert_eq!(engine_names(&BackendSet::new()), "");
}

#[test]
fn refresh_requests_queue_behind_a_running_refresh() {
    let mut model = AppModel::new();
    assert!(model.is_refreshing());
    assert!(matches!(model.update(Message::Refresh), Effect::Nothing));
    let discovery = merge_discoveries(vec![(Backend::Docker, Ok(vec![container("running")]))]);
    assert!(matches!(model.update(Message::Refreshed(discovery)), Effect::Refresh));
    assert!(model.is_refreshing());
    assert_eq!(model.containers().len(), 1);
    let discovery = merge_discoveries(vec![(Backend::Podman, Ok(Vec::new()))]);
    assert!(matches!(model.update(Message::Refreshed(discovery)), Effect::Nothing));
    assert!(!model.is_refreshing());
    assert!(model.containers().is_empty());
    assert_eq!(engine_names(model.successful_backends()), "Podman");
    assert!(matches!(model.update(Message::Refresh), Effect::Refresh));
}

#[test]
fn actions_run_once_per_row_and_record_their_outcome() {
    let mut model = AppModel::new();
    assert!(matches!(model.update(Message::RunAction(container("running"), Action::Start)), Effect::Nothing));
    assert!(!model.is_busy(Backend::Docker, "container-id"));
    match model.update(Message::RunAction(container("running"), Action::Stop)) {
        Effect::Run(c, a) => {
            assert_eq!(c.id, "container-id");
            assert_eq!(a, Action::Stop);
        }
        _ => panic!("stop of a running container must start"),
    }
    assert!(model.is_busy(Backend::Docker, "container-id"));
    assert!(matches!(model.update(Message::RunAction(container("running"), Action::Restart)), Effect::Nothing));
    let effect = model.update(Message::ActionFinished(
        Backend::Docker,
        "container-id".into(),
        Err("permission denied".into()),
    ));
    assert!(matches!(effect, Effect::Nothing));
    assert!(!model.is_busy(Backend::Docker, "container-id"));
    assert_eq!(model.action_error(Backend::Docker, "container-id"), Some("permission denied"));
    assert!(matches!(model.update(Message::RunAction(container("running"), Action::Stop)), Effect::Run(..)));
    assert_eq!(model.action_error(Backend::Docker, "container-id"), None);
}

#[test]
fn delete_confirmation_is_per_row() {
    let mut model = AppModel::new();
    model.update(Message::RequestDelete(Backend::Docker, "container-id".into()));
    assert!(model.is_confirming_delete(Backend::Docker, "container-id"));
    assert!(!model.is_confirming_delete(Backend::Podman, "container-id"));
    model.update(Message::CancelDelete);
    assert!(!model.is_confirming_delete(Backend::Docker, "container-id"));
    model.update(Message::RequestDelete(Backend::Docker, "container-id".into()));
    assert!(matches!(model.update(Message::RunAction(container("exited"), Action::Delete)), Effect::Run(..)));
    assert!(!model.is_confirming_delete(Backend::Docker, "container-id"));
}

#[test]
fn rows_show_work_confirmation_or_actions() {
    let mut model = AppModel::new();
    let running = container("running");
    match model.row_mode(&running) {
        RowMode::Actions(actions) => assert_eq!(actions, vec![Action::Stop, Action::Restart]),
        _ => panic!("an idle row offers its actions"),
    }
    model.update(Message::RequestDelete(Backend::Docker, "container-id".into()));
    assert!(matches!(model.row_mode(&running), RowMode::ConfirmDelete));
    model.update(Message::RunAction(running.clone(), Action::Stop));
    assert!(matches!(model.row_mode(&running), RowMode::Busy));
}

#[test]
fn list_notice_follows_refresh_and_rows() {
    let mut model = AppModel::new();
    assert_eq!(model.list_notice(), ListNotice::Loading);
    model.update(Message::Refreshed(merge_discoveries(Vec::new())));
    assert_eq!(model.list_notice(), ListNotice::Empty);
    model.update(Message::Refresh);
    model.update(Message::Refreshed(merge_discoveries(vec![(Backend::Docker, Ok(vec![container("exited")]))])));
    assert_eq!(model.list_notice(), ListNotice::Rows);
}
