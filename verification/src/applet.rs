//! The panel's state and its reactions: refreshes are serialised (a request
//! during a refresh is queued, not run in parallel), an action starts only
//! when the row's state allows it and no action is running on that row, and
//! every finished action asks for a refresh.
use vstd::prelude::*;
use crate::domain::{
    backend_name, state_allows, state_from_text, Action, ActionErrorState, ActionTracker, Backend,
    Container, ContainerView, RowId,
};
use crate::parser::container_views;
use crate::runtime::{BackendSet, Discovery};
use crate::text::{join2, push_text, same_text};

verus! {

/// What the panel shows and tracks besides its windows.
#[derive(Debug)]
pub struct AppModel {
    containers: Vec<Container>,
    successful_backends: BackendSet,
    action_errors: ActionErrorState,
    refreshing: bool,
    refresh_pending: bool,
    actions: ActionTracker,
    confirm_delete: Option<(Backend, String)>,
}

/// The panel's state as plain values.
pub struct AppModelView {
    pub containers: Seq<ContainerView>,
    pub successful: Set<Backend>,
    pub errors: Map<RowId, Seq<char>>,
    pub refreshing: bool,
    pub refresh_pending: bool,
    pub active: Set<RowId>,
    pub confirm_delete: Option<RowId>,
}

impl View for AppModel {
    type V = AppModelView;

    closed spec fn view(&self) -> AppModelView {
        AppModelView {
            containers: container_views(self.containers@),
            successful: self.successful_backends@,
            errors: self.action_errors@,
            refreshing: self.refreshing,
            refresh_pending: self.refresh_pending,
            active: self.actions@,
            confirm_delete: match self.confirm_delete {
                Some((b, id)) => Some((b, id@)),
                None => None,
            },
        }
    }
}

/// What happened, as the panel learns it.
pub enum Message {
    /// A refresh was asked for (timer, popup opened, refresh button).
    Refresh,
    /// A refresh finished with this discovery.
    Refreshed(Discovery),
    /// The user asked to delete this row; a confirmation is shown.
    RequestDelete(Backend, String),
    /// The user dismissed the confirmation.
    CancelDelete,
    /// The user asked for an action on a container.
    RunAction(Container, Action),
    /// The action on this row ended so.
    ActionFinished(Backend, String, Result<(), String>),
}

/// What the panel asks its host to do next.
pub enum Effect {
    Nothing,
    /// Start a discovery of all engines.
    Refresh,
    /// Start this action on this container.
    Run(Container, Action),
}

/// A message as plain values.
pub enum MessageView {
    Refresh,
    Refreshed(Seq<ContainerView>, Set<Backend>),
    RequestDelete(RowId),
    CancelDelete,
    RunAction(ContainerView, Action),
    ActionFinished(RowId, Result<(), Seq<char>>),
}

/// An effect as plain values.
pub enum EffectView {
    Nothing,
    Refresh,
    Run(ContainerView, Action),
}

impl View for Message {
    type V = MessageView;

    open spec fn view(&self) -> MessageView {
        match self {
            Message::Refresh => MessageView::Refresh,
            Message::Refreshed(d) => MessageView::Refreshed(d@.containers, d@.successful),
            Message::RequestDelete(b, id) => MessageView::RequestDelete((*b, id@)),
            Message::CancelDelete => MessageView::CancelDelete,
            Message::RunAction(c, a) => MessageView::RunAction(c@, *a),
            Message::ActionFinished(b, id, Ok(())) => MessageView::ActionFinished(
                (*b, id@),
                Ok(()),
            ),
            Message::ActionFinished(b, id, Err(e)) => MessageView::ActionFinished(
                (*b, id@),
                Err(e@),
            ),
        }
    }
}

impl View for Effect {
    type V = EffectView;

    open spec fn view(&self) -> EffectView {
        match self {
            Effect::Nothing => EffectView::Nothing,
            Effect::Refresh => EffectView::Refresh,
            Effect::Run(c, a) => EffectView::Run(c@, *a),
        }
    }
}

/// The row of a container.
pub open spec fn row_of(c: ContainerView) -> RowId {
    (c.backend, c.id)
}

/// A refresh is asked for: it starts unless one is running, in which case
/// one more is queued.
pub open spec fn request_refresh(m: AppModelView) -> (AppModelView, EffectView) {
    if !m.refreshing {
        (AppModelView { refreshing: true, ..m }, EffectView::Refresh)
    } else {
        (AppModelView { refresh_pending: true, ..m }, EffectView::Nothing)
    }
}

/// How the panel reacts to a message.
pub open spec fn update_spec(m: AppModelView, msg: MessageView) -> (AppModelView, EffectView) {
    match msg {
        MessageView::Refresh => request_refresh(m),
        MessageView::Refreshed(containers, successful) => {
            let m2 = AppModelView { containers, successful, ..m };
            if m.refresh_pending {
                (AppModelView { refresh_pending: false, ..m2 }, EffectView::Refresh)
            } else {
                (AppModelView { refreshing: false, ..m2 }, EffectView::Nothing)
            }
        },
        MessageView::RequestDelete(row) => (
            AppModelView { confirm_delete: Some(row), ..m },
            EffectView::Nothing,
        ),
        MessageView::CancelDelete => (AppModelView { confirm_delete: None, ..m }, EffectView::Nothing),
        MessageView::RunAction(c, a) => {
            if !state_allows(state_from_text(c.state), a) || m.active.contains(row_of(c)) {
                (m, EffectView::Nothing)
            } else {
                (
                    AppModelView {
                        active: m.active.insert(row_of(c)),
                        errors: m.errors.remove(row_of(c)),
                        confirm_delete: None,
                        ..m
                    },
                    EffectView::Run(c, a),
                )
            }
        },
        MessageView::ActionFinished(row, result) => request_refresh(
            AppModelView {
                active: m.active.remove(row),
                errors: match result {
                    Ok(()) => m.errors.remove(row),
                    Err(e) => m.errors.insert(row, e),
                },
                ..m
            },
        ),
    }
}

impl AppModel {
    /// The panel at start: nothing listed, and the first refresh running.
    pub fn new() -> (r: Self)
        ensures
            r@.containers == Seq::<ContainerView>::empty(),
            r@.successful == Set::<Backend>::empty(),
            r@.errors == Map::<RowId, Seq<char>>::empty(),
            r@.refreshing,
            !r@.refresh_pending,
            r@.active == Set::<RowId>::empty(),
            r@.confirm_delete is None,
    {
        let r = AppModel {
            containers: Vec::new(),
            successful_backends: BackendSet::new(),
            action_errors: ActionErrorState::new(),
            refreshing: true,
            refresh_pending: false,
            actions: ActionTracker::new(),
            confirm_delete: None,
        };
        assert(container_views(r.containers@) =~= Seq::<ContainerView>::empty());
        r
    }

    fn request_refresh(&mut self) -> (r: Effect)
        ensures
            (final(self)@, r@) == request_refresh(old(self)@),
    {
        if !self.refreshing {
            self.refreshing = true;
            Effect::Refresh
        } else {
            self.refresh_pending = true;
            Effect::Nothing
        }
    }

    /// Reacts to a message and says what to start next.
    pub fn update(&mut self, message: Message) -> (r: Effect)
        ensures
            (final(self)@, r@) == update_spec(old(self)@, message@),
    {
        match message {
            Message::Refresh => self.request_refresh(),
            Message::Refreshed(result) => {
                let Discovery { containers, successful_backends, errors: _ } = result;
                self.containers = containers;
                self.successful_backends = successful_backends;
                if self.refresh_pending {
                    self.refresh_pending = false;
                    Effect::Refresh
                } else {
                    self.refreshing = false;
                    Effect::Nothing
                }
            },
            Message::RequestDelete(backend, id) => {
                self.confirm_delete = Some((backend, id));
                Effect::Nothing
            },
            Message::CancelDelete => {
                self.confirm_delete = None;
                Effect::Nothing
            },
            Message::RunAction(container, action) => {
                let ghost before = self.actions@;
                if !container.allows(action) {
                    return Effect::Nothing;
                }
                if !self.actions.begin(container.backend, container.id.as_str()) {
                    assert(before.insert((container.backend, container.id@)) =~= before);
                    return Effect::Nothing;
                }
                self.action_errors.begin(container.backend, container.id.as_str());
                self.confirm_delete = None;
                Effect::Run(container, action)
            },
            Message::ActionFinished(backend, id, result) => {
                self.actions.finish(backend, id.as_str());
                self.action_errors.finish(backend, id.as_str(), result);
                self.request_refresh()
            },
        }
    }

    /// The containers of the last discovery.
    pub fn containers(&self) -> (r: &Vec<Container>)
        ensures
            container_views(r@) == self@.containers,
    {
        &self.containers
    }

    /// The engines that answered the last discovery.
    pub fn successful_backends(&self) -> (r: &BackendSet)
        ensures
            r@ == self@.successful,
    {
        &self.successful_backends
    }

    /// Whether a refresh is running.
    pub fn is_refreshing(&self) -> (r: bool)
        ensures
            r == self@.refreshing,
    {
        self.refreshing
    }

    /// Whether an action is running on the row.
    pub fn is_busy(&self, backend: Backend, id: &str) -> (r: bool)
        ensures
            r == self@.active.contains((backend, id@)),
    {
        self.actions.contains(backend, id)
    }

    /// The error the row's last action left, if any.
    pub fn action_error(&self, backend: Backend, id: &str) -> (r: Option<&str>)
        ensures
            match r {
                Some(m) => self@.errors.contains_key((backend, id@)) && m@ == self@.errors[(
                    backend,
                    id@,
                )],
                None => !self@.errors.contains_key((backend, id@)),
            },
    {
        self.action_errors.get(backend, id)
    }

    /// Whether the row is asking to confirm its deletion.
    pub fn is_confirming_delete(&self, backend: Backend, id: &str) -> (r: bool)
        ensures
            r == (self@.confirm_delete == Some::<RowId>((backend, id@))),
    {
        match &self.confirm_delete {
            Some((b, pending)) => *b == backend && same_text(pending.as_str(), id),
            None => false,
        }
    }
}

/// The names of the engines in the set, Docker first, joined by `, `.
pub open spec fn engine_names_text(backends: Set<Backend>) -> Seq<char> {
    if backends.contains(Backend::Docker) && backends.contains(Backend::Podman) {
        backend_name(Backend::Docker) + ", "@ + backend_name(Backend::Podman)
    } else if backends.contains(Backend::Docker) {
        backend_name(Backend::Docker)
    } else if backends.contains(Backend::Podman) {
        backend_name(Backend::Podman)
    } else {
        Seq::empty()
    }
}

/// The names of the engines that answered, as the panel lists them.
pub fn engine_names(backends: &BackendSet) -> (r: String)
    ensures
        r@ == engine_names_text(backends@),
{
    let docker = backends.contains(Backend::Docker);
    let podman = backends.contains(Backend::Podman);
    if docker && podman {
        let mut r = join2(Backend::Docker.name(), ", ");
        push_text(&mut r, Backend::Podman.name());
        r
    } else if docker {
        Backend::Docker.name().to_owned()
    } else if podman {
        Backend::Podman.name().to_owned()
    } else {
        String::new()
    }
}

/// What a container's row shows below its name.
pub enum RowMode {
    /// An action is running on the row.
    Busy,
    /// The row asks to confirm its deletion.
    ConfirmDelete,
    /// The row offers these actions (delete asks for confirmation first).
    Actions(Vec<Action>),
}

/// What the list shows when it has no rows.
#[derive(Debug, Clone, Copy, PartialEq, Eq, Structural)]
pub enum ListNotice {
    /// The first answers are still awaited.
    Loading,
    /// No engine listed a container.
    Empty,
    /// There are rows to show.
    Rows,
}

impl AppModel {
    /// What the row of `container` shows.
    pub fn row_mode(&self, container: &Container) -> (r: RowMode)
        ensures
            match r {
                RowMode::Busy => self@.active.contains(row_of(container@)),
                RowMode::ConfirmDelete => !self@.active.contains(row_of(container@))
                    && self@.confirm_delete == Some::<RowId>(row_of(container@)),
                RowMode::Actions(v) => !self@.active.contains(row_of(container@))
                    && self@.confirm_delete != Some::<RowId>(row_of(container@)) && v@
                    == crate::domain::visible_actions_for(state_from_text(container@.state)),
            },
    {
        if self.is_busy(container.backend, container.id.as_str()) {
            RowMode::Busy
        } else if self.is_confirming_delete(container.backend, container.id.as_str()) {
            RowMode::ConfirmDelete
        } else {
            RowMode::Actions(crate::domain::visible_actions(container))
        }
    }

    /// What the list shows in place of rows.
    pub fn list_notice(&self) -> (r: ListNotice)
        ensures
            r == (if self@.containers.len() > 0 {
                ListNotice::Rows
            } else if self@.refreshing {
                ListNotice::Loading
            } else {
                ListNotice::Empty
            }),
    {
        if self.containers.len() > 0 {
            ListNotice::Rows
        } else if self.refreshing {
            ListNotice::Loading
        } else {
            ListNotice::Empty
        }
    }
}

// ---------------------------------------------------------------------------
// Laws
// ---------------------------------------------------------------------------
/// Refreshes never overlap: a refresh starts only when none is running or
/// when the running one has just finished with another one queued; after any
/// message a queued refresh waits only behind a running one.
pub proof fn law_refreshes_serialised(m: AppModelView, msg: MessageView)
    requires
        m.refresh_pending ==> m.refreshing,
    ensures
        update_spec(m, msg).1 is Refresh ==> (!m.refreshing || (msg is Refreshed
            && m.refresh_pending)),
        update_spec(m, msg).1 is Refresh ==> update_spec(m, msg).0.refreshing,
        update_spec(m, msg).0.refresh_pending ==> update_spec(m, msg).0.refreshing,
        msg is Refresh ==> update_spec(m, msg).0.refreshing,
{
}

/// An action starts only when the row's state allows it and no action is
/// running on the row; the row is then busy, its old error cleared.
pub proof fn law_actions_exclusive(m: AppModelView, c: ContainerView, a: Action)
    ensures
        update_spec(m, MessageView::RunAction(c, a)).1 is Run ==> state_allows(
            state_from_text(c.state),
            a,
        ) && !m.active.contains(row_of(c)) && update_spec(
            m,
            MessageView::RunAction(c, a),
        ).0.active.contains(row_of(c)) && !update_spec(
            m,
            MessageView::RunAction(c, a),
        ).0.errors.contains_key(row_of(c)),
        m.active.contains(row_of(c)) ==> update_spec(m, MessageView::RunAction(c, a)).1 is Nothing,
{
}

/// A finished action frees its row, records its outcome, and leaves a refresh
/// running or queued.
pub proof fn law_finished_action_refreshes(
    m: AppModelView,
    row: RowId,
    result: Result<(), Seq<char>>,
)
    ensures
        !update_spec(m, MessageView::ActionFinished(row, result)).0.active.contains(row),
        update_spec(m, MessageView::ActionFinished(row, result)).0.refreshing,
        update_spec(m, MessageView::ActionFinished(row, result)).1 is Refresh || update_spec(
            m,
            MessageView::ActionFinished(row, result),
        ).0.refresh_pending,
        match result {
            Ok(()) => !update_spec(
                m,
                MessageView::ActionFinished(row, result),
            ).0.errors.contains_key(row),
            Err(e) => update_spec(m, MessageView::ActionFinished(row, result)).0.errors[row] == e,
        },
{
}


/// An action on an idle row that the container's state allows is started:
/// the row becomes busy, its old error and any pending delete confirmation
/// are cleared, and nothing else changes.
pub proof fn law_allowed_action_on_idle_row_starts(m: AppModelView, c: ContainerView, a: Action)
    requires
        state_allows(state_from_text(c.state), a),
        !m.active.contains(row_of(c)),
    ensures
        update_spec(m, MessageView::RunAction(c, a)).1 == EffectView::Run(c, a),
        update_spec(m, MessageView::RunAction(c, a)).0 == (AppModelView {
            active: m.active.insert(row_of(c)),
            errors: m.errors.remove(row_of(c)),
            confirm_delete: None,
            ..m
        }),
{
}

} // verus!
