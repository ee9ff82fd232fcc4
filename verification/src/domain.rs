//! Container engines, container states, the actions a state permits, and the
//! per-row bookkeeping of running actions and their errors.
use vstd::prelude::*;
use vstd::string::StrSliceExecFns;
use crate::text::{
    ascii_fold, chars_less, chars_of, eq_ignore_ascii_case, lemma_text_less_irreflexive,
    lemma_text_less_total, lemma_text_less_transitive, matches_ignoring_ascii_case, same_chars,
    same_text, text_less,
};

verus! {

// ---------------------------------------------------------------------------
// Backend
// ---------------------------------------------------------------------------
#[derive(Debug, Clone, Copy, PartialEq, Eq, Structural, Hash, PartialOrd, Ord)]
pub enum Backend {
    Docker,
    Podman,
}

/// Position of a backend in the engines' order (Docker first).
pub open spec fn backend_rank(b: Backend) -> int {
    match b {
        Backend::Docker => 0,
        Backend::Podman => 1,
    }
}

/// The name under which a backend is shown.
pub open spec fn backend_name(b: Backend) -> Seq<char> {
    match b {
        Backend::Docker => "Docker"@,
        Backend::Podman => "Podman"@,
    }
}

/// The backend whose lower-case name is `s`, if any.
pub open spec fn backend_from_name(s: Seq<char>) -> Option<Backend> {
    if s == "docker"@ {
        Some(Backend::Docker)
    } else if s == "podman"@ {
        Some(Backend::Podman)
    } else {
        None
    }
}

impl Backend {
    #[must_use]
    pub fn name(self) -> (r: &'static str)
        ensures
            r@ == backend_name(self),
    {
        match self {
            Self::Docker => "Docker",
            Self::Podman => "Podman",
        }
    }

    #[must_use]
    pub fn from_name(name: &str) -> (r: Option<Self>)
        ensures
            r == backend_from_name(name@),
    {
        if same_text(name, "docker") {
            Some(Self::Docker)
        } else if same_text(name, "podman") {
            Some(Self::Podman)
        } else {
            None
        }
    }
}

/// Whether `a` comes before `b` in the engines' order.
pub fn backend_before(a: Backend, b: Backend) -> (r: bool)
    ensures
        r == (backend_rank(a) < backend_rank(b)),
{
    match (a, b) {
        (Backend::Docker, Backend::Podman) => true,
        _ => false,
    }
}

// ---------------------------------------------------------------------------
// Actions and states
// ---------------------------------------------------------------------------
#[derive(Debug, Clone, Copy, PartialEq, Eq, Structural)]
pub enum Action {
    Start,
    Stop,
    Restart,
    Delete,
}

/// The engine subcommand that performs an action.
pub open spec fn subcommand_text(a: Action) -> Seq<char> {
    match a {
        Action::Start => "start"@,
        Action::Stop => "stop"@,
        Action::Restart => "restart"@,
        Action::Delete => "rm"@,
    }
}

impl Action {
    #[must_use]
    pub fn subcommand(self) -> (r: &'static str)
        ensures
            r@ == subcommand_text(self),
    {
        match self {
            Self::Start => "start",
            Self::Stop => "stop",
            Self::Restart => "restart",
            Self::Delete => "rm",
        }
    }
}

#[derive(Debug, Clone, Copy, PartialEq, Eq, Structural)]
pub enum ContainerState {
    Configured,
    Created,
    Dead,
    Exited,
    Initialized,
    Paused,
    Removing,
    Restarting,
    Running,
    Stopped,
    Unknown,
    Unrecognized,
}

/// The state an engine reports as `s`, matched without regard to ASCII case;
/// any other text is `Unrecognized`.
pub open spec fn state_from_text(s: Seq<char>) -> ContainerState {
    if eq_ignore_ascii_case(s, "configured"@) {
        ContainerState::Configured
    } else if eq_ignore_ascii_case(s, "created"@) {
        ContainerState::Created
    } else if eq_ignore_ascii_case(s, "dead"@) {
        ContainerState::Dead
    } else if eq_ignore_ascii_case(s, "exited"@) {
        ContainerState::Exited
    } else if eq_ignore_ascii_case(s, "initialized"@) {
        ContainerState::Initialized
    } else if eq_ignore_ascii_case(s, "paused"@) {
        ContainerState::Paused
    } else if eq_ignore_ascii_case(s, "removing"@) {
        ContainerState::Removing
    } else if eq_ignore_ascii_case(s, "restarting"@) {
        ContainerState::Restarting
    } else if eq_ignore_ascii_case(s, "running"@) {
        ContainerState::Running
    } else if eq_ignore_ascii_case(s, "stopped"@) {
        ContainerState::Stopped
    } else if eq_ignore_ascii_case(s, "unknown"@) {
        ContainerState::Unknown
    } else {
        ContainerState::Unrecognized
    }
}

/// The states that permit each action: start and delete only from an explicit
/// list of inactive states, stop and restart only from `Running`.
pub open spec fn state_allows(st: ContainerState, a: Action) -> bool {
    match a {
        Action::Start => st is Configured || st is Created || st is Exited || st is Initialized
            || st is Stopped,
        Action::Stop | Action::Restart => st is Running,
        Action::Delete => st is Configured || st is Created || st is Dead || st is Exited
            || st is Initialized || st is Stopped,
    }
}

impl ContainerState {
    #[must_use]
    pub fn from_runtime(state: &str) -> (r: Self)
        ensures
            r == state_from_text(state@),
    {
        let v = chars_of(state);
        if matches_ignoring_ascii_case(&v, "configured") {
            Self::Configured
        } else if matches_ignoring_ascii_case(&v, "created") {
            Self::Created
        } else if matches_ignoring_ascii_case(&v, "dead") {
            Self::Dead
        } else if matches_ignoring_ascii_case(&v, "exited") {
            Self::Exited
        } else if matches_ignoring_ascii_case(&v, "initialized") {
            Self::Initialized
        } else if matches_ignoring_ascii_case(&v, "paused") {
            Self::Paused
        } else if matches_ignoring_ascii_case(&v, "removing") {
            Self::Removing
        } else if matches_ignoring_ascii_case(&v, "restarting") {
            Self::Restarting
        } else if matches_ignoring_ascii_case(&v, "running") {
            Self::Running
        } else if matches_ignoring_ascii_case(&v, "stopped") {
            Self::Stopped
        } else if matches_ignoring_ascii_case(&v, "unknown") {
            Self::Unknown
        } else {
            Self::Unrecognized
        }
    }

    #[must_use]
    pub fn allows(self, action: Action) -> (r: bool)
        ensures
            r == state_allows(self, action),
    {
        match action {
            Action::Start => match self {
                Self::Configured | Self::Created | Self::Exited | Self::Initialized
                | Self::Stopped => true,
                _ => false,
            },
            Action::Stop | Action::Restart => match self {
                Self::Running => true,
                _ => false,
            },
            Action::Delete => match self {
                Self::Configured | Self::Created | Self::Dead | Self::Exited | Self::Initialized
                | Self::Stopped => true,
                _ => false,
            },
        }
    }
}

// ---------------------------------------------------------------------------
// Containers
// ---------------------------------------------------------------------------
#[derive(Debug, Clone, PartialEq, Eq)]
pub struct Container {
    pub backend: Backend,
    pub id: String,
    pub image: String,
    pub name: String,
    pub state: String,
    pub status: String,
}

/// A container as plain values.
pub struct ContainerView {
    pub backend: Backend,
    pub id: Seq<char>,
    pub image: Seq<char>,
    pub name: Seq<char>,
    pub state: Seq<char>,
    pub status: Seq<char>,
}

impl View for Container {
    type V = ContainerView;

    open spec fn view(&self) -> ContainerView {
        ContainerView {
            backend: self.backend,
            id: self.id@,
            image: self.image@,
            name: self.name@,
            state: self.state@,
            status: self.status@,
        }
    }
}

/// What follows the last `sep` in `s`, or all of `s` when it holds no `sep`.
pub open spec fn after_last(s: Seq<char>, sep: char) -> Seq<char>
    decreases s.len(),
{
    if s.len() == 0 {
        s
    } else if s.last() == sep {
        Seq::empty()
    } else {
        after_last(s.drop_last(), sep).push(s.last())
    }
}

/// The actions offered for a container in the given state, in the order
/// start, stop, restart, delete.
pub open spec fn visible_actions_for(st: ContainerState) -> Seq<Action> {
    (if state_allows(st, Action::Start) { seq![Action::Start] } else { Seq::empty() }) + (
    if state_allows(st, Action::Stop) {
        seq![Action::Stop]
    } else {
        Seq::empty()
    }) + (if state_allows(st, Action::Restart) {
        seq![Action::Restart]
    } else {
        Seq::empty()
    }) + (if state_allows(st, Action::Delete) {
        seq![Action::Delete]
    } else {
        Seq::empty()
    })
}

proof fn lemma_after_last_suffix(s: Seq<char>, sep: char, k: int)
    requires
        -1 <= k < s.len(),
        k >= 0 ==> s[k] == sep,
        forall|i: int| k < i < s.len() ==> s[i] != sep,
    ensures
        after_last(s, sep) == s.subrange(k + 1, s.len() as int),
    decreases s.len(),
{
    if s.len() == 0 {
        assert(s.subrange(0, 0) =~= s);
    } else if k == s.len() - 1 {
        assert(s.subrange(k + 1, s.len() as int) =~= Seq::<char>::empty());
    } else {
        lemma_after_last_suffix(s.drop_last(), sep, k);
        assert(s.drop_last().subrange(k + 1, s.drop_last().len() as int).push(s.last())
            =~= s.subrange(k + 1, s.len() as int));
    }
}

impl Container {
    /// The image name without its registry and repository path.
    #[must_use]
    pub fn image_label(&self) -> (r: &str)
        ensures
            r@ == after_last(self.image@, '/'),
    {
        let image = self.image.as_str();
        let v = chars_of(image);
        let mut start: usize = v.len();
        while start > 0 && v[start - 1] != '/'
            invariant
                start <= v@.len(),
                forall|i: int| start <= i < v@.len() ==> v@[i] != '/',
            decreases start,
        {
            start = start - 1;
        }
        proof {
            lemma_after_last_suffix(v@, '/', start - 1);
        }
        image.substring_char(start, v.len())
    }

    #[must_use]
    pub fn is_running(&self) -> (r: bool)
        ensures
            r == (state_from_text(self.state@) == ContainerState::Running),
    {
        ContainerState::from_runtime(self.state.as_str()) == ContainerState::Running
    }

    #[must_use]
    pub fn allows(&self, action: Action) -> (r: bool)
        ensures
            r == state_allows(state_from_text(self.state@), action),
    {
        ContainerState::from_runtime(self.state.as_str()).allows(action)
    }
}

/// The actions a row offers for `container`.
pub fn visible_actions(container: &Container) -> (r: Vec<Action>)
    ensures
        r@ == visible_actions_for(state_from_text(container.state@)),
{
    let mut r: Vec<Action> = Vec::new();
    let ghost st = state_from_text(container.state@);
    if container.allows(Action::Start) {
        r.push(Action::Start);
    }
    if container.allows(Action::Stop) {
        r.push(Action::Stop);
    }
    if container.allows(Action::Restart) {
        r.push(Action::Restart);
    }
    if container.allows(Action::Delete) {
        r.push(Action::Delete);
    }
    assert(r@ =~= visible_actions_for(st));
    r
}


// ---------------------------------------------------------------------------
// Rows: an engine together with a container id
// ---------------------------------------------------------------------------
/// A row of the container list: its engine and the container's id.
pub type RowId = (Backend, Seq<char>);

/// The order of rows: by engine, then by id.
pub open spec fn row_before(a: RowId, b: RowId) -> bool {
    backend_rank(a.0) < backend_rank(b.0) || (a.0 == b.0 && text_less(a.1, b.1))
}

pub proof fn lemma_row_before_irreflexive(a: RowId)
    ensures
        !row_before(a, a),
{
    lemma_text_less_irreflexive(a.1);
}

pub proof fn lemma_row_before_transitive(a: RowId, b: RowId, c: RowId)
    requires
        row_before(a, b),
        row_before(b, c),
    ensures
        row_before(a, c),
{
    if a.0 == b.0 && b.0 == c.0 {
        lemma_text_less_transitive(a.1, b.1, c.1);
    }
}

pub proof fn lemma_row_before_total(a: RowId, b: RowId)
    ensures
        a == b || row_before(a, b) || row_before(b, a),
{
    lemma_text_less_total(a.1, b.1);
}

#[derive(Debug)]
struct RowKey {
    backend: Backend,
    id: String,
}

impl RowKey {
    spec fn row(self) -> RowId {
        (self.backend, self.id@)
    }
}

/// Rows in strictly ascending order (so no row occurs twice).
spec fn sorted_rows(keys: Seq<RowKey>) -> bool {
    forall|i: int, j: int| 0 <= i < j < keys.len() ==> row_before(keys[i].row(), keys[j].row())
}

spec fn rows_contain(keys: Seq<RowKey>, k: RowId) -> bool {
    exists|i: int| 0 <= i < keys.len() && #[trigger] keys[i].row() == k
}

spec fn row_index(keys: Seq<RowKey>, k: RowId) -> int {
    choose|i: int| 0 <= i < keys.len() && #[trigger] keys[i].row() == k
}

proof fn lemma_row_index(keys: Seq<RowKey>, i: int)
    requires
        sorted_rows(keys),
        0 <= i < keys.len(),
    ensures
        rows_contain(keys, keys[i].row()),
        row_index(keys, keys[i].row()) == i,
{
    let k = keys[i].row();
    assert(rows_contain(keys, k));
    let j = row_index(keys, k);
    if j != i {
        if j < i {
            assert(row_before(keys[j].row(), keys[i].row()));
        } else {
            assert(row_before(keys[i].row(), keys[j].row()));
        }
        lemma_row_before_irreflexive(k);
    }
}

/// Whether the row of `key` comes before row `(backend, id)`.
fn key_before(key: &RowKey, backend: Backend, id: &Vec<char>) -> (r: bool)
    ensures
        r == row_before(key.row(), (backend, id@)),
{
    let key_chars = chars_of(key.id.as_str());
    backend_before(key.backend, backend) || (key.backend == backend && chars_less(&key_chars, id))
}

/// Where row `(backend, id)` stands among `keys`: the first position whose row
/// does not come before it, and whether the row is there.
fn locate(keys: &Vec<RowKey>, backend: Backend, id: &Vec<char>) -> (r: (usize, bool))
    requires
        sorted_rows(keys@),
    ensures
        r.0 <= keys@.len(),
        forall|i: int| 0 <= i < r.0 ==> row_before(#[trigger] keys@[i].row(), (backend, id@)),
        r.1 ==> r.0 < keys@.len() && keys@[r.0 as int].row() == (backend, id@),
        !r.1 ==> forall|i: int|
            r.0 <= i < keys@.len() ==> row_before((backend, id@), #[trigger] keys@[i].row()),
        r.1 == rows_contain(keys@, (backend, id@)),
{
    let ghost k: RowId = (backend, id@);
    let mut p: usize = 0;
    while p < keys.len() && key_before(&keys[p], backend, id)
        invariant
            p <= keys@.len(),
            sorted_rows(keys@),
            k == (backend, id@),
            forall|i: int| 0 <= i < p ==> row_before(#[trigger] keys@[i].row(), k),
        decreases keys@.len() - p,
    {
        p = p + 1;
    }
    if p == keys.len() {
        proof {
            if rows_contain(keys@, k) {
                let j = choose|j: int| 0 <= j < keys@.len() && #[trigger] keys@[j].row() == k;
                assert(row_before(keys@[j].row(), k));
                lemma_row_before_irreflexive(k);
            }
        }
        return (p, false);
    }
    let key = &keys[p];
    let key_chars = chars_of(key.id.as_str());
    let found = key.backend == backend && same_chars(&key_chars, id);
    proof {
        let kp = keys@[p as int].row();
        assert(!row_before(kp, k));
        if found {
            assert(kp == k);
            assert(rows_contain(keys@, k));
        } else {
            assert(kp != k);
            lemma_row_before_total(kp, k);
            assert(row_before(k, kp));
            assert forall|i: int| p <= i < keys@.len() implies row_before(
                k,
                #[trigger] keys@[i].row(),
            ) by {
                if i > p {
                    lemma_row_before_transitive(k, kp, keys@[i].row());
                }
            }
            if rows_contain(keys@, k) {
                let j = choose|j: int| 0 <= j < keys@.len() && #[trigger] keys@[j].row() == k;
                lemma_row_before_irreflexive(k);
                if j < p {
                    assert(row_before(keys@[j].row(), k));
                } else {
                    assert(row_before(k, keys@[j].row()));
                }
            }
        }
    }
    (p, found)
}

/// Inserting at the position `locate` found keeps the rows in order.
proof fn lemma_insert_sorted(keys: Seq<RowKey>, p: int, key: RowKey)
    requires
        sorted_rows(keys),
        0 <= p <= keys.len(),
        forall|i: int| 0 <= i < p ==> row_before(#[trigger] keys[i].row(), key.row()),
        forall|i: int| p <= i < keys.len() ==> row_before(key.row(), #[trigger] keys[i].row()),
    ensures
        sorted_rows(keys.insert(p, key)),
        forall|x: RowId| rows_contain(keys.insert(p, key), x) <==> (rows_contain(keys, x) || x == key.row()),
{
    let n = keys.insert(p, key);
    assert forall|i: int, j: int| 0 <= i < j < n.len() implies row_before(
        n[i].row(),
        n[j].row(),
    ) by {
        if j < p {
        } else if j == p {
        } else if i < p {
            lemma_row_before_transitive(n[i].row(), key.row(), n[j].row());
        } else if i == p {
        } else {
        }
    }
    assert forall|x: RowId| rows_contain(n, x) <==> (rows_contain(keys, x) || x == key.row()) by {
        if rows_contain(n, x) {
            let i = choose|i: int| 0 <= i < n.len() && #[trigger] n[i].row() == x;
            if i < p {
                assert(keys[i].row() == x);
            } else if i > p {
                assert(keys[i - 1].row() == x);
            }
        }
        if rows_contain(keys, x) {
            let i = choose|i: int| 0 <= i < keys.len() && #[trigger] keys[i].row() == x;
            if i < p {
                assert(n[i].row() == x);
            } else {
                assert(n[i + 1].row() == x);
            }
        }
        if x == key.row() {
            assert(n[p].row() == x);
        }
    }
}

/// Removing the row at `p` keeps the rows in order and drops exactly that row.
proof fn lemma_remove_sorted(keys: Seq<RowKey>, p: int)
    requires
        sorted_rows(keys),
        0 <= p < keys.len(),
    ensures
        sorted_rows(keys.remove(p)),
        forall|x: RowId| rows_contain(keys.remove(p), x) <==> (rows_contain(keys, x) && x != keys[p].row()),
{
    let n = keys.remove(p);
    let k = keys[p].row();
    assert forall|i: int, j: int| 0 <= i < j < n.len() implies row_before(
        n[i].row(),
        n[j].row(),
    ) by {
        if j < p {
            assert(n[i] == keys[i] && n[j] == keys[j]);
        } else if i < p {
            assert(n[i] == keys[i] && n[j] == keys[j + 1]);
        } else {
            assert(n[i] == keys[i + 1] && n[j] == keys[j + 1]);
        }
    }
    assert forall|x: RowId| rows_contain(n, x) <==> (rows_contain(keys, x) && x != k) by {
        if rows_contain(n, x) {
            let i = choose|i: int| 0 <= i < n.len() && #[trigger] n[i].row() == x;
            let j = if i < p { i } else { i + 1 };
            assert(keys[j].row() == x);
            lemma_row_before_irreflexive(k);
            if j < p {
                assert(row_before(keys[j].row(), k));
            } else {
                assert(row_before(k, keys[j].row()));
            }
        }
        if rows_contain(keys, x) && x != k {
            let i = choose|i: int| 0 <= i < keys.len() && #[trigger] keys[i].row() == x;
            assert(i != p);
            if i < p {
                assert(n[i].row() == x);
            } else {
                assert(n[i - 1].row() == x);
            }
        }
    }
}

// ---------------------------------------------------------------------------
// ActionTracker: the rows with an action in progress
// ---------------------------------------------------------------------------
#[derive(Debug)]
pub struct ActionTracker {
    active: Vec<RowKey>,
}

impl View for ActionTracker {
    type V = Set<RowId>;

    closed spec fn view(&self) -> Set<RowId> {
        Set::new(|k: RowId| rows_contain(self.active@, k))
    }
}

impl ActionTracker {
    #[verifier::type_invariant]
    spec fn well_formed(self) -> bool {
        sorted_rows(self.active@)
    }

    /// No row is active.
    pub fn new() -> (r: Self)
        ensures
            r@ == Set::<RowId>::empty(),
    {
        let r = ActionTracker { active: Vec::new() };
        assert(r@ =~= Set::<RowId>::empty());
        r
    }

    /// Marks the row active; answers whether it was idle, so that a second
    /// action on a busy row is refused.
    pub fn begin(&mut self, backend: Backend, id: &str) -> (r: bool)
        ensures
            r == !old(self)@.contains((backend, id@)),
            final(self)@ == old(self)@.insert((backend, id@)),
    {
        proof {
            use_type_invariant(&*self);
        }
        let mut taken = ActionTracker::new();
        std::mem::swap(self, &mut taken);
        let ActionTracker { mut active } = taken;
        let ghost before = active@;
        let id_chars = chars_of(id);
        let (p, found) = locate(&active, backend, &id_chars);
        if !found {
            let key = RowKey { backend, id: id.to_owned() };
            proof {
                lemma_insert_sorted(before, p as int, key);
            }
            active.insert(p, key);
        }
        *self = ActionTracker { active };
        assert(self@ =~= old(self)@.insert((backend, id@)));
        !found
    }

    /// Marks the row idle again.
    pub fn finish(&mut self, backend: Backend, id: &str)
        ensures
            final(self)@ == old(self)@.remove((backend, id@)),
    {
        proof {
            use_type_invariant(&*self);
        }
        let mut taken = ActionTracker::new();
        std::mem::swap(self, &mut taken);
        let ActionTracker { mut active } = taken;
        let ghost before = active@;
        let id_chars = chars_of(id);
        let (p, found) = locate(&active, backend, &id_chars);
        if found {
            proof {
                lemma_remove_sorted(before, p as int);
            }
            active.remove(p);
        }
        *self = ActionTracker { active };
        assert(self@ =~= old(self)@.remove((backend, id@)));
    }

    /// Whether the row has an action in progress.
    #[must_use]
    pub fn contains(&self, backend: Backend, id: &str) -> (r: bool)
        ensures
            r == self@.contains((backend, id@)),
    {
        proof {
            use_type_invariant(self);
        }
        let id_chars = chars_of(id);
        let (_, found) = locate(&self.active, backend, &id_chars);
        found
    }
}

impl Default for ActionTracker {
    fn default() -> (r: Self)
        ensures
            r@ == Set::<RowId>::empty(),
    {
        ActionTracker::new()
    }
}


// ---------------------------------------------------------------------------
// ActionErrorState: the last error of each row's action
// ---------------------------------------------------------------------------
#[derive(Debug)]
pub struct ActionErrorState {
    keys: Vec<RowKey>,
    messages: Vec<String>,
}

/// The error kept for row `k`, given rows and messages side by side.
spec fn message_map(keys: Seq<RowKey>, messages: Seq<String>) -> Map<RowId, Seq<char>> {
    Map::new(|k: RowId| rows_contain(keys, k), |k: RowId| messages[row_index(keys, k)]@)
}

proof fn lemma_message_map_insert(
    keys: Seq<RowKey>,
    messages: Seq<String>,
    p: int,
    key: RowKey,
    message: String,
)
    requires
        sorted_rows(keys),
        keys.len() == messages.len(),
        0 <= p <= keys.len(),
        forall|i: int| 0 <= i < p ==> row_before(#[trigger] keys[i].row(), key.row()),
        forall|i: int| p <= i < keys.len() ==> row_before(key.row(), #[trigger] keys[i].row()),
    ensures
        sorted_rows(keys.insert(p, key)),
        message_map(keys.insert(p, key), messages.insert(p, message)) == message_map(
            keys,
            messages,
        ).insert(key.row(), message@),
{
    lemma_insert_sorted(keys, p, key);
    let nk = keys.insert(p, key);
    let nm = messages.insert(p, message);
    let old_map = message_map(keys, messages);
    let new_map = message_map(nk, nm);
    assert forall|x: RowId| #[trigger] new_map.contains_key(x) implies new_map[x]
        == old_map.insert(key.row(), message@)[x] by {
        let i = row_index(nk, x);
        assert(0 <= i < nk.len() && nk[i].row() == x);
        lemma_row_index(nk, i);
        if i == p {
        } else {
            let j = if i < p { i } else { i - 1 };
            assert(keys[j] == nk[i]);
            assert(messages[j] == nm[i]);
            lemma_row_index(keys, j);
            lemma_row_index(nk, p);
        }
    }
    assert(new_map =~= old_map.insert(key.row(), message@));
}

proof fn lemma_message_map_remove(keys: Seq<RowKey>, messages: Seq<String>, p: int)
    requires
        sorted_rows(keys),
        keys.len() == messages.len(),
        0 <= p < keys.len(),
    ensures
        sorted_rows(keys.remove(p)),
        message_map(keys.remove(p), messages.remove(p)) == message_map(keys, messages).remove(
            keys[p].row(),
        ),
{
    lemma_remove_sorted(keys, p);
    let nk = keys.remove(p);
    let nm = messages.remove(p);
    let old_map = message_map(keys, messages);
    let new_map = message_map(nk, nm);
    assert forall|x: RowId| #[trigger] new_map.contains_key(x) implies new_map[x] == old_map[x] by {
        let i = row_index(nk, x);
        assert(0 <= i < nk.len() && nk[i].row() == x);
        let j = if i < p { i } else { i + 1 };
        assert(keys[j] == nk[i]);
        assert(messages[j] == nm[i]);
        lemma_row_index(keys, j);
        lemma_row_index(nk, i);
    }
    assert(new_map =~= old_map.remove(keys[p].row()));
}

proof fn lemma_message_map_update(
    keys: Seq<RowKey>,
    messages: Seq<String>,
    p: int,
    message: String,
)
    requires
        sorted_rows(keys),
        keys.len() == messages.len(),
        0 <= p < keys.len(),
    ensures
        message_map(keys, messages.update(p, message)) == message_map(keys, messages).insert(
            keys[p].row(),
            message@,
        ),
{
    let nm = messages.update(p, message);
    let old_map = message_map(keys, messages);
    let new_map = message_map(keys, nm);
    lemma_row_index(keys, p);
    assert forall|x: RowId| #[trigger] new_map.contains_key(x) implies new_map[x]
        == old_map.insert(keys[p].row(), message@)[x] by {
        let i = row_index(keys, x);
        assert(0 <= i < keys.len() && keys[i].row() == x);
        lemma_row_index(keys, i);
    }
    assert(new_map =~= old_map.insert(keys[p].row(), message@));
}

impl View for ActionErrorState {
    type V = Map<RowId, Seq<char>>;

    closed spec fn view(&self) -> Map<RowId, Seq<char>> {
        message_map(self.keys@, self.messages@)
    }
}

impl ActionErrorState {
    #[verifier::type_invariant]
    spec fn well_formed(self) -> bool {
        &&& sorted_rows(self.keys@)
        &&& self.keys@.len() == self.messages@.len()
    }

    /// No row has an error.
    pub fn new() -> (r: Self)
        ensures
            r@ == Map::<RowId, Seq<char>>::empty(),
    {
        let r = ActionErrorState { keys: Vec::new(), messages: Vec::new() };
        assert(r@ =~= Map::<RowId, Seq<char>>::empty());
        r
    }

    /// Sets the error of row `(backend, id)`, or clears it with `None`.
    fn put(&mut self, backend: Backend, id: &str, message: Option<String>)
        ensures
            final(self)@ == match message {
                Some(m) => old(self)@.insert((backend, id@), m@),
                None => old(self)@.remove((backend, id@)),
            },
    {
        proof {
            use_type_invariant(&*self);
        }
        let mut taken = ActionErrorState::new();
        std::mem::swap(self, &mut taken);
        let ActionErrorState { mut keys, mut messages } = taken;
        let ghost old_keys = keys@;
        let ghost old_messages = messages@;
        let id_chars = chars_of(id);
        let (p, found) = locate(&keys, backend, &id_chars);
        match message {
            Some(m) => {
                if found {
                    proof {
                        lemma_message_map_update(old_keys, old_messages, p as int, m);
                    }
                    messages.set(p, m);
                } else {
                    let key = RowKey { backend, id: id.to_owned() };
                    proof {
                        lemma_message_map_insert(old_keys, old_messages, p as int, key, m);
                    }
                    keys.insert(p, key);
                    messages.insert(p, m);
                }
            },
            None => {
                if found {
                    proof {
                        lemma_message_map_remove(old_keys, old_messages, p as int);
                    }
                    keys.remove(p);
                    messages.remove(p);
                } else {
                    assert(message_map(old_keys, old_messages) =~= message_map(
                        old_keys,
                        old_messages,
                    ).remove((backend, id@)));
                }
            },
        }
        *self = ActionErrorState { keys, messages };
    }

    /// Clears the row's error as its action starts.
    pub fn begin(&mut self, backend: Backend, id: &str)
        ensures
            final(self)@ == old(self)@.remove((backend, id@)),
    {
        self.put(backend, id, None);
    }

    /// Records how the row's action ended: success clears its error, failure
    /// keeps the message.
    pub fn finish(&mut self, backend: Backend, id: &str, result: Result<(), String>)
        ensures
            final(self)@ == match result {
                Ok(()) => old(self)@.remove((backend, id@)),
                Err(e) => old(self)@.insert((backend, id@), e@),
            },
    {
        match result {
            Ok(()) => self.put(backend, id, None),
            Err(error) => self.put(backend, id, Some(error)),
        }
    }

    /// The error of row `(backend, id)`, if it has one.
    #[must_use]
    pub fn get(&self, backend: Backend, id: &str) -> (r: Option<&str>)
        ensures
            match r {
                Some(m) => self@.contains_key((backend, id@)) && m@ == self@[(backend, id@)],
                None => !self@.contains_key((backend, id@)),
            },
    {
        proof {
            use_type_invariant(self);
        }
        let id_chars = chars_of(id);
        let (p, found) = locate(&self.keys, backend, &id_chars);
        if found {
            proof {
                lemma_row_index(self.keys@, p as int);
            }
            Some(self.messages[p].as_str())
        } else {
            None
        }
    }

    /// Every row with an error and its message, rows in ascending order.
    pub fn iter(&self) -> (r: Vec<((Backend, String), String)>)
        ensures
            r@.len() == self@.len(),
            forall|i: int, j: int|
                0 <= i < j < r@.len() ==> row_before(
                    (r@[i].0.0, r@[i].0.1@),
                    (r@[j].0.0, r@[j].0.1@),
                ),
            forall|i: int|
                0 <= i < r@.len() ==> self@.contains_key((#[trigger] r@[i].0.0, r@[i].0.1@))
                    && self@[(r@[i].0.0, r@[i].0.1@)] == r@[i].1@,
            forall|k: RowId|
                self@.contains_key(k) ==> exists|i: int|
                    0 <= i < r@.len() && (#[trigger] r@[i].0.0, r@[i].0.1@) == k,
    {
        proof {
            use_type_invariant(self);
        }
        let mut r: Vec<((Backend, String), String)> = Vec::new();
        let mut i: usize = 0;
        while i < self.keys.len()
            invariant
                sorted_rows(self.keys@),
                self.keys@.len() == self.messages@.len(),
                i <= self.keys@.len(),
                r@.len() == i,
                forall|k: int|
                    0 <= k < i ==> (#[trigger] r@[k].0.0, r@[k].0.1@) == self.keys@[k].row()
                        && r@[k].1@ == self.messages@[k]@,
            decreases self.keys@.len() - i,
        {
            let key = &self.keys[i];
            r.push(((key.backend, key.id.clone()), self.messages[i].clone()));
            i = i + 1;
        }
        proof {
            let m = self@;
            assert forall|a: int| 0 <= a < r@.len() implies m.contains_key(
                (#[trigger] r@[a].0.0, r@[a].0.1@),
            ) && m[(r@[a].0.0, r@[a].0.1@)] == r@[a].1@ by {
                lemma_row_index(self.keys@, a);
            }
            assert forall|k: RowId| m.contains_key(k) implies exists|a: int|
                0 <= a < r@.len() && (#[trigger] r@[a].0.0, r@[a].0.1@) == k by {
                let a = row_index(self.keys@, k);
                assert((r@[a].0.0, r@[a].0.1@) == k);
            }
            let dom = m.dom();
            let idx = Set::new(|a: int| 0 <= a < r@.len());
            let f = |a: int| self.keys@[a].row();
            assert forall|k: RowId| dom.contains(k) <==> idx.map(f).contains(k) by {
                if dom.contains(k) {
                    let a = row_index(self.keys@, k);
                    assert(idx.contains(a) && f(a) == k);
                }
                if idx.map(f).contains(k) {
                    let a = choose|a: int| idx.contains(a) && f(a) == k;
                    assert(self.keys@[a].row() == k);
                }
            }
            assert(dom =~= idx.map(f));
            vstd::set_lib::lemma_int_range(0, r@.len() as int);
            assert(idx =~= vstd::set_lib::set_int_range(0, r@.len() as int));
            assert forall|a: int, b: int|
                idx.contains(a) && idx.contains(b) && self.keys@[a].row() == self.keys@[b].row()
                implies a == b by {
                lemma_row_index(self.keys@, a);
                lemma_row_index(self.keys@, b);
            }
            vstd::set_lib::lemma_map_size(idx, dom, f);
        }
        r
    }
}

impl Default for ActionErrorState {
    fn default() -> (r: Self)
        ensures
            r@ == Map::<RowId, Seq<char>>::empty(),
    {
        ActionErrorState::new()
    }
}


// ---------------------------------------------------------------------------
// Laws
// ---------------------------------------------------------------------------
/// A running container can never be deleted, and only a running container can
/// be stopped or restarted.
pub proof fn law_running_rules(st: ContainerState)
    ensures
        state_allows(st, Action::Delete) ==> st != ContainerState::Running,
        state_allows(st, Action::Start) ==> st != ContainerState::Running,
        state_allows(st, Action::Stop) <==> st == ContainerState::Running,
        state_allows(st, Action::Restart) <==> st == ContainerState::Running,
{
}

/// Start and delete are allowed only from an explicit list of inactive
/// states; paused, restarting, removing, unknown and unrecognised states allow
/// no action at all (they fail closed).
pub proof fn law_fail_closed(st: ContainerState, a: Action)
    ensures
        state_allows(st, Action::Start) ==> (st is Configured || st is Created || st is Exited
            || st is Initialized || st is Stopped),
        state_allows(st, Action::Delete) ==> (st is Configured || st is Created || st is Dead
            || st is Exited || st is Initialized || st is Stopped),
        (st is Paused || st is Restarting || st is Removing || st is Unknown || st is Unrecognized)
            ==> !state_allows(st, a),
{
}

proof fn lemma_fold_shared_match(a: Seq<char>, b: Seq<char>, w: Seq<char>)
    requires
        eq_ignore_ascii_case(a, b),
    ensures
        eq_ignore_ascii_case(a, w) == eq_ignore_ascii_case(b, w),
{
    if eq_ignore_ascii_case(a, w) {
        assert forall|i: int| 0 <= i < b.len() implies ascii_fold(#[trigger] b[i]) == ascii_fold(
            w[i],
        ) by {
            assert(ascii_fold(a[i]) == ascii_fold(b[i]));
            assert(ascii_fold(a[i]) == ascii_fold(w[i]));
        }
    }
    if eq_ignore_ascii_case(b, w) {
        assert forall|i: int| 0 <= i < a.len() implies ascii_fold(#[trigger] a[i]) == ascii_fold(
            w[i],
        ) by {
            assert(ascii_fold(a[i]) == ascii_fold(b[i]));
            assert(ascii_fold(b[i]) == ascii_fold(w[i]));
        }
    }
}

/// Two state texts that differ only in ASCII case name the same state.
pub proof fn law_state_ignores_ascii_case(a: Seq<char>, b: Seq<char>)
    requires
        eq_ignore_ascii_case(a, b),
    ensures
        state_from_text(a) == state_from_text(b),
{
    lemma_fold_shared_match(a, b, "configured"@);
    lemma_fold_shared_match(a, b, "created"@);
    lemma_fold_shared_match(a, b, "dead"@);
    lemma_fold_shared_match(a, b, "exited"@);
    lemma_fold_shared_match(a, b, "initialized"@);
    lemma_fold_shared_match(a, b, "paused"@);
    lemma_fold_shared_match(a, b, "removing"@);
    lemma_fold_shared_match(a, b, "restarting"@);
    lemma_fold_shared_match(a, b, "running"@);
    lemma_fold_shared_match(a, b, "stopped"@);
    lemma_fold_shared_match(a, b, "unknown"@);
}

/// A row that has begun an action refuses a second one until it finishes,
/// and rows are told apart by engine as well as by id.
pub proof fn law_tracker_exclusive(active: Set<RowId>, row: RowId, other: RowId)
    ensures
        active.insert(row).contains(row),
        !active.insert(row).remove(row).contains(row),
        other != row ==> active.insert(row).contains(other) == active.contains(other),
        other != row ==> active.remove(row).contains(other) == active.contains(other),
{
}

/// Reading a row's error gives back what its last action left: the failure
/// message, or nothing after a success or a new start; other rows keep
/// theirs.
pub proof fn law_errors_per_row(
    errors: Map<RowId, Seq<char>>,
    row: RowId,
    other: RowId,
    message: Seq<char>,
)
    ensures
        errors.insert(row, message).contains_key(row),
        errors.insert(row, message)[row] == message,
        !errors.remove(row).contains_key(row),
        other != row ==> errors.insert(row, message).contains_key(other) == errors.contains_key(
            other,
        ) && errors.remove(row).contains_key(other) == errors.contains_key(other),
        other != row && errors.contains_key(other) ==> errors.insert(row, message)[other]
            == errors[other] && errors.remove(row)[other] == errors[other],
{
}

/// The image label holds no `/` and is what the image ends with.
pub proof fn law_image_label(image: Seq<char>)
    ensures
        forall|i: int|
            0 <= i < after_last(image, '/').len() ==> #[trigger] after_last(image, '/')[i] != '/',
        after_last(image, '/').len() <= image.len(),
        image.subrange(image.len() - after_last(image, '/').len(), image.len() as int)
            == after_last(image, '/'),
    decreases image.len(),
{
    let l = after_last(image, '/');
    if image.len() == 0 {
        assert(image.subrange(0, 0) =~= l);
    } else if image.last() == '/' {
        assert(image.subrange(image.len() as int, image.len() as int) =~= l);
    } else {
        law_image_label(image.drop_last());
        let p = after_last(image.drop_last(), '/');
        assert(l == p.push(image.last()));
        assert forall|i: int| 0 <= i < l.len() implies #[trigger] l[i] != '/' by {
            if i < p.len() {
                assert(l[i] == p[i]);
            }
        }
        assert(image.subrange(image.len() - l.len(), image.len() as int) =~= image.drop_last().subrange(
            image.drop_last().len() - p.len(),
            image.drop_last().len() as int,
        ).push(image.last()));
    }
}

} // verus!
