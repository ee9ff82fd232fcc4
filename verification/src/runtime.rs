//! The decisions around the engines' command-line clients: the fixed argument
//! vectors, how a finished command's output becomes containers or an error,
//! the steps of an action (with the re-inspection before a removal), how the
//! results of all engines merge into one discovery, and the bookkeeping of a
//! command under a deadline. Running the processes is left to the caller.
use vstd::prelude::*;
use vstd::utf8::{decode_utf8, valid_utf8};
use crate::domain::{
    backend_name, backend_rank, state_allows, state_from_text, subcommand_text, Action, Backend,
    Container, ContainerState, ContainerView,
};
use crate::parser::{container_views, parse_container_list, parse_listing};
use crate::text::{decimal_text, join2, push_text, trim, trimmed};

verus! {

// ---------------------------------------------------------------------------
// Fixed values
// ---------------------------------------------------------------------------
/// The `--format` template of the container listing.
pub const LIST_FORMAT: &'static str = "{{.ID}}\t{{.Image}}\t{{.Names}}\t{{.State}}\t{{.Status}}";

/// The `--format` template that makes `inspect` print the state alone.
pub const INSPECT_FORMAT: &'static str = "{{.State.Status}}";

/// Seconds a listing or an inspection may take on the host engines.
pub const SYSTEM_COMMAND_TIMEOUT_SECS: u64 = 10;

/// Seconds an action may take on the host engines (the engines' own stop
/// grace period is ten seconds).
pub const SYSTEM_ACTION_TIMEOUT_SECS: u64 = 30;

/// The most bytes kept of each output stream of a command.
pub const MAX_CAPTURE_BYTES: usize = 1048576;

/// Reads attempted on a pipe each time it is drained.
pub const DRAIN_READS: usize = 8;

/// Bytes asked for by each read of a pipe.
pub const DRAIN_BUFFER_BYTES: usize = 8192;

/// The longest pause between two checks on a running command, in nanoseconds.
pub const POLL_INTERVAL_NANOS: u64 = 10000000;

/// The command-line client of each engine.
pub open spec fn program_name(b: Backend) -> Seq<char> {
    match b {
        Backend::Docker => "docker"@,
        Backend::Podman => "podman"@,
    }
}

/// The command-line client of `backend`.
pub fn backend_program(backend: Backend) -> (r: &'static str)
    ensures
        r@ == program_name(backend),
{
    match backend {
        Backend::Docker => "docker",
        Backend::Podman => "podman",
    }
}

/// The views of a list of arguments.
pub open spec fn arg_views(v: Seq<String>) -> Seq<Seq<char>> {
    v.map_values(|s: String| s@)
}

/// The arguments that list every container: `ps -a --no-trunc --format T`.
pub fn discovery_args() -> (r: Vec<String>)
    ensures
        arg_views(r@) == seq!["ps"@, "-a"@, "--no-trunc"@, "--format"@, LIST_FORMAT@],
{
    let mut r: Vec<String> = Vec::new();
    r.push("ps".to_owned());
    r.push("-a".to_owned());
    r.push("--no-trunc".to_owned());
    r.push("--format".to_owned());
    r.push(LIST_FORMAT.to_owned());
    assert(arg_views(r@) =~= seq!["ps"@, "-a"@, "--no-trunc"@, "--format"@, LIST_FORMAT@]);
    r
}

/// The arguments by which `flatpak-spawn` runs an engine's client on the host.
pub fn host_prefix_args(backend: Backend) -> (r: Vec<String>)
    ensures
        arg_views(r@) == seq!["--host"@, "--watch-bus"@, program_name(backend)],
{
    let mut r: Vec<String> = Vec::new();
    r.push("--host".to_owned());
    r.push("--watch-bus".to_owned());
    r.push(backend_program(backend).to_owned());
    assert(arg_views(r@) =~= seq!["--host"@, "--watch-bus"@, program_name(backend)]);
    r
}

/// The arguments that read one container's current state.
pub fn inspect_args(id: &str) -> (r: Vec<String>)
    ensures
        arg_views(r@) == seq!["inspect"@, "--format"@, INSPECT_FORMAT@, id@],
{
    let mut r: Vec<String> = Vec::new();
    r.push("inspect".to_owned());
    r.push("--format".to_owned());
    r.push(INSPECT_FORMAT.to_owned());
    r.push(id.to_owned());
    assert(arg_views(r@) =~= seq!["inspect"@, "--format"@, INSPECT_FORMAT@, id@]);
    r
}

/// The arguments that perform `action` on a container: the subcommand and the
/// full id, nothing else (no force option).
pub fn action_args(action: Action, id: &str) -> (r: Vec<String>)
    ensures
        arg_views(r@) == seq![subcommand_text(action), id@],
{
    let mut r: Vec<String> = Vec::new();
    r.push(action.subcommand().to_owned());
    r.push(id.to_owned());
    assert(arg_views(r@) =~= seq![subcommand_text(action), id@]);
    r
}

// ---------------------------------------------------------------------------
// Errors and command outputs
// ---------------------------------------------------------------------------
/// A failure of an engine command, as a message.
#[derive(Debug)]
pub struct RuntimeError(String);

impl View for RuntimeError {
    type V = Seq<char>;

    closed spec fn view(&self) -> Seq<char> {
        self.0@
    }
}

impl RuntimeError {
    pub fn new(message: String) -> (r: Self)
        ensures
            r@ == message@,
    {
        RuntimeError(message)
    }

    /// The message.
    pub fn message(&self) -> (r: &str)
        ensures
            r@ == self@,
    {
        self.0.as_str()
    }

    /// The message, as a new string.
    pub fn to_string(&self) -> (r: String)
        ensures
            r@ == self@,
    {
        self.0.as_str().to_owned()
    }
}

/// What a finished command left: whether it succeeded, its exit status as
/// text, and what it wrote.
pub struct CommandOutput {
    pub success: bool,
    pub status: String,
    pub stdout: Vec<u8>,
    pub stderr: Vec<u8>,
}

/// The text `String::from_utf8_lossy` makes of `bytes`.
pub uninterp spec fn lossy_text(bytes: Seq<u8>) -> Seq<char>;

/// The text by which `std::string::FromUtf8Error` describes why `bytes` are
/// not UTF-8.
pub uninterp spec fn utf8_error_text(bytes: Seq<u8>) -> Seq<char>;

/// The text `{:?}` makes of a string: quoted, with escapes.
pub uninterp spec fn debug_text(s: Seq<char>) -> Seq<char>;

/// Calls `String::from_utf8_lossy`. Its result is named by `lossy_text`; on
/// valid UTF-8 the documentation promises the decoded text unchanged. What it
/// puts in place of invalid sequences is left unsaid.
#[verifier::external_body]
fn decode_lossy(bytes: &[u8]) -> (r: String)
    ensures
        r@ == lossy_text(bytes@),
        valid_utf8(bytes@) ==> r@ == decode_utf8(bytes@),
{
    String::from_utf8_lossy(bytes).into_owned()
}

/// Calls `String::from_utf8`: the decoded text when `bytes` are valid UTF-8,
/// otherwise the error's message (named by `utf8_error_text`).
#[verifier::external_body]
fn decode_strict(bytes: Vec<u8>) -> (r: Result<String, String>)
    ensures
        match r {
            Ok(s) => valid_utf8(bytes@) && s@ == decode_utf8(bytes@),
            Err(e) => !valid_utf8(bytes@) && e@ == utf8_error_text(bytes@),
        },
{
    match String::from_utf8(bytes) {
        Ok(text) => Ok(text),
        Err(error) => Err(error.to_string()),
    }
}

/// Formats `s` with `{:?}`, as named by `debug_text`.
#[verifier::external_body]
fn quote_debug(s: &str) -> (r: String)
    ensures
        r@ == debug_text(s@),
{
    format!("{s:?}")
}

/// What a command wrote to its error stream, trimmed.
pub open spec fn error_stream(out: CommandOutput) -> Seq<char> {
    trim(lossy_text(out.stderr@))
}

/// The message of a failed command: its trimmed error stream, or, when that
/// is empty, `LABEL exited with STATUS`.
pub open spec fn failure_text(label: Seq<char>, out: CommandOutput) -> Seq<char> {
    if error_stream(out).len() == 0 {
        label + " exited with "@ + out.status@
    } else {
        error_stream(out)
    }
}

/// The error for a command that did not succeed.
pub fn command_failure(label: &str, output: &CommandOutput) -> (r: RuntimeError)
    ensures
        r@ == failure_text(label@, *output),
{
    let lossy = decode_lossy(output.stderr.as_slice());
    let stderr = trimmed(lossy.as_str());
    if stderr.as_str().is_empty() {
        let mut message = join2(label, " exited with ");
        push_text(&mut message, output.status.as_str());
        RuntimeError(message)
    } else {
        RuntimeError(stderr)
    }
}

// ---------------------------------------------------------------------------
// Discovery of one engine
// ---------------------------------------------------------------------------
/// The message of a malformed listing line.
pub open spec fn parse_error_text(line: nat) -> Seq<char> {
    "invalid container output on line "@ + decimal_text(line)
}

/// What one engine's listing command yields: its containers, or why not.
pub open spec fn discovery_spec(backend: Backend, out: CommandOutput) -> Result<
    Seq<ContainerView>,
    Seq<char>,
> {
    if !out.success {
        Err(failure_text(backend_name(backend), out))
    } else if !valid_utf8(out.stdout@) {
        Err("invalid UTF-8: "@ + utf8_error_text(out.stdout@))
    } else {
        match parse_listing(backend, decode_utf8(out.stdout@)) {
            Ok(cs) => Ok(cs),
            Err(n) => Err(parse_error_text(n)),
        }
    }
}

/// The containers of `backend` that its finished listing command reports, or
/// the error that stands for them.
pub fn discovery_outcome(backend: Backend, output: CommandOutput) -> (r: Result<
    Vec<Container>,
    RuntimeError,
>)
    ensures
        match r {
            Ok(v) => discovery_spec(backend, output) == Ok::<Seq<ContainerView>, Seq<char>>(
                container_views(v@),
            ),
            Err(e) => discovery_spec(backend, output) == Err::<Seq<ContainerView>, Seq<char>>(e@),
        },
{
    if !output.success {
        return Err(command_failure(backend.name(), &output));
    }
    let stdout = match decode_strict(output.stdout) {
        Ok(text) => text,
        Err(error) => {
            return Err(RuntimeError(join2("invalid UTF-8: ", error.as_str())));
        },
    };
    match parse_container_list(backend, stdout.as_str()) {
        Ok(v) => Ok(v),
        Err(error) => Err(RuntimeError(error.to_string())),
    }
}

/// The description of an engine's listing command, used in its errors.
pub fn discovery_description(backend: Backend) -> (r: String)
    ensures
        r@ == backend_name(backend) + " discovery"@,
{
    join2(backend.name(), " discovery")
}


// ---------------------------------------------------------------------------
// Actions
// ---------------------------------------------------------------------------
/// The next thing to do for an action on a container.
pub enum ActionStep {
    /// Read the container's current state first, with the listing deadline.
    Inspect { args: Vec<String>, description: String },
    /// Perform the action, with the action deadline.
    Run { args: Vec<String>, description: String },
    /// The action is over.
    Finished(Result<(), RuntimeError>),
}

/// An action step as plain values.
pub enum StepView {
    Inspect { args: Seq<Seq<char>>, description: Seq<char> },
    Run { args: Seq<Seq<char>>, description: Seq<char> },
    Finished(Result<(), Seq<char>>),
}

impl View for ActionStep {
    type V = StepView;

    open spec fn view(&self) -> StepView {
        match self {
            ActionStep::Inspect { args, description } => StepView::Inspect {
                args: arg_views(args@),
                description: description@,
            },
            ActionStep::Run { args, description } => StepView::Run {
                args: arg_views(args@),
                description: description@,
            },
            ActionStep::Finished(Ok(())) => StepView::Finished(Ok(())),
            ActionStep::Finished(Err(e)) => StepView::Finished(Err(e@)),
        }
    }
}

/// The step that performs `action` on container `id` of `backend`.
pub open spec fn run_step(backend: Backend, action: Action, id: Seq<char>) -> StepView {
    StepView::Run {
        args: seq![subcommand_text(action), id],
        description: backend_name(backend) + " "@ + subcommand_text(action),
    }
}

/// How an action starts: refused when the runtime is not the container's
/// engine or the listed state does not allow it; a removal first re-reads the
/// state; any other action runs at once.
pub open spec fn plan_spec(runtime: Backend, c: ContainerView, action: Action) -> StepView {
    if runtime != c.backend {
        StepView::Finished(Err("runtime does not match container backend"@))
    } else if !state_allows(state_from_text(c.state), action) {
        StepView::Finished(Err(subcommand_text(action) + " is not allowed for this container"@))
    } else if action == Action::Delete {
        StepView::Inspect {
            args: seq!["inspect"@, "--format"@, INSPECT_FORMAT@, c.id],
            description: backend_name(runtime) + " inspect"@,
        }
    } else {
        run_step(runtime, action, c.id)
    }
}

/// What follows the re-inspection before a removal: the removal itself only
/// when the state just read still allows it.
pub open spec fn inspect_spec(runtime: Backend, c: ContainerView, out: CommandOutput) -> StepView {
    if !out.success {
        StepView::Finished(Err(failure_text(backend_name(runtime) + " inspect"@, out)))
    } else if !valid_utf8(out.stdout@) {
        StepView::Finished(Err("invalid inspect UTF-8: "@ + utf8_error_text(out.stdout@)))
    } else if !state_allows(
        state_from_text(trim(decode_utf8(out.stdout@))),
        Action::Delete,
    ) {
        StepView::Finished(
            Err(
                "container is not removable in current state "@ + debug_text(
                    trim(decode_utf8(out.stdout@)),
                ),
            ),
        )
    } else {
        run_step(runtime, Action::Delete, c.id)
    }
}

/// How an action ends once its command has finished.
pub open spec fn outcome_spec(runtime: Backend, out: CommandOutput) -> Result<(), Seq<char>> {
    if out.success {
        Ok(())
    } else {
        Err(failure_text(backend_name(runtime), out))
    }
}

fn run_step_exec(backend: Backend, action: Action, id: &str) -> (r: ActionStep)
    ensures
        r@ == run_step(backend, action, id@),
{
    let mut description = join2(backend.name(), " ");
    push_text(&mut description, action.subcommand());
    ActionStep::Run { args: action_args(action, id), description }
}

/// The first step of `action` on `container` through the `runtime` engine.
pub fn plan_action(runtime: Backend, container: &Container, action: Action) -> (r: ActionStep)
    ensures
        r@ == plan_spec(runtime, container@, action),
{
    if runtime != container.backend {
        return ActionStep::Finished(
            Err(RuntimeError("runtime does not match container backend".to_owned())),
        );
    }
    if !container.allows(action) {
        return ActionStep::Finished(
            Err(RuntimeError(join2(action.subcommand(), " is not allowed for this container"))),
        );
    }
    if action == Action::Delete {
        ActionStep::Inspect {
            args: inspect_args(container.id.as_str()),
            description: join2(runtime.name(), " inspect"),
        }
    } else {
        run_step_exec(runtime, action, container.id.as_str())
    }
}

/// The step after the re-inspection of `container` before its removal.
pub fn after_inspect(runtime: Backend, container: &Container, output: CommandOutput) -> (r:
    ActionStep)
    ensures
        r@ == inspect_spec(runtime, container@, output),
{
    if !output.success {
        let label = join2(runtime.name(), " inspect");
        return ActionStep::Finished(Err(command_failure(label.as_str(), &output)));
    }
    let text = match decode_strict(output.stdout) {
        Ok(text) => text,
        Err(error) => {
            return ActionStep::Finished(
                Err(RuntimeError(join2("invalid inspect UTF-8: ", error.as_str()))),
            );
        },
    };
    let state = trimmed(text.as_str());
    if !ContainerState::from_runtime(state.as_str()).allows(Action::Delete) {
        let quoted = quote_debug(state.as_str());
        return ActionStep::Finished(
            Err(
                RuntimeError(
                    join2("container is not removable in current state ", quoted.as_str()),
                ),
            ),
        );
    }
    run_step_exec(runtime, Action::Delete, container.id.as_str())
}

/// How an action ended, from its finished command.
pub fn action_outcome(runtime: Backend, output: &CommandOutput) -> (r: Result<(), RuntimeError>)
    ensures
        match r {
            Ok(()) => outcome_spec(runtime, *output) == Ok::<(), Seq<char>>(()),
            Err(e) => outcome_spec(runtime, *output) == Err::<(), Seq<char>>(e@),
        },
{
    if output.success {
        Ok(())
    } else {
        Err(command_failure(runtime.name(), output))
    }
}

// ---------------------------------------------------------------------------
// Commands under a deadline
// ---------------------------------------------------------------------------
/// What checking on a running command found.
#[derive(Debug, Clone, Copy, PartialEq, Eq, Structural)]
pub enum ChildStatus {
    Exited,
    StillRunning,
    CheckFailed,
}

/// What to do next with a running command.
#[derive(Debug, Clone, Copy, PartialEq, Eq, Structural)]
pub enum PollAction {
    /// It has exited: collect what it wrote.
    Collect,
    /// Its deadline has passed: kill its process group.
    Terminate,
    /// Wait this many nanoseconds and check again.
    Wait(u64),
    /// Its status cannot be read: kill it and give up.
    Abandon,
}

/// The next step for a command that has run `elapsed` of its `timeout`
/// nanoseconds: never wait beyond the deadline, nor longer than the interval.
pub open spec fn poll_spec(status: ChildStatus, elapsed: u128, timeout: u128) -> PollAction {
    match status {
        ChildStatus::Exited => PollAction::Collect,
        ChildStatus::CheckFailed => PollAction::Abandon,
        ChildStatus::StillRunning => if elapsed >= timeout {
            PollAction::Terminate
        } else if timeout - elapsed < POLL_INTERVAL_NANOS {
            PollAction::Wait((timeout - elapsed) as u64)
        } else {
            PollAction::Wait(POLL_INTERVAL_NANOS)
        },
    }
}

/// Decides the next step for a running command.
pub fn poll_decision(status: ChildStatus, elapsed: u128, timeout: u128) -> (r: PollAction)
    ensures
        r == poll_spec(status, elapsed, timeout),
{
    match status {
        ChildStatus::Exited => PollAction::Collect,
        ChildStatus::CheckFailed => PollAction::Abandon,
        ChildStatus::StillRunning => {
            if elapsed >= timeout {
                PollAction::Terminate
            } else if timeout - elapsed < POLL_INTERVAL_NANOS as u128 {
                PollAction::Wait((timeout - elapsed) as u64)
            } else {
                PollAction::Wait(POLL_INTERVAL_NANOS)
            }
        },
    }
}

/// The message of a command killed at its deadline:
/// `DESCRIPTION timed out after DURATION`, followed by `: ERRORS` when it
/// wrote anything to its error stream.
pub open spec fn timeout_text(description: Seq<char>, duration: Seq<char>, stderr: Seq<u8>) -> Seq<
    char,
> {
    let errors = trim(lossy_text(stderr));
    description + " timed out after "@ + duration + if errors.len() == 0 {
        Seq::empty()
    } else {
        ": "@ + errors
    }
}

/// The error of a command killed at its deadline.
pub fn timeout_error(description: &str, duration: &str, stderr: &[u8]) -> (r: RuntimeError)
    ensures
        r@ == timeout_text(description@, duration@, stderr@),
{
    let lossy = decode_lossy(stderr);
    let errors = trimmed(lossy.as_str());
    let mut message = join2(description, " timed out after ");
    push_text(&mut message, duration);
    if !errors.as_str().is_empty() {
        push_text(&mut message, ": ");
        push_text(&mut message, errors.as_str());
        assert(message@ =~= timeout_text(description@, duration@, stderr@));
    } else {
        assert(message@ =~= timeout_text(description@, duration@, stderr@));
    }
    RuntimeError(message)
}

/// What one read of a command's output pipe gave.
pub enum ReadOutcome {
    /// These bytes; none at all means the pipe is closed.
    Data(Vec<u8>),
    /// Nothing is available now.
    WouldBlock,
    /// The read was interrupted and may be retried.
    Interrupted,
    /// The read failed with this message.
    Failed(String),
}

/// What to do after a read of a pipe.
pub enum DrainStep {
    /// Read again.
    Continue,
    /// Stop reading for now.
    Stop,
    /// Give up with this error.
    Fail(RuntimeError),
}

/// How many of `count` new bytes are kept when `held` are held already.
pub open spec fn kept_bytes(held: nat, count: nat) -> nat {
    if held >= MAX_CAPTURE_BYTES {
        0
    } else if count <= MAX_CAPTURE_BYTES - held {
        count
    } else {
        (MAX_CAPTURE_BYTES - held) as nat
    }
}

/// Handles one read of a pipe: keeps what fits under the capture limit and
/// says whether to read again.
pub fn drain_step(captured: &mut Vec<u8>, outcome: ReadOutcome, description: &str) -> (r:
    DrainStep)
    ensures
        match outcome {
            ReadOutcome::Data(bytes) => {
                &&& final(captured)@ == old(captured)@ + bytes@.take(
                    kept_bytes(old(captured)@.len(), bytes@.len()) as int,
                )
                &&& (bytes@.len() == 0 ==> r is Stop)
                &&& (bytes@.len() > 0 ==> r is Continue)
            },
            ReadOutcome::WouldBlock => final(captured)@ == old(captured)@ && r is Stop,
            ReadOutcome::Interrupted => final(captured)@ == old(captured)@ && r is Continue,
            ReadOutcome::Failed(e) => final(captured)@ == old(captured)@ && match r {
                DrainStep::Fail(err) => err@ == "could not read "@ + description@ + " output: "@
                    + e@,
                _ => false,
            },
        },
{
    match outcome {
        ReadOutcome::Data(bytes) => {
            if bytes.len() == 0 {
                return DrainStep::Stop;
            }
            let room = if captured.len() >= MAX_CAPTURE_BYTES {
                0
            } else {
                MAX_CAPTURE_BYTES - captured.len()
            };
            let keep = if bytes.len() <= room {
                bytes.len()
            } else {
                room
            };
            let ghost before = captured@;
            let mut i: usize = 0;
            while i < keep
                invariant
                    i <= keep <= bytes@.len(),
                    captured@ == before + bytes@.take(i as int),
                decreases keep - i,
            {
                captured.push(bytes[i]);
                assert(bytes@.take(i + 1) =~= bytes@.take(i as int).push(bytes@[i as int]));
                i = i + 1;
            }
            DrainStep::Continue
        },
        ReadOutcome::WouldBlock => DrainStep::Stop,
        ReadOutcome::Interrupted => DrainStep::Continue,
        ReadOutcome::Failed(error) => {
            let mut message = join2("could not read ", description);
            push_text(&mut message, " output: ");
            push_text(&mut message, error.as_str());
            DrainStep::Fail(RuntimeError(message))
        },
    }
}


// ---------------------------------------------------------------------------
// Discovery across engines
// ---------------------------------------------------------------------------
/// A set of engines.
#[derive(Debug, Clone, Copy, PartialEq, Eq, Structural)]
pub struct BackendSet {
    docker: bool,
    podman: bool,
}

impl View for BackendSet {
    type V = Set<Backend>;

    closed spec fn view(&self) -> Set<Backend> {
        Set::new(
            |b: Backend|
                match b {
                    Backend::Docker => self.docker,
                    Backend::Podman => self.podman,
                },
        )
    }
}

impl BackendSet {
    /// No engine.
    pub fn new() -> (r: Self)
        ensures
            r@ == Set::<Backend>::empty(),
    {
        let r = BackendSet { docker: false, podman: false };
        assert(r@ =~= Set::<Backend>::empty());
        r
    }

    /// Adds an engine; answers whether it was missing.
    pub fn insert(&mut self, backend: Backend) -> (r: bool)
        ensures
            r == !old(self)@.contains(backend),
            final(self)@ == old(self)@.insert(backend),
    {
        let missing = !self.contains(backend);
        match backend {
            Backend::Docker => self.docker = true,
            Backend::Podman => self.podman = true,
        }
        assert(self@ =~= old(self)@.insert(backend));
        missing
    }

    pub fn contains(&self, backend: Backend) -> (r: bool)
        ensures
            r == self@.contains(backend),
    {
        match backend {
            Backend::Docker => self.docker,
            Backend::Podman => self.podman,
        }
    }

    pub fn is_empty(&self) -> (r: bool)
        ensures
            r == (self@ == Set::<Backend>::empty()),
    {
        if self.docker {
            assert(self@.contains(Backend::Docker));
        }
        if self.podman {
            assert(self@.contains(Backend::Podman));
        }
        if !self.docker && !self.podman {
            assert(self@ =~= Set::<Backend>::empty());
        }
        !self.docker && !self.podman
    }

    /// The engines, in order (Docker first).
    pub fn to_vec(&self) -> (r: Vec<Backend>)
        ensures
            forall|b: Backend| self@.contains(b) <==> r@.contains(b),
            forall|i: int, j: int|
                0 <= i < j < r@.len() ==> backend_rank(r@[i]) < backend_rank(r@[j]),
    {
        let mut r: Vec<Backend> = Vec::new();
        if self.docker {
            r.push(Backend::Docker);
        }
        if self.podman {
            r.push(Backend::Podman);
        }
        assert forall|b: Backend| self@.contains(b) <==> r@.contains(b) by {
            match b {
                Backend::Docker => {
                    if self.docker {
                        assert(r@[0] == Backend::Docker);
                    }
                },
                Backend::Podman => {
                    if self.podman {
                        assert(r@[r@.len() - 1] == Backend::Podman);
                    }
                },
            }
        }
        r
    }
}

impl Default for BackendSet {
    fn default() -> (r: Self)
        ensures
            r@ == Set::<Backend>::empty(),
    {
        BackendSet::new()
    }
}

/// An error message for some of the engines.
#[derive(Debug, Clone)]
pub struct BackendErrors {
    docker: Option<String>,
    podman: Option<String>,
}

spec fn message_of(m: Option<String>) -> Seq<char> {
    match m {
        Some(s) => s@,
        None => Seq::empty(),
    }
}

impl BackendErrors {
    spec fn slot(&self, b: Backend) -> Option<String> {
        match b {
            Backend::Docker => self.docker,
            Backend::Podman => self.podman,
        }
    }
}

impl View for BackendErrors {
    type V = Map<Backend, Seq<char>>;

    closed spec fn view(&self) -> Map<Backend, Seq<char>> {
        Map::new(|b: Backend| self.slot(b) is Some, |b: Backend| message_of(self.slot(b)))
    }
}

impl BackendErrors {
    /// No engine has an error.
    pub fn new() -> (r: Self)
        ensures
            r@ == Map::<Backend, Seq<char>>::empty(),
    {
        let r = BackendErrors { docker: None, podman: None };
        assert(r@ =~= Map::<Backend, Seq<char>>::empty());
        r
    }

    /// Sets the error of an engine, replacing any earlier one.
    pub fn insert(&mut self, backend: Backend, message: String)
        ensures
            final(self)@ == old(self)@.insert(backend, message@),
    {
        match backend {
            Backend::Docker => self.docker = Some(message),
            Backend::Podman => self.podman = Some(message),
        }
        assert(self@ =~= old(self)@.insert(backend, message@));
    }

    pub fn contains_key(&self, backend: Backend) -> (r: bool)
        ensures
            r == self@.contains_key(backend),
    {
        match backend {
            Backend::Docker => self.docker.is_some(),
            Backend::Podman => self.podman.is_some(),
        }
    }

    /// The error of an engine, if it has one.
    pub fn get(&self, backend: Backend) -> (r: Option<&str>)
        ensures
            match r {
                Some(m) => self@.contains_key(backend) && m@ == self@[backend],
                None => !self@.contains_key(backend),
            },
    {
        let slot = match backend {
            Backend::Docker => &self.docker,
            Backend::Podman => &self.podman,
        };
        match slot {
            Some(m) => Some(m.as_str()),
            None => None,
        }
    }

    pub fn is_empty(&self) -> (r: bool)
        ensures
            r == (self@ == Map::<Backend, Seq<char>>::empty()),
    {
        if self.docker.is_some() {
            assert(self@.contains_key(Backend::Docker));
        }
        if self.podman.is_some() {
            assert(self@.contains_key(Backend::Podman));
        }
        if self.docker.is_none() && self.podman.is_none() {
            assert(self@ =~= Map::<Backend, Seq<char>>::empty());
        }
        self.docker.is_none() && self.podman.is_none()
    }
}

impl Default for BackendErrors {
    fn default() -> (r: Self)
        ensures
            r@ == Map::<Backend, Seq<char>>::empty(),
    {
        BackendErrors::new()
    }
}

/// Everything found across the engines: the containers, the engines that
/// answered, and the error of each engine that did not.
#[derive(Debug, Clone)]
pub struct Discovery {
    pub containers: Vec<Container>,
    pub successful_backends: BackendSet,
    pub errors: BackendErrors,
}

/// A discovery as plain values.
pub struct DiscoveryView {
    pub containers: Seq<ContainerView>,
    pub successful: Set<Backend>,
    pub errors: Map<Backend, Seq<char>>,
}

impl View for Discovery {
    type V = DiscoveryView;

    open spec fn view(&self) -> DiscoveryView {
        DiscoveryView {
            containers: container_views(self.containers@),
            successful: self.successful_backends@,
            errors: self.errors@,
        }
    }
}

impl Discovery {
    /// Nothing found yet.
    pub fn new() -> (r: Self)
        ensures
            r@ == empty_discovery(),
    {
        let r = Discovery {
            containers: Vec::new(),
            successful_backends: BackendSet::new(),
            errors: BackendErrors::new(),
        };
        assert(container_views(r.containers@) =~= Seq::<ContainerView>::empty());
        r
    }
}

impl Default for Discovery {
    fn default() -> (r: Self)
        ensures
            r@ == empty_discovery(),
    {
        Discovery::new()
    }
}

pub open spec fn empty_discovery() -> DiscoveryView {
    DiscoveryView {
        containers: Seq::empty(),
        successful: Set::empty(),
        errors: Map::empty(),
    }
}

/// Two listing rows that agree on every field but the engine.
pub open spec fn same_row(a: ContainerView, b: ContainerView) -> bool {
    a.id == b.id && a.image == b.image && a.name == b.name && a.state == b.state && a.status
        == b.status
}

pub open spec fn has_row(cs: Seq<ContainerView>, c: ContainerView) -> bool {
    exists|i: int| 0 <= i < cs.len() && same_row(#[trigger] cs[i], c)
}

/// `acc` followed by each item of `items` whose row is not yet listed.
pub open spec fn add_new_rows(acc: Seq<ContainerView>, items: Seq<ContainerView>) -> Seq<
    ContainerView,
>
    decreases items.len(),
{
    if items.len() == 0 {
        acc
    } else {
        add_new_rows(
            if has_row(acc, items[0]) {
                acc
            } else {
                acc.push(items[0])
            },
            items.drop_first(),
        )
    }
}

/// What one engine's discovery gave, as plain values.
pub type EngineResult = (Backend, Result<Seq<ContainerView>, Seq<char>>);

pub open spec fn engine_result_view(r: (Backend, Result<Vec<Container>, RuntimeError>)) -> EngineResult {
    (
        r.0,
        match r.1 {
            Ok(v) => Ok(container_views(v@)),
            Err(e) => Err(e@),
        },
    )
}

pub open spec fn engine_results(rs: Seq<(Backend, Result<Vec<Container>, RuntimeError>)>) -> Seq<
    EngineResult,
> {
    rs.map_values(|r: (Backend, Result<Vec<Container>, RuntimeError>)| engine_result_view(r))
}

/// Adds one engine's result: its new rows and the engine as successful, or
/// its error.
pub open spec fn merge_result(d: DiscoveryView, r: EngineResult) -> DiscoveryView {
    match r.1 {
        Ok(items) => DiscoveryView {
            containers: add_new_rows(d.containers, items),
            successful: d.successful.insert(r.0),
            errors: d.errors,
        },
        Err(e) => DiscoveryView { errors: d.errors.insert(r.0, e), ..d },
    }
}

/// Adds results one after the other.
pub open spec fn merge_all(d: DiscoveryView, rs: Seq<EngineResult>) -> DiscoveryView
    decreases rs.len(),
{
    if rs.len() == 0 {
        d
    } else {
        merge_all(merge_result(d, rs[0]), rs.drop_first())
    }
}

/// The results of one engine, in their order.
pub open spec fn of_backend(rs: Seq<EngineResult>, b: Backend) -> Seq<EngineResult>
    decreases rs.len(),
{
    if rs.len() == 0 {
        Seq::empty()
    } else {
        (if rs[0].0 == b {
            seq![rs[0]]
        } else {
            Seq::empty()
        }) + of_backend(rs.drop_first(), b)
    }
}

/// The discovery made of all results: Docker's results first, then
/// Podman's, each engine's in the order given.
pub open spec fn merged(rs: Seq<EngineResult>) -> DiscoveryView {
    merge_all(
        merge_all(empty_discovery(), of_backend(rs, Backend::Docker)),
        of_backend(rs, Backend::Podman),
    )
}

/// Whether `c` repeats the row of a listed container.
fn listed(cs: &Vec<Container>, c: &Container) -> (r: bool)
    ensures
        r == has_row(container_views(cs@), c@),
{
    let mut i: usize = 0;
    while i < cs.len()
        invariant
            i <= cs@.len(),
            forall|k: int| 0 <= k < i ==> !same_row(#[trigger] cs@[k]@, c@),
        decreases cs@.len() - i,
    {
        let e = &cs[i];
        if e.id == c.id && e.image == c.image && e.name == c.name && e.state == c.state && e.status
            == c.status {
            assert(same_row(container_views(cs@)[i as int], c@));
            return true;
        }
        i = i + 1;
    }
    assert forall|k: int| 0 <= k < cs@.len() implies !same_row(
        #[trigger] container_views(cs@)[k],
        c@,
    ) by {
        assert(container_views(cs@)[k] == cs@[k]@);
    }
    false
}

fn add_rows(containers: &mut Vec<Container>, items: Vec<Container>)
    ensures
        container_views(final(containers)@) == add_new_rows(
            container_views(old(containers)@),
            container_views(items@),
        ),
{
    let ghost goal = add_new_rows(container_views(containers@), container_views(items@));
    let mut items = items;
    while items.len() > 0
        invariant
            goal == add_new_rows(container_views(containers@), container_views(items@)),
        decreases items@.len(),
    {
        let ghost before = items@;
        let item = items.remove(0);
        assert(container_views(before)[0] == item@);
        assert(container_views(before).drop_first() =~= container_views(items@));
        if !listed(containers, &item) {
            assert(container_views(containers@.push(item)) =~= container_views(containers@).push(
                item@,
            ));
            containers.push(item);
        }
    }
}

fn merge_one(d: &mut Discovery, r: (Backend, Result<Vec<Container>, RuntimeError>))
    ensures
        final(d)@ == merge_result(old(d)@, engine_result_view(r)),
{
    let (backend, result) = r;
    match result {
        Ok(items) => {
            d.successful_backends.insert(backend);
            add_rows(&mut d.containers, items);
        },
        Err(error) => {
            d.errors.insert(backend, error.to_string());
        },
    }
}

fn merge_in_order(d: &mut Discovery, rs: Vec<(Backend, Result<Vec<Container>, RuntimeError>)>)
    ensures
        final(d)@ == merge_all(old(d)@, engine_results(rs@)),
{
    let ghost goal = merge_all(d@, engine_results(rs@));
    let mut rs = rs;
    while rs.len() > 0
        invariant
            goal == merge_all(d@, engine_results(rs@)),
        decreases rs@.len(),
    {
        let ghost before = rs@;
        let r = rs.remove(0);
        assert(engine_results(before)[0] == engine_result_view(r));
        assert(engine_results(before).drop_first() =~= engine_results(rs@));
        merge_one(d, r);
    }
}

/// Merges the discovery results of several engines: every engine that
/// answered is successful and its rows are added unless the same row is
/// already listed (so of identical rows, Docker's is kept); every engine that
/// failed keeps its last error.
pub fn merge_discoveries(results: Vec<(Backend, Result<Vec<Container>, RuntimeError>)>) -> (r:
    Discovery)
    ensures
        r@ == merged(engine_results(results@)),
{
    let ghost all = engine_results(results@);
    let mut results = results;
    let mut docker: Vec<(Backend, Result<Vec<Container>, RuntimeError>)> = Vec::new();
    let mut podman: Vec<(Backend, Result<Vec<Container>, RuntimeError>)> = Vec::new();
    assert(engine_results(docker@) =~= Seq::<EngineResult>::empty());
    assert(engine_results(podman@) =~= Seq::<EngineResult>::empty());
    while results.len() > 0
        invariant
            engine_results(docker@) + of_backend(engine_results(results@), Backend::Docker)
                == of_backend(all, Backend::Docker),
            engine_results(podman@) + of_backend(engine_results(results@), Backend::Podman)
                == of_backend(all, Backend::Podman),
        decreases results@.len(),
    {
        let ghost before = engine_results(results@);
        let r = results.remove(0);
        assert(before[0] == engine_result_view(r));
        assert(before.drop_first() =~= engine_results(results@));
        if r.0 == Backend::Docker {
            assert(engine_results(docker@.push(r)) =~= engine_results(docker@).push(
                engine_result_view(r),
            ));
            assert(engine_results(docker@).push(engine_result_view(r)) + of_backend(
                engine_results(results@),
                Backend::Docker,
            ) =~= engine_results(docker@) + of_backend(before, Backend::Docker));
            assert(engine_results(podman@) + of_backend(engine_results(results@), Backend::Podman)
                =~= engine_results(podman@) + of_backend(before, Backend::Podman));
            docker.push(r);
        } else {
            assert(engine_results(podman@.push(r)) =~= engine_results(podman@).push(
                engine_result_view(r),
            ));
            assert(engine_results(podman@).push(engine_result_view(r)) + of_backend(
                engine_results(results@),
                Backend::Podman,
            ) =~= engine_results(podman@) + of_backend(before, Backend::Podman));
            assert(engine_results(docker@) + of_backend(engine_results(results@), Backend::Docker)
                =~= engine_results(docker@) + of_backend(before, Backend::Docker));
            podman.push(r);
        }
    }
    assert(engine_results(docker@) =~= of_backend(all, Backend::Docker));
    assert(engine_results(podman@) =~= of_backend(all, Backend::Podman));
    let mut d = Discovery::new();
    merge_in_order(&mut d, docker);
    merge_in_order(&mut d, podman);
    d
}


// ---------------------------------------------------------------------------
// Laws
// ---------------------------------------------------------------------------
/// Each engine's client name is the name `Backend::from_name` reads back.
pub proof fn law_program_names(b: Backend)
    ensures
        crate::domain::backend_from_name(program_name(b)) == Some(b),
{
    reveal_strlit("docker");
    reveal_strlit("podman");
    assert("docker"@ != "podman"@) by {
        assert("docker"@[0] != "podman"@[0]);
    }
}


/// No two containers share a row.
pub open spec fn rows_unique(cs: Seq<ContainerView>) -> bool {
    forall|i: int, j: int| 0 <= i < j < cs.len() ==> !same_row(#[trigger] cs[i], #[trigger] cs[j])
}

/// `c` is one of the containers that an answering engine listed in `rs`.
pub open spec fn listed_in(rs: Seq<EngineResult>, c: ContainerView) -> bool {
    exists|r: EngineResult| #[trigger] rs.contains(r) && r.1 is Ok && r.1->Ok_0.contains(c)
}

/// `c` is a container that Docker listed in `rs`.
pub open spec fn docker_listed(rs: Seq<EngineResult>, c: ContainerView) -> bool {
    exists|r: EngineResult|
        #[trigger] rs.contains(r) && r.0 == Backend::Docker && r.1 is Ok && r.1->Ok_0.contains(c)
}

/// Docker listed a container with the row of `c` in `rs`.
pub open spec fn docker_listed_row(rs: Seq<EngineResult>, c: ContainerView) -> bool {
    exists|r: EngineResult|
        #[trigger] rs.contains(r) && r.0 == Backend::Docker && r.1 is Ok && has_row(r.1->Ok_0, c)
}

/// Some result in `rs` shows engine `b` answering.
pub open spec fn answered(rs: Seq<EngineResult>, b: Backend) -> bool {
    exists|r: EngineResult| #[trigger] rs.contains(r) && r.0 == b && r.1 is Ok
}

/// The last error that `rs` reports for engine `b`, if any.
pub open spec fn last_error(rs: Seq<EngineResult>, b: Backend) -> Option<Seq<char>>
    decreases rs.len(),
{
    if rs.len() == 0 {
        None
    } else {
        match last_error(rs.drop_first(), b) {
            Some(e) => Some(e),
            None => if rs[0].0 == b && rs[0].1 is Err {
                Some(rs[0].1->Err_0)
            } else {
                None
            },
        }
    }
}

proof fn lemma_contains_cons<A>(s: Seq<A>, x: A)
    requires
        s.len() > 0,
    ensures
        s.contains(x) <==> (x == s[0] || s.drop_first().contains(x)),
{
    if s.contains(x) && x != s[0] {
        let i = choose|i: int| 0 <= i < s.len() && s[i] == x;
        assert(s.drop_first()[i - 1] == x);
    }
    if s.drop_first().contains(x) {
        let i = choose|i: int| 0 <= i < s.drop_first().len() && s.drop_first()[i] == x;
        assert(s[i + 1] == x);
    }
    assert(s[0] == s[0]);
}

proof fn lemma_has_row_prefix(cs: Seq<ContainerView>, n: int, x: ContainerView)
    requires
        0 <= n <= cs.len(),
        has_row(cs.subrange(0, n), x),
    ensures
        has_row(cs, x),
{
    let i = choose|i: int| 0 <= i < n && same_row(#[trigger] cs.subrange(0, n)[i], x);
    assert(cs.subrange(0, n)[i] == cs[i]);
}

proof fn lemma_has_row_same(cs: Seq<ContainerView>, x: ContainerView, y: ContainerView)
    requires
        has_row(cs, x),
        same_row(x, y),
    ensures
        has_row(cs, y),
{
    let i = choose|i: int| 0 <= i < cs.len() && same_row(#[trigger] cs[i], x);
    assert(same_row(cs[i], y));
}

proof fn lemma_add_rows(acc: Seq<ContainerView>, items: Seq<ContainerView>)
    ensures
        add_new_rows(acc, items).len() >= acc.len(),
        add_new_rows(acc, items).subrange(0, acc.len() as int) == acc,
        forall|k: int|
            acc.len() <= k < add_new_rows(acc, items).len() ==> items.contains(
                #[trigger] add_new_rows(acc, items)[k],
            ) && !has_row(acc, add_new_rows(acc, items)[k]),
        forall|x: ContainerView| #[trigger] items.contains(x) ==> has_row(add_new_rows(acc, items), x),
        rows_unique(acc) ==> rows_unique(add_new_rows(acc, items)),
    decreases items.len(),
{
    let out = add_new_rows(acc, items);
    if items.len() == 0 {
        assert(acc.subrange(0, acc.len() as int) =~= acc);
    } else {
        let x = items[0];
        let acc2 = if has_row(acc, x) {
            acc
        } else {
            acc.push(x)
        };
        let rest = items.drop_first();
        lemma_add_rows(acc2, rest);
        assert(out == add_new_rows(acc2, rest));
        let pre2 = out.subrange(0, acc2.len() as int);
        assert(pre2 == acc2);
        assert(out.subrange(0, acc.len() as int) =~= acc) by {
            assert forall|i: int| 0 <= i < acc.len() implies out[i] == acc[i] by {
                assert(pre2[i] == out[i]);
                assert(acc2[i] == acc[i]);
            }
        }
        assert forall|k: int| acc.len() <= k < out.len() implies items.contains(#[trigger] out[k])
            && !has_row(acc, out[k]) by {
            lemma_contains_cons(items, out[k]);
            if k < acc2.len() {
                assert(pre2[k] == out[k]);
                assert(out[k] == x);
            } else {
                assert(rest.contains(out[k]));
                assert(!has_row(acc2, out[k]));
                if has_row(acc, out[k]) {
                    let i = choose|i: int| 0 <= i < acc.len() && same_row(#[trigger] acc[i], out[k]);
                    assert(acc2[i] == acc[i]);
                }
            }
        }
        assert forall|y: ContainerView| #[trigger] items.contains(y) implies has_row(out, y) by {
            lemma_contains_cons(items, y);
            if y == x {
                if has_row(acc, x) {
                    lemma_has_row_prefix(out, acc.len() as int, x);
                } else {
                    assert(acc2[acc.len() as int] == x);
                    assert(same_row(acc2[acc.len() as int], x));
                    assert(has_row(pre2, x));
                    lemma_has_row_prefix(out, acc2.len() as int, x);
                }
            }
        }
        if rows_unique(acc) {
            assert forall|i: int, j: int| 0 <= i < j < acc2.len() implies !same_row(
                #[trigger] acc2[i],
                #[trigger] acc2[j],
            ) by {
                if j == acc.len() {
                    assert(acc2[j] == x);
                    assert(acc2[i] == acc[i]);
                    if same_row(acc[i], x) {
                        assert(has_row(acc, x));
                    }
                } else {
                    assert(acc2[i] == acc[i] && acc2[j] == acc[j]);
                }
            }
        }
    }
}

proof fn lemma_merge_containers(d: DiscoveryView, rs: Seq<EngineResult>)
    ensures
        merge_all(d, rs).containers.len() >= d.containers.len(),
        merge_all(d, rs).containers.subrange(0, d.containers.len() as int) == d.containers,
        forall|k: int|
            d.containers.len() <= k < merge_all(d, rs).containers.len() ==> listed_in(
                rs,
                #[trigger] merge_all(d, rs).containers[k],
            ) && !has_row(d.containers, merge_all(d, rs).containers[k]),
        forall|r: EngineResult, x: ContainerView|
            #[trigger] rs.contains(r) && r.1 is Ok && #[trigger] r.1->Ok_0.contains(x) ==> has_row(
                merge_all(d, rs).containers,
                x,
            ),
        rows_unique(d.containers) ==> rows_unique(merge_all(d, rs).containers),
    decreases rs.len(),
{
    if rs.len() == 0 {
        assert(d.containers.subrange(0, d.containers.len() as int) =~= d.containers);
    } else {
        let r0 = rs[0];
        let d2 = merge_result(d, r0);
        let rest = rs.drop_first();
        lemma_merge_containers(d2, rest);
        let c = d.containers;
        let c2 = d2.containers;
        let oc = merge_all(d, rs).containers;
        assert(oc == merge_all(d2, rest).containers);
        if r0.1 is Ok {
            lemma_add_rows(c, r0.1->Ok_0);
        } else {
            assert(c.subrange(0, c.len() as int) =~= c);
        }
        let pre2 = oc.subrange(0, c2.len() as int);
        assert(pre2 == c2);
        assert(oc.subrange(0, c.len() as int) =~= c) by {
            assert forall|i: int| 0 <= i < c.len() implies oc[i] == c[i] by {
                assert(pre2[i] == oc[i]);
                assert(c2.subrange(0, c.len() as int)[i] == c2[i]);
            }
        }
        assert forall|k: int| c.len() <= k < oc.len() implies listed_in(rs, #[trigger] oc[k])
            && !has_row(c, oc[k]) by {
            if k < c2.len() {
                assert(pre2[k] == oc[k]);
                assert(r0.1->Ok_0.contains(oc[k]));
                assert(rs.contains(r0)) by {
                    assert(rs[0] == r0);
                }
            } else {
                let r = choose|r: EngineResult| #[trigger] rest.contains(r) && r.1 is Ok
                    && r.1->Ok_0.contains(oc[k]);
                lemma_contains_cons(rs, r);
                assert(!has_row(c2, oc[k]));
                if has_row(c, oc[k]) {
                    lemma_has_row_prefix(c2, c.len() as int, oc[k]);
                }
            }
        }
        assert forall|r: EngineResult, x: ContainerView|
            #[trigger] rs.contains(r) && r.1 is Ok && #[trigger] r.1->Ok_0.contains(x) implies has_row(
            oc,
            x,
        ) by {
            lemma_contains_cons(rs, r);
            if r == r0 {
                assert(has_row(c2, x));
                assert(has_row(pre2, x));
                lemma_has_row_prefix(oc, c2.len() as int, x);
            }
        }
    }
}

proof fn lemma_merge_successful(d: DiscoveryView, rs: Seq<EngineResult>, b: Backend)
    ensures
        merge_all(d, rs).successful.contains(b) <==> (d.successful.contains(b) || answered(rs, b)),
    decreases rs.len(),
{
    if rs.len() > 0 {
        let r0 = rs[0];
        let rest = rs.drop_first();
        lemma_merge_successful(merge_result(d, r0), rest, b);
        if answered(rs, b) {
            let r = choose|r: EngineResult| #[trigger] rs.contains(r) && r.0 == b && r.1 is Ok;
            lemma_contains_cons(rs, r);
        }
        if answered(rest, b) {
            let r = choose|r: EngineResult| #[trigger] rest.contains(r) && r.0 == b && r.1 is Ok;
            lemma_contains_cons(rs, r);
        }
        if r0.0 == b && r0.1 is Ok {
            assert(rs.contains(r0)) by {
                assert(rs[0] == r0);
            }
        }
    }
}

proof fn lemma_merge_errors(d: DiscoveryView, rs: Seq<EngineResult>, b: Backend)
    ensures
        merge_all(d, rs).errors.contains_key(b) <==> (d.errors.contains_key(b) || last_error(
            rs,
            b,
        ) is Some),
        merge_all(d, rs).errors.contains_key(b) ==> merge_all(d, rs).errors[b] == match last_error(
            rs,
            b,
        ) {
            Some(e) => e,
            None => d.errors[b],
        },
    decreases rs.len(),
{
    if rs.len() > 0 {
        lemma_merge_errors(merge_result(d, rs[0]), rs.drop_first(), b);
    }
}

proof fn lemma_of_backend(rs: Seq<EngineResult>, b: Backend)
    ensures
        forall|r: EngineResult| #[trigger] of_backend(rs, b).contains(r) <==> (rs.contains(r) && r.0
            == b),
        last_error(of_backend(rs, b), b) == last_error(rs, b),
        forall|c: Backend| c != b ==> #[trigger] last_error(of_backend(rs, b), c) is None,
    decreases rs.len(),
{
    if rs.len() > 0 {
        let rest = rs.drop_first();
        lemma_of_backend(rest, b);
        let o = of_backend(rs, b);
        let orest = of_backend(rest, b);
        if rs[0].0 == b {
            assert(o == seq![rs[0]] + orest);
            assert(o[0] == rs[0]);
            assert(o.drop_first() =~= orest);
        } else {
            assert(o =~= orest);
        }
        assert forall|c: Backend| c != b implies #[trigger] last_error(o, c) is None by {
            assert(last_error(orest, c) is None);
        }
        assert forall|r: EngineResult| #[trigger] o.contains(r) <==> (rs.contains(r) && r.0 == b) by {
            lemma_contains_cons(rs, r);
            if rs[0].0 == b {
                lemma_contains_cons(o, r);
            }
        }
    }
}

/// What the merge keeps of the engines' results: no row twice; only
/// containers that an answering engine listed; a container for every row an
/// answering engine listed; the engines that answered as successful; and for
/// each engine that failed, its last error.
pub proof fn law_merge_accounts_for_all(rs: Seq<EngineResult>)
    ensures
        rows_unique(merged(rs).containers),
        forall|k: int|
            0 <= k < merged(rs).containers.len() ==> listed_in(rs, #[trigger] merged(rs).containers[k]),
        forall|r: EngineResult, x: ContainerView|
            #[trigger] rs.contains(r) && r.1 is Ok && #[trigger] r.1->Ok_0.contains(x) ==> has_row(
                merged(rs).containers,
                x,
            ),
        forall|b: Backend| #[trigger] merged(rs).successful.contains(b) <==> answered(rs, b),
        forall|b: Backend| #[trigger] merged(rs).errors.contains_key(b) <==> last_error(rs, b) is Some,
        forall|b: Backend|
            #[trigger] merged(rs).errors.contains_key(b) ==> Some(merged(rs).errors[b]) == last_error(
                rs,
                b,
            ),
{
    let rd = of_backend(rs, Backend::Docker);
    let rp = of_backend(rs, Backend::Podman);
    let d0 = empty_discovery();
    let d1 = merge_all(d0, rd);
    let d2 = merge_all(d1, rp);
    assert(d2 == merged(rs));
    lemma_of_backend(rs, Backend::Docker);
    lemma_of_backend(rs, Backend::Podman);
    lemma_merge_containers(d0, rd);
    lemma_merge_containers(d1, rp);
    let oc = d2.containers;
    let c1 = d1.containers;
    assert forall|k: int| 0 <= k < oc.len() implies listed_in(rs, #[trigger] oc[k]) by {
        if k < c1.len() {
            assert(oc.subrange(0, c1.len() as int)[k] == oc[k]);
            assert(listed_in(rd, c1[k]));
            let r = choose|r: EngineResult| #[trigger] rd.contains(r) && r.1 is Ok && r.1->Ok_0.contains(
                c1[k],
            );
            assert(rs.contains(r));
        } else {
            let r = choose|r: EngineResult| #[trigger] rp.contains(r) && r.1 is Ok && r.1->Ok_0.contains(
                oc[k],
            );
            assert(rs.contains(r));
        }
    }
    assert forall|r: EngineResult, x: ContainerView|
        #[trigger] rs.contains(r) && r.1 is Ok && #[trigger] r.1->Ok_0.contains(x) implies has_row(
        oc,
        x,
    ) by {
        if r.0 == Backend::Docker {
            assert(rd.contains(r));
            assert(has_row(c1, x));
            assert(has_row(oc.subrange(0, c1.len() as int), x));
            lemma_has_row_prefix(oc, c1.len() as int, x);
        } else {
            assert(rp.contains(r));
        }
    }
    assert forall|b: Backend| #[trigger] d2.successful.contains(b) <==> answered(rs, b) by {
        lemma_merge_successful(d0, rd, b);
        lemma_merge_successful(d1, rp, b);
        if answered(rs, b) {
            let r = choose|r: EngineResult| #[trigger] rs.contains(r) && r.0 == b && r.1 is Ok;
            if b == Backend::Docker {
                assert(rd.contains(r));
            } else {
                assert(rp.contains(r));
            }
        }
        if answered(rd, b) {
            let r = choose|r: EngineResult| #[trigger] rd.contains(r) && r.0 == b && r.1 is Ok;
            assert(rs.contains(r));
        }
        if answered(rp, b) {
            let r = choose|r: EngineResult| #[trigger] rp.contains(r) && r.0 == b && r.1 is Ok;
            assert(rs.contains(r));
        }
    }
    assert forall|b: Backend| #[trigger] d2.errors.contains_key(b) <==> last_error(rs, b) is Some by {
        lemma_merge_errors(d0, rd, b);
        lemma_merge_errors(d1, rp, b);
        assert(last_error(rd, Backend::Podman) is None);
        assert(last_error(rp, Backend::Docker) is None);
    }
    assert forall|b: Backend| #[trigger] d2.errors.contains_key(b) implies Some(d2.errors[b])
        == last_error(rs, b) by {
        lemma_merge_errors(d0, rd, b);
        lemma_merge_errors(d1, rp, b);
        assert(last_error(rd, Backend::Podman) is None);
        assert(last_error(rp, Backend::Docker) is None);
    }
}

/// Of identical rows that Docker and Podman both list, Docker's is kept: a
/// kept container whose row Docker listed is one that Docker listed.
pub proof fn law_merge_prefers_docker(rs: Seq<EngineResult>)
    ensures
        forall|k: int|
            0 <= k < merged(rs).containers.len() && docker_listed_row(
                rs,
                #[trigger] merged(rs).containers[k],
            ) ==> docker_listed(rs, merged(rs).containers[k]),
{
    let rd = of_backend(rs, Backend::Docker);
    let rp = of_backend(rs, Backend::Podman);
    let d0 = empty_discovery();
    let d1 = merge_all(d0, rd);
    let d2 = merge_all(d1, rp);
    assert(d2 == merged(rs));
    lemma_of_backend(rs, Backend::Docker);
    lemma_of_backend(rs, Backend::Podman);
    lemma_merge_containers(d0, rd);
    lemma_merge_containers(d1, rp);
    let oc = d2.containers;
    let c1 = d1.containers;
    assert forall|k: int| 0 <= k < oc.len() && docker_listed_row(rs, #[trigger] oc[k]) implies docker_listed(
        rs,
        oc[k],
    ) by {
        if k < c1.len() {
            assert(oc.subrange(0, c1.len() as int)[k] == oc[k]);
            assert(listed_in(rd, c1[k]));
            let r = choose|r: EngineResult| #[trigger] rd.contains(r) && r.1 is Ok && r.1->Ok_0.contains(
                c1[k],
            );
            assert(rs.contains(r) && r.0 == Backend::Docker);
        } else {
            let r = choose|r: EngineResult|
                #[trigger] rs.contains(r) && r.0 == Backend::Docker && r.1 is Ok && has_row(
                    r.1->Ok_0,
                    oc[k],
                );
            assert(rd.contains(r));
            let items = r.1->Ok_0;
            let i = choose|i: int| 0 <= i < items.len() && same_row(#[trigger] items[i], oc[k]);
            assert(items.contains(items[i]));
            assert(has_row(c1, items[i]));
            lemma_has_row_same(c1, items[i], oc[k]);
        }
    }
}


/// A removal never starts from the listed state alone: it first re-reads the
/// container's state, and the `rm` runs only when that fresh state allows it,
/// with the subcommand and the full id as its only arguments. Every other
/// action runs with exactly its subcommand and the id.
pub proof fn law_removal_rechecks_state(
    runtime: Backend,
    c: ContainerView,
    action: Action,
    out: CommandOutput,
)
    ensures
        action == Action::Delete ==> !(plan_spec(runtime, c, action) is Run),
        plan_spec(runtime, c, action) is Run ==> plan_spec(runtime, c, action)->Run_args == seq![
            subcommand_text(action),
            c.id,
        ],
        plan_spec(runtime, c, action) is Inspect ==> action == Action::Delete,
        (plan_spec(runtime, c, action) is Run || plan_spec(runtime, c, action) is Inspect) ==> (
        runtime == c.backend && state_allows(state_from_text(c.state), action)),
        inspect_spec(runtime, c, out) is Run ==> out.success && valid_utf8(out.stdout@)
            && state_allows(state_from_text(trim(decode_utf8(out.stdout@))), Action::Delete)
            && inspect_spec(runtime, c, out)->Run_args == seq!["rm"@, c.id],
{
}

/// A running command is never left waiting past its deadline, nor longer
/// than the polling interval, and it is killed once the deadline has passed.
pub proof fn law_poll_respects_deadline(status: ChildStatus, elapsed: u128, timeout: u128)
    ensures
        poll_spec(status, elapsed, timeout) matches PollAction::Wait(w) ==> 0 < w
            <= POLL_INTERVAL_NANOS && elapsed + w <= timeout,
        status == ChildStatus::StillRunning && elapsed >= timeout ==> poll_spec(
            status,
            elapsed,
            timeout,
        ) == PollAction::Terminate,
{
}

/// What is kept of a stream never grows past the capture limit, and a read
/// keeps all its bytes while there is room for them.
pub proof fn law_capture_bounded(held: nat, count: nat)
    ensures
        kept_bytes(held, count) <= count,
        held <= MAX_CAPTURE_BYTES ==> held + kept_bytes(held, count) <= MAX_CAPTURE_BYTES,
        held + count <= MAX_CAPTURE_BYTES ==> kept_bytes(held, count) == count,
{
}


/// A listing command that exited successfully with UTF-8 output yields the
/// containers of its listing (or the line of its first malformed row),
/// whatever it wrote to its error stream: warnings never fail an engine.
/// Two such runs that differ only in their error streams agree.
pub proof fn law_success_ignores_error_stream(
    backend: Backend,
    out: CommandOutput,
    other: CommandOutput,
)
    requires
        out.success,
        valid_utf8(out.stdout@),
    ensures
        discovery_spec(backend, out) == match parse_listing(backend, decode_utf8(out.stdout@)) {
            Ok(cs) => Ok::<Seq<ContainerView>, Seq<char>>(cs),
            Err(n) => Err::<Seq<ContainerView>, Seq<char>>(
                "invalid container output on line "@ + decimal_text(n),
            ),
        },
        other.success && other.stdout@ == out.stdout@ ==> discovery_spec(backend, other)
            == discovery_spec(backend, out),
{
}

/// A listing command that failed never yields containers.
pub proof fn law_failure_yields_no_containers(backend: Backend, out: CommandOutput)
    requires
        !out.success,
    ensures
        discovery_spec(backend, out) is Err,
{
}

/// When the re-inspection succeeds and the fresh state allows deletion, the
/// removal runs: `rm` with the full id, described as `ENGINE rm`.
pub proof fn law_removable_fresh_state_is_removed(
    runtime: Backend,
    c: ContainerView,
    out: CommandOutput,
)
    requires
        out.success,
        valid_utf8(out.stdout@),
        state_allows(state_from_text(trim(decode_utf8(out.stdout@))), Action::Delete),
    ensures
        inspect_spec(runtime, c, out) == (StepView::Run {
            args: seq!["rm"@, c.id],
            description: backend_name(runtime) + " "@ + "rm"@,
        }),
{
}

/// An action through the container's own engine that its listed state allows
/// is never refused: a removal goes on to re-inspect the container, every
/// other action runs with its subcommand and the full id.
pub proof fn law_allowed_action_proceeds(runtime: Backend, c: ContainerView, action: Action)
    requires
        runtime == c.backend,
        state_allows(state_from_text(c.state), action),
    ensures
        action == Action::Delete ==> plan_spec(runtime, c, action) == (StepView::Inspect {
            args: seq!["inspect"@, "--format"@, INSPECT_FORMAT@, c.id],
            description: backend_name(runtime) + " inspect"@,
        }),
        action != Action::Delete ==> plan_spec(runtime, c, action) == (StepView::Run {
            args: seq![subcommand_text(action), c.id],
            description: backend_name(runtime) + " "@ + subcommand_text(action),
        }),
{
}

/// A command that is still running before its deadline is never killed: it
/// waits the polling interval, or what is left until the deadline if that is
/// shorter. One that exited is collected, and one whose status cannot be read
/// is abandoned, whatever the time.
pub proof fn law_running_before_deadline_waits(status: ChildStatus, elapsed: u128, timeout: u128)
    ensures
        status == ChildStatus::StillRunning && elapsed < timeout ==> poll_spec(
            status,
            elapsed,
            timeout,
        ) == PollAction::Wait(
            if timeout - elapsed < POLL_INTERVAL_NANOS {
                (timeout - elapsed) as u64
            } else {
                POLL_INTERVAL_NANOS
            },
        ),
        status == ChildStatus::Exited ==> poll_spec(status, elapsed, timeout) == PollAction::Collect,
        status == ChildStatus::CheckFailed ==> poll_spec(status, elapsed, timeout)
            == PollAction::Abandon,
        poll_spec(status, elapsed, timeout) == PollAction::Terminate ==> status
            == ChildStatus::StillRunning && elapsed >= timeout,
{
}

} // verus!
