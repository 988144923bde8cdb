//! Reaching the peer's backend as a client, and starting the daemon that serves
//! it when nothing does.
//!
//! An embedded backend belongs to one process, so exactly one process may open a
//! state directory: the daemon. Everything else connects to it over its service
//! socket. A client that finds no daemon does not open the backend itself: it
//! starts a daemon and connects to that.
//!
//! Two claims keep this true. The daemon claim (`daemon.lock`) is held by the
//! running daemon for its whole life. The start claim (`daemon-start.lock`) is
//! held by the one client that is starting a daemon, and released when that
//! daemon serves; every other client waits for the socket.
//!
//! [`AutoStart`] decides what to do next; probing, locking, spawning and waiting
//! are done by its driver, which reports back what happened.

use vstd::prelude::*;
use vstd::string::*;
use vstd::utf8::*;
use crate::flow;
use crate::os_text;
use crate::os_text::OsText;
use crate::text;

verus! {

broadcast use vstd::string::group_string_axioms;

/// How long a client waits for a daemon to accept connections, in seconds.
pub const DEFAULT_READINESS_SECONDS: u64 = 30;

/// How often readiness is probed while waiting, in milliseconds.
pub const DEFAULT_POLL_MILLIS: u64 = 50;

/// The claim that the running daemon holds, inside the state directory.
pub const DAEMON_LOCK_FILE: &'static str = "daemon.lock";

/// The claim that a client holds while it starts a daemon, inside the state
/// directory.
pub const START_LOCK_FILE: &'static str = "daemon-start.lock";

// ---------------------------------------------------------------------------
// Spans of time
// ---------------------------------------------------------------------------

/// A span of time, to the nanosecond.
#[derive(Debug, Clone, Copy, PartialEq, Eq)]
pub struct Span {
    secs: u64,
    nanos: u32,
}

/// The content of a [`Span`]: whole seconds, and nanoseconds on top.
pub struct SpanView {
    pub secs: u64,
    pub nanos: u32,
}

impl SpanView {
    /// The length in nanoseconds.
    pub open spec fn length(self) -> int {
        self.secs * 1_000_000_000 + self.nanos
    }
}

/// The text that `{:?}` renders for the duration of this many seconds and
/// nanoseconds.
pub uninterp spec fn debug_span(secs: u64, nanos: u32) -> Seq<char>;

/// The `Debug` rendering of `std::time::Duration`.
#[verifier::external_body]
fn shown_span(secs: u64, nanos: u32) -> (shown: String)
    requires
        nanos < 1_000_000_000,
    ensures
        shown@ == debug_span(secs, nanos),
{
    format!("{:?}", std::time::Duration::new(secs, nanos))
}

impl Span {
    #[verifier::type_invariant]
    spec fn below_a_second(self) -> bool {
        self.nanos < 1_000_000_000
    }

    /// The content.
    pub closed spec fn view(self) -> SpanView {
        SpanView { secs: self.secs, nanos: self.nanos }
    }

    /// A span of whole seconds.
    pub fn from_secs(secs: u64) -> (span: Span)
        ensures
            span@ == (SpanView { secs, nanos: 0 }),
    {
        Span { secs, nanos: 0 }
    }

    /// A span of milliseconds.
    pub fn from_millis(millis: u64) -> (span: Span)
        ensures
            span@.length() == millis * 1_000_000,
            span@.nanos < 1_000_000_000,
    {
        let rest: u64 = millis % 1000;
        Span { secs: millis / 1000, nanos: (rest as u32) * 1_000_000 }
    }

    /// A span of seconds and nanoseconds; the latter must be less than a second.
    pub fn from_parts(secs: u64, nanos: u32) -> (span: Option<Span>)
        ensures
            match span {
                Some(span) => nanos < 1_000_000_000 && span@ == (SpanView { secs, nanos }),
                None => nanos >= 1_000_000_000,
            },
    {
        if nanos < 1_000_000_000 {
            Some(Span { secs, nanos })
        } else {
            None
        }
    }

    /// The whole seconds.
    pub fn secs(&self) -> (secs: u64)
        ensures
            secs == self@.secs,
    {
        self.secs
    }

    /// The nanoseconds on top of the whole seconds.
    pub fn subsec_nanos(&self) -> (nanos: u32)
        ensures
            nanos == self@.nanos,
            nanos < 1_000_000_000,
    {
        proof {
            use_type_invariant(self);
        }
        self.nanos
    }

    /// The length in nanoseconds.
    pub fn as_nanos(&self) -> (nanos: u128)
        ensures
            nanos == self@.length(),
    {
        (self.secs as u128) * 1_000_000_000 + self.nanos as u128
    }

    /// The span as it stands in messages.
    pub fn show(&self) -> (shown: String)
        ensures
            shown@ == debug_span(self@.secs, self@.nanos),
    {
        proof {
            use_type_invariant(self);
        }
        shown_span(self.secs, self.nanos)
    }
}

// ---------------------------------------------------------------------------
// Paths
// ---------------------------------------------------------------------------

/// The byte that separates the components of a path.
pub const SLASH: u8 = 47;

/// The byte of the component that stands for the directory itself.
pub const DOT: u8 = 46;

/// A path that starts at the root.
pub open spec fn absolute(path: Seq<u8>) -> bool {
    path.len() > 0 && path[0] == SLASH
}

/// A relative path below a directory.
pub open spec fn joined(dir: Seq<u8>, path: Seq<u8>) -> Seq<u8> {
    if dir.len() == 0 || dir.last() == SLASH {
        dir + path
    } else {
        dir.push(SLASH) + path
    }
}

/// How much of a directory stands for its first component where that is the root
/// or the current directory.
pub open spec fn base_length(dir: Seq<u8>) -> nat {
    if dir.len() > 0 && (dir[0] == SLASH || (dir[0] == DOT && (dir.len() == 1 || dir[1] == SLASH))) {
        1
    } else {
        0
    }
}

/// A directory without the separators and `.` components at its end.
pub open spec fn tidy(dir: Seq<u8>) -> Seq<u8>
    decreases dir.len(),
{
    let n = dir.len();
    if n <= base_length(dir) {
        dir
    } else if dir[n - 1] == SLASH || (dir[n - 1] == DOT && (n == 1 || dir[n - 2] == SLASH)) {
        tidy(dir.drop_last())
    } else {
        dir
    }
}

fn is_absolute(path: &OsText) -> (yes: bool)
    ensures
        yes == absolute(path@),
{
    path.bytes.len() > 0 && path.bytes[0] == SLASH
}

fn join_path(dir: &OsText, path: &OsText) -> (result: OsText)
    ensures
        result@ == joined(dir@, path@),
{
    let mut bytes: Vec<u8> = dir.bytes.clone();
    if bytes.len() > 0 && bytes[bytes.len() - 1] != SLASH {
        bytes.push(SLASH);
    }
    bytes.extend_from_slice(path.bytes.as_slice());
    assert(bytes@ =~= joined(dir@, path@));
    OsText { bytes }
}

fn tidy_dir(dir: &OsText) -> (result: OsText)
    ensures
        result@ == tidy(dir@),
{
    let base: usize = if dir.bytes.len() > 0 && (dir.bytes[0] == SLASH || (dir.bytes[0] == DOT && (
    dir.bytes.len() == 1 || dir.bytes[1] == SLASH))) {
        1
    } else {
        0
    };
    let mut bytes: Vec<u8> = dir.bytes.clone();
    assert(dir@.take(bytes@.len() as int) =~= dir@);
    while bytes.len() > base && (bytes[bytes.len() - 1] == SLASH || (bytes[bytes.len() - 1] == DOT
        && (bytes.len() == 1 || bytes[bytes.len() - 2] == SLASH)))
        invariant
            bytes@.len() <= dir@.len(),
            bytes@ == dir@.take(bytes@.len() as int),
            base <= 1,
            base == base_length(dir@),
            base == 0 && dir@.len() > 0 && dir@[0] == DOT ==> bytes@.len() >= 2,
            bytes@.len() > 1 ==> base_length(bytes@) == base,
            tidy(dir@) == tidy(bytes@),
        decreases bytes@.len(),
    {
        let ghost before = bytes@;
        let _ = bytes.pop();
        assert(bytes@ =~= before.drop_last());
        assert(bytes@ =~= dir@.take(bytes@.len() as int));
    }
    OsText { bytes }
}

// ---------------------------------------------------------------------------
// Readiness
// ---------------------------------------------------------------------------

/// A file mode that lets the owner, and nobody else, read and write.
pub open spec fn owner_only(mode: u32) -> bool {
    mode & 0o777u32 == 0o600u32
}

/// Whether a socket is worth a connection attempt: it is there, and only its
/// owner may use it. A daemon makes it so only after it has bound it.
pub fn worth_connecting(mode: Option<u32>) -> (yes: bool)
    ensures
        yes == (mode matches Some(mode) && owner_only(mode)),
{
    match mode {
        Some(mode) => mode & 0o777u32 == 0o600u32,
        None => false,
    }
}

/// Whether something serves a socket: `mode` is the mode of its file, if there is
/// one, and `connects` whether a connection was accepted. The file alone says
/// nothing: a daemon that died leaves it behind.
pub fn socket_is_ready(mode: Option<u32>, connects: bool) -> (ready: bool)
    ensures
        ready == (connects && (mode matches Some(mode) && owner_only(mode))),
{
    worth_connecting(mode) && connects
}

// ---------------------------------------------------------------------------
// Starting a daemon
// ---------------------------------------------------------------------------

/// Why no daemon could be reached.
#[derive(Debug, PartialEq)]
pub struct ServiceError {
    /// What could not be done.
    pub message: String,
    /// Why, where something else failed first.
    pub cause: Option<String>,
}

/// The content of a [`ServiceError`].
pub struct Trouble {
    pub message: Seq<char>,
    pub cause: Option<Seq<char>>,
}

impl ServiceError {
    pub open spec fn view(self) -> Trouble {
        Trouble { message: self.message@, cause: flow::text_option(self.cause) }
    }
}

/// Starts a daemon.
pub trait DaemonSpawn {
    /// Start a daemon and return once it is launched, which is before it is ready:
    /// readiness is seen through the socket.
    fn spawn(&self) -> Result<(), ServiceError>;
}

/// What a standard stream of a child is connected to.
#[derive(Debug, Clone, Copy, PartialEq, Eq, Structural)]
pub enum Stream {
    /// Nothing: reads find the end, and writes are dropped.
    Null,
    /// What its parent's stream is connected to.
    Inherited,
}

/// The session that a child runs in.
#[derive(Debug, Clone, Copy, PartialEq, Eq, Structural)]
pub enum Session {
    /// One of its own, so that it outlives the process group of its parent.
    Own,
    /// Its parent's.
    Inherited,
}

/// A program to run, and how it is detached from its caller.
#[derive(Debug, PartialEq)]
pub struct DetachedCommand {
    pub program: OsText,
    pub arguments: Vec<OsText>,
    /// A variable to set in its environment, and the value.
    pub variable: (String, String),
    pub stdin: Stream,
    pub stdout: Stream,
    pub stderr: Stream,
    pub session: Session,
}

/// Starts `chaz --config <path> daemon` as a detached child.
#[derive(Debug, PartialEq)]
pub struct SpawnChazDaemon {
    /// The program to run.
    pub program: OsText,
    /// The configuration that the daemon reads. It carries the state directory, on
    /// which the client and its daemon must agree.
    pub config_path: OsText,
}

impl SpawnChazDaemon {
    /// Start the daemon from the running executable, so that a client never starts
    /// a chaz other than itself. `executable` is where that is, or why it could not
    /// be found.
    pub fn from_current_exe(config_path: OsText, executable: Result<OsText, String>) -> (result:
        Result<SpawnChazDaemon, ServiceError>)
        ensures
            match executable {
                Ok(program) => result matches Ok(spawn) && spawn.program@ == program@
                    && spawn.config_path@ == config_path@,
                Err(cause) => result matches Err(error) && error@ == (Trouble {
                    message: "could not determine the running chaz executable"@,
                    cause: Some(cause@),
                }),
            },
    {
        match executable {
            Ok(program) => Ok(SpawnChazDaemon { program, config_path }),
            Err(cause) => Err(
                ServiceError {
                    message: "could not determine the running chaz executable".to_owned(),
                    cause: Some(cause),
                },
            ),
        }
    }

    /// The command that starts the daemon: without standard streams, and in a
    /// session of its own.
    pub fn command(&self) -> (command: DetachedCommand)
        ensures
            command.program@ == self.program@,
            command.arguments@.len() == 3,
            command.arguments@[0]@ == encode_utf8("--config"@),
            command.arguments@[1]@ == self.config_path@,
            command.arguments@[2]@ == encode_utf8("daemon"@),
            command.variable.0@ == "CHAZ_DAEMON_DETACHED"@,
            command.variable.1@ == "1"@,
            command.stdin == Stream::Null,
            command.stdout == Stream::Null,
            command.stderr == Stream::Null,
            command.session == Session::Own,
    {
        let mut arguments: Vec<OsText> = Vec::new();
        arguments.push(OsText::from_text("--config"));
        arguments.push(self.config_path.clone());
        arguments.push(OsText::from_text("daemon"));
        DetachedCommand {
            program: self.program.clone(),
            arguments,
            variable: ("CHAZ_DAEMON_DETACHED".to_owned(), "1".to_owned()),
            stdin: Stream::Null,
            stdout: Stream::Null,
            stderr: Stream::Null,
            session: Session::Own,
        }
    }

    /// The error of a daemon that could not be started.
    pub fn failure(&self, cause: String) -> (error: ServiceError)
        ensures
            error@ == (Trouble {
                message: "could not start a chaz daemon from "@ + os_text::shown_text(
                    self.program@,
                ),
                cause: Some(cause@),
            }),
    {
        ServiceError {
            message: text::join(
                "could not start a chaz daemon from ",
                self.program.show().as_str(),
            ),
            cause: Some(cause),
        }
    }
}

/// The socket path as the connection URL needs it: absolute.
pub open spec fn url_path(socket: Seq<u8>, cwd: Result<Seq<u8>, Seq<char>>) -> Result<
    Seq<u8>,
    Trouble,
> {
    if absolute(socket) {
        Ok(socket)
    } else {
        match cwd {
            Ok(cwd) => Ok(joined(cwd, socket)),
            Err(cause) => Err(
                Trouble {
                    message: "could not resolve the relative service socket "@
                        + os_text::shown_text(socket) + " against the working directory"@,
                    cause: Some(cause),
                },
            ),
        }
    }
}

/// Resolve a socket path to an absolute one. `cwd` is the working directory, or
/// why it could not be determined.
pub fn resolve_socket_url_path(socket: &OsText, cwd: Result<OsText, String>) -> (result: Result<
    OsText,
    ServiceError,
>)
    ensures
        ({
            let wanted = url_path(
                socket@,
                match cwd {
                    Ok(cwd) => Ok(cwd@),
                    Err(cause) => Err(cause@),
                },
            );
            match result {
                Ok(path) => wanted == Ok::<Seq<u8>, Trouble>(path@),
                Err(error) => wanted == Err::<Seq<u8>, Trouble>(error@),
            }
        }),
{
    if is_absolute(socket) {
        return Ok(socket.clone());
    }
    match cwd {
        Ok(cwd) => Ok(join_path(&cwd, socket)),
        Err(cause) => Err(
            ServiceError {
                message: text::join3(
                    "could not resolve the relative service socket ",
                    socket.show().as_str(),
                    " against the working directory",
                ),
                cause: Some(cause),
            },
        ),
    }
}

/// Finds the daemon that serves a state directory, starting one if there is none.
#[derive(Debug)]
pub struct AutoStart<S> {
    socket: OsText,
    start_lock: OsText,
    daemon_lock: OsText,
    spawn: S,
    readiness_timeout: Span,
    poll_interval: Span,
}

/// The content of an [`AutoStart`]: the socket, the paths of the two claims, how
/// long to wait, and how often to probe while waiting.
pub struct AutoStartView {
    pub socket: Seq<u8>,
    pub start_lock: Seq<u8>,
    pub daemon_lock: Seq<u8>,
    pub readiness_timeout: SpanView,
    pub poll_interval: SpanView,
}

/// What to do next.
#[derive(Debug, PartialEq)]
pub enum Action {
    /// See whether something serves the socket.
    Probe,
    /// Open the file of the start claim.
    OpenStartClaim,
    /// Try to take the start claim.
    TakeStartClaim,
    /// Give the start claim up, and close its file.
    ReleaseStartClaim,
    /// Open the file of the daemon claim.
    OpenDaemonClaim,
    /// Try to take the daemon claim.
    TakeDaemonClaim,
    /// Give the daemon claim up, and close its file.
    ReleaseDaemonClaim,
    /// Remove the socket file.
    ClearSocket,
    /// Start a daemon.
    Spawn,
    /// Read the clock.
    ReadClock,
    /// Do nothing for a while.
    Rest(Span),
    /// Stop: this is the outcome.
    Finish(Result<(), ServiceError>),
}

/// What happened.
#[derive(Debug, PartialEq)]
pub enum Event {
    /// Whether something serves the socket.
    Probed(bool),
    /// The file is open.
    Opened,
    /// The file could not be opened.
    OpenFailed(String),
    /// The claim is taken.
    Taken,
    /// Another process holds the claim.
    Busy,
    /// The claim could not be tried.
    TakeFailed(String),
    /// The claim is given up.
    Released,
    /// The socket file is removed.
    Cleared,
    /// There was no socket file.
    Missing,
    /// The socket file could not be removed.
    ClearFailed(String),
    /// A daemon is launched.
    Spawned,
    /// No daemon could be launched.
    SpawnFailed(ServiceError),
    /// The time, in nanoseconds since some fixed moment.
    Clock(u128),
    /// The while is over.
    Rested,
}

/// The content of an [`Event`].
pub enum EventView {
    Probed(bool),
    Opened,
    OpenFailed(Seq<char>),
    Taken,
    Busy,
    TakeFailed(Seq<char>),
    Released,
    Cleared,
    Missing,
    ClearFailed(Seq<char>),
    Spawned,
    SpawnFailed(Trouble),
    Clock(u128),
    Rested,
}

impl Event {
    pub open spec fn view(self) -> EventView {
        match self {
            Event::Probed(ready) => EventView::Probed(ready),
            Event::Opened => EventView::Opened,
            Event::OpenFailed(cause) => EventView::OpenFailed(cause@),
            Event::Taken => EventView::Taken,
            Event::Busy => EventView::Busy,
            Event::TakeFailed(cause) => EventView::TakeFailed(cause@),
            Event::Released => EventView::Released,
            Event::Cleared => EventView::Cleared,
            Event::Missing => EventView::Missing,
            Event::ClearFailed(cause) => EventView::ClearFailed(cause@),
            Event::Spawned => EventView::Spawned,
            Event::SpawnFailed(error) => EventView::SpawnFailed(error@),
            Event::Clock(now) => EventView::Clock(now),
            Event::Rested => EventView::Rested,
        }
    }
}

/// How far an attempt to reach a daemon is.
#[derive(Debug, PartialEq)]
pub enum Phase {
    /// Seeing whether a daemon serves already.
    Looking,
    /// Opening the start claim.
    OpeningStart,
    /// Taking the start claim.
    TakingStart,
    /// Probing again, with the start claim: a daemon may have come up meanwhile.
    Rechecking,
    /// Opening the daemon claim.
    OpeningDaemon,
    /// Taking the daemon claim.
    TakingDaemon,
    /// Probing a last time.
    Confirming,
    /// Removing what a dead daemon left behind.
    Clearing,
    /// Giving the daemon claim up, for the new daemon to take.
    HandingOver,
    /// Starting a daemon.
    Spawning,
    /// Giving the daemon claim up, because a daemon serves after all.
    StandingBack,
    /// Closing the start claim that another client holds.
    LeavingStart,
    /// Reading the clock before the wait.
    Timing,
    /// Waiting since a moment: probing.
    Probing(u128),
    /// Waiting since a moment: reading the clock.
    Checking(u128),
    /// Waiting since a moment: resting.
    Resting(u128),
    /// Giving up the claims that are held.
    Closing(Result<(), ServiceError>),
    /// At the end.
    Finished(Result<(), ServiceError>),
}

/// The content of a [`Phase`].
pub enum PhaseView {
    Looking,
    OpeningStart,
    TakingStart,
    Rechecking,
    OpeningDaemon,
    TakingDaemon,
    Confirming,
    Clearing,
    HandingOver,
    Spawning,
    StandingBack,
    LeavingStart,
    Timing,
    Probing(u128),
    Checking(u128),
    Resting(u128),
    Closing(Result<(), Trouble>),
    Finished(Result<(), Trouble>),
}

/// The content of an outcome.
pub open spec fn outcome_view(outcome: Result<(), ServiceError>) -> Result<(), Trouble> {
    match outcome {
        Ok(_) => Ok(()),
        Err(error) => Err(error@),
    }
}

impl Phase {
    pub open spec fn view(self) -> PhaseView {
        match self {
            Phase::Looking => PhaseView::Looking,
            Phase::OpeningStart => PhaseView::OpeningStart,
            Phase::TakingStart => PhaseView::TakingStart,
            Phase::Rechecking => PhaseView::Rechecking,
            Phase::OpeningDaemon => PhaseView::OpeningDaemon,
            Phase::TakingDaemon => PhaseView::TakingDaemon,
            Phase::Confirming => PhaseView::Confirming,
            Phase::Clearing => PhaseView::Clearing,
            Phase::HandingOver => PhaseView::HandingOver,
            Phase::Spawning => PhaseView::Spawning,
            Phase::StandingBack => PhaseView::StandingBack,
            Phase::LeavingStart => PhaseView::LeavingStart,
            Phase::Timing => PhaseView::Timing,
            Phase::Probing(since) => PhaseView::Probing(since),
            Phase::Checking(since) => PhaseView::Checking(since),
            Phase::Resting(since) => PhaseView::Resting(since),
            Phase::Closing(outcome) => PhaseView::Closing(outcome_view(outcome)),
            Phase::Finished(outcome) => PhaseView::Finished(outcome_view(outcome)),
        }
    }
}

/// An attempt to reach a daemon: how far it is, and which claims it holds.
#[derive(Debug, PartialEq)]
pub struct Attempt {
    phase: Phase,
    start: bool,
    daemon: bool,
}

/// The content of an [`Attempt`].
pub struct AttemptView {
    pub phase: PhaseView,
    /// The start claim is held.
    pub start: bool,
    /// The daemon claim is held.
    pub daemon: bool,
}

impl Attempt {
    pub closed spec fn view(self) -> AttemptView {
        AttemptView { phase: self.phase@, start: self.start, daemon: self.daemon }
    }

    /// An attempt that has not begun.
    pub fn begin() -> (attempt: Attempt)
        ensures
            attempt@ == begun(),
    {
        Attempt { phase: Phase::Looking, start: false, daemon: false }
    }
}

/// An attempt that has not begun.
pub open spec fn begun() -> AttemptView {
    AttemptView { phase: PhaseView::Looking, start: false, daemon: false }
}

/// An attempt in another phase, with the same claims.
pub open spec fn entering(a: AttemptView, phase: PhaseView) -> AttemptView {
    AttemptView { phase, ..a }
}

/// An attempt that failed: it gives up its claims and ends.
pub open spec fn failing(a: AttemptView, message: Seq<char>, cause: Option<Seq<char>>) -> AttemptView {
    entering(a, closing(a, Err(Trouble { message, cause })))
}

/// The phase in which an attempt with an outcome ends: it gives up the claims that
/// it holds first.
pub open spec fn closing(a: AttemptView, outcome: Result<(), Trouble>) -> PhaseView {
    if a.start || a.daemon {
        PhaseView::Closing(outcome)
    } else {
        PhaseView::Finished(outcome)
    }
}

/// How an attempt goes on after an event.
pub open spec fn moved(c: AutoStartView, a: AttemptView, event: EventView) -> AttemptView {
    match (a.phase, event) {
        (PhaseView::Looking, EventView::Probed(ready)) => if ready {
            entering(a, closing(a, Ok(())))
        } else {
            entering(a, PhaseView::OpeningStart)
        },
        (PhaseView::OpeningStart, EventView::Opened) => entering(a, PhaseView::TakingStart),
        (PhaseView::OpeningStart, EventView::OpenFailed(cause)) => failing(
            a,
            "could not open the daemon start claim at "@ + os_text::shown_text(c.start_lock),
            Some(cause),
        ),
        (PhaseView::TakingStart, EventView::Taken) => AttemptView {
            phase: PhaseView::Rechecking,
            start: true,
            ..a
        },
        (PhaseView::TakingStart, EventView::Busy) => entering(a, PhaseView::LeavingStart),
        (PhaseView::TakingStart, EventView::TakeFailed(cause)) => failing(
            a,
            "could not take the daemon start claim at "@ + os_text::shown_text(c.start_lock),
            Some(cause),
        ),
        (PhaseView::LeavingStart, EventView::Released) => entering(a, PhaseView::Timing),
        (PhaseView::Rechecking, EventView::Probed(ready)) => if ready {
            entering(a, PhaseView::Timing)
        } else {
            entering(a, PhaseView::OpeningDaemon)
        },
        (PhaseView::OpeningDaemon, EventView::Opened) => entering(a, PhaseView::TakingDaemon),
        (PhaseView::OpeningDaemon, EventView::OpenFailed(cause)) => failing(
            a,
            "could not open the daemon claim at "@ + os_text::shown_text(c.daemon_lock),
            Some(cause),
        ),
        (PhaseView::TakingDaemon, EventView::Taken) => AttemptView {
            phase: PhaseView::Confirming,
            daemon: true,
            ..a
        },
        (PhaseView::TakingDaemon, EventView::Busy) => entering(a, PhaseView::Confirming),
        (PhaseView::TakingDaemon, EventView::TakeFailed(cause)) => failing(
            a,
            "could not inspect the daemon claim at "@ + os_text::shown_text(c.daemon_lock),
            Some(cause),
        ),
        (PhaseView::Confirming, EventView::Probed(ready)) => if !a.daemon {
            entering(a, PhaseView::Timing)
        } else if ready {
            entering(a, PhaseView::StandingBack)
        } else {
            entering(a, PhaseView::Clearing)
        },
        (PhaseView::Clearing, EventView::Cleared) => entering(a, PhaseView::HandingOver),
        (PhaseView::Clearing, EventView::Missing) => entering(a, PhaseView::HandingOver),
        (PhaseView::Clearing, EventView::ClearFailed(cause)) => failing(
            a,
            "could not clear the stale socket at "@ + os_text::shown_text(c.socket),
            Some(cause),
        ),
        (PhaseView::HandingOver, EventView::Released) => AttemptView {
            phase: PhaseView::Spawning,
            daemon: false,
            ..a
        },
        (PhaseView::StandingBack, EventView::Released) => AttemptView {
            phase: PhaseView::Timing,
            daemon: false,
            ..a
        },
        (PhaseView::Spawning, EventView::Spawned) => entering(a, PhaseView::Timing),
        (PhaseView::Spawning, EventView::SpawnFailed(error)) => failing(
            a,
            error.message,
            error.cause,
        ),
        (PhaseView::Timing, EventView::Clock(now)) => entering(a, PhaseView::Probing(now)),
        (PhaseView::Probing(since), EventView::Probed(ready)) => if ready {
            entering(a, closing(a, Ok(())))
        } else {
            entering(a, PhaseView::Checking(since))
        },
        (PhaseView::Checking(since), EventView::Clock(now)) => if now - since
            >= c.readiness_timeout.length() {
            failing(
                a,
                "no chaz daemon accepted connections on "@ + os_text::shown_text(c.socket) + " within "@ + debug_span(
                    c.readiness_timeout.secs,
                    c.readiness_timeout.nanos,
                ),
                None,
            )
        } else {
            entering(a, PhaseView::Resting(since))
        },
        (PhaseView::Resting(since), EventView::Rested) => entering(a, PhaseView::Probing(since)),
        (PhaseView::Closing(outcome), EventView::Released) => if a.daemon {
            let a = AttemptView { daemon: false, ..a };
            entering(a, closing(a, outcome))
        } else {
            let a = AttemptView { start: false, ..a };
            entering(a, closing(a, outcome))
        },
        _ => a,
    }
}

/// What an attempt asks for in its phase.
pub open spec fn wanted(c: AutoStartView, a: AttemptView, action: Action) -> bool {
    match a.phase {
        PhaseView::Looking => action is Probe,
        PhaseView::OpeningStart => action is OpenStartClaim,
        PhaseView::TakingStart => action is TakeStartClaim,
        PhaseView::Rechecking => action is Probe,
        PhaseView::OpeningDaemon => action is OpenDaemonClaim,
        PhaseView::TakingDaemon => action is TakeDaemonClaim,
        PhaseView::Confirming => action is Probe,
        PhaseView::Clearing => action is ClearSocket,
        PhaseView::HandingOver => action is ReleaseDaemonClaim,
        PhaseView::Spawning => action is Spawn,
        PhaseView::StandingBack => action is ReleaseDaemonClaim,
        PhaseView::LeavingStart => action is ReleaseStartClaim,
        PhaseView::Timing => action is ReadClock,
        PhaseView::Probing(_) => action is Probe,
        PhaseView::Checking(_) => action is ReadClock,
        PhaseView::Resting(_) => action matches Action::Rest(span) && span@ == c.poll_interval,
        PhaseView::Closing(_) => if a.daemon {
            action is ReleaseDaemonClaim
        } else {
            action is ReleaseStartClaim
        },
        PhaseView::Finished(outcome) => action matches Action::Finish(result) && outcome_view(
            result,
        ) == outcome,
    }
}

/// The message of a wait that took too long.
pub fn unanswered(socket: &str, within: &str) -> (message: String)
    ensures
        message@ == "no chaz daemon accepted connections on "@ + socket@ + " within "@ + within@,
{
    let mut message = text::join("no chaz daemon accepted connections on ", socket);
    message.append(" within ");
    message.append(within);
    message
}

fn copied_outcome(outcome: &Result<(), ServiceError>) -> (copy: Result<(), ServiceError>)
    ensures
        outcome_view(copy) == outcome_view(*outcome),
{
    match outcome {
        Ok(_) => Ok(()),
        Err(error) => {
            let cause = match &error.cause {
                Some(cause) => Some(cause.clone()),
                None => None,
            };
            Err(ServiceError { message: error.message.clone(), cause })
        },
    }
}

impl Attempt {
    fn enter(self, phase: Phase) -> (next: Attempt)
        ensures
            next@ == entering(self@, phase@),
    {
        Attempt { phase, start: self.start, daemon: self.daemon }
    }

    fn close(self, outcome: Result<(), ServiceError>) -> (next: Attempt)
        ensures
            next@ == entering(self@, closing(self@, outcome_view(outcome))),
    {
        if self.start || self.daemon {
            self.enter(Phase::Closing(outcome))
        } else {
            self.enter(Phase::Finished(outcome))
        }
    }

    fn fail(self, message: String, cause: Option<String>) -> (next: Attempt)
        ensures
            next@ == failing(self@, message@, flow::text_option(cause)),
    {
        self.close(Err(ServiceError { message, cause }))
    }
}

impl<S> AutoStart<S> {
    /// The content.
    pub closed spec fn view(self) -> AutoStartView {
        AutoStartView {
            socket: self.socket@,
            start_lock: self.start_lock@,
            daemon_lock: self.daemon_lock@,
            readiness_timeout: self.readiness_timeout@,
            poll_interval: self.poll_interval@,
        }
    }

    /// How a daemon is started.
    pub closed spec fn starter(self) -> S {
        self.spawn
    }

    /// `socket` is the service socket; `state_dir` is where the claims are.
    pub fn new(socket: OsText, state_dir: &OsText, spawn: S) -> (auto: AutoStart<S>)
        ensures
            auto.starter() == spawn,
            auto@.socket == socket@,
            auto@.start_lock == joined(state_dir@, encode_utf8(START_LOCK_FILE@)),
            auto@.daemon_lock == joined(tidy(state_dir@), encode_utf8(DAEMON_LOCK_FILE@)),
            auto@.readiness_timeout == (SpanView { secs: DEFAULT_READINESS_SECONDS, nanos: 0 }),
            auto@.poll_interval == (SpanView { secs: 0, nanos: 50_000_000 }),
    {
        AutoStart {
            socket,
            start_lock: join_path(state_dir, &OsText::from_text(START_LOCK_FILE)),
            daemon_lock: join_path(&tidy_dir(state_dir), &OsText::from_text(DAEMON_LOCK_FILE)),
            spawn,
            readiness_timeout: Span::from_secs(DEFAULT_READINESS_SECONDS),
            poll_interval: Span::from_millis(DEFAULT_POLL_MILLIS),
        }
    }

    /// With another bound on the wait for readiness.
    pub fn with_readiness_timeout(self, timeout: Span) -> (auto: AutoStart<S>)
        ensures
            auto.starter() == self.starter(),
            auto@ == (AutoStartView { readiness_timeout: timeout@, ..self@ }),
    {
        AutoStart { readiness_timeout: timeout, ..self }
    }

    /// With another interval between probes.
    pub fn with_poll_interval(self, interval: Span) -> (auto: AutoStart<S>)
        ensures
            auto.starter() == self.starter(),
            auto@ == (AutoStartView { poll_interval: interval@, ..self@ }),
    {
        AutoStart { poll_interval: interval, ..self }
    }

    /// The service socket.
    pub fn socket(&self) -> (socket: &OsText)
        ensures
            socket@ == self@.socket,
    {
        &self.socket
    }

    /// The path of the start claim.
    pub fn start_lock(&self) -> (path: &OsText)
        ensures
            path@ == self@.start_lock,
    {
        &self.start_lock
    }

    /// The path of the daemon claim.
    pub fn daemon_lock(&self) -> (path: &OsText)
        ensures
            path@ == self@.daemon_lock,
    {
        &self.daemon_lock
    }

    /// How a daemon is started.
    pub fn spawner(&self) -> (spawn: &S)
        ensures
            *spawn == self.starter(),
    {
        &self.spawn
    }

    /// What an attempt asks for next.
    pub fn action(&self, attempt: &Attempt) -> (action: Action)
        ensures
            wanted(self@, attempt@, action),
    {
        match &attempt.phase {
            Phase::Looking => Action::Probe,
            Phase::OpeningStart => Action::OpenStartClaim,
            Phase::TakingStart => Action::TakeStartClaim,
            Phase::Rechecking => Action::Probe,
            Phase::OpeningDaemon => Action::OpenDaemonClaim,
            Phase::TakingDaemon => Action::TakeDaemonClaim,
            Phase::Confirming => Action::Probe,
            Phase::Clearing => Action::ClearSocket,
            Phase::HandingOver => Action::ReleaseDaemonClaim,
            Phase::Spawning => Action::Spawn,
            Phase::StandingBack => Action::ReleaseDaemonClaim,
            Phase::LeavingStart => Action::ReleaseStartClaim,
            Phase::Timing => Action::ReadClock,
            Phase::Probing(_) => Action::Probe,
            Phase::Checking(_) => Action::ReadClock,
            Phase::Resting(_) => Action::Rest(self.poll_interval),
            Phase::Closing(_) => if attempt.daemon {
                Action::ReleaseDaemonClaim
            } else {
                Action::ReleaseStartClaim
            },
            Phase::Finished(outcome) => Action::Finish(copied_outcome(outcome)),
        }
    }

    /// Carry an attempt on after an event.
    pub fn advance(&self, attempt: Attempt, event: Event) -> (next: Attempt)
        ensures
            next@ == moved(self@, attempt@, event@),
    {
        let start = attempt.start;
        let daemon = attempt.daemon;
        let Attempt { phase, start: _, daemon: _ } = attempt;
        let rest = Attempt { phase: Phase::Looking, start, daemon };
        match (phase, event) {
            (Phase::Looking, Event::Probed(ready)) => if ready {
                rest.close(Ok(()))
            } else {
                rest.enter(Phase::OpeningStart)
            },
            (Phase::OpeningStart, Event::Opened) => rest.enter(Phase::TakingStart),
            (Phase::OpeningStart, Event::OpenFailed(cause)) => rest.fail(
                text::join(
                    "could not open the daemon start claim at ",
                    self.start_lock.show().as_str(),
                ),
                Some(cause),
            ),
            (Phase::TakingStart, Event::Taken) => Attempt {
                phase: Phase::Rechecking,
                start: true,
                daemon,
            },
            (Phase::TakingStart, Event::Busy) => rest.enter(Phase::LeavingStart),
            (Phase::TakingStart, Event::TakeFailed(cause)) => rest.fail(
                text::join(
                    "could not take the daemon start claim at ",
                    self.start_lock.show().as_str(),
                ),
                Some(cause),
            ),
            (Phase::LeavingStart, Event::Released) => rest.enter(Phase::Timing),
            (Phase::Rechecking, Event::Probed(ready)) => if ready {
                rest.enter(Phase::Timing)
            } else {
                rest.enter(Phase::OpeningDaemon)
            },
            (Phase::OpeningDaemon, Event::Opened) => rest.enter(Phase::TakingDaemon),
            (Phase::OpeningDaemon, Event::OpenFailed(cause)) => rest.fail(
                text::join("could not open the daemon claim at ", self.daemon_lock.show().as_str()),
                Some(cause),
            ),
            (Phase::TakingDaemon, Event::Taken) => Attempt {
                phase: Phase::Confirming,
                start,
                daemon: true,
            },
            (Phase::TakingDaemon, Event::Busy) => rest.enter(Phase::Confirming),
            (Phase::TakingDaemon, Event::TakeFailed(cause)) => rest.fail(
                text::join(
                    "could not inspect the daemon claim at ",
                    self.daemon_lock.show().as_str(),
                ),
                Some(cause),
            ),
            (Phase::Confirming, Event::Probed(ready)) => if !daemon {
                rest.enter(Phase::Timing)
            } else if ready {
                rest.enter(Phase::StandingBack)
            } else {
                rest.enter(Phase::Clearing)
            },
            (Phase::Clearing, Event::Cleared) => rest.enter(Phase::HandingOver),
            (Phase::Clearing, Event::Missing) => rest.enter(Phase::HandingOver),
            (Phase::Clearing, Event::ClearFailed(cause)) => rest.fail(
                text::join("could not clear the stale socket at ", self.socket.show().as_str()),
                Some(cause),
            ),
            (Phase::HandingOver, Event::Released) => Attempt {
                phase: Phase::Spawning,
                start,
                daemon: false,
            },
            (Phase::StandingBack, Event::Released) => Attempt {
                phase: Phase::Timing,
                start,
                daemon: false,
            },
            (Phase::Spawning, Event::Spawned) => rest.enter(Phase::Timing),
            (Phase::Spawning, Event::SpawnFailed(error)) => rest.fail(error.message, error.cause),
            (Phase::Timing, Event::Clock(now)) => rest.enter(Phase::Probing(now)),
            (Phase::Probing(since), Event::Probed(ready)) => if ready {
                rest.close(Ok(()))
            } else {
                rest.enter(Phase::Checking(since))
            },
            (Phase::Checking(since), Event::Clock(now)) => {
                if now >= since && now - since >= self.readiness_timeout.as_nanos() {
                    let within = self.readiness_timeout.show();
                    rest.fail(unanswered(self.socket.show().as_str(), within.as_str()), None)
                } else {
                    rest.enter(Phase::Resting(since))
                }
            },
            (Phase::Resting(since), Event::Rested) => rest.enter(Phase::Probing(since)),
            (Phase::Closing(outcome), Event::Released) => if daemon {
                Attempt { phase: Phase::Looking, start, daemon: false }.close(outcome)
            } else {
                Attempt { phase: Phase::Looking, start: false, daemon: false }.close(outcome)
            },
            (phase, _) => rest.enter(phase),
        }
    }

    /// The URL of the service. `cwd` is the working directory, or why it could not
    /// be determined.
    pub fn url(&self, cwd: Result<OsText, String>) -> (result: Result<String, ServiceError>)
        ensures
            ({
                let path = url_path(
                    self@.socket,
                    match cwd {
                        Ok(cwd) => Ok(cwd@),
                        Err(cause) => Err(cause@),
                    },
                );
                match result {
                    Ok(url) => path matches Ok(path) && url@ == "unix://"@ + os_text::shown_text(path),
                    Err(error) => path matches Err(trouble) && error@ == trouble,
                }
            }),
    {
        match resolve_socket_url_path(&self.socket, cwd) {
            Ok(path) => Ok(text::join("unix://", path.show().as_str())),
            Err(error) => Err(error),
        }
    }

    /// The error of a connection that was refused.
    pub fn connection_failure(&self, cause: String) -> (error: ServiceError)
        ensures
            error@ == (Trouble {
                message: "could not connect to "@ + os_text::shown_text(self@.socket),
                cause: Some(cause@),
            }),
    {
        ServiceError {
            message: text::join("could not connect to ", self.socket.show().as_str()),
            cause: Some(cause),
        }
    }
}

// ---------------------------------------------------------------------------
// Laws
// ---------------------------------------------------------------------------

/// Where an attempt stands after a list of events.
pub open spec fn course(c: AutoStartView, events: Seq<EventView>) -> AttemptView
    decreases events.len(),
{
    if events.len() == 0 {
        begun()
    } else {
        moved(c, course(c, events.drop_last()), events.last())
    }
}

/// The claims that an attempt holds are those that its phase calls for. In
/// particular a daemon is spawned only under the start claim and with the daemon
/// claim given up, the socket is cleared only under both claims, and an attempt
/// that has ended holds none.
pub open spec fn sound(a: AttemptView) -> bool {
    match a.phase {
        PhaseView::Looking => !a.start && !a.daemon,
        PhaseView::OpeningStart => !a.start && !a.daemon,
        PhaseView::TakingStart => !a.start && !a.daemon,
        PhaseView::LeavingStart => !a.start && !a.daemon,
        PhaseView::Rechecking => a.start && !a.daemon,
        PhaseView::OpeningDaemon => a.start && !a.daemon,
        PhaseView::TakingDaemon => a.start && !a.daemon,
        PhaseView::Confirming => a.start,
        PhaseView::Clearing => a.start && a.daemon,
        PhaseView::HandingOver => a.start && a.daemon,
        PhaseView::StandingBack => a.start && a.daemon,
        PhaseView::Spawning => a.start && !a.daemon,
        PhaseView::Timing => !a.daemon,
        PhaseView::Probing(_) => !a.daemon,
        PhaseView::Checking(_) => !a.daemon,
        PhaseView::Resting(_) => !a.daemon,
        PhaseView::Closing(_) => a.start,
        PhaseView::Finished(_) => !a.start && !a.daemon,
    }
}

/// Whatever happens, the claims held are those that the phase calls for.
pub proof fn lemma_claims_follow_the_phase(c: AutoStartView, events: Seq<EventView>)
    ensures
        sound(course(c, events)),
    decreases events.len(),
{
    if events.len() > 0 {
        lemma_claims_follow_the_phase(c, events.drop_last());
    }
}

/// The way to a spawn: nothing served when both claims were held, what a dead
/// daemon left was cleared, and the daemon claim was given up.
pub proof fn lemma_way_to_a_spawn(c: AutoStartView, a: AttemptView, event: EventView)
    requires
        sound(a),
    ensures
        moved(c, a, event).phase is Spawning ==> a.phase is Spawning || (a.phase is HandingOver
            && event is Released && a.start && a.daemon),
        moved(c, a, event).phase is HandingOver ==> a.phase is HandingOver || (a.phase is Clearing
            && (event is Cleared || event is Missing)),
        moved(c, a, event).phase is Clearing ==> a.phase is Clearing || (a.phase is Confirming
            && event == EventView::Probed(false) && a.start && a.daemon),
{
}

/// The order of the phases.
pub open spec fn rank(phase: PhaseView) -> int {
    match phase {
        PhaseView::Looking => 0,
        PhaseView::OpeningStart => 1,
        PhaseView::TakingStart => 2,
        PhaseView::Rechecking => 3,
        PhaseView::OpeningDaemon => 4,
        PhaseView::TakingDaemon => 5,
        PhaseView::Confirming => 6,
        PhaseView::Clearing => 7,
        PhaseView::HandingOver => 8,
        PhaseView::Spawning => 9,
        PhaseView::StandingBack => 10,
        PhaseView::LeavingStart => 11,
        PhaseView::Timing => 12,
        PhaseView::Probing(_) => 13,
        PhaseView::Checking(_) => 13,
        PhaseView::Resting(_) => 13,
        PhaseView::Closing(_) => 14,
        PhaseView::Finished(_) => 15,
    }
}

/// An attempt spawns once at most: once it is past the spawn it does not come to
/// one again. Nor does it if another client holds the start claim.
pub proof fn lemma_one_spawn_at_most(c: AutoStartView, events: Seq<EventView>, i: int)
    requires
        0 <= i <= events.len(),
    ensures
        rank(course(c, events.take(i)).phase) <= rank(course(c, events).phase),
        course(c, events.take(i)).phase is Spawning && !(course(c, events).phase is Spawning)
            ==> rank(course(c, events).phase) > rank(PhaseView::Spawning),
        course(c, events.take(i)).phase is LeavingStart ==> !(course(
            c,
            events,
        ).phase is Spawning),
        rank(course(c, events.take(i)).phase) > rank(PhaseView::Spawning) ==> !(course(
            c,
            events,
        ).phase is Spawning),
    decreases events.len(),
{
    if i < events.len() {
        lemma_one_spawn_at_most(c, events.drop_last(), i);
        assert(events.drop_last().take(i) =~= events.take(i));
    } else {
        assert(events.take(i) =~= events);
    }
}

/// A socket that serves at the first look is all that is needed.
pub proof fn lemma_live_sockets_start_nothing(c: AutoStartView, events: Seq<EventView>)
    requires
        events.len() > 0,
        events[0] == EventView::Probed(true),
    ensures
        course(c, events) == (AttemptView {
            phase: PhaseView::Finished(Ok(())),
            start: false,
            daemon: false,
        }),
    decreases events.len(),
{
    reveal_with_fuel(course, 2);
    if events.len() > 1 {
        lemma_live_sockets_start_nothing(c, events.drop_last());
    }
}

/// The start claim is kept from the moment it is taken until the attempt ends:
/// with a daemon that serves, or with an error. An attempt ends well only when
/// something serves the socket.
pub proof fn lemma_start_claim_is_kept(c: AutoStartView, a: AttemptView, event: EventView)
    requires
        sound(a),
    ensures
        a.start && !moved(c, a, event).start ==> a.phase is Closing,
        (moved(c, a, event).phase == PhaseView::Closing(Ok(())) || moved(c, a, event).phase
            == PhaseView::Finished(Ok(()))) ==> (event == EventView::Probed(true) || a.phase
            == PhaseView::Closing(Ok(())) || a.phase == PhaseView::Finished(Ok(()))),
{
}

/// A wait goes by the moment it began, and ends with an error at the first look at
/// the clock past the bound.
pub proof fn lemma_waits_are_bounded(c: AutoStartView, a: AttemptView, since: u128, now: u128)
    requires
        sound(a),
    ensures
        a.phase == PhaseView::Probing(since) ==> moved(c, a, EventView::Probed(false)).phase
            == PhaseView::Checking(since),
        a.phase == PhaseView::Resting(since) ==> moved(c, a, EventView::Rested).phase
            == PhaseView::Probing(since),
        a.phase == PhaseView::Checking(since) && now - since < c.readiness_timeout.length()
            ==> moved(c, a, EventView::Clock(now)).phase == PhaseView::Resting(since),
        a.phase == PhaseView::Checking(since) && now - since >= c.readiness_timeout.length() ==> {
            let next = moved(c, a, EventView::Clock(now));
            ||| next.phase matches PhaseView::Closing(Err(_))
            ||| next.phase matches PhaseView::Finished(Err(_))
        },
{
}

/// An attempt that ends gives up what it holds, and keeps its outcome.
pub proof fn lemma_claims_are_given_up(
    c: AutoStartView,
    a: AttemptView,
    outcome: Result<(), Trouble>,
)
    requires
        sound(a),
        a.phase == PhaseView::Closing(outcome),
    ensures
        ({
            let one = moved(c, a, EventView::Released);
            let end = if a.daemon {
                moved(c, one, EventView::Released)
            } else {
                one
            };
            end == (AttemptView {
                phase: PhaseView::Finished(outcome),
                start: false,
                daemon: false,
            })
        }),
{
}

/// Of two clients that do not both hold the start claim, not both clear the
/// socket or spawn a daemon.
pub proof fn lemma_one_starter(a: AttemptView, b: AttemptView)
    requires
        sound(a),
        sound(b),
        !(a.start && b.start),
    ensures
        !((a.phase is Clearing || a.phase is Spawning) && (b.phase is Clearing
            || b.phase is Spawning)),
{
}

/// Clients that race for one state directory: where each stands, whether a daemon
/// serves, and how many daemons were launched.
pub struct Race {
    pub clients: Seq<AttemptView>,
    pub serving: bool,
    pub launched: nat,
}

/// What happens next in a race.
pub enum Turn {
    /// Something happens to a client.
    Client(int, EventView),
    /// A daemon begins to serve.
    Up,
}

/// A race after a turn.
pub open spec fn raced(c: AutoStartView, race: Race, turn: Turn) -> Race {
    match turn {
        Turn::Up => Race { serving: true, ..race },
        Turn::Client(i, event) => Race {
            clients: race.clients.update(i, moved(c, race.clients[i], event)),
            launched: race.launched + if race.clients[i].phase is Spawning && event is Spawned {
                1nat
            } else {
                0nat
            },
            ..race
        },
    }
}

/// The attempt has ended, or is about to, with an error.
pub open spec fn failed(a: AttemptView) -> bool {
    ||| a.phase matches PhaseView::Closing(Err(_))
    ||| a.phase matches PhaseView::Finished(Err(_))
}

/// The attempt waits for a daemon.
pub open spec fn waits(a: AttemptView) -> bool {
    a.phase is Timing || a.phase is Probing || a.phase is Checking || a.phase is Resting
}

/// A turn that can happen: a probe tells whether a daemon serves, and the start claim
/// goes to one client at a time.
pub open spec fn possible(c: AutoStartView, race: Race, turn: Turn) -> bool {
    match turn {
        Turn::Up => true,
        Turn::Client(i, event) => {
            &&& 0 <= i < race.clients.len()
            &&& event matches EventView::Probed(ready) ==> ready == race.serving
            &&& race.clients[i].phase is TakingStart && event is Taken ==> forall|j: int|
                0 <= j < race.clients.len() ==> !(#[trigger] race.clients[j]).start
        },
    }
}

/// A turn in which no client that waits under the start claim gives up.
pub open spec fn patient(c: AutoStartView, race: Race, turn: Turn) -> bool {
    turn matches Turn::Client(i, event) ==> (race.clients[i].start && waits(race.clients[i])
        ==> !failed(moved(c, race.clients[i], event)))
}

/// Nothing goes wrong for a client: all that it asks for can be done, and its bound on
/// the wait for readiness does not run out.
pub open spec fn smooth(c: AutoStartView, a: AttemptView, event: EventView) -> bool {
    match event {
        EventView::OpenFailed(_) => false,
        EventView::TakeFailed(_) => false,
        EventView::ClearFailed(_) => false,
        EventView::SpawnFailed(_) => false,
        EventView::Clock(now) => a.phase matches PhaseView::Checking(since) ==> now - since
            < c.readiness_timeout.length(),
        _ => true,
    }
}

/// A turn in which nothing goes wrong for a client.
pub open spec fn calm(c: AutoStartView, race: Race, turn: Turn) -> bool {
    turn matches Turn::Client(i, event) ==> smooth(c, race.clients[i], event)
}

/// A race of `n` clients after a list of turns.
pub open spec fn race_after(c: AutoStartView, n: nat, turns: Seq<Turn>) -> Race
    decreases turns.len(),
{
    if turns.len() == 0 {
        Race { clients: Seq::new(n, |i: int| begun()), serving: false, launched: 0 }
    } else {
        raced(c, race_after(c, n, turns.drop_last()), turns.last())
    }
}

/// A phase on the way to a spawn, behind the probe under the start claim.
spec fn heads_for_a_spawn(a: AttemptView) -> bool {
    4 <= rank(a.phase) <= 10
}

spec fn fair(race: Race) -> bool {
    &&& race.launched <= 1
    &&& forall|i: int| 0 <= i < race.clients.len() ==> sound(#[trigger] race.clients[i])
    &&& forall|i: int, j: int|
        0 <= i < j < race.clients.len() ==> !((#[trigger] race.clients[i]).start && (
        #[trigger] race.clients[j]).start)
    &&& forall|i: int|
        0 <= i < race.clients.len() && rank((#[trigger] race.clients[i]).phase) >= 14 && !failed(
            race.clients[i],
        ) ==> race.serving
    &&& race.launched == 1 ==> forall|i: int|
        0 <= i < race.clients.len() ==> !heads_for_a_spawn(#[trigger] race.clients[i])
    &&& race.launched == 1 && !race.serving ==> {
        &&& forall|i: int|
            0 <= i < race.clients.len() ==> !((#[trigger] race.clients[i]).phase is Rechecking)
        &&& exists|w: int|
            0 <= w < race.clients.len() && (#[trigger] race.clients[w]).start && waits(
                race.clients[w],
            )
    }
}

proof fn lemma_fair_turn(c: AutoStartView, race: Race, turn: Turn)
    requires
        fair(race),
        possible(c, race, turn),
        patient(c, race, turn),
    ensures
        fair(raced(c, race, turn)),
{
    match turn {
        Turn::Up => {},
        Turn::Client(i, event) => {
            let a = race.clients[i];
            let b = moved(c, a, event);
            let next = raced(c, race, turn);
            assert(sound(a) && sound(b));
            assert forall|j: int, k: int| 0 <= j < k < next.clients.len() implies !((
            #[trigger] next.clients[j]).start && (#[trigger] next.clients[k]).start) by {
                assert(race.clients[j] == race.clients[j] && race.clients[k] == race.clients[k]);
                if b.start && !a.start {
                    assert(a.phase is TakingStart && event is Taken);
                }
            }
            if race.launched == 1 && !race.serving {
                let w = choose|w: int|
                    0 <= w < race.clients.len() && (#[trigger] race.clients[w]).start && waits(
                        race.clients[w],
                    );
                assert(next.clients[w].start && waits(next.clients[w]));
            }
            if next.launched == 1 && race.launched == 0 {
                assert(next.clients[i].start && waits(next.clients[i]));
                assert forall|j: int| 0 <= j < next.clients.len() implies !heads_for_a_spawn(
                    #[trigger] next.clients[j],
                ) && !(next.clients[j].phase is Rechecking) by {
                    if j != i {
                        assert(next.clients[j] == race.clients[j]);
                        if j < i {
                            assert(!(race.clients[j].start && race.clients[i].start));
                        } else {
                            assert(!(race.clients[i].start && race.clients[j].start));
                        }
                    }
                }
            }
        },
    }
}

/// However many clients race for a state directory, they launch one daemon at
/// most, as long as none that waits under the start claim gives up; and a client
/// that ended without an error found a daemon that serves.
pub proof fn lemma_racing_clients_launch_one_daemon(c: AutoStartView, n: nat, turns: Seq<Turn>)
    requires
        forall|k: int|
            0 <= k < turns.len() ==> possible(c, race_after(c, n, turns.take(k)), #[trigger] turns[k])
                && patient(c, race_after(c, n, turns.take(k)), turns[k]),
    ensures
        race_after(c, n, turns).launched <= 1,
        forall|i: int|
            0 <= i < n && (#[trigger] race_after(c, n, turns).clients[i]).phase
                == PhaseView::Finished(Ok(())) ==> race_after(c, n, turns).serving,
        race_after(c, n, turns).clients.len() == n,
{
    lemma_fair_race(c, n, turns);
}

/// Where a daemon serves only after a client launched it, clients that race for a
/// state directory have launched exactly one once any of them has ended without an
/// error.
pub proof fn lemma_races_end_with_one_daemon(
    c: AutoStartView,
    n: nat,
    turns: Seq<Turn>,
    i: int,
)
    requires
        forall|k: int|
            0 <= k < turns.len() ==> possible(c, race_after(c, n, turns.take(k)), #[trigger] turns[k])
                && patient(c, race_after(c, n, turns.take(k)), turns[k]),
        forall|k: int|
            0 <= k < turns.len() && #[trigger] turns[k] is Up ==> race_after(
                c,
                n,
                turns.take(k),
            ).launched > 0,
        0 <= i < n,
        race_after(c, n, turns).clients[i].phase == PhaseView::Finished(Ok(())),
    ensures
        race_after(c, n, turns).launched == 1,
        race_after(c, n, turns).serving,
{
    lemma_racing_clients_launch_one_daemon(c, n, turns);
    lemma_serving_was_launched(c, n, turns);
}

proof fn lemma_serving_was_launched(c: AutoStartView, n: nat, turns: Seq<Turn>)
    requires
        forall|k: int|
            0 <= k < turns.len() && #[trigger] turns[k] is Up ==> race_after(
                c,
                n,
                turns.take(k),
            ).launched > 0,
    ensures
        race_after(c, n, turns).serving ==> race_after(c, n, turns).launched > 0,
    decreases turns.len(),
{
    if turns.len() > 0 {
        let before = turns.drop_last();
        assert forall|k: int| 0 <= k < before.len() && #[trigger] before[k] is Up implies race_after(
            c,
            n,
            before.take(k),
        ).launched > 0 by {
            assert(before.take(k) =~= turns.take(k));
            assert(before[k] == turns[k]);
        }
        lemma_serving_was_launched(c, n, before);
        assert(turns.take(turns.len() - 1) =~= before);
        assert(turns[turns.len() - 1] == turns.last());
    }
}

proof fn lemma_fair_race(c: AutoStartView, n: nat, turns: Seq<Turn>)
    requires
        forall|k: int|
            0 <= k < turns.len() ==> possible(c, race_after(c, n, turns.take(k)), #[trigger] turns[k])
                && patient(c, race_after(c, n, turns.take(k)), turns[k]),
    ensures
        fair(race_after(c, n, turns)),
        race_after(c, n, turns).clients.len() == n,
    decreases turns.len(),
{
    if turns.len() > 0 {
        let before = turns.drop_last();
        assert forall|k: int| 0 <= k < before.len() implies possible(
            c,
            race_after(c, n, before.take(k)),
            #[trigger] before[k],
        ) && patient(c, race_after(c, n, before.take(k)), before[k]) by {
            assert(before.take(k) =~= turns.take(k));
            assert(before[k] == turns[k]);
        }
        lemma_fair_race(c, n, before);
        assert(turns.take(turns.len() - 1) =~= before);
        assert(turns[turns.len() - 1] == turns.last());
        lemma_fair_turn(c, race_after(c, n, before), turns.last());
    }
}

/// Where nothing goes wrong, no client of a race fails: each that has ended reached a
/// daemon that serves, and one daemon was launched at most. Where a daemon serves only
/// after a client launched it, exactly one was.
pub proof fn lemma_undisturbed_races_end_well(c: AutoStartView, n: nat, turns: Seq<Turn>, i: int)
    requires
        forall|k: int|
            0 <= k < turns.len() ==> possible(c, race_after(c, n, turns.take(k)), #[trigger] turns[k])
                && calm(c, race_after(c, n, turns.take(k)), turns[k]),
        0 <= i < n,
    ensures
        !failed(race_after(c, n, turns).clients[i]),
        race_after(c, n, turns).launched <= 1,
        race_after(c, n, turns).clients[i].phase is Finished ==> {
            &&& race_after(c, n, turns).clients[i].phase == PhaseView::Finished(Ok(()))
            &&& race_after(c, n, turns).serving
            &&& (forall|k: int|
                0 <= k < turns.len() && #[trigger] turns[k] is Up ==> race_after(
                    c,
                    n,
                    turns.take(k),
                ).launched > 0) ==> race_after(c, n, turns).launched == 1
        },
{
    lemma_calm_race(c, n, turns);
    lemma_racing_clients_launch_one_daemon(c, n, turns);
    let race = race_after(c, n, turns);
    assert(!failed(race.clients[i]));
    if race.clients[i].phase is Finished {
        match race.clients[i].phase {
            PhaseView::Finished(Ok(done)) => {
                assert(done == ());
            },
            _ => {},
        }
        if forall|k: int|
            0 <= k < turns.len() && #[trigger] turns[k] is Up ==> race_after(
                c,
                n,
                turns.take(k),
            ).launched > 0 {
            lemma_races_end_with_one_daemon(c, n, turns, i);
        }
    }
}

proof fn lemma_smooth_move(c: AutoStartView, a: AttemptView, event: EventView)
    requires
        smooth(c, a, event),
        !failed(a),
    ensures
        !failed(moved(c, a, event)),
{
}

proof fn lemma_calm_turn(c: AutoStartView, race: Race, turn: Turn)
    requires
        possible(c, race, turn),
        calm(c, race, turn),
        forall|i: int| 0 <= i < race.clients.len() ==> !failed(#[trigger] race.clients[i]),
    ensures
        raced(c, race, turn).clients.len() == race.clients.len(),
        forall|i: int|
            0 <= i < race.clients.len() ==> !failed(#[trigger] raced(c, race, turn).clients[i]),
        patient(c, race, turn),
{
    match turn {
        Turn::Up => {},
        Turn::Client(i, event) => {
            lemma_smooth_move(c, race.clients[i], event);
        },
    }
}

#[verifier::rlimit(60)]
#[verifier::spinoff_prover]
proof fn lemma_calm_race(c: AutoStartView, n: nat, turns: Seq<Turn>)
    requires
        forall|k: int|
            0 <= k < turns.len() ==> possible(c, race_after(c, n, turns.take(k)), #[trigger] turns[k])
                && calm(c, race_after(c, n, turns.take(k)), turns[k]),
    ensures
        race_after(c, n, turns).clients.len() == n,
        forall|i: int| 0 <= i < n ==> !failed(#[trigger] race_after(c, n, turns).clients[i]),
        forall|k: int|
            0 <= k < turns.len() ==> patient(
                c,
                race_after(c, n, turns.take(k)),
                #[trigger] turns[k],
            ),
    decreases turns.len(),
{
    if turns.len() > 0 {
        let before = turns.drop_last();
        assert forall|k: int| 0 <= k < before.len() implies possible(
            c,
            race_after(c, n, before.take(k)),
            #[trigger] before[k],
        ) && calm(c, race_after(c, n, before.take(k)), before[k]) by {
            assert(before.take(k) =~= turns.take(k));
            assert(before[k] == turns[k]);
        }
        lemma_calm_race(c, n, before);
        assert(turns.take(turns.len() - 1) =~= before);
        assert(turns[turns.len() - 1] == turns.last());
        lemma_calm_turn(c, race_after(c, n, before), turns.last());
        assert forall|k: int| 0 <= k < turns.len() implies patient(
            c,
            race_after(c, n, turns.take(k)),
            #[trigger] turns[k],
        ) by {
            if k < turns.len() - 1 {
                assert(before.take(k) =~= turns.take(k));
                assert(before[k] == turns[k]);
            }
        }
    }
}

/// The event answers what an attempt asks for.
pub open spec fn answers(a: AttemptView, event: EventView) -> bool {
    match a.phase {
        PhaseView::Looking => event is Probed,
        PhaseView::OpeningStart => event is Opened || event is OpenFailed,
        PhaseView::TakingStart => event is Taken || event is Busy || event is TakeFailed,
        PhaseView::Rechecking => event is Probed,
        PhaseView::OpeningDaemon => event is Opened || event is OpenFailed,
        PhaseView::TakingDaemon => event is Taken || event is Busy || event is TakeFailed,
        PhaseView::Confirming => event is Probed,
        PhaseView::Clearing => event is Cleared || event is Missing || event is ClearFailed,
        PhaseView::HandingOver => event is Released,
        PhaseView::Spawning => event is Spawned || event is SpawnFailed,
        PhaseView::StandingBack => event is Released,
        PhaseView::LeavingStart => event is Released,
        PhaseView::Timing => event is Clock,
        PhaseView::Probing(_) => event is Probed,
        PhaseView::Checking(_) => event is Clock,
        PhaseView::Resting(_) => event is Rested,
        PhaseView::Closing(_) => event is Released,
        PhaseView::Finished(_) => false,
    }
}

/// How many turns an attempt has before it at most, once a daemon serves.
pub open spec fn turns_left(a: AttemptView) -> nat {
    match a.phase {
        PhaseView::Finished(_) => 0,
        PhaseView::Closing(_) => if a.daemon {
            2
        } else {
            1
        },
        PhaseView::Probing(_) => 3,
        PhaseView::Resting(_) => 4,
        PhaseView::Checking(_) => 5,
        PhaseView::Timing => 6,
        PhaseView::LeavingStart => 7,
        PhaseView::StandingBack => 7,
        PhaseView::Spawning => 7,
        PhaseView::HandingOver => 8,
        PhaseView::Clearing => 9,
        PhaseView::Confirming => 10,
        PhaseView::TakingDaemon => 11,
        PhaseView::OpeningDaemon => 12,
        PhaseView::Rechecking => 13,
        PhaseView::TakingStart => 14,
        PhaseView::OpeningStart => 15,
        PhaseView::Looking => 16,
    }
}

/// Once a daemon serves, every answer brings an attempt nearer to its end; and it ends
/// only when no turns are left.
pub proof fn lemma_served_clients_end(c: AutoStartView, a: AttemptView, event: EventView)
    requires
        sound(a),
        answers(a, event),
        event matches EventView::Probed(ready) ==> ready,
    ensures
        turns_left(moved(c, a, event)) < turns_left(a),
        turns_left(a) <= 16,
        turns_left(moved(c, a, event)) == 0 <==> moved(c, a, event).phase is Finished,
        sound(moved(c, a, event)),
{
}

} // verus!
