//! How an attempt to reach a daemon goes, step by step, and what the paths around it are.

use vstd::prelude::*;
use vstd::string::*;
use vstd::utf8::*;
use crate::os_text;
use crate::service;
use crate::service::{
    Action, AttemptView, AutoStartView, EventView, PhaseView, Trouble, DOT, SLASH,
};

verus! {

broadcast use vstd::string::group_string_axioms;

// ---------------------------------------------------------------------------
// Attempts
// ---------------------------------------------------------------------------

/// An attempt goes over to its end with an outcome: at once where it holds no claim, and
/// otherwise by giving its claims up first.
pub open spec fn ends_with(a: AttemptView, next: AttemptView, outcome: Result<(), Trouble>) -> bool {
    &&& next.start == a.start
    &&& next.daemon == a.daemon
    &&& a.start || a.daemon ==> next.phase == PhaseView::Closing(outcome)
    &&& !a.start && !a.daemon ==> next.phase == PhaseView::Finished(outcome)
}

/// An attempt goes over to another phase, and holds the same claims.
pub open spec fn goes_to(a: AttemptView, next: AttemptView, phase: PhaseView) -> bool {
    next == AttemptView { phase, start: a.start, daemon: a.daemon }
}

/// An attempt that cannot do what it is at ends with an error that says what that was, and
/// where, and why it could not.
pub proof fn lemma_failures_say_what_failed(
    c: AutoStartView,
    a: AttemptView,
    cause: Seq<char>,
    error: Trouble,
)
    ensures
        ({
            let failed = |event: EventView, message: Seq<char>, cause: Option<Seq<char>>|
                ends_with(a, service::moved(c, a, event), Err(Trouble { message, cause }));
            &&& a.phase is OpeningStart ==> failed(
                EventView::OpenFailed(cause),
                "could not open the daemon start claim at "@ + os_text::shown_text(c.start_lock),
                Some(cause),
            )
            &&& a.phase is TakingStart ==> failed(
                EventView::TakeFailed(cause),
                "could not take the daemon start claim at "@ + os_text::shown_text(c.start_lock),
                Some(cause),
            )
            &&& a.phase is OpeningDaemon ==> failed(
                EventView::OpenFailed(cause),
                "could not open the daemon claim at "@ + os_text::shown_text(c.daemon_lock),
                Some(cause),
            )
            &&& a.phase is TakingDaemon ==> failed(
                EventView::TakeFailed(cause),
                "could not inspect the daemon claim at "@ + os_text::shown_text(c.daemon_lock),
                Some(cause),
            )
            &&& a.phase is Clearing ==> failed(
                EventView::ClearFailed(cause),
                "could not clear the stale socket at "@ + os_text::shown_text(c.socket),
                Some(cause),
            )
            &&& a.phase is Spawning ==> failed(
                EventView::SpawnFailed(error),
                error.message,
                error.cause,
            )
        }),
{
}

/// A wait for readiness ends well at the first probe that finds a daemon; it ends with an
/// error at the first look at the clock that is a whole bound or more past its beginning,
/// and goes on resting and probing until then.
pub proof fn lemma_waits_end_with_readiness_or_the_bound(
    c: AutoStartView,
    a: AttemptView,
    since: u128,
    now: u128,
)
    ensures
        ({
            let bound = c.readiness_timeout.secs * 1_000_000_000 + c.readiness_timeout.nanos;
            &&& a.phase is Timing ==> goes_to(
                a,
                service::moved(c, a, EventView::Clock(now)),
                PhaseView::Probing(now),
            )
            &&& a.phase == PhaseView::Probing(since) ==> ends_with(
                a,
                service::moved(c, a, EventView::Probed(true)),
                Ok(()),
            ) && goes_to(
                a,
                service::moved(c, a, EventView::Probed(false)),
                PhaseView::Checking(since),
            )
            &&& a.phase == PhaseView::Checking(since) && now - since < bound ==> goes_to(
                a,
                service::moved(c, a, EventView::Clock(now)),
                PhaseView::Resting(since),
            )
            &&& a.phase == PhaseView::Checking(since) && now - since >= bound ==> ends_with(
                a,
                service::moved(c, a, EventView::Clock(now)),
                Err(
                    Trouble {
                        message: "no chaz daemon accepted connections on "@ + os_text::shown_text(
                            c.socket,
                        ) + " within "@ + service::debug_span(
                            c.readiness_timeout.secs,
                            c.readiness_timeout.nanos,
                        ),
                        cause: None,
                    },
                ),
            )
            &&& a.phase == PhaseView::Resting(since) ==> goes_to(
                a,
                service::moved(c, a, EventView::Rested),
                PhaseView::Probing(since),
            )
        }),
{
}

/// The way of an attempt: a daemon that serves at the first look is all it needs. Otherwise
/// it tries for the start claim; where another client has it, it waits. With the start
/// claim it looks again, and waits where a daemon serves by now. Where none does, it tries
/// for the daemon claim, and looks once more; where a daemon holds that claim, or serves,
/// it waits. Otherwise it clears the socket, gives the daemon claim up, starts a daemon,
/// and waits for it. It keeps the start claim throughout.
pub proof fn lemma_attempts_go_their_way(c: AutoStartView, a: AttemptView)
    ensures
        a.phase is Looking ==> {
            &&& ends_with(a, service::moved(c, a, EventView::Probed(true)), Ok(()))
            &&& goes_to(a, service::moved(c, a, EventView::Probed(false)), PhaseView::OpeningStart)
        },
        a.phase is OpeningStart ==> goes_to(
            a,
            service::moved(c, a, EventView::Opened),
            PhaseView::TakingStart,
        ),
        a.phase is TakingStart ==> {
            &&& service::moved(c, a, EventView::Taken) == (AttemptView {
                phase: PhaseView::Rechecking,
                start: true,
                daemon: a.daemon,
            })
            &&& goes_to(a, service::moved(c, a, EventView::Busy), PhaseView::LeavingStart)
        },
        a.phase is LeavingStart ==> goes_to(
            a,
            service::moved(c, a, EventView::Released),
            PhaseView::Timing,
        ),
        a.phase is Rechecking ==> {
            &&& goes_to(a, service::moved(c, a, EventView::Probed(true)), PhaseView::Timing)
            &&& goes_to(
                a,
                service::moved(c, a, EventView::Probed(false)),
                PhaseView::OpeningDaemon,
            )
        },
        a.phase is OpeningDaemon ==> goes_to(
            a,
            service::moved(c, a, EventView::Opened),
            PhaseView::TakingDaemon,
        ),
        a.phase is TakingDaemon ==> {
            &&& service::moved(c, a, EventView::Taken) == (AttemptView {
                phase: PhaseView::Confirming,
                start: a.start,
                daemon: true,
            })
            &&& goes_to(a, service::moved(c, a, EventView::Busy), PhaseView::Confirming)
        },
        a.phase is Confirming && !a.daemon ==> {
            &&& goes_to(a, service::moved(c, a, EventView::Probed(true)), PhaseView::Timing)
            &&& goes_to(a, service::moved(c, a, EventView::Probed(false)), PhaseView::Timing)
        },
        a.phase is Confirming && a.daemon ==> {
            &&& goes_to(a, service::moved(c, a, EventView::Probed(true)), PhaseView::StandingBack)
            &&& goes_to(a, service::moved(c, a, EventView::Probed(false)), PhaseView::Clearing)
        },
        a.phase is Clearing ==> {
            &&& goes_to(a, service::moved(c, a, EventView::Cleared), PhaseView::HandingOver)
            &&& goes_to(a, service::moved(c, a, EventView::Missing), PhaseView::HandingOver)
        },
        a.phase is HandingOver ==> service::moved(c, a, EventView::Released) == (AttemptView {
            phase: PhaseView::Spawning,
            start: a.start,
            daemon: false,
        }),
        a.phase is StandingBack ==> service::moved(c, a, EventView::Released) == (AttemptView {
            phase: PhaseView::Timing,
            start: a.start,
            daemon: false,
        }),
        a.phase is Spawning ==> goes_to(
            a,
            service::moved(c, a, EventView::Spawned),
            PhaseView::Timing,
        ),
        a.phase matches PhaseView::Closing(outcome) ==> {
            &&& a.daemon ==> service::moved(c, a, EventView::Released) == (AttemptView {
                phase: if a.start {
                    PhaseView::Closing(outcome)
                } else {
                    PhaseView::Finished(outcome)
                },
                start: a.start,
                daemon: false,
            })
            &&& !a.daemon ==> service::moved(c, a, EventView::Released) == (AttemptView {
                phase: PhaseView::Finished(outcome),
                start: false,
                daemon: false,
            })
        },
{
}

/// What nobody waits for changes nothing, and an attempt that has ended does not go on.
pub proof fn lemma_events_out_of_turn_change_nothing(
    c: AutoStartView,
    a: AttemptView,
    event: EventView,
)
    ensures
        a.phase is Finished ==> service::moved(c, a, event) == a,
        !(event is Probed) && (a.phase is Looking || a.phase is Rechecking || a.phase is Confirming
            || a.phase is Probing) ==> service::moved(c, a, event) == a,
        !(event is Opened || event is OpenFailed) && (a.phase is OpeningStart
            || a.phase is OpeningDaemon) ==> service::moved(c, a, event) == a,
        !(event is Taken || event is Busy || event is TakeFailed) && (a.phase is TakingStart
            || a.phase is TakingDaemon) ==> service::moved(c, a, event) == a,
        !(event is Cleared || event is Missing || event is ClearFailed) && a.phase is Clearing
            ==> service::moved(c, a, event) == a,
        !(event is Released) && (a.phase is HandingOver || a.phase is StandingBack
            || a.phase is LeavingStart || a.phase is Closing) ==> service::moved(c, a, event) == a,
        !(event is Spawned || event is SpawnFailed) && a.phase is Spawning ==> service::moved(
            c,
            a,
            event,
        ) == a,
        !(event is Clock) && (a.phase is Timing || a.phase is Checking) ==> service::moved(
            c,
            a,
            event,
        ) == a,
        !(event is Rested) && a.phase is Resting ==> service::moved(c, a, event) == a,
{
}

/// An attempt asks for what its phase is about: the claim that it opens, takes or gives up
/// is the one that the phase names, and a rest is as long as the interval between probes.
pub proof fn lemma_actions_fit_the_phase(c: AutoStartView, a: AttemptView, action: Action)
    requires
        service::wanted(c, a, action),
    ensures
        match a.phase {
            PhaseView::Looking | PhaseView::Rechecking | PhaseView::Confirming => action is Probe,
            PhaseView::Probing(_) => action is Probe,
            PhaseView::OpeningStart => action is OpenStartClaim,
            PhaseView::TakingStart => action is TakeStartClaim,
            PhaseView::LeavingStart => action is ReleaseStartClaim,
            PhaseView::OpeningDaemon => action is OpenDaemonClaim,
            PhaseView::TakingDaemon => action is TakeDaemonClaim,
            PhaseView::HandingOver | PhaseView::StandingBack => action is ReleaseDaemonClaim,
            PhaseView::Clearing => action is ClearSocket,
            PhaseView::Spawning => action is Spawn,
            PhaseView::Timing => action is ReadClock,
            PhaseView::Checking(_) => action is ReadClock,
            PhaseView::Resting(_) => action matches Action::Rest(span) && span@ == c.poll_interval,
            PhaseView::Closing(_) => if a.daemon {
                action is ReleaseDaemonClaim
            } else {
                action is ReleaseStartClaim
            },
            PhaseView::Finished(Ok(_)) => action matches Action::Finish(Ok(_)),
            PhaseView::Finished(Err(trouble)) => action matches Action::Finish(Err(error))
                && error@ == trouble,
        },
        action is ReleaseDaemonClaim && service::sound(a) ==> a.daemon && !service::moved(
            c,
            a,
            EventView::Released,
        ).daemon,
        action is ReleaseStartClaim && service::sound(a) && a.start ==> !service::moved(
            c,
            a,
            EventView::Released,
        ).start,
{
}

/// An attempt begins with a look, and without claims.
pub proof fn lemma_attempts_begin_with_a_look()
    ensures
        service::begun() == (AttemptView { phase: PhaseView::Looking, start: false, daemon: false }),
{
}

/// Unless told otherwise, a client waits for half a minute and looks twenty times a second.
/// The claim of the daemon and that of a client that starts one are two files.
pub proof fn lemma_defaults_of_an_attempt()
    ensures
        service::DEFAULT_READINESS_SECONDS == 30,
        service::DEFAULT_POLL_MILLIS * 20 == 1_000,
        service::DAEMON_LOCK_FILE@ == "daemon.lock"@,
        service::START_LOCK_FILE@ == "daemon-start.lock"@,
        service::DAEMON_LOCK_FILE@ != service::START_LOCK_FILE@,
{
    reveal_strlit("daemon.lock");
    reveal_strlit("daemon-start.lock");
    assert("daemon.lock"@.len() != "daemon-start.lock"@.len());
}

// ---------------------------------------------------------------------------
// Readiness
// ---------------------------------------------------------------------------

/// A mode is for the owner alone exactly where its owner may read and write, nobody may
/// execute, and nobody else may read or write; what stands above the permissions is of no
/// account.
pub proof fn lemma_owner_only_modes(mode: u32)
    ensures
        service::owner_only(mode) <==> {
            &&& mode & 0o400u32 != 0
            &&& mode & 0o200u32 != 0
            &&& mode & 0o100u32 == 0
            &&& mode & 0o070u32 == 0
            &&& mode & 0o007u32 == 0
        },
{
    assert(mode & 0o777u32 == 0o600u32 <==> (mode & 0o400u32 != 0 && mode & 0o200u32 != 0 && mode
        & 0o100u32 == 0 && mode & 0o070u32 == 0 && mode & 0o007u32 == 0)) by (bit_vector);
}

// ---------------------------------------------------------------------------
// Paths
// ---------------------------------------------------------------------------

/// A relative path below a directory stands behind the directory and one separator, which
/// is not doubled where the directory ends with one; below no directory it is itself.
pub proof fn lemma_joined_paths(dir: Seq<u8>, path: Seq<u8>)
    ensures
        service::joined(Seq::empty(), path) == path,
        service::joined(dir.push(SLASH), path) == dir.push(SLASH) + path,
        dir.len() > 0 && dir.last() != SLASH ==> service::joined(dir, path) == service::joined(
            dir.push(SLASH),
            path,
        ),
        SLASH == 47,
        DOT == 46,
{
    assert(Seq::<u8>::empty() + path =~= path);
}

/// A directory is tidied by dropping separators and `.` components at its end, down to the
/// root or the current directory, and never any other byte.
pub proof fn lemma_tidy_directories(dir: Seq<u8>)
    ensures
        dir.len() > 0 && dir.last() != SLASH && dir.last() != DOT ==> service::tidy(dir) == dir,
        dir.len() >= 2 && dir.last() == DOT && dir[dir.len() - 2] != SLASH ==> service::tidy(dir)
            == dir,
        dir.len() > 0 ==> service::tidy(dir.push(SLASH)) == service::tidy(dir),
        dir.len() > 0 ==> service::tidy(dir.push(SLASH).push(DOT)) == service::tidy(dir),
        service::tidy(Seq::empty()) == Seq::<u8>::empty(),
        service::tidy(seq![SLASH]) == seq![SLASH],
        service::tidy(seq![DOT]) == seq![DOT],
{
    if dir.len() > 0 {
        let one = dir.push(SLASH);
        let two = one.push(DOT);
        assert(one.drop_last() =~= dir);
        assert(two.drop_last() =~= one);
        assert(service::tidy(one) == service::tidy(dir));
        assert(service::tidy(two) == service::tidy(one));
    }
}

/// A socket that starts at the root is taken as it is; any other lies below the working
/// directory, and without one there is no telling where.
pub proof fn lemma_socket_paths(socket: Seq<u8>, cwd: Seq<u8>, cause: Seq<char>)
    ensures
        socket.len() > 0 && socket[0] == SLASH ==> {
            &&& service::url_path(socket, Ok(cwd)) == Ok::<Seq<u8>, Trouble>(socket)
            &&& service::url_path(socket, Err(cause)) == Ok::<Seq<u8>, Trouble>(socket)
        },
        socket.len() == 0 || socket[0] != SLASH ==> {
            &&& service::url_path(socket, Ok(cwd)) == Ok::<Seq<u8>, Trouble>(
                service::joined(cwd, socket),
            )
            &&& service::url_path(socket, Err(cause)) == Err::<Seq<u8>, Trouble>(
                Trouble {
                    message: "could not resolve the relative service socket "@
                        + os_text::shown_text(socket) + " against the working directory"@,
                    cause: Some(cause),
                },
            )
        },
{
}

/// A text that was encoded as UTF-8 stands in messages as it was.
pub proof fn lemma_texts_are_shown_as_they_are(text: Seq<char>)
    ensures
        os_text::shown_text(encode_utf8(text)) == text,
{
    broadcast use {encode_utf8_valid_utf8, encode_utf8_decode_utf8};

}

} // verus!
