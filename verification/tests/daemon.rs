use chaz::os_text::OsText;
use chaz::service::{
    resolve_socket_url_path, socket_is_ready, unanswered, worth_connecting, Action, Attempt,
    AutoStart, DaemonSpawn, Event, ServiceError, Session, Span, SpawnChazDaemon, Stream,
    DAEMON_LOCK_FILE,
    DEFAULT_POLL_MILLIS, DEFAULT_READINESS_SECONDS, START_LOCK_FILE,
};
use std::cell::Cell;
use std::path::Path;

const MILLI: u128 = 1_000_000;

fn os(text: &str) -> OsText {
    OsText::from_text(text)
}

/// A state directory and the processes around it.
struct World {
    now: u128,
    /// When the socket is served, if ever.
    serves_from: Option<u128>,
    /// Whether a socket file is there.
    socket_file: bool,
    /// Whether a daemon holds the daemon claim.
    daemon_lives: bool,
    start_holder: Option<usize>,
    spawns: usize,
    cleared: usize,
    /// How long a daemon takes to serve, if it ever does.
    boots_in: Option<u128>,
    spawn_fails: bool,
}

impl World {
    fn cold() -> World {
        World {
            now: 0,
            serves_from: None,
            socket_file: false,
            daemon_lives: false,
            start_holder: None,
            spawns: 0,
            cleared: 0,
            boots_in: Some(10 * MILLI),
            spawn_fails: false,
        }
    }

    fn serving(&self) -> bool {
        matches!(self.serves_from, Some(from) if from <= self.now)
    }

    fn failure() -> ServiceError {
        ServiceError { message: "no such binary".to_string(), cause: None }
    }

    fn perform(&mut self, client: usize, action: &Action) -> Event {
        match action {
            Action::Probe => Event::Probed(self.serving()),
            Action::OpenStartClaim | Action::OpenDaemonClaim => Event::Opened,
            Action::TakeStartClaim => match self.start_holder {
                None => {
                    self.start_holder = Some(client);
                    Event::Taken
                }
                Some(_) => Event::Busy,
            },
            Action::ReleaseStartClaim => {
                if self.start_holder == Some(client) {
                    self.start_holder = None;
                }
                Event::Released
            }
            Action::TakeDaemonClaim => {
                if self.daemon_lives {
                    Event::Busy
                } else {
                    Event::Taken
                }
            }
            Action::ReleaseDaemonClaim => Event::Released,
            Action::ClearSocket => {
                self.cleared += 1;
                if self.socket_file {
                    self.socket_file = false;
                    Event::Cleared
                } else {
                    Event::Missing
                }
            }
            Action::Spawn => {
                assert_eq!(self.start_holder, Some(client));
                if self.spawn_fails {
                    Event::SpawnFailed(World::failure())
                } else {
                    self.spawns += 1;
                    self.daemon_lives = true;
                    self.serves_from = self.boots_in.map(|delay| self.now + delay);
                    Event::Spawned
                }
            }
            Action::ReadClock => Event::Clock(self.now),
            Action::Rest(span) => {
                self.now += span.as_nanos();
                Event::Rested
            }
            Action::Finish(_) => panic!("nothing is performed at the end"),
        }
    }

    fn ensure_serving(&mut self, auto: &AutoStart<u8>) -> Result<(), ServiceError> {
        let mut attempt = Attempt::begin();
        loop {
            let action = auto.action(&attempt);
            if let Action::Finish(outcome) = action {
                return outcome;
            }
            let event = self.perform(0, &action);
            attempt = auto.advance(attempt, event);
        }
    }
}

fn fast() -> AutoStart<u8> {
    AutoStart::new(os("/state/eidetica.sock"), &os("/state"), 0)
        .with_readiness_timeout(Span::from_secs(5))
        .with_poll_interval(Span::from_millis(5))
}

#[test]
fn readiness_requires_a_live_owner_only_socket() {
    assert!(!socket_is_ready(None, false));
    assert!(!socket_is_ready(Some(0o100600), false));
    assert!(
        !socket_is_ready(Some(0o140755), true),
        "a socket accepting connections before chmod must not be ready"
    );
    assert!(socket_is_ready(Some(0o140600), true));
    assert!(worth_connecting(Some(0o600)));
    assert!(!worth_connecting(Some(0o640)));
    assert!(!worth_connecting(None));
}

#[test]
fn a_live_socket_starts_nothing() {
    let mut world = World::cold();
    world.serves_from = Some(0);
    world.ensure_serving(&fast()).expect("a live socket needs no daemon");
    assert_eq!(world.spawns, 0);
    assert_eq!(world.start_holder, None);
}

#[test]
fn a_cold_state_dir_starts_exactly_one_daemon() {
    let mut world = World::cold();
    world.ensure_serving(&fast()).expect("daemon should come up");
    assert_eq!(world.spawns, 1);
    assert!(world.serving());
    assert_eq!(world.start_holder, None);
}

#[test]
fn a_dead_socket_file_counts_as_no_daemon() {
    let mut world = World::cold();
    world.socket_file = true;
    world.ensure_serving(&fast()).expect("a stale socket must not block a start");
    assert_eq!(world.spawns, 1);
    assert_eq!(world.cleared, 1);
}

#[test]
fn live_daemon_in_bind_before_chmod_window_keeps_its_socket() {
    let mut world = World::cold();
    world.socket_file = true;
    world.daemon_lives = true;
    world.serves_from = Some(50 * MILLI);
    world
        .ensure_serving(&fast())
        .expect("the client waits through bind-before-chmod and then connects");
    assert!(world.socket_file, "a live daemon's pre-chmod socket was unlinked");
    assert_eq!(
        world.spawns, 0,
        "the client must wait for the live daemon instead of starting another"
    );
}

#[test]
fn racing_callers_converge_on_one_daemon() {
    let mut world = World::cold();
    world.boots_in = Some(150 * MILLI);
    let auto = fast();
    let mut attempts: Vec<Option<Attempt>> = (0..8).map(|_| Some(Attempt::begin())).collect();
    let mut connected = 0;
    while connected < 8 {
        for client in 0..8 {
            let Some(attempt) = attempts[client].take() else {
                continue;
            };
            let action = auto.action(&attempt);
            if let Action::Finish(outcome) = action {
                outcome.expect("every caller reaches the one daemon");
                connected += 1;
            } else {
                let event = world.perform(client, &action);
                attempts[client] = Some(auto.advance(attempt, event));
            }
        }
    }
    assert_eq!(connected, 8);
    assert_eq!(world.spawns, 1, "exactly one contender may start a daemon");
    assert_eq!(world.start_holder, None);
}

#[test]
fn readiness_is_bounded() {
    let mut world = World::cold();
    world.boots_in = None;
    let auto = fast().with_readiness_timeout(Span::from_millis(100));
    let err = world
        .ensure_serving(&auto)
        .expect_err("a daemon that never binds must not hang the caller");
    assert!(
        err.message.contains("accepted connections"),
        "unhelpful readiness error: {}",
        err.message
    );
    assert_eq!(
        err.message,
        "no chaz daemon accepted connections on /state/eidetica.sock within 100ms"
    );
    assert_eq!(err.cause, None);
    assert_eq!(world.spawns, 1);
    assert_eq!(world.now, 100 * MILLI);
    assert!(!world.socket_file);
    assert_eq!(world.start_holder, None);
}

#[test]
fn a_failed_start_surfaces_rather_than_falling_back() {
    let mut world = World::cold();
    world.spawn_fails = true;
    let err = world
        .ensure_serving(&fast())
        .expect_err("a start that failed is an error, not a direct open");
    assert!(err.message.contains("no such binary"), "{}", err.message);
    assert!(!world.socket_file);
}

#[test]
fn a_failed_start_does_not_wedge_the_next_caller() {
    let mut world = World::cold();
    world.spawn_fails = true;
    world.ensure_serving(&fast()).expect_err("first caller fails to start a daemon");
    world.spawn_fails = false;
    world.ensure_serving(&fast()).expect("a later caller retries the same path");
    assert_eq!(world.spawns, 1);
}

#[test]
fn an_absolute_socket_stays_as_is_for_the_connection_url() {
    assert_eq!(
        resolve_socket_url_path(&os("/run/chaz/eidetica.sock"), Ok(os("/elsewhere")))
            .expect("an absolute path resolves as-is"),
        os("/run/chaz/eidetica.sock")
    );
}

#[test]
fn a_relative_socket_resolves_against_the_working_directory_for_the_url() {
    for cwd in ["/", "/home/user", "/home/user/"] {
        let expected = Path::new(cwd).join("eidetica.sock");
        assert_eq!(
            resolve_socket_url_path(&os("eidetica.sock"), Ok(os(cwd)))
                .expect("a relative path resolves against the cwd"),
            os(expected.to_str().unwrap())
        );
    }
}

#[test]
fn without_a_working_directory_a_relative_socket_is_an_error() {
    let err = resolve_socket_url_path(&os("s.sock"), Err("gone".to_string())).unwrap_err();
    assert_eq!(
        err.message,
        "could not resolve the relative service socket s.sock against the working directory"
    );
    assert_eq!(err.cause.as_deref(), Some("gone"));
    let auto = AutoStart::new(os("s.sock"), &os("/state"), 0u8);
    assert_eq!(auto.url(Ok(os("/w"))).unwrap(), "unix:///w/s.sock");
    assert_eq!(auto.url(Err("gone".to_string())).unwrap_err(), err);
    assert_eq!(
        auto.connection_failure("refused".to_string()),
        ServiceError {
            message: "could not connect to s.sock".to_string(),
            cause: Some("refused".to_string()),
        }
    );
}

#[test]
fn claims_are_kept_in_the_state_directory() {
    for dir in ["", ".", "./", "/", "//", "/.", "a", "a/", "a//", "a/.", "a/./.", "./.", "..", "a/..", "/var/lib/chaz", "x."] {
        let auto = AutoStart::new(os("s"), &os(dir), 0u8);
        let start = Path::new(dir).join(START_LOCK_FILE);
        let daemon = start.parent().unwrap().join(DAEMON_LOCK_FILE);
        assert_eq!(auto.start_lock(), &os(start.to_str().unwrap()), "{dir:?}");
        assert_eq!(auto.daemon_lock(), &os(daemon.to_str().unwrap()), "{dir:?}");
        assert_eq!(auto.socket(), &os("s"));
        assert_eq!(auto.spawner(), &0);
    }
}

#[test]
fn spans_are_what_they_were_made_from() {
    assert_eq!(Span::from_millis(1500).as_nanos(), 1500 * MILLI);
    assert_eq!(Span::from_millis(1500).secs(), 1);
    assert_eq!(Span::from_millis(1500).subsec_nanos(), 500_000_000);
    assert_eq!(Span::from_secs(DEFAULT_READINESS_SECONDS).show(), "30s");
    assert_eq!(Span::from_millis(DEFAULT_POLL_MILLIS).show(), "50ms");
    assert_eq!(Span::from_millis(1500).show(), "1.5s");
    assert_eq!(Span::from_parts(2, 5), Some(Span::from_parts(2, 5).unwrap()));
    assert_eq!(Span::from_parts(2, 1_000_000_000), None);
}

/// Where an attempt ends that meets these events.
fn outcome(events: Vec<Event>) -> Option<Result<(), ServiceError>> {
    let auto = AutoStart::new(os("/s/sock"), &os("/s"), 0u8);
    let mut attempt = Attempt::begin();
    for event in events {
        attempt = auto.advance(attempt, event);
    }
    loop {
        match auto.action(&attempt) {
            Action::Finish(outcome) => return Some(outcome),
            Action::ReleaseStartClaim | Action::ReleaseDaemonClaim => {
                attempt = auto.advance(attempt, Event::Released)
            }
            _ => return None,
        }
    }
}

#[test]
fn every_failure_says_what_could_not_be_done() {
    let cause = || "why".to_string();
    let error = |message: &str| {
        Some(Err(ServiceError { message: message.to_string(), cause: Some(cause()) }))
    };
    let no = || Event::Probed(false);
    assert_eq!(
        outcome(vec![no(), Event::OpenFailed(cause())]),
        error("could not open the daemon start claim at /s/daemon-start.lock")
    );
    assert_eq!(
        outcome(vec![no(), Event::Opened, Event::TakeFailed(cause())]),
        error("could not take the daemon start claim at /s/daemon-start.lock")
    );
    assert_eq!(
        outcome(vec![no(), Event::Opened, Event::Taken, no(), Event::OpenFailed(cause())]),
        error("could not open the daemon claim at /s/daemon.lock")
    );
    assert_eq!(
        outcome(vec![
            no(),
            Event::Opened,
            Event::Taken,
            no(),
            Event::Opened,
            Event::TakeFailed(cause())
        ]),
        error("could not inspect the daemon claim at /s/daemon.lock")
    );
    assert_eq!(
        outcome(vec![
            no(),
            Event::Opened,
            Event::Taken,
            no(),
            Event::Opened,
            Event::Taken,
            no(),
            Event::ClearFailed(cause())
        ]),
        error("could not clear the stale socket at /s/sock")
    );
    assert_eq!(unanswered("sock", "2s"), "no chaz daemon accepted connections on sock within 2s");
}

#[test]
fn an_event_that_nobody_waits_for_changes_nothing() {
    let auto = fast();
    let attempt = auto.advance(Attempt::begin(), Event::Taken);
    assert_eq!(attempt, Attempt::begin());
    assert_eq!(auto.action(&attempt), Action::Probe);
}

#[test]
fn the_daemon_is_started_from_the_running_program() {
    let spawn =
        SpawnChazDaemon::from_current_exe(os("/c.toml"), Ok(os("/bin/chaz")))
            .unwrap();
    let command = spawn.command();
    assert_eq!(command.program, os("/bin/chaz"));
    assert_eq!(command.arguments, vec![os("--config"), os("/c.toml"), os("daemon")]);
    assert_eq!(command.variable, ("CHAZ_DAEMON_DETACHED".to_string(), "1".to_string()));
    assert_eq!(command.stdin, Stream::Null);
    assert_eq!(command.stdout, Stream::Null);
    assert_eq!(command.stderr, Stream::Null);
    assert_eq!(command.session, Session::Own);
    assert_eq!(
        spawn.failure("denied".to_string()),
        ServiceError {
            message: "could not start a chaz daemon from /bin/chaz".to_string(),
            cause: Some("denied".to_string()),
        }
    );
    let err = SpawnChazDaemon::from_current_exe(os("/c"), Err("lost".to_string()));
    assert_eq!(err.unwrap_err().message, "could not determine the running chaz executable");
}

struct Counting {
    starts: Cell<usize>,
}

impl DaemonSpawn for Counting {
    fn spawn(&self) -> Result<(), ServiceError> {
        self.starts.set(self.starts.get() + 1);
        Ok(())
    }
}

#[test]
fn the_starter_is_handed_back_for_the_spawn() {
    let auto = AutoStart::new(os("s"), &os("/d"), Counting { starts: Cell::new(0) })
        .with_poll_interval(Span::from_millis(1));
    auto.spawner().spawn().unwrap();
    assert_eq!(auto.spawner().starts.get(), 1);
}

#[test]
fn paths_need_not_be_utf8() {
    let dir = OsText { bytes: vec![b'/', 0xff, b'/', b'.'] };
    let socket = OsText { bytes: vec![0xfe, b's'] };
    let auto = AutoStart::new(socket.clone(), &dir, 0u8);
    assert_eq!(auto.socket(), &socket);
    assert_eq!(auto.start_lock().bytes, b"/\xff/./daemon-start.lock".to_vec());
    assert_eq!(auto.daemon_lock().bytes, b"/\xff/daemon.lock".to_vec());
    assert_eq!(
        resolve_socket_url_path(&socket, Ok(os("/w"))).unwrap().bytes,
        b"/w/\xfes".to_vec()
    );
    assert_eq!(auto.url(Ok(os("/w"))).unwrap(), "unix:///w/\u{fffd}s");
    assert_eq!(
        auto.connection_failure("no".to_string()).message,
        "could not connect to \u{fffd}s"
    );
    assert_eq!(os("/é").show(), "/é");
}
