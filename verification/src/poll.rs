//! The poll loop: when to connect, when to look, how long to wait, and when to
//! stop.
//!
//! Connecting, ticking and waiting happen outside. A [`Poll`] says which of
//! them is next, is told how it went, and says what to print.

use vstd::prelude::*;

use crate::cli::DEFAULT_NAME;
use crate::config::{default_config, Config};
use crate::error::Error;
use crate::report::Report;
use crate::text::{has_text, has_text_between};
use crate::values::UpDuration;

verus! {

/// What the loop is about to do.
#[derive(Debug, Clone, Copy, PartialEq, Eq, Structural)]
pub enum Phase {
    /// Connect to the shepherd for the first time.
    Connect,
    /// See whether the shepherd has refused the connection since.
    Check,
    /// Look over the flock.
    Tick,
    /// Wait so long, or until a stop is asked for.
    Wait(UpDuration),
    /// Exit, because a stop was asked for.
    Stop,
    /// Exit, because the shepherd refused the handshake.
    GiveUp,
}

/// How what the loop was about to do went.
#[derive(Debug, PartialEq, Eq)]
pub enum Event {
    /// Connecting went well.
    Connected,
    /// Connecting failed in a way that waiting can mend.
    Unreachable(Error),
    /// The shepherd refused the handshake: it reports a version, and says why.
    Refused { daemon_version: Option<String>, message: String },
    /// The connection is not refused.
    LinkUp,
    /// The look over the flock came to this.
    Ticked { config: Config, report: Report },
    /// The look over the flock failed.
    TickFailed(Error),
    /// The wait is over.
    Elapsed,
    /// A stop was asked for.
    StopRequested,
}

/// What is printed, and where.
#[derive(Debug, PartialEq, Eq)]
pub enum Said {
    /// Nothing.
    Nothing,
    /// A line for whoever reads the dog's log.
    Line(String),
    /// A line for whoever has to mend something.
    Warning(String),
}

/// A [`Said`] with its line as a character sequence.
pub enum SaidView {
    /// See [`Said::Nothing`].
    Nothing,
    /// See [`Said::Line`].
    Line(Seq<char>),
    /// See [`Said::Warning`].
    Warning(Seq<char>),
}

impl View for Said {
    type V = SaidView;

    open spec fn view(&self) -> SaidView {
        match self {
            Said::Nothing => SaidView::Nothing,
            Said::Line(line) => SaidView::Line(line@),
            Said::Warning(line) => SaidView::Warning(line@),
        }
    }
}

/// What is said of a refused handshake.
pub open spec fn refusal(daemon_version: Option<String>, message: Seq<char>) -> Seq<char> {
    "shep-log-rotate: the shepherd refused this dog's handshake, and no amount of reconnecting fixes a protocol-version skew. The shepherd reports "@
        + (match daemon_version {
        Some(version) => version@,
        None => "no version"@,
    }) + ", and said: "@ + message + ". Exiting so it can restart this dog from disk."@
}

/// Says why this dog is stopping on a refused handshake, which no waiting can
/// mend.
pub fn refused(daemon_version: &Option<String>, message: &str) -> (s: String)
    ensures
        s@ == refusal(*daemon_version, message@),
{
    let mut s = "shep-log-rotate: the shepherd refused this dog's handshake, and no amount of reconnecting fixes a protocol-version skew. The shepherd reports ".to_owned();
    match daemon_version {
        Some(version) => {
            s.append(version.as_str());
        },
        None => {
            s.append("no version");
        },
    }
    s.append(", and said: ");
    s.append(message);
    s.append(". Exiting so it can restart this dog from disk.");
    s
}

/// What is said of a fault.
pub open spec fn complaint_of(err: Error) -> Seq<char> {
    "shep-log-rotate: "@ + err@.shown()
}

/// What is said of a fault.
fn complain(err: &Error) -> (s: String)
    ensures
        s@ == complaint_of(*err),
{
    let mut s = "shep-log-rotate: ".to_owned();
    s.append(err.to_string().as_str());
    s
}

/// What is said, once, by a process that nothing adopted.
pub open spec fn unnamed_line() -> Seq<char> {
    "shep-log-rotate: $SHEP_DOG_NAME is not set, so nothing adopted this process. It will connect without naming itself, which the shepherd does not count as a handshake, and read ["@
        + DEFAULT_NAME@ + "] in dogs.toml."@
}

/// What to say before the loop starts: one line where there is no name to
/// announce, and nothing otherwise.
pub fn opening(handshake: &Option<String>) -> (r: Said)
    ensures
        r@ == (if handshake is None {
            SaidView::Warning(unnamed_line())
        } else {
            SaidView::Nothing
        }),
{
    match handshake {
        Some(_) => Said::Nothing,
        None => {
            let mut s = "shep-log-rotate: $SHEP_DOG_NAME is not set, so nothing adopted this process. It will connect without naming itself, which the shepherd does not count as a handshake, and read [".to_owned();
            s.append(DEFAULT_NAME);
            s.append("] in dogs.toml.");
            Said::Warning(s)
        },
    }
}

/// Where the loop stands.
#[derive(Debug, Clone, Copy, PartialEq, Eq, Structural)]
pub struct Poll {
    /// What it is about to do.
    pub phase: Phase,
    /// Whether it has connected. A connection is kept: it mends itself.
    pub connected: bool,
}

/// Where the loop starts.
pub open spec fn first_poll() -> Poll {
    Poll { phase: Phase::Connect, connected: false }
}

/// Waits as long as a dog does that has no settings to go by.
pub open spec fn wait_default(poll: Poll) -> Poll {
    Poll { phase: Phase::Wait(default_config().interval), ..poll }
}

/// Where the loop stands once what it was about to do has gone as it went, and
/// what it says. What cannot happen there changes nothing.
pub open spec fn polled(poll: Poll, event: Event) -> (Poll, SaidView) {
    match (poll.phase, event) {
        (Phase::Connect, Event::Connected) => (
            Poll { phase: Phase::Check, connected: true },
            SaidView::Nothing,
        ),
        (Phase::Connect, Event::Unreachable(err)) => (
            wait_default(poll),
            SaidView::Warning(complaint_of(err)),
        ),
        (Phase::Connect, Event::Refused { daemon_version, message }) => (
            Poll { phase: Phase::GiveUp, ..poll },
            SaidView::Warning(refusal(daemon_version, message@)),
        ),
        (Phase::Check, Event::LinkUp) => (
            Poll { phase: Phase::Tick, ..poll },
            SaidView::Nothing,
        ),
        (Phase::Check, Event::Refused { daemon_version, message }) => (
            Poll { phase: Phase::GiveUp, ..poll },
            SaidView::Warning(refusal(daemon_version, message@)),
        ),
        (Phase::Tick, Event::Ticked { config, report }) => (
            Poll { phase: Phase::Wait(config.interval), ..poll },
            if report.quiet() {
                SaidView::Nothing
            } else {
                SaidView::Line(report.line())
            },
        ),
        (Phase::Tick, Event::TickFailed(err)) => (
            wait_default(poll),
            SaidView::Warning(complaint_of(err)),
        ),
        (Phase::Wait(_), Event::Elapsed) => (
            Poll {
                phase: if poll.connected {
                    Phase::Check
                } else {
                    Phase::Connect
                },
                ..poll
            },
            SaidView::Nothing,
        ),
        (Phase::Wait(_), Event::StopRequested) => (
            Poll { phase: Phase::Stop, ..poll },
            SaidView::Nothing,
        ),
        _ => (poll, SaidView::Nothing),
    }
}

impl Poll {
    /// Starts the loop.
    pub fn new() -> (r: Self)
        ensures
            r == first_poll(),
    {
        Poll { phase: Phase::Connect, connected: false }
    }

    /// Tells how what the loop was about to do went, goes on, and says what to
    /// print.
    pub fn tell(&mut self, event: Event) -> (said: Said)
        ensures
            (*final(self), said@) == polled(*old(self), event),
    {
        match (self.phase, event) {
            (Phase::Connect, Event::Connected) => {
                self.phase = Phase::Check;
                self.connected = true;
                Said::Nothing
            },
            (Phase::Connect, Event::Unreachable(err)) => {
                self.phase = Phase::Wait(Config::default().interval);
                Said::Warning(complain(&err))
            },
            (Phase::Connect, Event::Refused { daemon_version, message }) => {
                self.phase = Phase::GiveUp;
                Said::Warning(refused(&daemon_version, message.as_str()))
            },
            (Phase::Check, Event::LinkUp) => {
                self.phase = Phase::Tick;
                Said::Nothing
            },
            (Phase::Check, Event::Refused { daemon_version, message }) => {
                self.phase = Phase::GiveUp;
                Said::Warning(refused(&daemon_version, message.as_str()))
            },
            (Phase::Tick, Event::Ticked { config, report }) => {
                self.phase = Phase::Wait(config.interval);
                match report.summary() {
                    Some(line) => Said::Line(line),
                    None => Said::Nothing,
                }
            },
            (Phase::Tick, Event::TickFailed(err)) => {
                self.phase = Phase::Wait(Config::default().interval);
                Said::Warning(complain(&err))
            },
            (Phase::Wait(_), Event::Elapsed) => {
                if self.connected {
                    self.phase = Phase::Check;
                } else {
                    self.phase = Phase::Connect;
                }
                Said::Nothing
            },
            (Phase::Wait(_), Event::StopRequested) => {
                self.phase = Phase::Stop;
                Said::Nothing
            },
            _ => Said::Nothing,
        }
    }
}

/// Where the loop stands after some events.
pub open spec fn polled_after(events: Seq<Event>) -> Poll
    decreases events.len(),
{
    if events.len() == 0 {
        first_poll()
    } else {
        polled(polled_after(events.drop_last()), events.last()).0
    }
}

/// The loop looks over the flock only with a connection, and never looks for a
/// second one while it has one.
pub proof fn no_tick_without_a_connection(events: Seq<Event>)
    ensures
        ({
            let poll = polled_after(events);
            &&& poll.phase == Phase::Check || poll.phase == Phase::Tick ==> poll.connected
            &&& poll.phase == Phase::Connect ==> !poll.connected
        }),
    decreases events.len(),
{
    if events.len() > 0 {
        no_tick_without_a_connection(events.drop_last());
    }
}

/// The connection is seen to before every tick: a refused one answers every
/// request with the same closed connection, and no tick could say why.
pub proof fn the_connection_is_checked_before_every_tick(poll: Poll, event: Event)
    requires
        poll.phase != Phase::Tick,
        polled(poll, event).0.phase == Phase::Tick,
    ensures
        poll.phase == Phase::Check,
        event is LinkUp,
{
}

/// Nothing ends the loop but a stop and a refused handshake: each of the two
/// ends comes of its own event, and of no other.
pub proof fn only_a_stop_or_a_refusal_ends_the_loop(poll: Poll, event: Event)
    requires
        poll.phase != Phase::Stop,
        poll.phase != Phase::GiveUp,
    ensures
        polled(poll, event).0.phase == Phase::Stop ==> event is StopRequested,
        polled(poll, event).0.phase == Phase::GiveUp ==> event is Refused,
{
}

/// The end is the end.
pub proof fn the_loop_does_not_start_again(poll: Poll, event: Event)
    requires
        poll.phase == Phase::Stop || poll.phase == Phase::GiveUp,
    ensures
        polled(poll, event) == (poll, SaidView::Nothing),
{
}

/// A tick that only looked prints nothing, so that the log of the dog itself
/// does not grow by looking.
pub proof fn a_quiet_tick_prints_nothing(poll: Poll, config: Config, report: Report)
    requires
        report.quiet(),
    ensures
        polled(poll, Event::Ticked { config, report }).1 == SaidView::Nothing,
{
}

/// A fault is not the end: the loop goes on after a wait of the default
/// length, and a connection that it had it still has.
pub proof fn a_fault_is_retried(poll: Poll, err: Error)
    ensures
        poll.phase == Phase::Tick ==> polled(poll, Event::TickFailed(err)).0 == wait_default(poll),
        poll.phase == Phase::Connect ==> polled(poll, Event::Unreachable(err)).0 == wait_default(
            poll,
        ),
{
}

/// After a tick the loop waits as long as the settings that the tick read say,
/// whether there was anything to report or not, and what it was connected to it
/// still is.
pub proof fn a_tick_is_followed_by_the_configured_wait(poll: Poll, config: Config, report: Report)
    requires
        poll.phase == Phase::Tick,
    ensures
        ({
            let (next, said) = polled(poll, Event::Ticked { config, report });
            &&& next.phase == Phase::Wait(config.interval)
            &&& next.connected == poll.connected
            &&& said is Nothing <==> report.quiet()
            &&& !report.quiet() ==> said == SaidView::Line(report.line())
        }),
{
}

/// A fault, in connecting or in a tick, is followed by a wait of one minute and
/// told in a warning that ends in what the fault is. What was connected stays
/// connected.
pub proof fn a_fault_is_followed_by_a_minute(poll: Poll, err: Error)
    ensures
        ({
            let (next, said) = polled(poll, Event::TickFailed(err));
            poll.phase == Phase::Tick ==> {
                &&& next.phase == Phase::Wait(UpDuration { millis: 60_000 })
                &&& next.connected == poll.connected
                &&& said matches SaidView::Warning(line) && is_after(line, err@.shown())
            }
        }),
        ({
            let (next, said) = polled(poll, Event::Unreachable(err));
            poll.phase == Phase::Connect ==> {
                &&& next.phase == Phase::Wait(UpDuration { millis: 60_000 })
                &&& next.connected == poll.connected
                &&& said matches SaidView::Warning(line) && is_after(line, err@.shown())
            }
        }),
{
    let line = complaint_of(err);
    let n = "shep-log-rotate: "@.len() as int;
    assert(line.skip(n) =~= err@.shown());
}

/// Whether a line ends in `rest`.
pub open spec fn is_after(line: Seq<char>, rest: Seq<char>) -> bool {
    exists|k: int| 0 <= k <= line.len() && #[trigger] line.skip(k) == rest
}

/// A refused handshake ends the loop, whether it is met in connecting or later,
/// and the warning says which version the shepherd reports and what it said.
pub proof fn a_refusal_ends_the_loop(
    poll: Poll,
    daemon_version: Option<String>,
    message: String,
)
    requires
        poll.phase == Phase::Connect || poll.phase == Phase::Check,
    ensures
        ({
            let (next, said) = polled(poll, Event::Refused { daemon_version, message });
            &&& next.phase == Phase::GiveUp
            &&& next.connected == poll.connected
            &&& said matches SaidView::Warning(line) && has_text(line, message@) && (daemon_version
                matches Some(version) ==> has_text(line, version@)) && (daemon_version is None
                ==> has_text(line, "no version"@))
        }),
{
    let start = "shep-log-rotate: the shepherd refused this dog's handshake, and no amount of reconnecting fixes a protocol-version skew. The shepherd reports "@;
    let version = match daemon_version {
        Some(version) => version@,
        None => "no version"@,
    };
    let middle = ", and said: "@;
    let end = ". Exiting so it can restart this dog from disk."@;
    let line = refusal(daemon_version, message@);
    has_text_between(start + version + middle, message@, end);
    assert(line =~= start + version + middle + message@ + end);
    has_text_between(start, version, middle + message@ + end);
    assert(line =~= start + version + (middle + message@ + end));
}

/// What leads on: a connection that was made is checked, one that is not
/// refused is used for a tick, a wait that is over leads back to the check, or
/// to connecting where there is no connection yet, and a stop ends the loop from
/// any wait. Nothing is said on the way.
pub proof fn the_loop_goes_round(poll: Poll, so_long: UpDuration)
    ensures
        poll.phase == Phase::Connect ==> {
            let (next, said) = polled(poll, Event::Connected);
            next.phase == Phase::Check && next.connected && said is Nothing
        },
        poll.phase == Phase::Check ==> {
            let (next, said) = polled(poll, Event::LinkUp);
            next.phase == Phase::Tick && next.connected == poll.connected && said is Nothing
        },
        poll.phase == Phase::Wait(so_long) ==> {
            let (next, said) = polled(poll, Event::Elapsed);
            &&& poll.connected ==> next.phase == Phase::Check
            &&& !poll.connected ==> next.phase == Phase::Connect
            &&& next.connected == poll.connected
            &&& said is Nothing
        },
        poll.phase == Phase::Wait(so_long) ==> {
            let (next, said) = polled(poll, Event::StopRequested);
            next.phase == Phase::Stop && next.connected == poll.connected && said is Nothing
        },
        first_poll().phase == Phase::Connect && !first_poll().connected,
{
}

/// What does not answer what the loop was about to do changes nothing, and
/// nothing is said of it.
pub proof fn what_was_not_asked_for_changes_nothing(poll: Poll, event: Event)
    requires
        !(poll.phase == Phase::Connect && (event is Connected || event is Unreachable
            || event is Refused)),
        !(poll.phase == Phase::Check && (event is LinkUp || event is Refused)),
        !(poll.phase == Phase::Tick && (event is Ticked || event is TickFailed)),
        !(poll.phase is Wait && (event is Elapsed || event is StopRequested)),
    ensures
        polled(poll, event).0.phase == poll.phase,
        polled(poll, event).0.connected == poll.connected,
        polled(poll, event).1 is Nothing,
{
}

/// Everything that is said in a warning starts with the name of the program, and
/// a process that nothing adopted is told which section it reads.
pub proof fn a_warning_says_who_is_speaking(
    err: Error,
    daemon_version: Option<String>,
    message: Seq<char>,
)
    ensures
        complaint_of(err) == "shep-log-rotate: "@ + err@.shown(),
        refusal(daemon_version, message)
            == "shep-log-rotate: the shepherd refused this dog's handshake, and no amount of reconnecting fixes a protocol-version skew. The shepherd reports "@
            + (if daemon_version is Some {
            daemon_version->0@
        } else {
            "no version"@
        }) + ", and said: "@ + message + ". Exiting so it can restart this dog from disk."@,
        unnamed_line()
            == "shep-log-rotate: $SHEP_DOG_NAME is not set, so nothing adopted this process. It will connect without naming itself, which the shepherd does not count as a handshake, and read ["@
            + "log-rotate"@ + "] in dogs.toml."@,
{
}

} // verus!
