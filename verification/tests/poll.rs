//! The poll loop.

use shep_log_rotate::config::Config;
use shep_log_rotate::error::Error;
use shep_log_rotate::poll::{opening, Event, Phase, Poll, Said};
use shep_log_rotate::report::Report;
use shep_log_rotate::values::UpDuration;

fn connected() -> Poll {
    let mut poll = Poll::new();
    assert_eq!(poll.tell(Event::Connected), Said::Nothing);
    poll
}

fn ticked(report: Report) -> Event {
    let config = Config { interval: UpDuration::from_millis(50), ..Config::default() };
    Event::Ticked { config, report }
}

#[test]
fn a_tick_that_rotated_says_so_and_waits_its_interval() {
    let mut poll = connected();
    assert_eq!(poll.phase, Phase::Check);
    assert_eq!(poll.tell(Event::LinkUp), Said::Nothing);
    assert_eq!(poll.phase, Phase::Tick);
    let said = poll.tell(ticked(Report { rotated: 1, ..Report::default() }));
    assert_eq!(said, Said::Line("rotated 1, compressed 0, deleted 0".to_owned()));
    assert_eq!(poll.phase, Phase::Wait(UpDuration::from_millis(50)));
    assert_eq!(poll.tell(Event::Elapsed), Said::Nothing);
    assert_eq!(poll.phase, Phase::Check, "the session is kept");
}

#[test]
fn a_quiet_tick_is_silent() {
    let mut poll = connected();
    poll.tell(Event::LinkUp);
    assert_eq!(poll.tell(ticked(Report { skipped: 4, ..Report::default() })), Said::Nothing);
}

#[test]
fn a_failed_tick_is_printed_and_retried() {
    let mut poll = connected();
    poll.tell(Event::LinkUp);
    let said = poll.tell(Event::TickFailed(Error::Protocol("Pong".to_owned())));
    assert_eq!(
        said,
        Said::Warning(
            "shep-log-rotate: unexpected answer from the shepherd: Pong".to_owned()
        )
    );
    assert_eq!(poll.phase, Phase::Wait(UpDuration::from_millis(60_000)));
    poll.tell(Event::Elapsed);
    assert_eq!(poll.phase, Phase::Check);
}

#[test]
fn a_shepherd_that_is_not_there_yet_is_waited_for() {
    let mut poll = Poll::new();
    assert_eq!(poll.phase, Phase::Connect);
    let said = poll.tell(Event::Unreachable(Error::Connect("no socket".to_owned())));
    assert_eq!(
        said,
        Said::Warning("shep-log-rotate: cannot reach the shepherd: no socket".to_owned())
    );
    assert_eq!(poll.phase, Phase::Wait(UpDuration::from_millis(60_000)));
    poll.tell(Event::Elapsed);
    assert_eq!(poll.phase, Phase::Connect);
}

#[test]
fn a_refused_handshake_ends_the_loop() {
    let mut poll = Poll::new();
    let said = poll.tell(Event::Refused {
        daemon_version: Some("0.9.1".to_owned()),
        message: "too old".to_owned(),
    });
    assert_eq!(
        said,
        Said::Warning(
            "shep-log-rotate: the shepherd refused this dog's handshake, and no amount of \
             reconnecting fixes a protocol-version skew. The shepherd reports 0.9.1, and said: \
             too old. Exiting so it can restart this dog from disk."
                .to_owned()
        )
    );
    assert_eq!(poll.phase, Phase::GiveUp);

    let mut poll = connected();
    let said = poll.tell(Event::Refused { daemon_version: None, message: "no".to_owned() });
    match said {
        Said::Warning(line) => assert!(line.contains("reports no version, and said: no."), "{line}"),
        other => panic!("{other:?}"),
    }
    assert_eq!(poll.phase, Phase::GiveUp);
    assert_eq!(poll.tell(Event::Elapsed), Said::Nothing);
    assert_eq!(poll.phase, Phase::GiveUp, "the end is the end");
}

#[test]
fn a_stop_ends_the_loop() {
    let mut poll = Poll::new();
    poll.tell(Event::Unreachable(Error::Connect("x".to_owned())));
    assert_eq!(poll.tell(Event::StopRequested), Said::Nothing);
    assert_eq!(poll.phase, Phase::Stop);
}

#[test]
fn an_unadopted_dog_says_so_once() {
    assert_eq!(opening(&Some("weathervane".to_owned())), Said::Nothing);
    match opening(&None) {
        Said::Warning(line) => {
            assert!(line.contains("$SHEP_DOG_NAME is not set"), "{line}");
            assert!(line.ends_with("read [log-rotate] in dogs.toml."), "{line}");
        }
        other => panic!("{other:?}"),
    }
}
