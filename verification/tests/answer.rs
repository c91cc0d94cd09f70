//! What the shepherd answers.

use shep_log_rotate::answer::{dog_config, list_flock, named, reopen, Answer};
use shep_log_rotate::error::Error;
use shep_log_rotate::flock::{log_paths, Sheep};

fn sheep(name: &str, out: Option<&str>, err: Option<&str>) -> Sheep {
    Sheep {
        name: name.to_owned(),
        out_file: out.map(str::to_owned),
        err_file: err.map(str::to_owned),
    }
}

#[test]
fn the_answer_that_was_asked_for_is_used() {
    let section = Answer::DogSection("keep = 3".to_owned());
    assert_eq!(dog_config(section), Ok("keep = 3".to_owned()));
    let flock = vec![sheep("web", Some("/a"), None)];
    assert_eq!(list_flock(Answer::Flock(flock.clone())), Ok(flock));
    assert_eq!(reopen(Answer::Reopened(0)), Ok(()));
}

#[test]
fn any_other_answer_is_named_without_its_body() {
    let protocol = |what: &str| Error::Protocol(what.to_owned());
    assert_eq!(
        dog_config(Answer::Pong),
        Err(protocol("Pong in answer to DogConfig"))
    );
    assert_eq!(
        dog_config(Answer::Flock(vec![sheep("web", None, None)])),
        Err(protocol("a Flock of 1 in answer to DogConfig"))
    );
    assert_eq!(
        list_flock(Answer::DogSection("token = \"hunter2\"".to_owned())),
        Err(protocol("a DogSection in answer to ListFlock"))
    );
    assert_eq!(
        list_flock(Answer::Reopened(12)),
        Err(protocol("a Reopened of 12 in answer to ListFlock"))
    );
    assert_eq!(
        reopen(Answer::Other("Stopped".to_owned())),
        Err(protocol("Stopped in answer to Reopen"))
    );
}

#[test]
fn a_long_answer_is_cut_short() {
    let exact = "x".repeat(60);
    assert_eq!(named(&Answer::Other(exact.clone())), exact);
    assert_eq!(named(&Answer::Other("x".repeat(61))), exact);
    let wide = "\u{e9}".repeat(200);
    assert_eq!(named(&Answer::Other(wide)).chars().count(), 60);
}

#[test]
fn a_sheep_writes_to_whichever_paths_are_set() {
    let none: Vec<String> = Vec::new();
    assert_eq!(log_paths(&sheep("a", None, None)), none);
    assert_eq!(log_paths(&sheep("a", Some("/o"), None)), vec!["/o"]);
    assert_eq!(log_paths(&sheep("a", None, Some("/e"))), vec!["/e"]);
    assert_eq!(log_paths(&sheep("a", Some("/o"), Some("/e"))), vec!["/o", "/e"]);
}
