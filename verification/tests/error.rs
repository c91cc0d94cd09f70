//! How faults read.

use shep_log_rotate::config::ConfigError;
use shep_log_rotate::error::Error;

fn assert_no_dashes(text: &str) {
    assert!(!text.contains('\u{2014}'), "an em dash in {text}");
    assert!(!text.contains('\u{2013}'), "an en dash in {text}");
}

#[test]
fn an_io_error_names_the_path_it_failed_on() {
    let err = Error::Io {
        path: "/var/log/web-0-out.log".to_owned(),
        source: std::io::Error::new(std::io::ErrorKind::PermissionDenied, "denied").to_string(),
    };
    let shown = err.to_string();
    assert!(shown.contains("/var/log/web-0-out.log"), "{shown}");
    assert!(shown.contains("denied"), "{shown}");
}

#[test]
fn io_at_names_the_path_the_call_failed_on() {
    let missing = "/nonexistent/web-0-out.log";
    let failed = std::io::Error::from(std::io::ErrorKind::NotFound);
    let err = Error::io_at(missing, failed.to_string());
    assert!(
        matches!(&err, Error::Io { path, .. } if path == missing),
        "{err:?}"
    );
    assert!(
        err.to_string().contains("/nonexistent/web-0-out.log"),
        "{err:?}"
    );
}

#[test]
fn a_bad_section_names_the_section_this_dog_was_adopted_as() {
    let err = Error::Config {
        section: "weathervane".to_owned(),
        source: ConfigError::Keep,
    };
    let shown = err.to_string();
    assert!(shown.contains("[weathervane]"), "{shown}");
    assert!(
        !shown.contains("log-rotate"),
        "the default name leaked into a dog adopted as something else: {shown}"
    );
}

#[test]
fn a_nested_toml_fault_names_one_section_and_it_is_the_adopted_one() {
    let err = Error::Config {
        section: "weathervane".to_owned(),
        source: ConfigError::Toml("expected `=` after a key".to_owned()),
    };
    let shown = err.to_string();
    assert_eq!(
        shown,
        "bad [weathervane] section: invalid TOML: expected `=` after a key"
    );
    assert_eq!(
        shown.matches('[').count(),
        1,
        "one fault names one section: {shown}"
    );
}

#[test]
fn debug_carries_the_section_and_nothing_else() {
    let shown = format!(
        "{:?}",
        Error::Config {
            section: "weathervane".to_owned(),
            source: ConfigError::Keep,
        }
    );
    assert_eq!(
        shown, "Config { section: \"weathervane\", source: Keep }",
        "the derived shape is the documented decision, so a change to it is a decision too"
    );
}

#[test]
fn every_variant_renders_without_an_em_dash() {
    let err = Error::Protocol("the shepherd answered Pong to a DogConfig".into());
    assert_no_dashes(&err.to_string());
}

#[test]
fn every_variant_reads_as_documented() {
    let config = ConfigError::Keep;
    let keep = config.to_string();
    for (err, shown, cause) in [
        (
            Error::Connect("no such file".to_owned()),
            "cannot reach the shepherd: no such file".to_owned(),
            Some("no such file".to_owned()),
        ),
        (
            Error::Request("closed".to_owned()),
            "the shepherd refused a request: closed".to_owned(),
            Some("closed".to_owned()),
        ),
        (
            Error::Protocol("Pong".to_owned()),
            "unexpected answer from the shepherd: Pong".to_owned(),
            None,
        ),
        (
            Error::bad_section("weathervane", config),
            format!("bad [weathervane] section: {keep}"),
            Some(keep),
        ),
        (
            Error::io_at("/a/b", "denied".to_owned()),
            "/a/b: denied".to_owned(),
            Some("denied".to_owned()),
        ),
        (
            Error::Exhausted {
                path: "/a/b.4294967295".to_owned(),
            },
            "/a/b.4294967295: no generation numbers left to rotate into".to_owned(),
            None,
        ),
    ] {
        assert_eq!(err.to_string(), shown);
        assert_eq!(err.source(), cause, "{err:?}");
        assert_no_dashes(&shown);
    }
}
