//! The arguments, and the names a process goes by.

use shep_log_rotate::cli::{find_home, Action, Home, Identity, DEFAULT_NAME, NO_HOME, USAGE};

fn assert_no_dashes(text: &str) {
    assert!(!text.contains('\u{2014}'), "an em dash in {text}");
    assert!(!text.contains('\u{2013}'), "an en dash in {text}");
}

/// An environment holding exactly one variable.
fn only(key: &str, value: &str) -> impl Fn(&str) -> Option<String> {
    let (key, value) = (key.to_owned(), value.to_owned());
    move |asked| {
        if asked == key {
            Some(value.clone())
        } else {
            None
        }
    }
}

#[test]
fn heads_up_the_real_shepherd_tier_is_not_running() {
    println!("no test here drives a real shepherd: that needs a built shep binary.");
}

#[test]
fn print_config_is_the_only_argument() {
    assert_eq!(Action::parse(&["--print-config"]), Ok(Action::PrintConfig));
    assert_eq!(Action::parse(&[]), Ok(Action::Run));
    assert!(Action::parse(&["--rotate-now"]).is_err());
}

#[test]
fn the_same_flag_twice_names_the_same_action() {
    assert_eq!(
        Action::parse(&["--print-config", "--print-config"]),
        Ok(Action::PrintConfig)
    );
}

#[test]
fn a_probe_flag_out_of_first_position_is_told_where_it_belongs() {
    for flag in ["--version", "--schema"] {
        let usage = Action::parse(&["--print-config", flag])
            .expect_err("refused")
            .to_string();
        assert!(usage.contains(flag), "{usage}");
        assert!(usage.contains("first argument"), "{usage}");
        assert!(
            !usage.contains("does not understand"),
            "this binary does understand it: {usage}"
        );
    }
}

#[test]
fn the_usage_text_names_every_flag_this_binary_answers() {
    for flag in ["--print-config", "--version", "--schema"] {
        assert!(USAGE.contains(flag), "usage omits {flag}");
    }
}

#[test]
fn the_usage_text_carries_no_em_dash() {
    let usage = Action::parse(&["--nonsense"])
        .expect_err("refused")
        .to_string();
    assert_no_dashes(&usage);
}

#[test]
fn the_refusal_names_the_argument_it_did_not_understand() {
    let usage = Action::parse(&["--rotate-now"])
        .expect_err("refused")
        .to_string();
    assert!(usage.contains("--rotate-now"), "{usage}");
    assert!(usage.contains("--print-config"), "{usage}");
}

#[test]
fn the_dog_takes_both_names_from_shep_dog_name() {
    let identity = Identity::from_env(only("SHEP_DOG_NAME", "weathervane"));
    assert_eq!(identity.handshake.as_deref(), Some("weathervane"));
    assert_eq!(
        identity.section, "weathervane",
        "the section follows the adopted name, so [weathervane] is what gets read"
    );
}

#[test]
fn without_shep_dog_name_the_dog_names_itself_to_nobody() {
    let identity = Identity::from_env(|_: &str| None);
    assert_eq!(identity.handshake, None);
    assert_eq!(
        identity.section, DEFAULT_NAME,
        "a hand run still reads a section, and this is the one the README documents"
    );
}

#[test]
fn an_empty_shep_dog_name_is_no_name() {
    let identity = Identity::from_env(only("SHEP_DOG_NAME", ""));
    assert_eq!(identity.handshake, None);
    assert_eq!(identity.section, DEFAULT_NAME);
}

#[test]
fn nothing_else_in_the_environment_names_this_dog() {
    let identity = Identity::from_env(only("SHEP_NAME", "production"));
    assert_eq!(identity.handshake, None);
    assert_eq!(identity.section, DEFAULT_NAME);
}

#[test]
fn every_refusal_reads_as_documented() {
    for (arg, said) in [
        ("--help", "shep-log-rotate takes no options."),
        ("-h", "shep-log-rotate takes no options."),
        (
            "--version",
            "shep-log-rotate answers --version as its first argument only, which is where the shepherd asks it.",
        ),
        (
            "--schema",
            "shep-log-rotate answers --schema as its first argument only, which is where the shepherd asks it.",
        ),
        ("--dry-run", "shep-log-rotate does not understand --dry-run."),
        ("", "shep-log-rotate does not understand ."),
    ] {
        let usage = Action::parse(&[arg]).expect_err("refused");
        assert_eq!(usage.to_string(), format!("{said}\n\n{USAGE}"));
    }
}

#[test]
fn the_first_argument_that_is_not_accepted_is_the_one_refused() {
    let usage = Action::parse(&["--print-config", "--one", "--two"]).expect_err("refused");
    assert!(usage.to_string().starts_with("shep-log-rotate does not understand --one."));
}

#[test]
fn a_home_is_needed_only_where_shep_home_does_not_decide() {
    assert_eq!(find_home(true, true), Home::Known);
    assert_eq!(find_home(true, false), Home::Known);
    assert_eq!(find_home(false, true), Home::NotNeeded);
    assert_eq!(find_home(false, false), Home::Missing);
    assert_no_dashes(NO_HOME);
}

#[test]
fn the_usage_text_starts_and_ends_as_documented() {
    assert!(USAGE.starts_with("shep-log-rotate: a log-rotation dog for shep.\n\nUsage:\n"));
    assert!(USAGE.ends_with("shepherd sets both when it spawns this dog."));
}
