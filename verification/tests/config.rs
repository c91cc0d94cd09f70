//! The settings, from the text of a section.

use shep_log_rotate::config::{Config, ConfigError, Naming, Section, PRINT_CONFIG};
use shep_log_rotate::values::{MemSize, UpDuration};

/// The keys of a section.
const FIELDS: &[&str] = &["max_size", "max_age", "keep", "naming", "compress", "interval"];

/// A section as serde reads it, refusing a key that it does not know.
struct Read(Section);

/// Makes a [`Read`] of the keys and values of a table.
struct Reader;

impl<'de> serde::de::Visitor<'de> for Reader {
    type Value = Read;

    fn expecting(&self, f: &mut std::fmt::Formatter<'_>) -> std::fmt::Result {
        f.write_str("a section")
    }

    fn visit_map<A: serde::de::MapAccess<'de>>(self, mut map: A) -> Result<Read, A::Error> {
        let mut section = Section {
            max_size: None,
            max_age: None,
            keep: None,
            naming: None,
            compress: None,
            interval: None,
        };
        while let Some(key) = map.next_key::<String>()? {
            match key.as_str() {
                "max_size" => section.max_size = Some(map.next_value()?),
                "max_age" => section.max_age = Some(map.next_value()?),
                "keep" => section.keep = Some(map.next_value()?),
                "naming" => section.naming = Some(map.next_value()?),
                "compress" => section.compress = Some(map.next_value()?),
                "interval" => section.interval = Some(map.next_value()?),
                other => return Err(serde::de::Error::unknown_field(other, FIELDS)),
            }
        }
        Ok(Read(section))
    }
}

impl<'de> serde::Deserialize<'de> for Read {
    fn deserialize<D: serde::Deserializer<'de>>(deserializer: D) -> Result<Read, D::Error> {
        deserializer.deserialize_struct("Section", FIELDS, Reader)
    }
}

/// What serde makes of the text of a section.
fn section(text: &str) -> Result<Section, String> {
    match toml::from_str::<Read>(text) {
        Ok(read) => Ok(read.0),
        Err(err) => Err(err.to_string()),
    }
}

/// The settings that the text of a section stands for.
fn from_toml(text: &str) -> Result<Config, ConfigError> {
    Config::from_toml(section(text))
}

fn assert_no_dashes(text: &str) {
    assert!(!text.contains('\u{2014}'), "an em dash in {text}");
    assert!(!text.contains('\u{2013}'), "an en dash in {text}");
}

#[test]
fn an_absent_section_is_a_working_configuration() {
    let config = from_toml("").expect("empty is valid");
    assert_eq!(config, Config::default());
    assert_eq!(config.max_size.bytes(), 10 * 1024 * 1024);
    assert_eq!(config.keep, 5);
    assert_eq!(config.naming, Naming::Dated);
    assert!(config.compress);
    assert_eq!(config.interval.as_millis() / 1000, 60);
    assert_eq!(config.max_age, None);
}

#[test]
fn every_field_is_read() {
    let config = from_toml(
        r#"
max_size = "1M"
max_age = "168h"
keep = 3
naming = "numeric"
compress = false
interval = "5s"
"#,
    )
    .expect("valid");
    assert_eq!(config.max_size.bytes(), 1024 * 1024);
    assert_eq!(
        config.max_age.expect("set").as_millis() / 1000,
        7 * 86_400
    );
    assert_eq!(config.keep, 3);
    assert_eq!(config.naming, Naming::Numeric);
    assert!(!config.compress);
    assert_eq!(config.interval.as_millis() / 1000, 5);
}

#[test]
fn a_size_shep_refuses_is_refused_here_too() {
    let err = from_toml(r#"max_size = "10MB""#).expect_err("refused");
    let shown = err.to_string();
    assert!(shown.contains("max_size"), "{shown}");
    assert!(shown.contains("10MB"), "{shown}");
}

#[test]
fn an_unknown_key_is_reported_not_ignored() {
    let err = from_toml(r#"max_sixe = "10M""#).expect_err("refused");
    assert!(err.to_string().contains("max_sixe"), "{err:?}");
}

#[test]
fn an_unknown_naming_scheme_names_the_two_that_exist() {
    let err = from_toml(r#"naming = "rolling""#).expect_err("refused");
    let shown = err.to_string();
    assert!(shown.contains("rolling"), "{shown}");
    assert!(shown.contains("dated"), "{shown}");
    assert!(shown.contains("numeric"), "{shown}");
}

#[test]
fn keep_zero_is_refused_because_it_would_delete_every_rotation() {
    let err = from_toml("keep = 0").expect_err("refused");
    assert!(err.to_string().contains("keep"), "{err:?}");
}

#[test]
fn interval_zero_is_refused_because_it_would_poll_without_pause() {
    for spelling in ["0", "0s", "0m"] {
        let err = from_toml(&format!("interval = \"{spelling}\"")).expect_err("refused");
        assert!(err.to_string().contains("interval"), "{err:?}");
        assert_eq!(err, ConfigError::Interval);
    }
}

#[test]
fn every_value_the_printed_block_documents_is_the_value_the_code_uses() {
    let uncommented: Vec<&str> = PRINT_CONFIG
        .lines()
        .filter_map(|line| line.strip_prefix('#'))
        .filter(|rest| !rest.starts_with(' '))
        .collect();
    assert_eq!(
        uncommented.len(),
        6,
        "expected one line per setting, got {uncommented:?}"
    );

    let config = from_toml(&uncommented.join("\n")).expect("the printed block is valid");
    assert_eq!(
        config,
        Config {
            max_age: Some(UpDuration::parse("168h").expect("a spelling shep accepts")),
            ..Config::default()
        }
    );
}

#[test]
fn the_printed_block_carries_no_em_dash() {
    assert_no_dashes(PRINT_CONFIG);
}

#[test]
fn the_printed_block_names_the_file_the_shepherd_reads_from() {
    let header = PRINT_CONFIG.lines().next().expect("a first line");
    assert_eq!(header, "[log-rotate]");
}

#[test]
fn a_fault_names_its_field_value_and_reason() {
    let err = from_toml(r#"max_age = "7d""#).expect_err("no day unit");
    let shown = err.to_string();
    assert!(
        shown.starts_with("max_age = \"7d\" is not a duration shep accepts: "),
        "{shown}"
    );
    let why = err.source().expect("a reason");
    assert!(shown.ends_with(why.as_str()), "{shown}");
    assert!(!why.is_empty());

    let err = from_toml(r#"interval = "1d""#).expect_err("no day unit");
    assert!(err.to_string().starts_with("interval = \"1d\""), "{err:?}");

    let err = from_toml("keep = ").expect_err("not TOML");
    assert!(err.to_string().starts_with("invalid TOML: "), "{err:?}");
    assert_eq!(err.source(), None);
}

#[test]
fn the_first_fault_in_a_section_is_the_one_told() {
    let err = from_toml("interval = \"0\"\nmax_size = \"10MB\"\nkeep = 0").expect_err("refused");
    assert_eq!(err, ConfigError::Interval);
    let err = from_toml("max_size = \"10MB\"\nkeep = 0").expect_err("refused");
    assert!(matches!(err, ConfigError::Size { .. }), "{err:?}");
    let err = from_toml("keep = 0\nnaming = \"rolling\"").expect_err("refused");
    assert_eq!(err, ConfigError::Keep);
    let err = from_toml("naming = \"rolling\"").expect_err("refused");
    assert_eq!(err, ConfigError::Naming("rolling".to_owned()));
}

#[test]
fn sizes_are_read_in_sheps_own_spelling() {
    for (text, bytes) in [("0", 0), ("7", 7), ("1K", 1024), ("3M", 3_145_728), ("2G", 2_147_483_648)]
    {
        assert_eq!(MemSize::parse(text).map(|size| size.bytes()), Ok(bytes), "{text}");
    }
    for text in ["", "K", "10MB", "1k", "-1", "1.5M", " 1M", "99999999999999999999"] {
        assert!(MemSize::parse(text).is_err(), "{text}");
    }
    assert!(MemSize::parse("17179869184G").is_err(), "more than fits");
}

#[test]
fn durations_are_read_in_sheps_own_spelling() {
    for (text, millis) in [("0", 0), ("50", 50), ("60s", 60_000), ("2m", 120_000), ("168h", 604_800_000)]
    {
        assert_eq!(UpDuration::parse(text).map(|d| d.as_millis()), Ok(millis), "{text}");
    }
    for text in ["", "s", "7d", "1S", "-1", "1.5h", "1 s", "99999999999999999999"] {
        assert!(UpDuration::parse(text).is_err(), "{text}");
    }
}

#[test]
fn what_serde_refuses_is_told_as_it_says_it() {
    let err = from_toml("keep = \"three\"").expect_err("not a number");
    let shown = err.to_string();
    assert!(shown.starts_with("invalid TOML: "), "{shown}");
    assert!(shown.contains("keep"), "{shown}");
    let err = from_toml("max_size = 10").expect_err("a bare number is no spelling of shep's");
    assert!(matches!(err, ConfigError::Toml(_)), "{err:?}");
    let err = from_toml("keep = -1").expect_err("below zero");
    assert!(matches!(err, ConfigError::Toml(_)), "{err:?}");
}
