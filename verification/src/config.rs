//! The `[log-rotate]` section of `dogs.toml`.
//!
//! The section arrives as the six settings that the file holds, each of them
//! optional. What is decided here is which of them are acceptable, what an
//! absent one means, and how a refusal is worded.

use vstd::prelude::*;

use crate::text::{has_text, has_text_between, same};
use crate::values::{
    mem_size, mem_size_fault, up_duration, up_duration_fault, Fault, MemSize, UpDuration,
};

verus! {

/// How rotated generations are named.
#[derive(Debug, Clone, Copy, PartialEq, Eq, Structural)]
pub enum Naming {
    /// `web-0-out.2026-08-20T15-04-05.log`. The default.
    Dated,
    /// `web-0-out.log.1`, shifting on every rotation. Newest is `.1`.
    Numeric,
}

/// The dog's settings, with a default for every field.
#[derive(Debug, Clone, PartialEq, Eq)]
pub struct Config {
    /// Rotate a log once it reaches this size.
    pub max_size: MemSize,
    /// Optionally also rotate this long after the last rotation, whatever the
    /// size.
    pub max_age: Option<UpDuration>,
    /// Generations to keep. Older ones are deleted.
    pub keep: usize,
    /// How rotated generations are named.
    pub naming: Naming,
    /// gzip rotated generations, newest one left plain so it stays greppable.
    pub compress: bool,
    /// How often to look.
    pub interval: UpDuration,
}

/// The settings as they are written in `dogs.toml`, before any of them has
/// been understood. Sizes and durations stay text, so that shep's own grammar
/// is the one that reads them.
#[derive(Debug, Clone, PartialEq, Eq)]
pub struct Section {
    /// Rotate a log once it reaches this size.
    pub max_size: Option<String>,
    /// Also rotate this long after the last rotation.
    pub max_age: Option<String>,
    /// Generations to keep.
    pub keep: Option<usize>,
    /// How rotated generations are named.
    pub naming: Option<String>,
    /// gzip rotated generations.
    pub compress: Option<bool>,
    /// How often to look for a log worth rotating.
    pub interval: Option<String>,
}

/// What could not be understood in a `[log-rotate]` section.
///
/// Every variant names the offending field, and where possible the value that
/// was rejected, so an operator can find the typo.
#[derive(Debug, Clone, PartialEq, Eq)]
pub enum ConfigError {
    /// The text was not valid TOML, or carried a key this dog does not know.
    ///
    /// Names no section: the error that wraps this one does.
    Toml(String),
    /// A size was not spelled the way shep spells it.
    Size {
        /// The field the offending value was read from.
        field: &'static str,
        /// The value as written in `dogs.toml`.
        value: String,
        /// What shep says of it.
        source: String,
    },
    /// A duration was not spelled the way shep spells it.
    Duration {
        /// The field the offending value was read from.
        field: &'static str,
        /// The value as written in `dogs.toml`.
        value: String,
        /// What shep says of it.
        source: String,
    },
    /// `naming` was neither `dated` nor `numeric`.
    Naming(String),
    /// `keep = 0`, which would delete every rotation the moment it was made.
    Keep,
    /// `interval = 0`, which would ask the shepherd again the moment an
    /// answer came back.
    Interval,
}

/// A [`ConfigError`] with its strings as character sequences.
pub enum ConfigErrorView {
    /// See [`ConfigError::Toml`].
    Toml(Seq<char>),
    /// See [`ConfigError::Size`].
    Size { field: Seq<char>, value: Seq<char>, source: Seq<char> },
    /// See [`ConfigError::Duration`].
    Duration { field: Seq<char>, value: Seq<char>, source: Seq<char> },
    /// See [`ConfigError::Naming`].
    Naming(Seq<char>),
    /// See [`ConfigError::Keep`].
    Keep,
    /// See [`ConfigError::Interval`].
    Interval,
}

impl View for ConfigError {
    type V = ConfigErrorView;

    open spec fn view(&self) -> ConfigErrorView {
        match self {
            ConfigError::Toml(message) => ConfigErrorView::Toml(message@),
            ConfigError::Size { field, value, source } => ConfigErrorView::Size {
                field: field@,
                value: value@,
                source: source@,
            },
            ConfigError::Duration { field, value, source } => ConfigErrorView::Duration {
                field: field@,
                value: value@,
                source: source@,
            },
            ConfigError::Naming(value) => ConfigErrorView::Naming(value@),
            ConfigError::Keep => ConfigErrorView::Keep,
            ConfigError::Interval => ConfigErrorView::Interval,
        }
    }
}

impl ConfigErrorView {
    /// How the fault reads on the line that an operator is shown.
    pub open spec fn shown(self) -> Seq<char> {
        match self {
            ConfigErrorView::Toml(message) => "invalid TOML: "@ + message,
            ConfigErrorView::Size { field, value, source } => field + " = \""@ + value
                + "\" is not a size shep accepts: "@ + source,
            ConfigErrorView::Duration { field, value, source } => field + " = \""@ + value
                + "\" is not a duration shep accepts: "@ + source,
            ConfigErrorView::Naming(value) => "naming = \""@ + value
                + "\" is not a naming scheme; use \"dated\" or \"numeric\""@,
            ConfigErrorView::Keep =>
                "keep = 0 would delete every rotation the moment it was made; keep must be at least 1"@,
            ConfigErrorView::Interval =>
                "interval = 0 would ask the shepherd without pause; interval must be above 0"@,
        }
    }
}

impl ConfigError {
    /// The fault in words.
    pub fn to_string(&self) -> (s: String)
        ensures
            s@ == self@.shown(),
    {
        match self {
            ConfigError::Toml(message) => {
                let mut s = "invalid TOML: ".to_owned();
                s.append(message.as_str());
                s
            },
            ConfigError::Size { field, value, source } => {
                let mut s = (*field).to_owned();
                s.append(" = \"");
                s.append(value.as_str());
                s.append("\" is not a size shep accepts: ");
                s.append(source.as_str());
                s
            },
            ConfigError::Duration { field, value, source } => {
                let mut s = (*field).to_owned();
                s.append(" = \"");
                s.append(value.as_str());
                s.append("\" is not a duration shep accepts: ");
                s.append(source.as_str());
                s
            },
            ConfigError::Naming(value) => {
                let mut s = "naming = \"".to_owned();
                s.append(value.as_str());
                s.append("\" is not a naming scheme; use \"dated\" or \"numeric\"");
                s
            },
            ConfigError::Keep => {
                "keep = 0 would delete every rotation the moment it was made; keep must be at least 1".to_owned()
            },
            ConfigError::Interval => {
                "interval = 0 would ask the shepherd without pause; interval must be above 0".to_owned()
            },
        }
    }

    /// What shep said of the value, for the two faults that have a cause of
    /// their own.
    pub fn source(&self) -> (s: Option<&String>)
        ensures
            match self@ {
                ConfigErrorView::Size { source, .. } => s matches Some(text) && text@ == source,
                ConfigErrorView::Duration { source, .. } => s matches Some(text) && text@ == source,
                _ => s is None,
            },
    {
        match self {
            ConfigError::Size { source, .. } => Some(source),
            ConfigError::Duration { source, .. } => Some(source),
            _ => None,
        }
    }
}

/// The settings of a dog whose section says nothing.
pub open spec fn default_config() -> Config {
    Config {
        max_size: MemSize { bytes: 10_485_760 },
        max_age: None,
        keep: 5,
        naming: Naming::Dated,
        compress: true,
        interval: UpDuration { millis: 60_000 },
    }
}

impl Default for Config {
    fn default() -> (r: Self)
        ensures
            r == default_config(),
    {
        Config {
            max_size: MemSize::from_bytes(10 * 1024 * 1024),
            max_age: None,
            keep: 5,
            naming: Naming::Dated,
            compress: true,
            interval: UpDuration::from_millis(60_000),
        }
    }
}

/// The size that `value`, written for `field`, stands for.
pub open spec fn read_size(value: Seq<char>, field: Seq<char>) -> Result<MemSize, ConfigErrorView> {
    match mem_size(value) {
        Ok(bytes) => Ok(MemSize { bytes }),
        Err(fault) => Err(
            ConfigErrorView::Size { field, value, source: mem_size_fault(fault) },
        ),
    }
}

/// The duration that `value`, written for `field`, stands for.
pub open spec fn read_duration(value: Seq<char>, field: Seq<char>) -> Result<
    UpDuration,
    ConfigErrorView,
> {
    match up_duration(value) {
        Ok(millis) => Ok(UpDuration { millis }),
        Err(fault) => Err(
            ConfigErrorView::Duration { field, value, source: up_duration_fault(fault) },
        ),
    }
}

/// What the `interval` setting means: never a duration of nothing.
pub open spec fn read_interval(setting: Option<String>) -> Result<UpDuration, ConfigErrorView> {
    match setting {
        None => Ok(default_config().interval),
        Some(value) => match read_duration(value@, "interval"@) {
            Ok(interval) => if interval.millis == 0 {
                Err(ConfigErrorView::Interval)
            } else {
                Ok(interval)
            },
            Err(fault) => Err(fault),
        },
    }
}

/// What the `max_size` setting means.
pub open spec fn read_max_size(setting: Option<String>) -> Result<MemSize, ConfigErrorView> {
    match setting {
        None => Ok(default_config().max_size),
        Some(value) => read_size(value@, "max_size"@),
    }
}

/// What the `max_age` setting means; unset, age is no reason to rotate.
pub open spec fn read_max_age(setting: Option<String>) -> Result<
    Option<UpDuration>,
    ConfigErrorView,
> {
    match setting {
        None => Ok(None),
        Some(value) => match read_duration(value@, "max_age"@) {
            Ok(age) => Ok(Some(age)),
            Err(fault) => Err(fault),
        },
    }
}

/// What the `keep` setting means: never zero generations.
pub open spec fn read_keep(setting: Option<usize>) -> Result<usize, ConfigErrorView> {
    match setting {
        None => Ok(default_config().keep),
        Some(keep) => if keep == 0 {
            Err(ConfigErrorView::Keep)
        } else {
            Ok(keep)
        },
    }
}

/// What the `naming` setting means: one of two schemes, spelled exactly.
pub open spec fn read_naming(setting: Option<String>) -> Result<Naming, ConfigErrorView> {
    match setting {
        None => Ok(default_config().naming),
        Some(value) => if value@ == "dated"@ {
            Ok(Naming::Dated)
        } else if value@ == "numeric"@ {
            Ok(Naming::Numeric)
        } else {
            Err(ConfigErrorView::Naming(value@))
        },
    }
}

/// The configuration that a section stands for. Of several faults the one
/// reported is the first in the order `interval`, `max_size`, `max_age`,
/// `keep`, `naming`.
pub open spec fn configured(section: Section) -> Result<Config, ConfigErrorView> {
    match read_interval(section.interval) {
        Err(fault) => Err(fault),
        Ok(interval) => match read_max_size(section.max_size) {
            Err(fault) => Err(fault),
            Ok(max_size) => match read_max_age(section.max_age) {
                Err(fault) => Err(fault),
                Ok(max_age) => match read_keep(section.keep) {
                    Err(fault) => Err(fault),
                    Ok(keep) => match read_naming(section.naming) {
                        Err(fault) => Err(fault),
                        Ok(naming) => Ok(
                            Config {
                                max_size,
                                max_age,
                                keep,
                                naming,
                                compress: match section.compress {
                                    None => default_config().compress,
                                    Some(compress) => compress,
                                },
                                interval,
                            },
                        ),
                    },
                },
            },
        },
    }
}

/// Whether `r` is `expected`, its error compared character by character.
pub open spec fn agrees<T>(r: Result<T, ConfigError>, expected: Result<T, ConfigErrorView>) -> bool {
    match r {
        Ok(value) => expected == Ok::<T, ConfigErrorView>(value),
        Err(fault) => expected == Err::<T, ConfigErrorView>(fault@),
    }
}

/// Reads `value` as a size, naming `field` in the error.
pub fn parse_size(value: String, field: &'static str) -> (r: Result<MemSize, ConfigError>)
    ensures
        agrees(r, read_size(value@, field@)),
{
    match MemSize::parse(value.as_str()) {
        Ok(size) => Ok(size),
        Err(source) => Err(ConfigError::Size { field, value, source }),
    }
}

/// Reads `value` as a duration, naming `field` in the error.
pub fn parse_duration(value: String, field: &'static str) -> (r: Result<UpDuration, ConfigError>)
    ensures
        agrees(r, read_duration(value@, field@)),
{
    match UpDuration::parse(value.as_str()) {
        Ok(duration) => Ok(duration),
        Err(source) => Err(ConfigError::Duration { field, value, source }),
    }
}

impl Config {
    /// Understands the body of the `[log-rotate]` table.
    ///
    /// `parsed` is what a TOML reader made of the text: the section, or why
    /// the text is no such section. A section with nothing in it is the
    /// ordinary case, and gets every default.
    pub fn from_toml(parsed: Result<Section, String>) -> (r: Result<Self, ConfigError>)
        ensures
            match parsed {
                Ok(section) => agrees(r, configured(section)),
                Err(message) => r matches Err(fault) && fault@ == ConfigErrorView::Toml(message@),
            },
            r matches Ok(config) ==> config.keep >= 1 && config.interval.millis > 0,
    {
        let raw = match parsed {
            Ok(section) => section,
            Err(message) => {
                return Err(ConfigError::Toml(message));
            },
        };
        let defaults = Config::default();
        let interval = match raw.interval {
            Some(value) => match parse_duration(value, "interval") {
                Ok(interval) => interval,
                Err(fault) => {
                    return Err(fault);
                },
            },
            None => defaults.interval,
        };
        if interval.as_millis() == 0 {
            return Err(ConfigError::Interval);
        }
        let max_size = match raw.max_size {
            Some(value) => match parse_size(value, "max_size") {
                Ok(size) => size,
                Err(fault) => {
                    return Err(fault);
                },
            },
            None => defaults.max_size,
        };
        let max_age = match raw.max_age {
            Some(value) => match parse_duration(value, "max_age") {
                Ok(age) => Some(age),
                Err(fault) => {
                    return Err(fault);
                },
            },
            None => None,
        };
        let keep: usize = match raw.keep {
            Some(keep) => {
                if keep == 0 {
                    return Err(ConfigError::Keep);
                }
                keep
            },
            None => defaults.keep,
        };
        let naming = match raw.naming {
            Some(value) => {
                if same(value.as_str(), "dated") {
                    Naming::Dated
                } else if same(value.as_str(), "numeric") {
                    Naming::Numeric
                } else {
                    return Err(ConfigError::Naming(value));
                }
            },
            None => defaults.naming,
        };
        let compress = match raw.compress {
            Some(compress) => compress,
            None => defaults.compress,
        };
        Ok(Config { max_size, max_age, keep, naming, compress, interval })
    }
}

/// An empty section is a working configuration: every default.
pub proof fn an_empty_section_is_the_defaults(section: Section)
    requires
        section.max_size is None,
        section.max_age is None,
        section.keep is None,
        section.naming is None,
        section.compress is None,
        section.interval is None,
    ensures
        configured(section) == Ok::<Config, ConfigErrorView>(default_config()),
{
}

/// No section is understood as a configuration that would delete every
/// rotation as it was made, or that would poll without pause.
pub proof fn no_section_keeps_nothing_or_never_waits(section: Section)
    ensures
        configured(section) matches Ok(config) ==> config.keep >= 1 && config.interval.millis > 0,
{
}

/// A commented block naming every option and its default, for
/// `shep-log-rotate --print-config`.
///
/// Every line but the header is commented, so appending it to `dogs.toml`
/// changes nothing until the operator uncomments a line.
pub const PRINT_CONFIG: &'static str = r#"[log-rotate]
# Rotate a log once it reaches this size. shep's spelling: 10M, not 10MB.
#max_size = "10M"
# Optionally also rotate this long after the last rotation, whatever the
# size. A log never rotated counts from when it appeared, or from its last
# write where the filesystem keeps no birth time. Unset means size only.
# shep's UpDuration has no day unit: spell a week as hours, not "7d".
#max_age = "168h"
# Generations to keep. Older ones are deleted. Must be at least 1.
#keep = 5
# "dated" writes web-0-out.2026-08-20T15-04-05.log, in UTC, and still
# matches *.log. "numeric" writes web-0-out.log.1 and shifts on every
# rotation, the logrotate convention. Switching does not migrate existing
# files: they stop being pruned and are left for you.
#naming = "dated"
# gzip rotated generations. The newest is left plain so it stays greppable.
#compress = true
# How often to look. Must be above 0.
#interval = "60s"
"#;

/// Every setting is read for itself: what one means does not depend on another,
/// and each that is not there is its default.
pub proof fn every_setting_is_read_for_itself(section: Section)
    ensures
        configured(section) matches Ok(config) ==> {
            &&& match section.interval {
                Some(value) => up_duration(value@) == Ok::<u64, Fault>(config.interval.millis)
                    && config.interval.millis > 0,
                None => config.interval.millis == 60_000,
            }
            &&& match section.max_size {
                Some(value) => mem_size(value@) == Ok::<u64, Fault>(config.max_size.bytes),
                None => config.max_size.bytes == 10 * 1024 * 1024,
            }
            &&& match section.max_age {
                Some(value) => config.max_age is Some && up_duration(value@) == Ok::<u64, Fault>(
                    config.max_age->0.millis,
                ),
                None => config.max_age is None,
            }
            &&& match section.keep {
                Some(keep) => config.keep == keep && keep > 0,
                None => config.keep == 5,
            }
            &&& match section.naming {
                Some(value) => (value@ == "dated"@ && config.naming == Naming::Dated) || (value@
                    == "numeric"@ && config.naming == Naming::Numeric),
                None => config.naming == Naming::Dated,
            }
            &&& match section.compress {
                Some(compress) => config.compress == compress,
                None => config.compress,
            }
        },
{
}

/// The first setting that makes no sense is told, in the order `interval`,
/// `max_size`, `max_age`, `keep`, `naming`, with its name and what was written
/// there; and a section all of whose settings make sense is understood.
pub proof fn the_first_setting_that_makes_no_sense_is_told(section: Section)
    ensures
        ({
            let r = configured(section);
            if section.interval is Some && up_duration(section.interval->0@) is Err {
                &&& r is Err
                &&& r->Err_0 matches ConfigErrorView::Duration { field, value, source }
                &&& field == "interval"@ && value == section.interval->0@ && source
                    == up_duration_fault(up_duration(section.interval->0@)->Err_0)
            } else if section.interval is Some && up_duration(section.interval->0@)->Ok_0 == 0 {
                r is Err && r->Err_0 is Interval
            } else if section.max_size is Some && mem_size(section.max_size->0@) is Err {
                &&& r is Err
                &&& r->Err_0 matches ConfigErrorView::Size { field, value, source }
                &&& field == "max_size"@ && value == section.max_size->0@ && source
                    == mem_size_fault(mem_size(section.max_size->0@)->Err_0)
            } else if section.max_age is Some && up_duration(section.max_age->0@) is Err {
                &&& r is Err
                &&& r->Err_0 matches ConfigErrorView::Duration { field, value, source }
                &&& field == "max_age"@ && value == section.max_age->0@ && source
                    == up_duration_fault(up_duration(section.max_age->0@)->Err_0)
            } else if section.keep == Some(0usize) {
                r is Err && r->Err_0 is Keep
            } else if section.naming is Some && section.naming->0@ != "dated"@
                && section.naming->0@ != "numeric"@ {
                &&& r is Err
                &&& r->Err_0 matches ConfigErrorView::Naming(value)
                &&& value == section.naming->0@
            } else {
                r is Ok
            }
        }),
{
}

/// A fault in a size or a duration names the setting, quotes what was written
/// there, and ends in why it is refused.
pub proof fn a_fault_in_a_quantity_quotes_it(
    field: Seq<char>,
    value: Seq<char>,
    source: Seq<char>,
)
    ensures
        ({
            let size = (ConfigErrorView::Size { field, value, source }).shown();
            &&& size.take(field.len() as int) == field
            &&& has_text(size, value)
            &&& size.skip(size.len() - source.len()) == source
        }),
        ({
            let duration = (ConfigErrorView::Duration { field, value, source }).shown();
            &&& duration.take(field.len() as int) == field
            &&& has_text(duration, value)
            &&& duration.skip(duration.len() - source.len()) == source
        }),
{
    quotes(field, " = \""@, value, "\" is not a size shep accepts: "@, source);
    quotes(field, " = \""@, value, "\" is not a duration shep accepts: "@, source);
}

/// What stands in a line of five parts: the first of them at its start, the third
/// within it, and the last at its end.
proof fn quotes(a: Seq<char>, b: Seq<char>, c: Seq<char>, d: Seq<char>, e: Seq<char>)
    ensures
        ({
            let line = a + b + c + d + e;
            &&& line.take(a.len() as int) == a
            &&& has_text(line, c)
            &&& line.skip(line.len() - e.len()) == e
        }),
{
    let line = a + b + c + d + e;
    assert(line.take(a.len() as int) =~= a);
    assert(line.skip(line.len() - e.len()) =~= e);
    has_text_between(a + b, c, d + e);
    assert(line =~= a + b + c + (d + e));
}

/// A result agrees with what is expected if and only if it is that, its error
/// character by character.
pub proof fn agreeing_is_being_the_same(
    value: MemSize,
    fault: ConfigError,
    expected: Result<MemSize, ConfigErrorView>,
)
    ensures
        agrees(Ok(value), expected) <==> expected == Ok::<MemSize, ConfigErrorView>(value),
        agrees(Err(fault), expected) <==> expected == Err::<MemSize, ConfigErrorView>(fault@),
{
}

/// What is wrong with a setting is said in words that fit its kind, whatever was
/// written there.
pub proof fn a_fault_in_a_section_says_which_kind_it_is(
    field: Seq<char>,
    value: Seq<char>,
    source: Seq<char>,
)
    ensures
        ConfigErrorView::Toml(source).shown() == "invalid TOML: "@ + source,
        (ConfigErrorView::Size { field, value, source }).shown() == field + " = \""@ + value
            + "\" is not a size shep accepts: "@ + source,
        (ConfigErrorView::Duration { field, value, source }).shown() == field + " = \""@ + value
            + "\" is not a duration shep accepts: "@ + source,
        ConfigErrorView::Naming(value).shown() == "naming = \""@ + value
            + "\" is not a naming scheme; use \"dated\" or \"numeric\""@,
        ConfigErrorView::Keep.shown()
            == "keep = 0 would delete every rotation the moment it was made; keep must be at least 1"@,
        ConfigErrorView::Interval.shown()
            == "interval = 0 would ask the shepherd without pause; interval must be above 0"@,
{
}

} // verus!
