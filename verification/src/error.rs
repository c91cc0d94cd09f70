//! One error type for the whole dog.

use vstd::prelude::*;

use crate::config::{ConfigError, ConfigErrorView};
use crate::text::{has_text, has_text_between};

verus! {

/// Anything that can go wrong in one pass of the rotator.
///
/// A fault that comes from outside this library is carried as the text that
/// an operator is shown of it.
#[derive(Debug, Clone, PartialEq, Eq)]
pub enum Error {
    /// The shepherd's socket could not be reached.
    Connect(String),
    /// A request reached the shepherd and came back an error.
    Request(String),
    /// The shepherd answered with a response this dog cannot use.
    Protocol(String),
    /// The dog's own `[<name>]` section could not be understood.
    Config {
        /// The `[<name>]` key the section was read from, in `dogs.toml`.
        section: String,
        /// What could not be understood in it.
        source: ConfigError,
    },
    /// A filesystem operation failed, naming the path it failed on.
    Io {
        /// The path being read, renamed, compressed or deleted.
        path: String,
        /// The underlying failure.
        source: String,
    },
    /// A generation counter for one log has reached `u32::MAX`, so the next
    /// rotation would need to wrap it rather than advance it.
    Exhausted {
        /// The log, or the generation file, whose next number would have
        /// wrapped.
        path: String,
    },
}

/// An [`Error`] with its strings as character sequences.
pub enum ErrorView {
    /// See [`Error::Connect`].
    Connect(Seq<char>),
    /// See [`Error::Request`].
    Request(Seq<char>),
    /// See [`Error::Protocol`].
    Protocol(Seq<char>),
    /// See [`Error::Config`].
    Config { section: Seq<char>, source: ConfigErrorView },
    /// See [`Error::Io`].
    Io { path: Seq<char>, source: Seq<char> },
    /// See [`Error::Exhausted`].
    Exhausted { path: Seq<char> },
}

impl View for Error {
    type V = ErrorView;

    open spec fn view(&self) -> ErrorView {
        match self {
            Error::Connect(err) => ErrorView::Connect(err@),
            Error::Request(err) => ErrorView::Request(err@),
            Error::Protocol(what) => ErrorView::Protocol(what@),
            Error::Config { section, source } => ErrorView::Config {
                section: section@,
                source: source@,
            },
            Error::Io { path, source } => ErrorView::Io { path: path@, source: source@ },
            Error::Exhausted { path } => ErrorView::Exhausted { path: path@ },
        }
    }
}

impl ErrorView {
    /// How the error reads on the line that an operator is shown.
    pub open spec fn shown(self) -> Seq<char> {
        match self {
            ErrorView::Connect(err) => "cannot reach the shepherd: "@ + err,
            ErrorView::Request(err) => "the shepherd refused a request: "@ + err,
            ErrorView::Protocol(what) => "unexpected answer from the shepherd: "@ + what,
            ErrorView::Config { section, source } => "bad ["@ + section + "] section: "@
                + source.shown(),
            ErrorView::Io { path, source } => path + ": "@ + source,
            ErrorView::Exhausted { path } => path
                + ": no generation numbers left to rotate into"@,
        }
    }

    /// How the cause of the error reads, for an error that has one.
    pub open spec fn cause(self) -> Option<Seq<char>> {
        match self {
            ErrorView::Connect(err) => Some(err),
            ErrorView::Request(err) => Some(err),
            ErrorView::Config { source, .. } => Some(source.shown()),
            ErrorView::Io { source, .. } => Some(source),
            ErrorView::Protocol(_) => None,
            ErrorView::Exhausted { .. } => None,
        }
    }
}

impl Error {
    /// The [`Error::Io`] that a failed call on `path` maps to.
    ///
    /// One definition of which path a failure is reported against. The path
    /// is whichever one the operator is most likely to go looking for on
    /// disk.
    pub fn io_at(path: &str, source: String) -> (r: Self)
        ensures
            r@ == (ErrorView::Io { path: path@, source: source@ }),
    {
        Error::Io { path: path.to_owned(), source }
    }

    /// The [`Error::Config`] that a section called `section` comes to.
    ///
    /// Named at the point of failure: the section is `[<name>]` for whatever
    /// this dog was adopted as.
    pub fn bad_section(section: &str, source: ConfigError) -> (r: Self)
        ensures
            r@ == (ErrorView::Config { section: section@, source: source@ }),
    {
        Error::Config { section: section.to_owned(), source }
    }

    /// The error in words.
    pub fn to_string(&self) -> (s: String)
        ensures
            s@ == self@.shown(),
    {
        match self {
            Error::Connect(err) => {
                let mut s = "cannot reach the shepherd: ".to_owned();
                s.append(err.as_str());
                s
            },
            Error::Request(err) => {
                let mut s = "the shepherd refused a request: ".to_owned();
                s.append(err.as_str());
                s
            },
            Error::Protocol(what) => {
                let mut s = "unexpected answer from the shepherd: ".to_owned();
                s.append(what.as_str());
                s
            },
            Error::Config { section, source } => {
                let mut s = "bad [".to_owned();
                s.append(section.as_str());
                s.append("] section: ");
                s.append(source.to_string().as_str());
                s
            },
            Error::Io { path, source } => {
                let mut s = path.clone();
                s.append(": ");
                s.append(source.as_str());
                s
            },
            Error::Exhausted { path } => {
                let mut s = path.clone();
                s.append(": no generation numbers left to rotate into");
                s
            },
        }
    }

    /// The cause of the error in words, for an error that has one.
    pub fn source(&self) -> (r: Option<String>)
        ensures
            match r {
                Some(text) => self@.cause() == Some(text@),
                None => self@.cause() is None,
            },
    {
        match self {
            Error::Connect(err) => Some(err.clone()),
            Error::Request(err) => Some(err.clone()),
            Error::Config { source, .. } => Some(source.to_string()),
            Error::Io { source, .. } => Some(source.clone()),
            Error::Protocol(_) => None,
            Error::Exhausted { .. } => None,
        }
    }
}

/// What an operator is shown of an error ends in what is at its root, and names
/// the section or the path that it is about.
pub proof fn an_error_shows_what_it_carries(
    name: Seq<char>,
    text: Seq<char>,
    source: ConfigErrorView,
)
    ensures
        ({
            let ends = |line: Seq<char>, rest: Seq<char>|
                line.len() > rest.len() && line.skip(line.len() - rest.len()) == rest;
            let starts = |line: Seq<char>, start: Seq<char>|
                line.len() > start.len() && line.take(start.len() as int) == start;
            &&& ends(ErrorView::Connect(text).shown(), text)
            &&& ends(ErrorView::Request(text).shown(), text)
            &&& ends(ErrorView::Protocol(text).shown(), text)
            &&& ends((ErrorView::Config { section: name, source }).shown(), source.shown())
            &&& has_text(
                (ErrorView::Config { section: name, source }).shown(),
                seq!['['] + name + seq![']'],
            )
            &&& starts((ErrorView::Io { path: name, source: text }).shown(), name)
            &&& ends((ErrorView::Io { path: name, source: text }).shown(), text)
            &&& starts((ErrorView::Exhausted { path: name }).shown(), name)
        }),
{
    reveal_strlit("cannot reach the shepherd: ");
    reveal_strlit("the shepherd refused a request: ");
    reveal_strlit("unexpected answer from the shepherd: ");
    reveal_strlit("bad [");
    reveal_strlit("] section: ");
    reveal_strlit(": ");
    reveal_strlit(": no generation numbers left to rotate into");
    let connect = ErrorView::Connect(text).shown();
    assert(connect.skip(connect.len() - text.len()) =~= text);
    let request = ErrorView::Request(text).shown();
    assert(request.skip(request.len() - text.len()) =~= text);
    let protocol = ErrorView::Protocol(text).shown();
    assert(protocol.skip(protocol.len() - text.len()) =~= text);
    let config = (ErrorView::Config { section: name, source }).shown();
    assert(config.skip(config.len() - source.shown().len()) =~= source.shown());
    let tail = "] section: "@.skip(1) + source.shown();
    has_text_between("bad "@, seq!['['] + name + seq![']'], tail);
    reveal_strlit("bad ");
    assert(config =~= "bad "@ + (seq!['['] + name + seq![']']) + tail);
    let io = (ErrorView::Io { path: name, source: text }).shown();
    assert(io.take(name.len() as int) =~= name);
    assert(io.skip(io.len() - text.len()) =~= text);
    let exhausted = (ErrorView::Exhausted { path: name }).shown();
    assert(exhausted.take(name.len() as int) =~= name);
}

/// An error has a cause if and only if something outside this dog brought it
/// about, and the cause is what the error carries of it.
pub proof fn an_error_from_outside_has_a_cause(
    name: Seq<char>,
    text: Seq<char>,
    source: ConfigErrorView,
)
    ensures
        ErrorView::Connect(text).cause() == Some(text),
        ErrorView::Request(text).cause() == Some(text),
        (ErrorView::Io { path: name, source: text }).cause() == Some(text),
        (ErrorView::Config { section: name, source }).cause() == Some(source.shown()),
        ErrorView::Protocol(text).cause() is None,
        (ErrorView::Exhausted { path: name }).cause() is None,
{
}

/// Which kind of error it is is said in words that no other kind starts with,
/// and the words are the same whatever the error carries.
pub proof fn an_error_says_which_kind_it_is(
    name: Seq<char>,
    text: Seq<char>,
    source: ConfigErrorView,
)
    ensures
        ErrorView::Connect(text).shown() == "cannot reach the shepherd: "@ + text,
        ErrorView::Request(text).shown() == "the shepherd refused a request: "@ + text,
        ErrorView::Protocol(text).shown() == "unexpected answer from the shepherd: "@ + text,
        (ErrorView::Config { section: name, source }).shown() == "bad ["@ + name + "] section: "@
            + source.shown(),
        (ErrorView::Io { path: name, source: text }).shown() == name + ": "@ + text,
        (ErrorView::Exhausted { path: name }).shown() == name
            + ": no generation numbers left to rotate into"@,
{
}

} // verus!
