//! What the shepherd answers, and which answers can be used.

use vstd::prelude::*;

use crate::error::{Error, ErrorView};
use crate::flock::Sheep;
use crate::text::{chars_of, decimal, has_text, has_text_between, numeral, string_of};

verus! {

/// An answer of the shepherd's, as far as this dog tells answers apart.
#[derive(Debug, PartialEq, Eq)]
pub enum Answer {
    /// It is there.
    Pong,
    /// The whole flock.
    Flock(Vec<Sheep>),
    /// A dog's section of `dogs.toml`, as it is written there.
    DogSection(String),
    /// So many sheep have reopened their logs.
    Reopened(usize),
    /// Anything else, as a debug listing prints it.
    Other(String),
}

/// How many characters of an answer that has no name of its own are shown.
pub const SHOWN: usize = 60;

/// The first characters of `text`, so many as are shown.
pub open spec fn shortened(text: Seq<char>) -> Seq<char> {
    if text.len() <= SHOWN {
        text
    } else {
        text.take(SHOWN as int)
    }
}

/// The name of an answer, without its body: a listing can be long, and a
/// section can hold credentials.
pub open spec fn name_of_answer(answer: Answer) -> Seq<char> {
    match answer {
        Answer::Pong => "Pong"@,
        Answer::Flock(flock) => "a Flock of "@ + numeral(flock@.len()),
        Answer::DogSection(_) => "a DogSection"@,
        Answer::Reopened(count) => "a Reopened of "@ + numeral(count as nat),
        Answer::Other(text) => shortened(text@),
    }
}

/// Names an answer without printing its body.
pub fn named(answer: &Answer) -> (s: String)
    ensures
        s@ == name_of_answer(*answer),
{
    match answer {
        Answer::Pong => "Pong".to_owned(),
        Answer::Flock(flock) => {
            let mut s = "a Flock of ".to_owned();
            s.append(decimal(flock.len() as u64).as_str());
            s
        },
        Answer::DogSection(_) => "a DogSection".to_owned(),
        Answer::Reopened(count) => {
            let mut s = "a Reopened of ".to_owned();
            s.append(decimal(*count as u64).as_str());
            s
        },
        Answer::Other(text) => {
            let chars = chars_of(text.as_str());
            if chars.len() <= SHOWN {
                text.clone()
            } else {
                let s = string_of(&chars, 0, SHOWN);
                proof {
                    assert(s@ =~= text@.take(SHOWN as int));
                }
                s
            }
        },
    }
}

/// The error that an answer is which does not fit what was asked.
pub open spec fn misfit(asked: Seq<char>, got: Answer) -> ErrorView {
    ErrorView::Protocol(name_of_answer(got) + " in answer to "@ + asked)
}

/// The shepherd answered something this dog cannot use.
pub fn unexpected(asked: &str, got: &Answer) -> (r: Error)
    ensures
        r@ == misfit(asked@, *got),
{
    let mut s = named(got);
    s.append(" in answer to ");
    s.append(asked);
    Error::Protocol(s)
}

/// The section, if that is what was answered.
pub fn dog_config(answer: Answer) -> (r: Result<String, Error>)
    ensures
        match answer {
            Answer::DogSection(section) => r == Ok::<String, Error>(section),
            _ => r matches Err(err) && err@ == misfit("DogConfig"@, answer),
        },
{
    match answer {
        Answer::DogSection(section) => Ok(section),
        other => Err(unexpected("DogConfig", &other)),
    }
}

/// The flock, if that is what was answered.
pub fn list_flock(answer: Answer) -> (r: Result<Vec<Sheep>, Error>)
    ensures
        match answer {
            Answer::Flock(flock) => r == Ok::<Vec<Sheep>, Error>(flock),
            _ => r matches Err(err) && err@ == misfit("ListFlock"@, answer),
        },
{
    match answer {
        Answer::Flock(flock) => Ok(flock),
        other => Err(unexpected("ListFlock", &other)),
    }
}

/// Whether the sheep that were asked have reopened their logs.
pub fn reopen(answer: Answer) -> (r: Result<(), Error>)
    ensures
        match answer {
            Answer::Reopened(_) => r is Ok,
            _ => r matches Err(err) && err@ == misfit("Reopen"@, answer),
        },
{
    match answer {
        Answer::Reopened(_) => Ok(()),
        other => Err(unexpected("Reopen", &other)),
    }
}

/// No error shows anything of a section, which can hold credentials.
pub proof fn no_error_shows_a_section(asked: Seq<char>, a: String, b: String)
    ensures
        misfit(asked, Answer::DogSection(a)) == misfit(asked, Answer::DogSection(b)),
{
}

/// No error shows more than a line of an answer.
pub proof fn no_error_shows_a_listing(asked: Seq<char>, text: String)
    ensures
        misfit(asked, Answer::Other(text)) matches ErrorView::Protocol(shown) && shown.len()
            <= SHOWN + " in answer to "@.len() + asked.len(),
{
}

/// An answer that has a name is named by it, with its count where it has one; of
/// any other the first sixty characters are shown.
pub proof fn an_answer_is_named(answer: Answer)
    ensures
        match answer {
            Answer::Pong => name_of_answer(answer) == "Pong"@,
            Answer::Flock(flock) => name_of_answer(answer) == "a Flock of "@ + numeral(
                flock@.len(),
            ),
            Answer::DogSection(_) => name_of_answer(answer) == "a DogSection"@,
            Answer::Reopened(count) => name_of_answer(answer) == "a Reopened of "@ + numeral(
                count as nat,
            ),
            Answer::Other(text) => if text@.len() <= 60 {
                name_of_answer(answer) == text@
            } else {
                name_of_answer(answer) == text@.take(60)
            },
        },
{
}

/// The error for an answer that does not fit says what was answered and what
/// had been asked.
pub proof fn a_misfit_names_question_and_answer(asked: Seq<char>, got: Answer)
    ensures
        misfit(asked, got) matches ErrorView::Protocol(shown) && {
            &&& shown.take(name_of_answer(got).len() as int) == name_of_answer(got)
            &&& shown.skip(shown.len() - asked.len()) == asked
            &&& has_text(shown, " in answer to "@)
        },
{
    let shown = name_of_answer(got) + " in answer to "@ + asked;
    assert(shown.take(name_of_answer(got).len() as int) =~= name_of_answer(got));
    assert(shown.skip(shown.len() - asked.len()) =~= asked);
    has_text_between(name_of_answer(got), " in answer to "@, asked);
}

} // verus!
