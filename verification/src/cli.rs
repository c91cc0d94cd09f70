//! What the process is asked to do, and who it is.

use vstd::prelude::*;

use crate::text::{has_text, has_text_between, same};

verus! {

/// The `[<name>]` section to read when nothing adopted this process and
/// somebody is running the binary by hand. It is never announced in the
/// handshake.
pub const DEFAULT_NAME: &'static str = "log-rotate";

/// Everything this binary accepts, printed when it is handed anything else.
pub const USAGE: &'static str = "shep-log-rotate: a log-rotation dog for shep.

Usage:
  shep-log-rotate                 Run the poll loop. This is what the
                                  shepherd runs after `shep adopt`.
  shep-log-rotate --print-config  Print a commented [log-rotate] block for
                                  dogs.toml naming every option and its
                                  default, then exit.
  shep-log-rotate --version       Print the build and the protocol version
                                  it speaks, then exit.
  shep-log-rotate --schema        Print a JSON Schema for the [log-rotate]
                                  section, then exit.

The last two are what `shep adopt` asks this binary, and they are answered
only as the first argument, which is the only one shep passes.

Settings are read from `dogs.toml` over the shepherd's own socket, never
from this process's arguments. The environment supplies two things and no
more: $SHEP_HOME names the socket, and $SHEP_DOG_NAME names the dog. The
shepherd sets both when it spawns this dog.";

/// What this process was asked to do.
#[derive(Debug, Clone, Copy, PartialEq, Eq, Structural)]
pub enum Action {
    /// Run the poll loop until the shepherd stops this process.
    Run,
    /// Print the commented configuration block and exit.
    PrintConfig,
}

/// An argument this binary does not accept.
///
/// Carries the whole answer, [`USAGE`] included, so a caller prints one thing
/// and is done.
#[derive(Debug, Clone, PartialEq, Eq)]
pub struct Usage(String);

impl View for Usage {
    type V = Seq<char>;

    closed spec fn view(&self) -> Seq<char> {
        self.0@
    }
}

impl Usage {
    /// The answer in words: what was wrong, and how this binary is used.
    pub fn to_string(&self) -> (s: String)
        ensures
            s@ == self@ + "\n\n"@ + USAGE@,
    {
        let mut s = self.0.clone();
        s.append("\n\n");
        s.append(USAGE);
        s
    }
}

/// What is said of an argument that is not accepted. One that is answered in
/// first position is told where it belongs.
pub open spec fn complaint(arg: Seq<char>) -> Seq<char> {
    if arg == "--help"@ || arg == "-h"@ {
        "shep-log-rotate takes no options."@
    } else if arg == "--version"@ || arg == "--schema"@ {
        "shep-log-rotate answers "@ + arg
            + " as its first argument only, which is where the shepherd asks it."@
    } else {
        "shep-log-rotate does not understand "@ + arg + "."@
    }
}

/// The first argument that is not accepted.
pub open spec fn first_refused(args: Seq<&str>) -> Option<Seq<char>>
    decreases args.len(),
{
    if args.len() == 0 {
        None
    } else {
        match first_refused(args.drop_last()) {
            Some(arg) => Some(arg),
            None => if args.last()@ == "--print-config"@ {
                None
            } else {
                Some(args.last()@)
            },
        }
    }
}

/// What is refused among the first few is refused among all.
proof fn refused_stays_refused(args: Seq<&str>, n: int)
    requires
        0 <= n <= args.len(),
        first_refused(args.take(n)) is Some,
    ensures
        first_refused(args) == first_refused(args.take(n)),
    decreases args.len(),
{
    if n == args.len() {
        assert(args.take(n) =~= args);
    } else {
        assert(args.drop_last().take(n) =~= args.take(n));
        refused_stays_refused(args.drop_last(), n);
    }
}

impl Action {
    /// Reads the arguments, which do not include the program name.
    ///
    /// Unknown flags are refused rather than ignored: a rotator silently
    /// ignoring `--dry-run` would rotate for real. A repeated `--print-config`
    /// is accepted, since it names the same action however many times it is
    /// given.
    pub fn parse(args: &[&str]) -> (r: Result<Self, Usage>)
        ensures
            match (r, first_refused(args@)) {
                (Ok(action), None) => action == if args@.len() == 0 {
                    Action::Run
                } else {
                    Action::PrintConfig
                },
                (Err(usage), Some(arg)) => usage@ == complaint(arg),
                _ => false,
            },
    {
        let mut action = Action::Run;
        let mut i: usize = 0;
        proof {
            assert(args@.take(0).len() == 0);
        }
        while i < args.len()
            invariant
                i <= args@.len(),
                first_refused(args@.take(i as int)) is None,
                action == if i == 0 {
                    Action::Run
                } else {
                    Action::PrintConfig
                },
            decreases args.len() - i,
        {
            let arg = args[i];
            proof {
                assert(args@.take(i + 1).drop_last() =~= args@.take(i as int));
                assert(args@.take(i + 1).last() == arg);
            }
            if same(arg, "--print-config") {
                action = Action::PrintConfig;
            } else {
                proof {
                    refused_stays_refused(args@, i + 1);
                }
                return Err(refuse(arg));
            }
            i += 1;
        }
        proof {
            assert(args@.take(args@.len() as int) =~= args@);
        }
        Ok(action)
    }
}

/// The refusal of an argument.
fn refuse(arg: &str) -> (r: Usage)
    ensures
        r@ == complaint(arg@),
{
    if same(arg, "--help") || same(arg, "-h") {
        Usage("shep-log-rotate takes no options.".to_owned())
    } else if same(arg, "--version") || same(arg, "--schema") {
        let mut s = "shep-log-rotate answers ".to_owned();
        s.append(arg);
        s.append(" as its first argument only, which is where the shepherd asks it.");
        Usage(s)
    } else {
        let mut s = "shep-log-rotate does not understand ".to_owned();
        s.append(arg);
        s.append(".");
        Usage(s)
    }
}

/// No argument is ignored: what is not `--print-config` is refused.
pub proof fn no_argument_is_ignored(args: Seq<&str>)
    ensures
        first_refused(args) is None <==> forall|i: int|
            0 <= i < args.len() ==> (#[trigger] args[i])@ == "--print-config"@,
    decreases args.len(),
{
    if args.len() > 0 {
        let before = args.drop_last();
        no_argument_is_ignored(before);
        assert(args[args.len() - 1] == args.last());
        assert forall|i: int| 0 <= i < before.len() implies #[trigger] args[i] == before[i] by {}
        if first_refused(args) is None {
            assert forall|i: int| 0 <= i < args.len() implies (#[trigger] args[i])@
                == "--print-config"@ by {
                if i < before.len() {
                    assert(before[i]@ == "--print-config"@);
                }
            }
        }
        if forall|i: int| 0 <= i < args.len() ==> (#[trigger] args[i])@ == "--print-config"@ {
            assert forall|i: int| 0 <= i < before.len() implies (#[trigger] before[i])@
                == "--print-config"@ by {
                assert(args[i] == before[i]);
            }
        }
    }
}

/// The two names this dog needs, and the two different places they come from.
///
/// They answer different questions, and only one of them may be guessed at.
#[derive(Debug, Clone, PartialEq, Eq)]
pub struct Identity {
    /// What to announce in the `Hello` frame, or `None` for a process no
    /// shepherd spawned. A name the shepherd did not hand out is a name it
    /// would act on anyway, so this one is never made up.
    pub handshake: Option<String>,
    /// The `[<name>]` section to read out of `dogs.toml`.
    pub section: String,
}

/// An [`Identity`] with its names as character sequences.
pub struct IdentityView {
    /// What to announce in the `Hello` frame.
    pub handshake: Option<Seq<char>>,
    /// The section to read.
    pub section: Seq<char>,
}

impl View for Identity {
    type V = IdentityView;

    open spec fn view(&self) -> IdentityView {
        IdentityView {
            handshake: match self.handshake {
                Some(name) => Some(name@),
                None => None,
            },
            section: self.section@,
        }
    }
}

/// The identity of a process in whose environment `$SHEP_DOG_NAME` is `name`.
/// An empty name reads as unset: no dog can have it.
pub open spec fn identity(name: Option<String>) -> IdentityView {
    match name {
        Some(name) => if name@.len() > 0 {
            IdentityView { handshake: Some(name@), section: name@ }
        } else {
            IdentityView { handshake: None, section: DEFAULT_NAME@ }
        },
        None => IdentityView { handshake: None, section: DEFAULT_NAME@ },
    }
}

impl Identity {
    /// Reads both names out of the environment, of which `env` looks up a
    /// variable. Only `$SHEP_DOG_NAME` is looked up.
    pub fn from_env<F: Fn(&str) -> Option<String>>(env: F) -> (r: Self)
        requires
            env.requires(("SHEP_DOG_NAME",)),
        ensures
            exists|name: Option<String>| #[trigger]
                env.ensures(("SHEP_DOG_NAME",), name) && r@ == identity(name),
    {
        Identity::from_name(env("SHEP_DOG_NAME"))
    }

    /// Both names, by what `$SHEP_DOG_NAME` is.
    pub fn from_name(name: Option<String>) -> (r: Self)
        ensures
            r@ == identity(name),
    {
        match name {
            Some(name) => {
                if same(name.as_str(), "") {
                    proof {
                        reveal_strlit("");
                    }
                    Identity { handshake: None, section: DEFAULT_NAME.to_owned() }
                } else {
                    proof {
                        reveal_strlit("");
                        assert(name@.len() > 0) by {
                            if name@.len() == 0 {
                                assert(name@ =~= ""@);
                            }
                        }
                    }
                    Identity { handshake: Some(name.clone()), section: name }
                }
            },
            None => Identity { handshake: None, section: DEFAULT_NAME.to_owned() },
        }
    }
}

/// A name that was not handed out is not announced, and one that was is the
/// name of the section too.
pub proof fn no_name_is_made_up(name: Option<String>)
    ensures
        identity(name).handshake matches Some(announced) ==> name is Some && announced == name->0@
            && identity(name).section == announced,
        identity(name).handshake is None ==> identity(name).section == DEFAULT_NAME@,
{
}

/// Where the directory comes from under which the shepherd's home is looked
/// for.
#[derive(Debug, Clone, Copy, PartialEq, Eq, Structural)]
pub enum Home {
    /// From `$HOME`.
    Known,
    /// From nowhere: `$SHEP_HOME` decides on its own.
    NotNeeded,
    /// There is none.
    Missing,
}

/// What is said where there is no home.
pub const NO_HOME: &'static str = "shep-log-rotate: neither $HOME nor $SHEP_HOME is set, so there is no shep home to find a socket in.";

/// `$SHEP_HOME` decides on its own when it is set, and `$HOME` is only needed
/// for the default it replaces.
pub fn find_home(home_is_set: bool, shep_home_is_set: bool) -> (r: Home)
    ensures
        r == Home::Known <==> home_is_set,
        r == Home::Missing <==> !home_is_set && !shep_home_is_set,
{
    if home_is_set {
        Home::Known
    } else if shep_home_is_set {
        Home::NotNeeded
    } else {
        Home::Missing
    }
}

/// The argument that is refused is the first that is not `--print-config`, and
/// no later one.
pub proof fn the_first_unknown_argument_is_refused(args: Seq<&str>, k: int)
    requires
        0 <= k < args.len(),
        args[k]@ != "--print-config"@,
        forall|i: int| 0 <= i < k ==> (#[trigger] args[i])@ == "--print-config"@,
    ensures
        first_refused(args) == Some(args[k]@),
{
    let upto = args.take(k + 1);
    let before = args.take(k);
    assert(upto.drop_last() =~= before);
    assert forall|i: int| 0 <= i < before.len() implies (#[trigger] before[i])@
        == "--print-config"@ by {
        assert(args[i] == before[i]);
    }
    no_argument_is_ignored(before);
    refused_stays_refused(args, k + 1);
}

/// A refusal quotes the argument, but for a call for help, which is no mistake;
/// and one that the shepherd asks is told that it belongs in the first place.
pub proof fn a_refusal_quotes_the_argument(arg: Seq<char>)
    ensures
        arg == "--help"@ || arg == "-h"@ ==> complaint(arg) == "shep-log-rotate takes no options."@,
        arg != "--help"@ && arg != "-h"@ ==> has_text(complaint(arg), arg),
        arg == "--version"@ || arg == "--schema"@ ==> has_text(
            complaint(arg),
            " as its first argument only"@,
        ),
        arg != "--help"@ && arg != "-h"@ && arg != "--version"@ && arg != "--schema"@ ==> complaint(
            arg,
        ) == "shep-log-rotate does not understand "@ + arg + "."@,
{
    reveal_strlit("--help");
    reveal_strlit("-h");
    reveal_strlit("--version");
    reveal_strlit("--schema");
    assert("--help"@.len() == 6 && "-h"@.len() == 2 && "--version"@.len() == 9 && "--schema"@.len()
        == 8);
    let start = "shep-log-rotate answers "@;
    let end = " as its first argument only, which is where the shepherd asks it."@;
    has_text_between(start, arg, end);
    has_text_between("shep-log-rotate does not understand "@, arg, "."@);
    reveal_strlit(" as its first argument only");
    reveal_strlit(" as its first argument only, which is where the shepherd asks it.");
    let part = " as its first argument only"@;
    let rest = end.skip(part.len() as int);
    assert(end =~= part + rest);
    has_text_between(start + arg, part, rest);
    assert(start + arg + end =~= start + arg + part + rest);
}

/// A name that was handed out is announced, and is the name of the section; an
/// empty one was not handed out.
pub proof fn a_name_that_was_handed_out_is_used(name: Option<String>)
    ensures
        name is Some && name->0@.len() > 0 ==> identity(name).handshake == Some(name->0@)
            && identity(name).section == name->0@,
        name is None || name->0@.len() == 0 ==> identity(name).handshake is None && identity(
            name,
        ).section == "log-rotate"@,
{
}

/// An argument that the shepherd asks is told where it belongs in full.
pub proof fn an_argument_out_of_place_is_told_its_place(arg: Seq<char>)
    requires
        arg == "--version"@ || arg == "--schema"@,
    ensures
        complaint(arg) == "shep-log-rotate answers "@ + arg
            + " as its first argument only, which is where the shepherd asks it."@,
{
    reveal_strlit("--help");
    reveal_strlit("-h");
    reveal_strlit("--version");
    reveal_strlit("--schema");
    assert("--help"@.len() == 6 && "-h"@.len() == 2 && "--version"@.len() == 9 && "--schema"@.len()
        == 8);
}

} // verus!
