//! Typed requests and the rules that turn a command name and its arguments
//! into one.
use vstd::prelude::*;
use crate::text::{parse_u64, same_text, u64_of_numeral};
use vstd::string::StringExecFns;
use vstd::utf8::encode_utf8;

verus! {

/// A request understood by the server.
#[derive(Debug, Clone, PartialEq, Eq)]
pub enum Command {
    Ping,
    Echo(String),
    Get(String),
    /// Key, value and an optional time to live in milliseconds.
    SetValue(String, String, Option<u64>),
}

/// Why a frame could not be turned into a [`Command`].
#[derive(Debug, Clone, PartialEq, Eq)]
pub enum ParseError {
    /// The named command was given the wrong number of arguments.
    WrongArity(String),
    /// The (lower-cased) command name is not one the server knows.
    UnknownCommand(String),
    /// A `set` modifier is malformed.
    Syntax,
    /// The frame is not valid UTF-8 text.
    NotUtf8,
    /// No command name survives tokenization.
    NoCommand,
}

/// The mathematical form of a [`Command`]: strings as character sequences.
pub enum CommandView {
    Ping,
    Echo(Seq<char>),
    Get(Seq<char>),
    SetValue(Seq<char>, Seq<char>, Option<u64>),
}

/// The mathematical form of a [`ParseError`].
pub enum ParseErrorView {
    WrongArity(Seq<char>),
    UnknownCommand(Seq<char>),
    Syntax,
    NotUtf8,
    NoCommand,
}

impl View for Command {
    type V = CommandView;

    open spec fn view(&self) -> CommandView {
        match self {
            Command::Ping => CommandView::Ping,
            Command::Echo(m) => CommandView::Echo(m@),
            Command::Get(k) => CommandView::Get(k@),
            Command::SetValue(k, v, t) => CommandView::SetValue(k@, v@, *t),
        }
    }
}

impl View for ParseError {
    type V = ParseErrorView;

    open spec fn view(&self) -> ParseErrorView {
        match self {
            ParseError::WrongArity(n) => ParseErrorView::WrongArity(n@),
            ParseError::UnknownCommand(n) => ParseErrorView::UnknownCommand(n@),
            ParseError::Syntax => ParseErrorView::Syntax,
            ParseError::NotUtf8 => ParseErrorView::NotUtf8,
            ParseError::NoCommand => ParseErrorView::NoCommand,
        }
    }
}

/// The view of a parse outcome.
pub open spec fn outcome_view(r: Result<Command, ParseError>) -> Result<CommandView, ParseErrorView> {
    match r {
        Ok(c) => Ok(c@),
        Err(e) => Err(e@),
    }
}

/// The character sequences of a list of strings.
pub open spec fn texts(v: Seq<String>) -> Seq<Seq<char>> {
    v.map_values(|s: String| s@)
}

/// The command that a lower-cased name and its arguments denote.
///
/// `ping` ignores arguments; `echo` and `get` take exactly one; `set` takes a
/// key and a value, then optionally the literal `px` and a millisecond count.
/// Tokens after that count are ignored.
pub open spec fn command_of(name: Seq<char>, args: Seq<Seq<char>>) -> Result<CommandView, ParseErrorView> {
    if name == "ping"@ {
        Ok(CommandView::Ping)
    } else if name == "echo"@ {
        if args.len() == 1 {
            Ok(CommandView::Echo(args[0]))
        } else {
            Err(ParseErrorView::WrongArity("echo"@))
        }
    } else if name == "get"@ {
        if args.len() == 1 {
            Ok(CommandView::Get(args[0]))
        } else {
            Err(ParseErrorView::WrongArity("get"@))
        }
    } else if name == "set"@ {
        if args.len() < 2 {
            Err(ParseErrorView::WrongArity("set"@))
        } else if args.len() == 2 {
            Ok(CommandView::SetValue(args[0], args[1], None))
        } else if args[2] != "px"@ || args.len() == 3 {
            Err(ParseErrorView::Syntax)
        } else {
            match u64_of_numeral(encode_utf8(args[3])) {
                Some(ms) => Ok(CommandView::SetValue(args[0], args[1], Some(ms))),
                None => Err(ParseErrorView::Syntax),
            }
        }
    } else {
        Err(ParseErrorView::UnknownCommand(name))
    }
}

/// Builds the command named by `name` (already lower-cased) from `args`.
pub fn dispatch(name: &str, args: &Vec<String>) -> (r: Result<Command, ParseError>)
    ensures
        outcome_view(r) == command_of(name@, texts(args@)),
{
    let ghost a = texts(args@);
    assert(a.len() == args.len());
    assert(forall|i: int| 0 <= i < args.len() ==> #[trigger] a[i] == args@[i]@);
    if same_text(name, "ping") {
        Ok(Command::Ping)
    } else if same_text(name, "echo") {
        if args.len() == 1 {
            Ok(Command::Echo(args[0].clone()))
        } else {
            Err(ParseError::WrongArity(String::from_str("echo")))
        }
    } else if same_text(name, "get") {
        if args.len() == 1 {
            Ok(Command::Get(args[0].clone()))
        } else {
            Err(ParseError::WrongArity(String::from_str("get")))
        }
    } else if same_text(name, "set") {
        if args.len() < 2 {
            Err(ParseError::WrongArity(String::from_str("set")))
        } else if args.len() == 2 {
            Ok(Command::SetValue(args[0].clone(), args[1].clone(), None))
        } else if !same_text(args[2].as_str(), "px") || args.len() == 3 {
            Err(ParseError::Syntax)
        } else {
            match parse_u64(args[3].as_str().as_bytes()) {
                Some(ms) => Ok(Command::SetValue(args[0].clone(), args[1].clone(), Some(ms))),
                None => Err(ParseError::Syntax),
            }
        }
    } else {
        Err(ParseError::UnknownCommand(String::from_str(name)))
    }
}


/// The text of the error reply for a parse error.
pub open spec fn message_of(e: ParseErrorView) -> Seq<char> {
    match e {
        ParseErrorView::WrongArity(n) => "ERR wrong number of arguments for '"@ + n + "' command"@,
        ParseErrorView::UnknownCommand(n) => "Invalid command: "@ + n,
        ParseErrorView::Syntax => "ERR syntax error"@,
        ParseErrorView::NotUtf8 => "ERR request is not valid UTF-8"@,
        ParseErrorView::NoCommand => "ERR request holds no command"@,
    }
}

impl ParseError {
    /// The text of the error reply for this error.
    pub fn message(&self) -> (r: String)
        ensures
            r@ == message_of(self@),
    {
        match self {
            ParseError::WrongArity(n) => {
                let mut m = String::from_str("ERR wrong number of arguments for '");
                m.append(n.as_str());
                m.append("' command");
                m
            },
            ParseError::UnknownCommand(n) => {
                let mut m = String::from_str("Invalid command: ");
                m.append(n.as_str());
                m
            },
            ParseError::Syntax => String::from_str("ERR syntax error"),
            ParseError::NotUtf8 => String::from_str("ERR request is not valid UTF-8"),
            ParseError::NoCommand => String::from_str("ERR request holds no command"),
        }
    }

    /// Whether the frame was unusable as a request at all, so that the
    /// connection is closed without a reply.
    pub fn is_fatal(&self) -> (r: bool)
        ensures
            r == (self@ is NotUtf8 || self@ is NoCommand),
    {
        match self {
            ParseError::NotUtf8 | ParseError::NoCommand => true,
            _ => false,
        }
    }
}


pub(crate) proof fn lemma_names_differ()
    ensures
        "echo"@ != "ping"@,
        "get"@ != "ping"@,
        "get"@ != "echo"@,
        "set"@ != "ping"@,
        "set"@ != "echo"@,
        "set"@ != "get"@,
{
    reveal_strlit("ping");
    reveal_strlit("echo");
    reveal_strlit("get");
    reveal_strlit("set");
    assert("echo"@[0] != "ping"@[0]);
    assert("get"@.len() != "ping"@.len());
    assert("get"@.len() != "echo"@.len());
    assert("set"@.len() != "ping"@.len());
    assert("set"@.len() != "echo"@.len());
    assert("set"@[0] != "get"@[0]);
}

/// `echo` and `get` with other than one argument, and `set` with fewer than
/// two, are arity errors naming the command.
pub proof fn lemma_arity_errors(args: Seq<Seq<char>>)
    ensures
        args.len() != 1 ==> command_of("echo"@, args) == Err::<CommandView, _>(
            ParseErrorView::WrongArity("echo"@),
        ),
        args.len() != 1 ==> command_of("get"@, args) == Err::<CommandView, _>(
            ParseErrorView::WrongArity("get"@),
        ),
        args.len() < 2 ==> command_of("set"@, args) == Err::<CommandView, _>(
            ParseErrorView::WrongArity("set"@),
        ),
{
    lemma_names_differ();
}

/// A `set` whose third argument is not `px`, or whose `px` is not followed by
/// a numeral that fits in 64 bits, is a syntax error.
pub proof fn lemma_set_syntax_errors(k: Seq<char>, v: Seq<char>, rest: Seq<Seq<char>>)
    ensures
        rest.len() > 0 && rest[0] != "px"@ ==> command_of("set"@, seq![k, v] + rest)
            == Err::<CommandView, _>(ParseErrorView::Syntax),
        rest.len() == 1 ==> command_of("set"@, seq![k, v] + rest) == Err::<CommandView, _>(
            ParseErrorView::Syntax,
        ),
        rest.len() >= 2 && u64_of_numeral(encode_utf8(rest[1])) is None ==> command_of(
            "set"@,
            seq![k, v] + rest,
        ) == Err::<CommandView, _>(ParseErrorView::Syntax),
{
    lemma_names_differ();
    let a = seq![k, v] + rest;
    if rest.len() > 0 {
        assert(a[2] == rest[0]);
    }
    if rest.len() > 1 {
        assert(a[3] == rest[1]);
    }
}

} // verus!
