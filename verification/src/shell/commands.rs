use vstd::prelude::*;
use vstd::string::StringSliceAdditionalSpecFns;

use super::parser::{
    MAX_INPUT_BYTES, ParseError, input_check, string_views, tokenize, tokenize_spec,
};
use crate::text::{push_char, reserve_in_string};

verus! {

/// A parsed shell command with its owned arguments.
pub enum Command {
    Help,
    Pwd,
    Cd { path: String },
    Ls { path: Option<String> },
    Cat { path: String },
    Echo { text: Vec<String> },
    Touch { path: String },
    Write { path: String, text: String },
    Append { path: String, text: String },
    Mkdir { path: String },
    Rm { path: String },
    Rmdir { path: String },
    Sync,
    Shutdown,
}

/// The words joined by single spaces.
pub open spec fn joined(words: Seq<Seq<char>>) -> Seq<char>
    decreases words.len(),
{
    if words.len() == 0 {
        Seq::empty()
    } else if words.len() == 1 {
        words[0]
    } else {
        joined(words.drop_last()) + seq![' '] + words.last()
    }
}

/// The outcome for a command that takes no arguments.
pub open spec fn no_argument_result(
    args: Seq<Seq<char>>,
    name: &'static str,
    command: Command,
    r: Result<Option<Command>, ParseError>,
) -> bool {
    if args.len() == 0 {
        r == Ok::<Option<Command>, ParseError>(Some(command))
    } else {
        r == Err::<Option<Command>, ParseError>(ParseError::Arity { command: name })
    }
}

/// Whether `c` is the one-path command `name` built from `args`, or the arity error.
pub open spec fn one_path_result(
    args: Seq<Seq<char>>,
    name: &'static str,
    r: Result<Option<Command>, ParseError>,
) -> bool {
    if args.len() == 1 {
        r matches Ok(Some(c)) && one_path_of(c, name) == Some(args[0])
    } else {
        r == Err::<Option<Command>, ParseError>(ParseError::Arity { command: name })
    }
}

/// The path of a one-path command named `name`.
pub open spec fn one_path_of(c: Command, name: &'static str) -> Option<Seq<char>> {
    match c {
        Command::Cd { path } => if name == "cd" { Some(path@) } else { None },
        Command::Cat { path } => if name == "cat" { Some(path@) } else { None },
        Command::Touch { path } => if name == "touch" { Some(path@) } else { None },
        Command::Mkdir { path } => if name == "mkdir" { Some(path@) } else { None },
        Command::Rm { path } => if name == "rm" { Some(path@) } else { None },
        Command::Rmdir { path } => if name == "rmdir" { Some(path@) } else { None },
        _ => None,
    }
}

/// Whether `r` is the command the tokens `ts` name, or the error they give.
pub open spec fn command_result(ts: Seq<Seq<char>>, r: Result<Option<Command>, ParseError>) -> bool {
    let name = ts[0];
    let args = ts.drop_first();
    if ts.len() == 0 {
        r == Ok::<Option<Command>, ParseError>(None)
    } else if name == "help"@ {
        no_argument_result(args, "help", Command::Help, r)
    } else if name == "pwd"@ {
        no_argument_result(args, "pwd", Command::Pwd, r)
    } else if name == "cd"@ {
        one_path_result(args, "cd", r)
    } else if name == "ls"@ {
        if args.len() == 0 {
            r matches Ok(Some(Command::Ls { path: None }))
        } else if args.len() == 1 {
            r matches Ok(Some(Command::Ls { path: Some(p) })) && p@ == args[0]
        } else {
            r == Err::<Option<Command>, ParseError>(ParseError::Arity { command: "ls" })
        }
    } else if name == "cat"@ {
        one_path_result(args, "cat", r)
    } else if name == "echo"@ {
        r matches Ok(Some(Command::Echo { text })) && string_views(text@) == args
    } else if name == "touch"@ {
        one_path_result(args, "touch", r)
    } else if name == "write"@ {
        if args.len() >= 1 {
            r matches Ok(Some(Command::Write { path, text })) && path@ == args[0] && text@
                == joined(args.drop_first())
        } else {
            r == Err::<Option<Command>, ParseError>(ParseError::Arity { command: "write" })
        }
    } else if name == "append"@ {
        if args.len() >= 1 {
            r matches Ok(Some(Command::Append { path, text })) && path@ == args[0] && text@
                == joined(args.drop_first())
        } else {
            r == Err::<Option<Command>, ParseError>(ParseError::Arity { command: "append" })
        }
    } else if name == "mkdir"@ {
        one_path_result(args, "mkdir", r)
    } else if name == "rm"@ {
        one_path_result(args, "rm", r)
    } else if name == "rmdir"@ {
        one_path_result(args, "rmdir", r)
    } else if name == "sync"@ {
        no_argument_result(args, "sync", Command::Sync, r)
    } else if name == "shutdown"@ {
        no_argument_result(args, "shutdown", Command::Shutdown, r)
    } else {
        r == Err::<Option<Command>, ParseError>(ParseError::UnknownCommand)
    }
}

/// The words that name a command.
pub open spec fn is_command_name(word: Seq<char>) -> bool {
    ||| word == "help"@
    ||| word == "pwd"@
    ||| word == "cd"@
    ||| word == "ls"@
    ||| word == "cat"@
    ||| word == "echo"@
    ||| word == "touch"@
    ||| word == "write"@
    ||| word == "append"@
    ||| word == "mkdir"@
    ||| word == "rm"@
    ||| word == "rmdir"@
    ||| word == "sync"@
    ||| word == "shutdown"@
}

/// A line whose first word names no command is refused as unknown, whatever follows it.
pub proof fn lemma_unknown_command(ts: Seq<Seq<char>>, r: Result<Option<Command>, ParseError>)
    requires
        ts.len() > 0,
        !is_command_name(ts[0]),
        command_result(ts, r),
    ensures
        r == Err::<Option<Command>, ParseError>(ParseError::UnknownCommand),
{
}


fn next_argument(arguments: &mut Vec<String>) -> (r: Option<String>)
    ensures
        old(arguments)@.len() == 0 ==> r is None && final(arguments)@ == old(arguments)@,
        old(arguments)@.len() > 0 ==> r == Some(old(arguments)@[0]) && final(arguments)@ == old(
            arguments,
        )@.drop_first(),
{
    if arguments.len() == 0 {
        None
    } else {
        let first = arguments.remove(0);
        assert(arguments@ =~= old(arguments)@.drop_first());
        Some(first)
    }
}

fn word_is(word: &String, literal: &str) -> (r: bool)
    ensures
        r == (word@ == literal@),
{
    *word == literal.to_owned()
}

/// Succeeds exactly when no argument remains.
pub fn require_no_arguments(arguments: &mut Vec<String>, command: &'static str) -> (r: Result<
    (),
    ParseError,
>)
    ensures
        old(arguments)@.len() == 0 ==> r == Ok::<(), ParseError>(()),
        old(arguments)@.len() > 0 ==> r == Err::<(), ParseError>(ParseError::Arity { command }),
{
    if next_argument(arguments).is_some() {
        Err(ParseError::Arity { command })
    } else {
        Ok(())
    }
}

/// The single remaining argument.
pub fn require_one_argument(arguments: &mut Vec<String>, command: &'static str) -> (r: Result<
    String,
    ParseError,
>)
    ensures
        old(arguments)@.len() == 1 ==> r == Ok::<String, ParseError>(old(arguments)@[0]),
        old(arguments)@.len() != 1 ==> r == Err::<String, ParseError>(
            ParseError::Arity { command },
        ),
{
    let argument = match next_argument(arguments) {
        Some(argument) => argument,
        None => return Err(ParseError::Arity { command }),
    };
    require_no_arguments(arguments, command)?;
    Ok(argument)
}

/// The remaining argument if there is at most one.
pub fn optional_argument(arguments: &mut Vec<String>, command: &'static str) -> (r: Result<
    Option<String>,
    ParseError,
>)
    ensures
        old(arguments)@.len() == 0 ==> r == Ok::<Option<String>, ParseError>(None),
        old(arguments)@.len() == 1 ==> r == Ok::<Option<String>, ParseError>(
            Some(old(arguments)@[0]),
        ),
        old(arguments)@.len() > 1 ==> r == Err::<Option<String>, ParseError>(
            ParseError::Arity { command },
        ),
{
    let argument = next_argument(arguments);
    require_no_arguments(arguments, command)?;
    Ok(argument)
}

/// All remaining arguments, in order; fails when the list cannot grow.
pub fn collect_arguments(arguments: &mut Vec<String>) -> (r: Result<Vec<String>, ParseError>)
    ensures
        match r {
            Ok(v) => v@ == old(arguments)@,
            Err(e) => e == ParseError::Allocation,
        },
{
    let mut collected: Vec<String> = Vec::new();
    let ghost initial = arguments@;
    while arguments.len() > 0
        invariant
            collected@ + arguments@ == initial,
        decreases arguments@.len(),
    {
        if collected.try_reserve(1).is_err() {
            return Err(ParseError::Allocation);
        }
        let argument = arguments.remove(0);
        collected.push(argument);
        assert(collected@ + arguments@ =~= initial);
    }
    assert(collected@ =~= initial);
    Ok(collected)
}

/// The remaining arguments joined by single spaces; fails when no memory can be had for the
/// text.
pub fn join_arguments(arguments: &mut Vec<String>) -> (r: Result<String, ParseError>)
    ensures
        match r {
            Ok(t) => t@ == joined(string_views(old(arguments)@)),
            Err(e) => e == ParseError::Allocation,
        },
{
    let ghost words = string_views(arguments@);
    let n = arguments.len();
    let mut length: usize = if n > 0 {
        n - 1
    } else {
        0
    };
    let mut counted: usize = 0;
    while counted < n
        invariant
            n == arguments@.len(),
            counted <= n,
        decreases n - counted,
    {
        length = length.saturating_add(arguments[counted].as_str().len());
        counted += 1;
    }
    let mut text = String::new();
    if !reserve_in_string(&mut text, length) {
        return Err(ParseError::Allocation);
    }
    let mut index: usize = 0;
    while index < n
        invariant
            n == arguments@.len(),
            index <= n,
            words == string_views(arguments@),
            text@ == joined(words.subrange(0, index as int)),
        decreases n - index,
    {
        if index != 0 {
            push_char(&mut text, ' ');
        }
        text.append(arguments[index].as_str());
        proof {
            let prefix = words.subrange(0, index + 1);
            assert(prefix.drop_last() =~= words.subrange(0, index as int));
            assert(prefix.last() == arguments@[index as int]@);
        }
        index += 1;
    }
    assert(words.subrange(0, n as int) =~= words);
    Ok(text)
}

/// The first remaining argument and the rest joined by single spaces.
pub fn require_argument_then_join(arguments: &mut Vec<String>, command: &'static str) -> (r:
    Result<(String, String), ParseError>)
    ensures
        old(arguments)@.len() == 0 ==> r == Err::<(String, String), ParseError>(
            ParseError::Arity { command },
        ),
        old(arguments)@.len() > 0 ==> (r matches Ok((p, t)) && p == old(arguments)@[0] && t@
            == joined(string_views(old(arguments)@.drop_first()))) || r == Err::<
            (String, String),
            ParseError,
        >(ParseError::Allocation),
{
    let path = match next_argument(arguments) {
        Some(path) => path,
        None => return Err(ParseError::Arity { command }),
    };
    let text = join_arguments(arguments)?;
    Ok((path, text))
}

/// Parses a command line into a command, or `None` for a line without words.
pub fn parse_command(line: &str) -> (r: Result<Option<Command>, ParseError>)
    ensures
        tokenize_spec(line.spec_bytes()) == Ok::<Seq<Seq<char>>, ParseError>(Seq::empty()) ==> r
            == Ok::<Option<Command>, ParseError>(None),
        !(line.spec_bytes().len() <= MAX_INPUT_BYTES && input_check(line.spec_bytes(), 0) is Ok)
            ==> r == Err::<Option<Command>, ParseError>(tokenize_spec(line.spec_bytes())->Err_0),
        r != Err::<Option<Command>, ParseError>(ParseError::Allocation) ==> match tokenize_spec(
            line.spec_bytes(),
        ) {
            Err(e) => r == Err::<Option<Command>, ParseError>(e),
            Ok(ts) => command_result(ts, r),
        },
{
    let mut tokens = tokenize(line)?;
    let ghost ts = string_views(tokens@);
    let name = match next_argument(&mut tokens) {
        Some(name) => name,
        None => return Ok(None),
    };
    let ghost args = string_views(tokens@);
    assert(args =~= ts.drop_first());
    assert(name@ == ts[0]);
    assert forall|i: int| 0 <= i < tokens@.len() implies args[i] == (#[trigger] tokens@[i])@ by {}
    if tokens.len() > 0 {
        assert(string_views(tokens@.drop_first()) =~= args.drop_first());
    }
    let command = if word_is(&name, "help") {
        require_no_arguments(&mut tokens, "help")?;
        Command::Help
    } else if word_is(&name, "pwd") {
        require_no_arguments(&mut tokens, "pwd")?;
        Command::Pwd
    } else if word_is(&name, "cd") {
        Command::Cd { path: require_one_argument(&mut tokens, "cd")? }
    } else if word_is(&name, "ls") {
        Command::Ls { path: optional_argument(&mut tokens, "ls")? }
    } else if word_is(&name, "cat") {
        Command::Cat { path: require_one_argument(&mut tokens, "cat")? }
    } else if word_is(&name, "echo") {
        Command::Echo { text: collect_arguments(&mut tokens)? }
    } else if word_is(&name, "touch") {
        Command::Touch { path: require_one_argument(&mut tokens, "touch")? }
    } else if word_is(&name, "write") {
        let (path, text) = require_argument_then_join(&mut tokens, "write")?;
        Command::Write { path, text }
    } else if word_is(&name, "append") {
        let (path, text) = require_argument_then_join(&mut tokens, "append")?;
        Command::Append { path, text }
    } else if word_is(&name, "mkdir") {
        Command::Mkdir { path: require_one_argument(&mut tokens, "mkdir")? }
    } else if word_is(&name, "rm") {
        Command::Rm { path: require_one_argument(&mut tokens, "rm")? }
    } else if word_is(&name, "rmdir") {
        Command::Rmdir { path: require_one_argument(&mut tokens, "rmdir")? }
    } else if word_is(&name, "sync") {
        require_no_arguments(&mut tokens, "sync")?;
        Command::Sync
    } else if word_is(&name, "shutdown") {
        require_no_arguments(&mut tokens, "shutdown")?;
        Command::Shutdown
    } else {
        return Err(ParseError::UnknownCommand);
    };
    Ok(Some(command))
}

} // verus!
