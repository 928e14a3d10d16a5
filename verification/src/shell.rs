use vstd::prelude::*;

use crate::builtins::Command;
use crate::builtins::cd_cmd::CdCommand;
use crate::builtins::echo::EchoCommand;
use crate::builtins::exit::ExitCommand;
use crate::builtins::pwd::PwdCommand;
use crate::builtins::type_cmd::TypeCommand;
use crate::path_resolver::PathResolver;
use crate::command_dispatcher::{CommandDispatcher, Dispatch, words_of};
use crate::text::{chars_eq, chars_of, strings_view, trim, trim_string};
use crate::tokenizer::tokenize_spec;

verus! {

/// The builtins of the shell, and the list of their names.
pub struct Builtins {
    pub exit: ExitCommand,
    pub echo: EchoCommand,
    pub pwd: PwdCommand,
    pub cd: CdCommand,
    pub type_cmd: TypeCommand,
    /// The names of all the builtins above.
    pub names: Vec<String>,
}

/// What the line editor handed back.
pub enum ReadEvent {
    /// A line was read.
    Line(String),
    /// The user pressed Ctrl-C.
    Interrupted,
    /// The input ended (Ctrl-D).
    Eof,
    /// Reading failed; the error, as text.
    Failed(String),
}

/// What the read loop does next.
pub enum LoopAction {
    /// Run this command line.
    Dispatch(String),
    /// Print this line on standard output and read again.
    Print(String),
    /// Print this line on standard error and stop.
    Stop(String),
}

/// Whether the shell reads another line after carrying out `d`: every line
/// keeps it running but one that runs the builtin `exit`.
pub open spec fn continues(d: Dispatch) -> bool {
    !(d matches Dispatch::Builtin { name, .. } && name@ == "exit"@)
}

/// Whether the command word of `line` is `exit`.
pub open spec fn is_exit_line(line: Seq<char>) -> bool {
    tokenize_spec(line) matches Ok(ts) && words_of(ts).len() > 0 && words_of(ts)[0] == "exit"@
}

/// The interactive shell.
pub struct Shell {}

impl Shell {
    /// The builtins `exit`, `echo`, `pwd`, `cd` and `type`, the last of which
    /// knows all five names and searches programs with `resolver`.
    pub fn build_builtins(resolver: PathResolver) -> (b: Builtins)
        ensures
            strings_view(b.names@) == seq!["exit"@, "echo"@, "pwd"@, "cd"@, "type"@],
            b.exit.command_name() == "exit"@,
            b.echo.command_name() == "echo"@,
            b.pwd.command_name() == "pwd"@,
            b.cd.command_name() == "cd"@,
            b.type_cmd.command_name() == "type"@,
            b.type_cmd.builtin_names() == strings_view(b.names@),
            b.type_cmd.resolver_spec() == resolver,
    {
        let mut names: Vec<String> = Vec::new();
        let exit = ExitCommand::new("exit".to_string());
        names.push(exit.get_name_copy());
        let echo = EchoCommand::new("echo".to_string());
        names.push(echo.get_name_copy());
        let pwd = PwdCommand::new("pwd".to_string());
        names.push(pwd.get_name_copy());
        let cd = CdCommand::new("cd".to_string());
        names.push(cd.get_name_copy());
        names.push("type".to_string());
        let type_cmd = TypeCommand::new("type".to_string(), names.clone(), resolver);
        assert(strings_view(names@) =~= seq!["exit"@, "echo"@, "pwd"@, "cd"@, "type"@]);
        Builtins { exit, echo, pwd, cd, type_cmd, names }
    }

    /// Whether the shell reads another line after carrying out `d`: see
    /// `continues`.
    pub fn keeps_running(d: &Dispatch) -> (r: bool)
        ensures
            r == continues(*d),
    {
        match d {
            Dispatch::Builtin { name, .. } => !chars_eq(
                chars_of(name.as_str()).as_slice(),
                chars_of("exit").as_slice(),
            ),
            _ => true,
        }
    }

    /// What the read loop does with what the line editor handed back: a line is
    /// run without its surrounding white space; Ctrl-C prints `^C` and Ctrl-D
    /// prints `exit`, and reading goes on; an error is printed and ends the loop.
    pub fn on_read(event: ReadEvent) -> (a: LoopAction)
        ensures
            match event {
                ReadEvent::Line(l) => a matches LoopAction::Dispatch(d) && d@ == trim(l@),
                ReadEvent::Interrupted => a matches LoopAction::Print(p) && p@ == "^C"@,
                ReadEvent::Eof => a matches LoopAction::Print(p) && p@ == "exit"@,
                ReadEvent::Failed(e) => a matches LoopAction::Stop(m) && m@ == "Error: "@ + e@,
            },
    {
        match event {
            ReadEvent::Line(l) => LoopAction::Dispatch(trim_string(l.as_str())),
            ReadEvent::Interrupted => LoopAction::Print("^C".to_string()),
            ReadEvent::Eof => LoopAction::Print("exit".to_string()),
            ReadEvent::Failed(e) => {
                let mut m = "Error: ".to_string();
                m.append(e.as_str());
                LoopAction::Stop(m)
            },
        }
    }
}

/// Only `exit` ends the session: with `exit` among the builtins, a dispatched
/// line keeps the shell running exactly when its command word is not `exit`;
/// syntax errors, blank lines, other builtins, programs and unknown commands
/// all go on.
pub proof fn law_only_exit_stops<F: Fn(&String) -> Option<String>>(
    d: CommandDispatcher,
    input: Seq<char>,
    probe: F,
    r: Dispatch,
)
    requires
        d.builtin_names().contains("exit"@),
        d.dispatched(input, probe, r),
    ensures
        continues(r) <==> !is_exit_line(input),
{
}

/// A session reads and runs its lines (each without surrounding white space, see
/// `Shell::on_read`) up to and including the first one whose command word is
/// `exit`, and stops there.
pub proof fn law_session_ends_at_first_exit<F: Fn(&String) -> Option<String>>(
    d: CommandDispatcher,
    lines: Seq<Seq<char>>,
    probe: F,
    results: Seq<Dispatch>,
)
    requires
        d.builtin_names().contains("exit"@),
        results.len() == lines.len(),
        forall|i: int| 0 <= i < lines.len() ==> d.dispatched(trim(#[trigger] lines[i]), probe, results[i]),
    ensures
        forall|i: int| 0 <= i < lines.len() ==> (continues(#[trigger] results[i]) <==> !is_exit_line(trim(lines[i]))),
{
    assert forall|i: int| 0 <= i < lines.len() implies (continues(#[trigger] results[i]) <==> !is_exit_line(trim(lines[i]))) by {
        law_only_exit_stops(d, trim(lines[i]), probe, results[i]);
    }
}

} // verus!
