//! What the command line program decides: which program an unknown subcommand
//! stands for, and what is said when something fails.

use vstd::prelude::*;

verus! {

/// Where answers come from.
#[derive(Clone, Copy, Debug, PartialEq, Eq, Structural)]
pub enum InteractiveContext {
    Terminal,
    NotInteractive,
}

/// Whether the user may be asked.
pub fn interactive_context(no_prompt: bool) -> (r: InteractiveContext)
    ensures
        r == if no_prompt {
            InteractiveContext::NotInteractive
        } else {
            InteractiveContext::Terminal
        },
{
    if no_prompt {
        InteractiveContext::NotInteractive
    } else {
        InteractiveContext::Terminal
    }
}

/// A program to run in place of an unknown subcommand.
pub struct ExternalCommand {
    /// The subcommand.
    pub name: Vec<u8>,
    /// The program.
    pub program: Vec<u8>,
    pub args: Vec<Vec<u8>>,
}

/// The program and its arguments for an unknown subcommand with arguments: the
/// program has the name of the subcommand after `pijul-`.
pub fn external_command(command: Vec<Vec<u8>>) -> (r: ExternalCommand)
    requires
        command@.len() > 0,
    ensures
        r.name@ == command@[0]@,
        r.program@ == vstd::utf8::encode_utf8("pijul-"@) + command@[0]@,
        r.args@ == command@.skip(1),
{
    let mut command = command;
    let args = command.split_off(1);
    let mut program: Vec<u8> = vstd::slice::slice_to_vec("pijul-".as_bytes());
    program.extend_from_slice(&command[0]);
    assert(program@ =~= vstd::utf8::encode_utf8("pijul-"@) + command@[0]@);
    let name = command.pop().unwrap();
    ExternalCommand { name, program, args }
}

/// Why a program could not be run.
#[derive(Clone, Copy, Debug, PartialEq, Eq, Structural)]
pub enum SpawnError {
    NotFound,
    PermissionDenied,
    Other,
}

/// What is said when the program for a subcommand cannot be run.
pub open spec fn external_error(kind: SpawnError, quoted: Seq<char>, err: Seq<char>) -> Seq<char> {
    if kind is NotFound || kind is PermissionDenied {
        "No such subcommand: "@ + quoted
    } else {
        "Error while running "@ + quoted + ": "@ + err
    }
}

/// What is said when the program for a subcommand cannot be run, where the
/// subcommand is given between quotes.
pub fn external_command_error(kind: SpawnError, quoted: &str, err: &str) -> (r: String)
    ensures
        r@ == external_error(kind, quoted@, err@),
{
    if kind == SpawnError::NotFound || kind == SpawnError::PermissionDenied {
        "No such subcommand: ".to_owned().concat(quoted)
    } else {
        "Error while running ".to_owned().concat(quoted).concat(": ").concat(err)
    }
}

/// How a command ended.
pub enum CommandEnd {
    Done,
    /// It failed because nobody reads what it writes.
    BrokenPipe,
    /// It failed for another reason.
    Failed(String),
}

/// What is said when a command has ended, and the exit code.
pub fn report(end: &CommandEnd) -> (r: (Option<String>, i32))
    ensures
        match end {
            CommandEnd::Done => r.0 is None && r.1 == 0,
            CommandEnd::BrokenPipe => r.0 is None && r.1 == 1,
            CommandEnd::Failed(e) => r.1 == 1 && (r.0 matches Some(line) && line@ == "Error: "@
                + e@),
        },
{
    match end {
        CommandEnd::Done => (None, 0),
        CommandEnd::BrokenPipe => (None, 1),
        CommandEnd::Failed(e) => (Some("Error: ".to_owned().concat(e.as_str())), 1),
    }
}

/// The target whose messages are for the user.
pub const GIT_TARGET: &'static str = "pijul::commands::git";

/// How a message of the log is shown.
#[derive(Clone, Copy, Debug, PartialEq, Eq, Structural)]
pub enum LogStyle {
    /// With its level alone, in green.
    Plain,
    /// With its time, level and target, between grey brackets.
    Full,
}

/// How the messages of a target are shown.
pub fn log_style(target: &str) -> (r: LogStyle)
    ensures
        r == if target@ == GIT_TARGET@ {
            LogStyle::Plain
        } else {
            LogStyle::Full
        },
{
    if target.to_owned() == GIT_TARGET.to_owned() {
        LogStyle::Plain
    } else {
        LogStyle::Full
    }
}

/// A program that is missing, or that may not be run, is said to be no
/// subcommand, whatever the system says of it. Any other failure is said to be
/// one of the subcommand, with what the system says.
pub proof fn law_errors_of_subcommands(kind: SpawnError, quoted: Seq<char>, err: Seq<char>)
    ensures
        match kind {
            SpawnError::NotFound => external_error(kind, quoted, err) == "No such subcommand: "@
                + quoted,
            SpawnError::PermissionDenied => external_error(kind, quoted, err)
                == "No such subcommand: "@ + quoted,
            SpawnError::Other => external_error(kind, quoted, err) == "Error while running "@
                + quoted + ": "@ + err,
        },
{
}

/// The program of an unknown subcommand has its name behind `pijul-`, and gets
/// all the other arguments, in order.
pub proof fn law_programs_of_subcommands(command: Vec<Vec<u8>>, r: ExternalCommand)
    requires
        command@.len() > 0,
        call_ensures(external_command, (command,), r),
    ensures
        r.name@ == command@[0]@,
        r.program@ == vstd::utf8::encode_utf8("pijul-"@) + r.name@,
        r.args@.len() == command@.len() - 1,
        forall|i: int| 0 <= i < r.args@.len() ==> #[trigger] r.args@[i] == command@[i + 1],
{
}

/// What is said when a program could not be run, and when a command has ended.
/// The exit code is 0 exactly if the command was done.
pub proof fn law_what_is_said(
    kind: SpawnError,
    quoted: &str,
    err: &str,
    text: String,
    end: CommandEnd,
    r: (Option<String>, i32),
)
    requires
        call_ensures(external_command_error, (kind, quoted, err), text),
        call_ensures(report, (&end,), r),
    ensures
        kind == SpawnError::Other ==> text@ == "Error while running "@ + quoted@ + ": "@ + err@,
        kind != SpawnError::Other ==> text@ == "No such subcommand: "@ + quoted@,
        r.1 == 0 <==> end is Done,
        r.1 == 0 || r.1 == 1,
        r.0 is Some <==> end is Failed,
        end matches CommandEnd::Failed(e) ==> (r.0 matches Some(line) && line@ == "Error: "@ + e@),
{
    law_errors_of_subcommands(kind, quoted@, err@);
}

/// Whether the user may be asked, and how messages are shown.
pub proof fn law_styles(no_prompt: bool, context: InteractiveContext, target: &str, style: LogStyle)
    requires
        call_ensures(interactive_context, (no_prompt,), context),
        call_ensures(log_style, (target,), style),
    ensures
        context is Terminal <==> !no_prompt,
        style is Plain <==> target@ == "pijul::commands::git"@,
{
}

} // verus!
