//! The command line of the scheduled-task helper: which command was asked
//! for, and the arguments that register the task.
use vstd::prelude::*;
use crate::names::views;
use crate::rule::char_views;
use crate::text::{chars_eq, chars_of, lines, lines_of, string_of};

verus! {

/// A command of the helper.
#[derive(Debug, Clone, Copy, PartialEq, Eq)]
pub enum TaskCommand {
    Install,
    Uninstall,
    Start,
    Stop,
    Log,
    Status,
    /// `help`, `-h`, `--help` or anything unknown: print the usage.
    Usage,
}

/// The first argument from index `i` on that is not `--verbose`.
pub open spec fn first_command(args: Seq<Seq<char>>, i: int) -> Option<Seq<char>>
    decreases args.len() - i,
{
    if i < 0 || i >= args.len() {
        None
    } else if args[i] == "--verbose"@ {
        first_command(args, i + 1)
    } else {
        Some(args[i])
    }
}

/// The command that an argument names.
pub open spec fn command_named(a: Seq<char>) -> TaskCommand {
    if a == "install"@ {
        TaskCommand::Install
    } else if a == "uninstall"@ {
        TaskCommand::Uninstall
    } else if a == "start"@ {
        TaskCommand::Start
    } else if a == "stop"@ {
        TaskCommand::Stop
    } else if a == "log"@ {
        TaskCommand::Log
    } else if a == "status"@ {
        TaskCommand::Status
    } else {
        TaskCommand::Usage
    }
}

/// Whether `s` holds the same characters as `lit`.
fn is_word(s: &Vec<char>, lit: &str) -> (r: bool)
    ensures
        r == (s@ == lit@),
{
    chars_eq(s, &chars_of(lit))
}

/// The command asked for on the command line (`args[0]` is the program):
/// the first later argument that is not `--verbose`, or `None` when there
/// is none (the program then runs normally).
pub fn handle_args(args: &Vec<String>) -> (r: Option<TaskCommand>)
    ensures
        r == (match first_command(views(args@), 1) {
            Some(a) => Some(command_named(a)),
            None => None,
        }),
{
    let ghost all = views(args@);
    let mut i: usize = 1;
    while i < args.len()
        invariant
            1 <= i,
            all == views(args@),
            first_command(all, 1) == first_command(all, i as int),
        decreases args.len() - i,
    {
        let a = chars_of(args[i].as_str());
        if !is_word(&a, "--verbose") {
            let c = if is_word(&a, "install") {
                TaskCommand::Install
            } else if is_word(&a, "uninstall") {
                TaskCommand::Uninstall
            } else if is_word(&a, "start") {
                TaskCommand::Start
            } else if is_word(&a, "stop") {
                TaskCommand::Stop
            } else if is_word(&a, "log") {
                TaskCommand::Log
            } else if is_word(&a, "status") {
                TaskCommand::Status
            } else {
                TaskCommand::Usage
            };
            return Some(c);
        }
        i += 1;
    }
    None
}

/// Pushes the string `s`.
fn push_word(v: &mut Vec<String>, s: &str)
    ensures
        views(final(v)@) == views(old(v)@).push(s@),
{
    v.push(string_of(&chars_of(s)));
    assert(views(v@) =~= views(old(v)@).push(s@));
}

/// The `schtasks` arguments that register the task to run `exe` at logon
/// with the highest privileges.
pub fn install_args(exe: String) -> (r: Vec<String>)
    ensures
        views(r@) == seq![
            "/Create"@,
            "/TN"@,
            "noeco"@,
            "/TR"@,
            exe@,
            "/SC"@,
            "ONLOGON"@,
            "/RL"@,
            "HIGHEST"@,
            "/F"@,
        ],
{
    let mut v: Vec<String> = Vec::new();
    push_word(&mut v, "/Create");
    push_word(&mut v, "/TN");
    push_word(&mut v, "noeco");
    push_word(&mut v, "/TR");
    let ghost e = exe@;
    let ghost before = views(v@);
    v.push(exe);
    assert(views(v@) =~= before.push(e));
    push_word(&mut v, "/SC");
    push_word(&mut v, "ONLOGON");
    push_word(&mut v, "/RL");
    push_word(&mut v, "HIGHEST");
    push_word(&mut v, "/F");
    assert(views(v@) =~= seq![
        "/Create"@,
        "/TN"@,
        "noeco"@,
        "/TR"@,
        e,
        "/SC"@,
        "ONLOGON"@,
        "/RL"@,
        "HIGHEST"@,
        "/F"@,
    ]);
    v
}

/// The `schtasks` arguments that remove the task.
pub fn uninstall_args() -> (r: Vec<String>)
    ensures
        views(r@) == seq!["/Delete"@, "/TN"@, "noeco"@, "/F"@],
{
    let mut v: Vec<String> = Vec::new();
    push_word(&mut v, "/Delete");
    push_word(&mut v, "/TN");
    push_word(&mut v, "noeco");
    push_word(&mut v, "/F");
    assert(views(v@) =~= seq!["/Delete"@, "/TN"@, "noeco"@, "/F"@]);
    v
}

/// The `schtasks` arguments that show the task's state as a list.
pub fn status_args() -> (r: Vec<String>)
    ensures
        views(r@) == seq!["/Query"@, "/TN"@, "noeco"@, "/FO"@, "LIST"@],
{
    let mut v: Vec<String> = Vec::new();
    push_word(&mut v, "/Query");
    push_word(&mut v, "/TN");
    push_word(&mut v, "noeco");
    push_word(&mut v, "/FO");
    push_word(&mut v, "LIST");
    assert(views(v@) =~= seq!["/Query"@, "/TN"@, "noeco"@, "/FO"@, "LIST"@]);
    v
}

/// The `taskkill` arguments that end the running helper.
pub fn stop_args() -> (r: Vec<String>)
    ensures
        views(r@) == seq!["/IM"@, "noeco.exe"@, "/F"@],
{
    let mut v: Vec<String> = Vec::new();
    push_word(&mut v, "/IM");
    push_word(&mut v, "noeco.exe");
    push_word(&mut v, "/F");
    assert(views(v@) =~= seq!["/IM"@, "noeco.exe"@, "/F"@]);
    v
}

/// The last `count` lines of a text (all of them when there are fewer), in
/// order.
pub fn tail_lines(text: &str, count: usize) -> (r: Vec<String>)
    ensures
        views(r@) == lines(text@).skip(
            if lines(text@).len() > count {
                lines(text@).len() - count
            } else {
                0
            },
        ),
{
    let t = chars_of(text);
    let ls = lines_of(&t);
    let ghost all = char_views(ls@);
    let start: usize = if ls.len() > count {
        ls.len() - count
    } else {
        0
    };
    let mut r: Vec<String> = Vec::new();
    let mut i: usize = start;
    while i < ls.len()
        invariant
            start <= i <= ls.len(),
            all == char_views(ls@),
            views(r@) == all.subrange(start as int, i as int),
        decreases ls.len() - i,
    {
        r.push(string_of(&ls[i]));
        assert(all.subrange(start as int, i + 1) == all.subrange(start as int, i as int).push(
            all[i as int],
        ));
        i += 1;
    }
    assert(all.subrange(start as int, ls.len() as int) == all.skip(start as int));
    r
}

} // verus!
