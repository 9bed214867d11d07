//! The decisions of running a parsed command.
//!
//! Running a command alternates work done outside the library (starting a
//! program, opening a file, making a pipe, waiting for subcommands) with
//! decisions taken here.  The runner of one command node is a small state
//! machine: it is started with `Event::Start`, and each event that the
//! outside work produces yields the next `Action`, until `Action::Return`
//! gives the node's exit status.
use vstd::prelude::*;
use crate::command::{all_words, cmd, reads_back, spans_within, terminated_copy, Node};
use crate::lexer::{first_nul, is_word, wf_line};

verus! {

/// The bytes of the NUL-terminated string that starts at `q` in `s`.
pub open spec fn cstr_at(s: Seq<u8>, q: int) -> Seq<u8> {
    s.subrange(q, first_nul(s, q))
}

/// Copies the NUL-terminated string that starts at `q` in `buf`.
pub fn cstr_copy(buf: &Vec<u8>, q: usize) -> (r: Vec<u8>)
    requires
        q <= buf@.len(),
    ensures
        r@ == cstr_at(buf@, q as int),
{
    let mut r: Vec<u8> = Vec::new();
    let mut i = q;
    while i < buf.len() && buf[i] != 0
        invariant
            q <= i <= buf@.len(),
            first_nul(buf@, i as int) == first_nul(buf@, q as int),
            r@ == buf@.subrange(q as int, i as int),
        decreases buf@.len() - i,
    {
        r.push(buf[i]);
        proof {
            assert(r@ =~= buf@.subrange(q as int, i + 1));
        }
        i = i + 1;
    }
    r
}

/// How a started program ended.
#[derive(Clone, Copy, PartialEq, Eq, Structural, Debug)]
pub enum ChildExit {
    /// It exited with this code.
    Exited(i32),
    /// It ended without an exit code (killed by a signal).
    Killed,
    /// It could not be started.
    Failed,
}

/// What the outside work reports back to the runner of a node.
#[derive(Clone, Copy, PartialEq, Eq, Structural, Debug)]
pub enum Event {
    /// The node is to be run.
    Start,
    /// The program of a simple command ended.
    Child(ChildExit),
    /// The file of a redirection was opened; the value `open` returned.
    Opened(i32),
    /// A pipe was asked for; the value `pipe` returned.
    Piped(i32),
    /// This many of the node's subcommands have finished (or, for a
    /// background command, been sent off); the last of them with `status`.
    Finished { count: usize, status: i32 },
}

/// An error the runner reports.
#[derive(Debug)]
pub enum Report {
    /// The program named could not be started.
    ExecFailed(Vec<u8>),
    /// The file named could not be opened.
    OpenFailed(Vec<u8>),
}

/// What the runner of a node asks for next.
#[derive(Debug)]
pub enum Action<'a> {
    /// The node is done, with this exit status.
    Return(i32),
    /// Report the error, then the node is done with this exit status.
    ReportReturn(Report, i32),
    /// Start the program `argv[0]` with the arguments `argv[1..]`, and wait
    /// for it; then `Event::Child`.
    Spawn(Vec<Vec<u8>>),
    /// Keep a copy of descriptor `fd`, close it, then open `path` with flags
    /// `mode`; then `Event::Opened`.
    Reopen { fd: i32, path: Vec<u8>, mode: i32 },
    /// Report the error, if any; put descriptor `fd` back as it was before
    /// `Reopen`; then the node is done with this exit status.  (The command
    /// runs as a forked shell would: the redirection does not outlive it.)
    Restore { fd: i32, report: Option<Report>, status: i32 },
    /// Run this subcommand; then `Event::Finished` with one more, and the
    /// subcommand's exit status.
    Run(&'a cmd),
    /// Make a pipe; then `Event::Piped`.
    MakePipe,
    /// Report that no pipe could be made when `failed`, then run `left`
    /// with its output into the pipe and `right` with its input from it, both
    /// at once; then `Event::Finished` with count 2.
    RunPiped { left: &'a cmd, right: &'a cmd, failed: bool },
    /// Send this subcommand off to run in the background; then
    /// `Event::Finished` with count 1.
    Detach(&'a cmd),
}

/// The events a node's runner can be given.
pub open spec fn fits(n: Node, ev: Event) -> bool {
    match n {
        Node::Exec { argv, .. } => ev is Start || (ev is Child && argv.len() > 0),
        Node::Redir { .. } => ev is Start || ev is Opened || (ev is Finished && ev->count == 1),
        Node::List { .. } => ev is Start || (ev is Finished && (ev->count == 1 || ev->count == 2)),
        Node::Pipe { .. } => ev is Start || ev is Piped || (ev is Finished && ev->count == 2),
        Node::Back { .. } => ev is Start || (ev is Finished && ev->count == 1),
    }
}

/// `words` are the NUL-terminated strings of `s` that start at `argv`.
pub open spec fn words_at(words: Seq<Vec<u8>>, s: Seq<u8>, argv: Seq<usize>) -> bool {
    &&& words.len() == argv.len()
    &&& forall|i: int| 0 <= i < argv.len() ==> (#[trigger] words[i])@ == cstr_at(s, argv[i] as int)
}

/// What the runner of `c` does on `ev`, in the line buffer `s`.
pub open spec fn step_spec(c: cmd, s: Seq<u8>, ev: Event, a: Action) -> bool {
    match c {
        cmd::Exec(e) => match ev {
            Event::Start => if e.argv@.len() == 0 {
                a == Action::Return(1)
            } else {
                a matches Action::Spawn(w) && words_at(w@, s, e.argv@)
            },
            Event::Child(ChildExit::Exited(code)) => a == Action::Return(code),
            Event::Child(ChildExit::Killed) => a == Action::Return(127),
            Event::Child(ChildExit::Failed) => a matches Action::ReportReturn(
                Report::ExecFailed(name),
                1,
            ) && e.argv@.len() > 0 && name@ == cstr_at(s, e.argv@[0] as int),
            _ => false,
        },
        cmd::Redir(r) => match ev {
            Event::Start => a matches Action::Reopen { fd, path, mode } && fd == r.fd && mode
                == r.mode && path@ == cstr_at(s, r.file as int),
            Event::Opened(res) => if res < 0 {
                a matches Action::Restore { fd, report: Some(Report::OpenFailed(path)), status }
                    && fd == r.fd && status == 1 && path@ == cstr_at(s, r.file as int)
            } else {
                a matches Action::Run(x) && *x == *r.cmd
            },
            Event::Finished { status, .. } => a == (Action::Restore {
                fd: r.fd,
                report: None,
                status,
            }),
            _ => a == Action::Return(1),
        },
        cmd::List(l) => match ev {
            Event::Start => a matches Action::Run(x) && *x == *l.left,
            Event::Finished { count: 1, .. } => a matches Action::Run(x) && *x == *l.right,
            Event::Finished { status, .. } => a == Action::Return(status),
            _ => a == Action::Return(1),
        },
        cmd::Pipe(p) => match ev {
            Event::Start => a == Action::MakePipe,
            Event::Piped(res) => a matches Action::RunPiped { left, right, failed } && *left
                == *p.left && *right == *p.right && failed == (res < 0),
            _ => a == Action::Return(1),
        },
        cmd::Back(b) => match ev {
            Event::Start => a matches Action::Detach(x) && *x == *b.cmd,
            _ => a == Action::Return(1),
        },
    }
}

/// Takes the next decision in running `c`, whose words and file names are
/// NUL-terminated strings of `buf`.
pub fn runcmd_step<'a>(c: &'a cmd, buf: &Vec<u8>, ev: Event) -> (a: Action<'a>)
    requires
        spans_within(c@, 0, buf@.len() as int),
        fits(c@, ev),
    ensures
        step_spec(*c, buf@, ev, a),
{
    match c {
        cmd::Exec(e) => match ev {
            Event::Start => {
                if e.argv.len() == 0 {
                    Action::Return(1)
                } else {
                    let mut words: Vec<Vec<u8>> = Vec::new();
                    let mut i: usize = 0;
                    while i < e.argv.len()
                        invariant
                            i <= e.argv@.len(),
                            spans_within(c@, 0, buf@.len() as int),
                            *c == cmd::Exec(*e),
                            words@.len() == i,
                            forall|j: int|
                                0 <= j < i ==> (#[trigger] words@[j])@ == cstr_at(
                                    buf@,
                                    e.argv@[j] as int,
                                ),
                        decreases e.argv@.len() - i,
                    {
                        let w = cstr_copy(buf, e.argv[i]);
                        words.push(w);
                        i = i + 1;
                    }
                    Action::Spawn(words)
                }
            },
            Event::Child(ChildExit::Exited(code)) => Action::Return(code),
            Event::Child(ChildExit::Killed) => Action::Return(127),
            Event::Child(ChildExit::Failed) => {
                let name = cstr_copy(buf, e.argv[0]);
                Action::ReportReturn(Report::ExecFailed(name), 1)
            },
            _ => Action::Return(1),
        },
        cmd::Redir(r) => match ev {
            Event::Start => Action::Reopen { fd: r.fd, path: cstr_copy(buf, r.file), mode: r.mode },
            Event::Opened(res) => {
                if res < 0 {
                    let report = Some(Report::OpenFailed(cstr_copy(buf, r.file)));
                    Action::Restore { fd: r.fd, report, status: 1 }
                } else {
                    Action::Run(&r.cmd)
                }
            },
            Event::Finished { status, .. } => Action::Restore { fd: r.fd, report: None, status },
            _ => Action::Return(1),
        },
        cmd::List(l) => match ev {
            Event::Start => Action::Run(&l.left),
            Event::Finished { count: 1, .. } => Action::Run(&l.right),
            Event::Finished { status, .. } => Action::Return(status),
            _ => Action::Return(1),
        },
        cmd::Pipe(p) => match ev {
            Event::Start => Action::MakePipe,
            Event::Piped(res) => Action::RunPiped { left: &p.left, right: &p.right, failed: res < 0 },
            _ => Action::Return(1),
        },
        cmd::Back(b) => match ev {
            Event::Start => Action::Detach(&b.cmd),
            _ => Action::Return(1),
        },
    }
}

/// The exit status an action finishes its node with, if it does.
pub open spec fn finishes_with(a: Action) -> Option<i32> {
    match a {
        Action::Return(status) => Some(status),
        Action::ReportReturn(_, status) => Some(status),
        Action::Restore { status, .. } => Some(status),
        _ => None,
    }
}

/// The exit status node `n` finishes with on `ev`.
pub open spec fn status_after(n: Node, ev: Event) -> i32 {
    match (n, ev) {
        (Node::Exec { .. }, Event::Child(ChildExit::Exited(code))) => code,
        (Node::Exec { .. }, Event::Child(ChildExit::Killed)) => 127,
        (Node::Redir { .. }, Event::Finished { status, .. }) => status,
        (Node::List { .. }, Event::Finished { status, .. }) => status,
        _ => 1,
    }
}

/// Law: a command finishes with the exit status a forked shell running it
/// would give: a simple command with its program's exit code (127 where it
/// has none), a redirection with its subcommand's status, a list with the
/// status of its right side; anything else, and every failure, with 1.
pub proof fn law_exit_status(c: cmd, s: Seq<u8>, ev: Event, a: Action)
    requires
        fits(c@, ev),
        step_spec(c, s, ev, a),
    ensures
        finishes_with(a) is Some ==> finishes_with(a) == Some(status_after(c@, ev)),
{
}

/// Law: a pipe `l | r` runs `l` as the writer into the pipe and `r` as the
/// reader from it, both whatever `pipe` returned, and reports a failure
/// exactly when `pipe` returned a negative value.
pub proof fn law_pipe_writer_is_left(c: cmd, s: Seq<u8>, res: i32, a: Action)
    requires
        c is Pipe,
        step_spec(c, s, Event::Piped(res), a),
    ensures
        match (c, a) {
            (cmd::Pipe(p), Action::RunPiped { left, right, failed }) => *left == *p.left && *right
                == *p.right && failed == (res < 0),
            _ => false,
        },
{
}

/// Law: a list `l ; r` runs `l` first, and then `r` once `l` has finished,
/// whatever status `l` finished with.
pub proof fn law_list_runs_both(c: cmd, s: Seq<u8>, status: i32, a0: Action, a1: Action)
    requires
        c is List,
        step_spec(c, s, Event::Start, a0),
        step_spec(c, s, Event::Finished { count: 1, status }, a1),
    ensures
        match (c, a0, a1) {
            (cmd::List(l), Action::Run(x), Action::Run(y)) => *x == *l.left && *y == *l.right,
            _ => false,
        },
{
}

proof fn lemma_first_nul_at(t: Seq<u8>, i: int, e: int)
    requires
        0 <= i <= e < t.len(),
        t[e] == 0,
        forall|k: int| i <= k < e ==> t[k] != 0,
    ensures
        first_nul(t, i) == e,
    decreases e - i,
{
    if i < e {
        lemma_first_nul_at(t, i + 1, e);
    }
}

/// A word NUL-terminated in place reads back, as a string, as the word.
pub proof fn lemma_cstr_of_word(s: Seq<u8>, es: int, t: Seq<u8>, q: int, e: int)
    requires
        wf_line(s, es),
        is_word(s, es, q, e),
        terminated_copy(s, t, q, e),
    ensures
        cstr_at(t, q) == s.subrange(q, e),
{
    assert forall|k: int| q <= k < e implies t[k] != 0 by {
        assert(t[k] == t.subrange(q, e)[k - q]);
        assert(s[k] == s.subrange(q, e)[k - q]);
    }
    lemma_first_nul_at(t, q, e);
}

/// Law: when a simple command parsed without diagnostics is run from the
/// buffer in which its words were NUL-terminated, the program and the
/// arguments it starts are exactly the words as they were typed.
pub proof fn law_spawn_typed_words(
    s: Seq<u8>,
    es: int,
    t: Seq<u8>,
    argv: Seq<usize>,
    eargv: Seq<usize>,
    words: Seq<Vec<u8>>,
)
    requires
        wf_line(s, es),
        all_words(Node::Exec { argv, eargv }, s, es),
        reads_back(Node::Exec { argv, eargv }, s, t),
        words_at(words, t, argv),
    ensures
        forall|i: int|
            0 <= i < words.len() ==> (#[trigger] words[i])@ == s.subrange(
                argv[i] as int,
                eargv[i] as int,
            ),
{
    assert forall|i: int| 0 <= i < words.len() implies (#[trigger] words[i])@ == s.subrange(
        argv[i] as int,
        eargv[i] as int,
    ) by {
        let n = Node::Exec { argv, eargv };
        assert(all_words(n, s, es));
        assert(n matches Node::Exec { argv: a, eargv: b } && a == argv && b == eargv);
        assert(forall|k: int| 0 <= k < argv.len() ==> is_word(s, es, #[trigger] argv[k] as int, eargv[k] as int));
        assert(is_word(s, es, argv[i] as int, eargv[i] as int));
        assert(terminated_copy(s, t, argv[i] as int, eargv[i] as int));
        lemma_cstr_of_word(s, es, t, argv[i] as int, eargv[i] as int);
    }
}

} // verus!
