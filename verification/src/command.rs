//! The command tree that the parser builds, and its mathematical model.
//!
//! Words and file names are not copied out of the line: a command holds the
//! positions in the line buffer where each of them starts and ends, as the
//! shell later terminates each of them in place with a NUL.
use vstd::prelude::*;
use crate::lexer::{is_space, is_symbol, is_word, lemma_word_end_bounds, wf_line};

verus! {

/// A simple command: its words, the `i`-th spanning `argv[i]..eargv[i]`.
#[derive(Debug)]
pub struct execcmd {
    pub argv: Vec<usize>,
    pub eargv: Vec<usize>,
}

/// A command run with one file descriptor redirected to a file, the file's
/// name spanning `file..efile`.
#[derive(Debug)]
pub struct redircmd {
    pub cmd: Box<cmd>,
    pub file: usize,
    pub efile: usize,
    pub mode: i32,
    pub fd: i32,
}

/// `left | right`
#[derive(Debug)]
pub struct pipecmd {
    pub left: Box<cmd>,
    pub right: Box<cmd>,
}

/// `left ; right`
#[derive(Debug)]
pub struct listcmd {
    pub left: Box<cmd>,
    pub right: Box<cmd>,
}

/// `cmd &`
#[derive(Debug)]
pub struct backcmd {
    pub cmd: Box<cmd>,
}

/// A parsed command.
#[derive(Debug)]
pub enum cmd {
    Exec(execcmd),
    Redir(redircmd),
    Pipe(pipecmd),
    List(listcmd),
    Back(backcmd),
}

/// The model of a command.
pub enum Node {
    Exec { argv: Seq<usize>, eargv: Seq<usize> },
    Redir { sub: Box<Node>, file: usize, efile: usize, mode: i32, fd: i32 },
    Pipe { left: Box<Node>, right: Box<Node> },
    List { left: Box<Node>, right: Box<Node> },
    Back { sub: Box<Node> },
}

impl cmd {
    pub open spec fn node(&self) -> Node
        decreases self,
    {
        match self {
            cmd::Exec(e) => Node::Exec { argv: e.argv@, eargv: e.eargv@ },
            cmd::Redir(r) => Node::Redir {
                sub: Box::new(r.cmd.node()),
                file: r.file,
                efile: r.efile,
                mode: r.mode,
                fd: r.fd,
            },
            cmd::Pipe(p) => Node::Pipe {
                left: Box::new(p.left.node()),
                right: Box::new(p.right.node()),
            },
            cmd::List(l) => Node::List {
                left: Box::new(l.left.node()),
                right: Box::new(l.right.node()),
            },
            cmd::Back(b) => Node::Back { sub: Box::new(b.cmd.node()) },
        }
    }
}

impl View for cmd {
    type V = Node;

    open spec fn view(&self) -> Node {
        self.node()
    }
}

/// Every word and file name of `n` spans positions between `lo` and `hi`,
/// and every simple command has as many word ends as word starts.
pub open spec fn spans_within(n: Node, lo: int, hi: int) -> bool
    decreases n,
{
    match n {
        Node::Exec { argv, eargv } => {
            &&& argv.len() == eargv.len()
            &&& forall|k: int| 0 <= k < argv.len() ==> lo <= #[trigger] argv[k] <= eargv[k] <= hi
        },
        Node::Redir { sub, file, efile, .. } => lo <= file <= efile <= hi && spans_within(*sub, lo, hi),
        Node::Pipe { left, right } => spans_within(*left, lo, hi) && spans_within(*right, lo, hi),
        Node::List { left, right } => spans_within(*left, lo, hi) && spans_within(*right, lo, hi),
        Node::Back { sub } => spans_within(*sub, lo, hi),
    }
}

/// Widening the bounds keeps the spans within them.
pub proof fn lemma_spans_within_widen(n: Node, lo: int, hi: int, hi2: int)
    requires
        spans_within(n, lo, hi),
        hi <= hi2,
    ensures
        spans_within(n, lo, hi2),
    decreases n,
{
    match n {
        Node::Exec { .. } => {},
        Node::Redir { sub, .. } => lemma_spans_within_widen(*sub, lo, hi, hi2),
        Node::Pipe { left, right } => {
            lemma_spans_within_widen(*left, lo, hi, hi2);
            lemma_spans_within_widen(*right, lo, hi, hi2);
        },
        Node::List { left, right } => {
            lemma_spans_within_widen(*left, lo, hi, hi2);
            lemma_spans_within_widen(*right, lo, hi, hi2);
        },
        Node::Back { sub } => lemma_spans_within_widen(*sub, lo, hi, hi2),
    }
}

/// Every word and file name of `n` is a whole word of the line `s`.
pub open spec fn all_words(n: Node, s: Seq<u8>, es: int) -> bool
    decreases n,
{
    match n {
        Node::Exec { argv, eargv } => forall|k: int|
            0 <= k < argv.len() ==> is_word(s, es, #[trigger] argv[k] as int, eargv[k] as int),
        Node::Redir { sub, file, efile, .. } => is_word(s, es, file as int, efile as int)
            && all_words(*sub, s, es),
        Node::Pipe { left, right } => all_words(*left, s, es) && all_words(*right, s, es),
        Node::List { left, right } => all_words(*left, s, es) && all_words(*right, s, es),
        Node::Back { sub } => all_words(*sub, s, es),
    }
}

/// The positions where the words and file names of `n` end.
pub open spec fn ends(n: Node) -> Set<int>
    decreases n,
{
    match n {
        Node::Exec { argv, eargv } => Set::new(
            |e: int| exists|k: int| 0 <= k < argv.len() && e == #[trigger] eargv[k] as int,
        ),
        Node::Redir { sub, efile, .. } => ends(*sub).insert(efile as int),
        Node::Pipe { left, right } => ends(*left).union(ends(*right)),
        Node::List { left, right } => ends(*left).union(ends(*right)),
        Node::Back { sub } => ends(*sub),
    }
}

/// `s` with a NUL at each position in `z`.
pub open spec fn zeroed(s: Seq<u8>, z: Set<int>) -> Seq<u8> {
    Seq::new(s.len(), |i: int| if z.contains(i) { 0u8 } else { s[i] })
}

/// In `t`, each word and file name of `n` still holds the bytes it held in
/// `s`, followed by a NUL.
pub open spec fn reads_back(n: Node, s: Seq<u8>, t: Seq<u8>) -> bool
    decreases n,
{
    match n {
        Node::Exec { argv, eargv } => forall|k: int|
            0 <= k < argv.len() ==> terminated_copy(s, t, #[trigger] argv[k] as int, eargv[k] as int),
        Node::Redir { sub, file, efile, .. } => terminated_copy(s, t, file as int, efile as int)
            && reads_back(*sub, s, t),
        Node::Pipe { left, right } => reads_back(*left, s, t) && reads_back(*right, s, t),
        Node::List { left, right } => reads_back(*left, s, t) && reads_back(*right, s, t),
        Node::Back { sub } => reads_back(*sub, s, t),
    }
}

/// `t` holds, from `q`, the bytes `s[q..e]` and then a NUL.
pub open spec fn terminated_copy(s: Seq<u8>, t: Seq<u8>, q: int, e: int) -> bool {
    &&& 0 <= q <= e < t.len()
    &&& e <= s.len()
    &&& t.subrange(q, e) == s.subrange(q, e)
    &&& t[e] == 0
}

/// A simple command with no words yet.
pub fn execcmd() -> (c: cmd)
    ensures
        c@ == (Node::Exec { argv: Seq::empty(), eargv: Seq::empty() }),
{
    cmd::Exec(execcmd { argv: Vec::new(), eargv: Vec::new() })
}

/// `subcmd` with descriptor `fd` redirected to the file spanning `file..efile`.
pub fn redircmd(subcmd: cmd, file: usize, efile: usize, mode: i32, fd: i32) -> (c: cmd)
    ensures
        c@ == (Node::Redir { sub: Box::new(subcmd@), file, efile, mode, fd }),
{
    cmd::Redir(redircmd { cmd: Box::new(subcmd), file, efile, mode, fd })
}

/// `left | right`
pub fn pipecmd(left: cmd, right: cmd) -> (c: cmd)
    ensures
        c@ == (Node::Pipe { left: Box::new(left@), right: Box::new(right@) }),
{
    cmd::Pipe(pipecmd { left: Box::new(left), right: Box::new(right) })
}

/// `left ; right`
pub fn listcmd(left: cmd, right: cmd) -> (c: cmd)
    ensures
        c@ == (Node::List { left: Box::new(left@), right: Box::new(right@) }),
{
    cmd::List(listcmd { left: Box::new(left), right: Box::new(right) })
}

/// `subcmd &`
pub fn backcmd(subcmd: cmd) -> (c: cmd)
    ensures
        c@ == (Node::Back { sub: Box::new(subcmd@) }),
{
    cmd::Back(backcmd { cmd: Box::new(subcmd) })
}

/// Every position in `z` holds whitespace or a symbol, or is the end of the
/// line.
pub open spec fn separators(s: Seq<u8>, es: int, z: Set<int>) -> bool {
    forall|i: int| #[trigger] z.contains(i) ==> 0 <= i <= es && (i < es ==> is_space(s[i]) || is_symbol(s[i]))
}

/// A word ends at whitespace, a symbol, or the end of the line.
pub proof fn lemma_ends_are_separators(n: Node, s: Seq<u8>, es: int)
    requires
        wf_line(s, es),
        all_words(n, s, es),
    ensures
        separators(s, es, ends(n)),
    decreases n,
{
    match n {
        Node::Exec { argv, eargv } => {
            assert forall|i: int| #[trigger] ends(n).contains(i) implies 0 <= i <= es && (i < es ==> is_space(s[i]) || is_symbol(s[i])) by {
                let k = choose|k: int| 0 <= k < argv.len() && i == #[trigger] eargv[k] as int;
                assert(is_word(s, es, argv[k] as int, eargv[k] as int));
                lemma_word_end_bounds(s, es, argv[k] as int);
            }
        },
        Node::Redir { sub, file, efile, .. } => {
            lemma_ends_are_separators(*sub, s, es);
            lemma_word_end_bounds(s, es, file as int);
        },
        Node::Pipe { left, right } => {
            lemma_ends_are_separators(*left, s, es);
            lemma_ends_are_separators(*right, s, es);
        },
        Node::List { left, right } => {
            lemma_ends_are_separators(*left, s, es);
            lemma_ends_are_separators(*right, s, es);
        },
        Node::Back { sub } => {
            lemma_ends_are_separators(*sub, s, es);
        },
    }
}

/// A word survives NULs written at separators, and is terminated by the
/// NUL written where it ends.
proof fn lemma_word_reads_back(s: Seq<u8>, es: int, z: Set<int>, q: int, e: int)
    requires
        wf_line(s, es),
        is_word(s, es, q, e),
        z.contains(e),
        separators(s, es, z),
    ensures
        terminated_copy(s, zeroed(s, z), q, e),
{
    lemma_word_end_bounds(s, es, q);
    let t = zeroed(s, z);
    assert forall|i: int| q <= i < e implies !z.contains(i) by {
        assert(!is_space(s[i]) && !is_symbol(s[i]));
    }
    assert(t.subrange(q, e) =~= s.subrange(q, e));
}

proof fn lemma_reads_back(n: Node, s: Seq<u8>, es: int, z: Set<int>)
    requires
        wf_line(s, es),
        all_words(n, s, es),
        ends(n).subset_of(z),
        separators(s, es, z),
    ensures
        reads_back(n, s, zeroed(s, z)),
    decreases n,
{
    match n {
        Node::Exec { argv, eargv } => {
            assert forall|k: int| 0 <= k < argv.len() implies terminated_copy(s, zeroed(s, z), #[trigger] argv[k] as int, eargv[k] as int) by {
                assert(is_word(s, es, argv[k] as int, eargv[k] as int));
                assert(ends(n).contains(eargv[k] as int));
                lemma_word_reads_back(s, es, z, argv[k] as int, eargv[k] as int);
            }
        },
        Node::Redir { sub, file, efile, .. } => {
            assert(ends(*sub).subset_of(z));
            lemma_reads_back(*sub, s, es, z);
            lemma_word_reads_back(s, es, z, file as int, efile as int);
        },
        Node::Pipe { left, right } => {
            assert(ends(*left).subset_of(z));
            assert(ends(*right).subset_of(z));
            lemma_reads_back(*left, s, es, z);
            lemma_reads_back(*right, s, es, z);
        },
        Node::List { left, right } => {
            assert(ends(*left).subset_of(z));
            assert(ends(*right).subset_of(z));
            lemma_reads_back(*left, s, es, z);
            lemma_reads_back(*right, s, es, z);
        },
        Node::Back { sub } => {
            lemma_reads_back(*sub, s, es, z);
        },
    }
}

/// Law: once the words and file names of a command are NUL-terminated in
/// place, each of them, read from where it starts up to the first NUL, is
/// exactly the word it was parsed from.
pub proof fn law_words_read_back(n: Node, s: Seq<u8>, es: int)
    requires
        wf_line(s, es),
        all_words(n, s, es),
    ensures
        reads_back(n, s, zeroed(s, ends(n))),
{
    lemma_ends_are_separators(n, s, es);
    lemma_reads_back(n, s, es, ends(n));
}

/// NUL-terminates, in `buf`, every word and file name of `c`.
pub fn nulterminate(c: &cmd, buf: &mut Vec<u8>)
    requires
        spans_within(c@, 0, old(buf)@.len() - 1),
    ensures
        final(buf)@ == zeroed(old(buf)@, ends(c@)),
    decreases c,
{
    let ghost s0 = buf@;
    match c {
        cmd::Exec(e) => {
            let mut i: usize = 0;
            let ghost done = Set::<int>::empty();
            proof {
                assert(buf@ =~= zeroed(s0, done));
                assert forall|k: int| 0 <= k < e.argv@.len() implies #[trigger] e.eargv@[k] < s0.len() by {
                    assert(e.argv@[k] <= e.eargv@[k]);
                }
            }
            while i < e.argv.len()
                invariant
                    e.argv@.len() == e.eargv@.len(),
                    i <= e.argv@.len(),
                    buf@.len() == s0.len(),
                    forall|k: int| 0 <= k < e.argv@.len() ==> #[trigger] e.eargv@[k] < s0.len(),
                    done == Set::new(|x: int| exists|k: int| 0 <= k < i && x == #[trigger] e.eargv@[k] as int),
                    buf@ == zeroed(s0, done),
                decreases e.argv@.len() - i,
            {
                let at = e.eargv[i];
                buf.set(at, 0);
                proof {
                    let next = Set::new(
                        |x: int| exists|k: int| 0 <= k < i + 1 && x == #[trigger] e.eargv@[k] as int,
                    );
                    assert(next =~= done.insert(at as int)) by {
                        assert forall|x: int| next.contains(x) implies done.insert(at as int).contains(x) by {
                            let k = choose|k: int| 0 <= k < i + 1 && x == #[trigger] e.eargv@[k] as int;
                            if k < i {
                                assert(done.contains(x));
                            }
                        }
                        assert(next.contains(at as int)) by {
                            assert(at as int == e.eargv@[i as int] as int);
                        }
                    }
                    done = next;
                    assert(buf@ =~= zeroed(s0, done));
                }
                i = i + 1;
            }
            proof {
                assert(done =~= ends(c@));
            }
        },
        cmd::Redir(r) => {
            nulterminate(&r.cmd, buf);
            buf.set(r.efile, 0);
            proof {
                assert(buf@ =~= zeroed(s0, ends(c@)));
            }
        },
        cmd::Pipe(p) => {
            nulterminate(&p.left, buf);
            nulterminate(&p.right, buf);
            proof {
                assert(buf@ =~= zeroed(s0, ends(c@)));
            }
        },
        cmd::List(l) => {
            nulterminate(&l.left, buf);
            nulterminate(&l.right, buf);
            proof {
                assert(buf@ =~= zeroed(s0, ends(c@)));
            }
        },
        cmd::Back(b) => {
            nulterminate(&b.cmd, buf);
        },
    }
}

} // verus!
