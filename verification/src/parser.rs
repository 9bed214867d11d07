//! The recursive-descent parser of command lines.
//!
//! Grammar (whitespace between tokens is skipped):
//!
//! ```text
//! line  := pipe ('&')* (';' line)?
//! pipe  := exec ('|' pipe)?
//! exec  := block | redirs (word redirs)*
//! block := '(' line ')' redirs
//! redirs := (('<' | '>' | '>>') word)*
//! ```
//!
//! The parser does not stop at a syntax error: it records a diagnostic and
//! goes on, as the shell does.  The one input it cannot go on with is a
//! simple command of ten or more words: there the shell aborts, and the
//! parser returns `None`.
//!
//! The spec functions `p_*` state what each parse function gives.  Where
//! one of them recurses on a later position, it does so only where that
//! position has moved forward within the line, which is what makes it a
//! definition; on a well-formed line it always has, as the parse functions
//! prove at each such step.
use vstd::prelude::*;
use crate::lexer::{
    cstr_len, gettoken, is_word, lemma_skip_space_bounds, lemma_skip_space_idem,
    lemma_token_bounds, peek, peeks, skip_space, strlen, tok_end, tok_kind, tok_next, tok_start,
    wf_line, AMP, BAR, GT, LPAREN, LT, RPAREN, SEMI, WORD,
};
use crate::command::{
    all_words, backcmd, cmd, ends, execcmd, law_words_read_back, lemma_spans_within_widen, listcmd, nulterminate, pipecmd,
    reads_back, redircmd, spans_within, zeroed, Node,
};

verus! {

/// Most words a simple command can hold, plus one for the terminator.
pub const MAXARGS: usize = 10;

/// `O_WRONLY | O_CREAT`
pub const WRITE_CREATE: i32 = 65;

/// A syntax error that the parser reports and then parses past.
#[derive(Clone, Copy, PartialEq, Eq, Structural, Debug)]
pub enum Diag {
    /// An unexpected token where a word was wanted.
    Syntax,
    /// A redirection not followed by a word.
    MissingFile,
    /// The tenth word of a simple command.
    TooManyArgs,
    /// A block that does not start with `(`.
    ParseBlock,
    /// A block not closed by `)`.
    MissingParen,
}

/// One redirection: descriptor `fd` opened with `mode` on the file spanning
/// `file..efile`.
#[derive(Clone, Copy, PartialEq, Eq, Structural, Debug)]
pub struct Redirection {
    pub file: usize,
    pub efile: usize,
    pub mode: i32,
    pub fd: i32,
}

/// `c` with the redirections `ls` applied in order, the first innermost.
pub open spec fn wrap(c: Node, ls: Seq<Redirection>) -> Node
    decreases ls.len(),
{
    if ls.len() == 0 {
        c
    } else {
        let l = ls.last();
        Node::Redir {
            sub: Box::new(wrap(c, ls.drop_last())),
            file: l.file,
            efile: l.efile,
            mode: l.mode,
            fd: l.fd,
        }
    }
}

/// The redirection made by operator token `kind` on the file `q..eq`.
pub open spec fn redirection_for(kind: int, q: int, eq: int) -> Redirection {
    if kind == LT as int {
        Redirection { file: q as usize, efile: eq as usize, mode: 0, fd: 0 }
    } else {
        Redirection { file: q as usize, efile: eq as usize, mode: WRITE_CREATE, fd: 1 }
    }
}

/// What parsing a run of redirections gives: the redirections in order,
/// where parsing stopped, and the diagnostics.
pub struct RedirsParse {
    pub layers: Seq<Redirection>,
    pub pos: int,
    pub diags: Seq<Diag>,
}

/// What parsing a command gives: the command (`None` where the shell
/// aborts), where parsing stopped, and the diagnostics.
pub struct Parse {
    pub node: Option<Node>,
    pub pos: int,
    pub diags: Seq<Diag>,
}

/// The redirections from `p`.
pub open spec fn p_redirs(s: Seq<u8>, es: int, p: int) -> RedirsParse
    decreases es - p,
{
    if !(0 <= p <= es) {
        RedirsParse { layers: Seq::empty(), pos: p, diags: Seq::empty() }
    } else {
        let p1 = skip_space(s, es, p);
        if !peeks(s, es, p1, seq![LT, GT]) {
            RedirsParse { layers: Seq::empty(), pos: p1, diags: Seq::empty() }
        } else {
            let op = tok_kind(s, es, p1);
            let p2 = tok_next(s, es, p1);
            let layer = redirection_for(op, tok_start(s, es, p2), tok_end(s, es, p2));
            let d = if tok_kind(s, es, p2) != WORD as int {
                seq![Diag::MissingFile]
            } else {
                Seq::empty()
            };
            let p3 = tok_next(s, es, p2);
            if p < p3 <= es {
                let rest = p_redirs(s, es, p3);
                RedirsParse {
                    layers: seq![layer] + rest.layers,
                    pos: rest.pos,
                    diags: d + rest.diags,
                }
            } else {
                RedirsParse { layers: seq![layer], pos: p3, diags: d }
            }
        }
    }
}

/// `c` followed by the `&`s from `p`: the command wrapped once per `&`, and
/// where parsing stopped.
pub open spec fn p_backs(s: Seq<u8>, es: int, p: int, c: Node) -> (Node, int)
    decreases es - p,
{
    if !(0 <= p <= es) {
        (c, p)
    } else {
        let p1 = skip_space(s, es, p);
        if peeks(s, es, p1, seq![AMP]) {
            let p2 = tok_next(s, es, p1);
            let b = Node::Back { sub: Box::new(c) };
            if p < p2 <= es {
                p_backs(s, es, p2, b)
            } else {
                (b, p2)
            }
        } else {
            (c, p1)
        }
    }
}

/// The simple command with words `argv`/`eargv` and redirections `layers`,
/// found where its words end at `pos`.
pub open spec fn args_done(
    argv: Seq<usize>,
    eargv: Seq<usize>,
    layers: Seq<Redirection>,
    pos: int,
    diags: Seq<Diag>,
) -> Parse {
    if argv.len() >= MAXARGS {
        Parse { node: None, pos, diags }
    } else {
        Parse { node: Some(wrap(Node::Exec { argv, eargv }, layers)), pos, diags }
    }
}

/// The rest of a simple command from `p`, which has so far the words
/// `argv`/`eargv`, the redirections `layers`, and the diagnostics `diags`.
pub open spec fn p_args(
    s: Seq<u8>,
    es: int,
    p: int,
    argv: Seq<usize>,
    eargv: Seq<usize>,
    layers: Seq<Redirection>,
    diags: Seq<Diag>,
) -> Parse
    decreases es - p,
{
    if !(0 <= p <= es) {
        Parse { node: None, pos: p, diags }
    } else {
        let p1 = skip_space(s, es, p);
        if peeks(s, es, p1, seq![BAR, RPAREN, AMP, SEMI]) {
            args_done(argv, eargv, layers, p1, diags)
        } else {
            let k = tok_kind(s, es, p1);
            let p2 = tok_next(s, es, p1);
            if k == 0 {
                args_done(argv, eargv, layers, p2, diags)
            } else if argv.len() >= MAXARGS {
                Parse { node: None, pos: p2, diags }
            } else {
                let argv2 = argv.push(tok_start(s, es, p1) as usize);
                let eargv2 = eargv.push(tok_end(s, es, p1) as usize);
                let d1 = if k != WORD as int {
                    seq![Diag::Syntax]
                } else {
                    Seq::empty()
                };
                let d2 = if argv2.len() >= MAXARGS {
                    seq![Diag::TooManyArgs]
                } else {
                    Seq::empty()
                };
                let r = p_redirs(s, es, p2);
                let diags2 = diags + d1 + d2 + r.diags;
                if p < r.pos <= es {
                    p_args(s, es, r.pos, argv2, eargv2, layers + r.layers, diags2)
                } else {
                    Parse { node: None, pos: r.pos, diags: diags2 }
                }
            }
        }
    }
}

/// The empty simple command.
pub open spec fn empty_exec() -> Node {
    Node::Exec { argv: Seq::empty(), eargv: Seq::empty() }
}

/// A command line from `p`.
pub open spec fn p_line(s: Seq<u8>, es: int, p: int) -> Parse
    decreases es - p, 3int,
{
    let r1 = p_pipe(s, es, p);
    match r1.node {
        None => r1,
        Some(c1) => {
            let (c2, p2) = p_backs(s, es, r1.pos, c1);
            if peeks(s, es, p2, seq![SEMI]) {
                let p3 = tok_next(s, es, p2);
                if p < p3 <= es {
                    let r2 = p_line(s, es, p3);
                    Parse {
                        node: match r2.node {
                            Some(c3) => Some(Node::List { left: Box::new(c2), right: Box::new(c3) }),
                            None => None,
                        },
                        pos: r2.pos,
                        diags: r1.diags + r2.diags,
                    }
                } else {
                    Parse { node: None, pos: p3, diags: r1.diags }
                }
            } else {
                Parse { node: Some(c2), pos: p2, diags: r1.diags }
            }
        },
    }
}

/// A pipeline from `p`.
pub open spec fn p_pipe(s: Seq<u8>, es: int, p: int) -> Parse
    decreases es - p, 2int,
{
    let r1 = p_exec(s, es, p);
    match r1.node {
        None => r1,
        Some(c1) => {
            let p2 = skip_space(s, es, r1.pos);
            if peeks(s, es, p2, seq![BAR]) {
                let p3 = tok_next(s, es, p2);
                if p < p3 <= es {
                    let r2 = p_pipe(s, es, p3);
                    Parse {
                        node: match r2.node {
                            Some(c3) => Some(Node::Pipe { left: Box::new(c1), right: Box::new(c3) }),
                            None => None,
                        },
                        pos: r2.pos,
                        diags: r1.diags + r2.diags,
                    }
                } else {
                    Parse { node: None, pos: p3, diags: r1.diags }
                }
            } else {
                Parse { node: Some(c1), pos: p2, diags: r1.diags }
            }
        },
    }
}

/// A simple command or a block from `p`.
pub open spec fn p_exec(s: Seq<u8>, es: int, p: int) -> Parse
    decreases es - p, 1int,
{
    if !(0 <= p <= es) {
        Parse { node: None, pos: p, diags: Seq::empty() }
    } else {
        let p1 = skip_space(s, es, p);
        proof {
            lemma_skip_space_bounds(s, es, p);
        }
        if peeks(s, es, p1, seq![LPAREN]) {
            p_block(s, es, p1)
        } else {
            let r = p_redirs(s, es, p1);
            p_args(s, es, r.pos, Seq::empty(), Seq::empty(), r.layers, r.diags)
        }
    }
}

/// A parenthesized block from `p`, with the redirections after it.
pub open spec fn p_block(s: Seq<u8>, es: int, p: int) -> Parse
    decreases es - p, 0int,
{
    if !(0 <= p <= es) {
        Parse { node: None, pos: p, diags: Seq::empty() }
    } else {
        let p1 = skip_space(s, es, p);
        proof {
            lemma_skip_space_bounds(s, es, p);
        }
        let d0 = if peeks(s, es, p1, seq![LPAREN]) {
            Seq::empty()
        } else {
            seq![Diag::ParseBlock]
        };
        let p2 = tok_next(s, es, p1);
        let inner = if p1 < p2 <= es {
            p_line(s, es, p2)
        } else {
            Parse { node: Some(empty_exec()), pos: p2, diags: Seq::empty() }
        };
        match inner.node {
            None => Parse { node: None, pos: inner.pos, diags: d0 + inner.diags },
            Some(c) => {
                let p3 = skip_space(s, es, inner.pos);
                let d1 = if peeks(s, es, p3, seq![RPAREN]) {
                    Seq::empty()
                } else {
                    seq![Diag::MissingParen]
                };
                let rr = p_redirs(s, es, tok_next(s, es, p3));
                Parse {
                    node: Some(wrap(c, rr.layers)),
                    pos: rr.pos,
                    diags: d0 + inner.diags + d1 + rr.diags,
                }
            },
        }
    }
}

/// The redirection files of `ls` lie within the line, and are whole words
/// where no diagnostic was raised.
pub open spec fn layers_sound(ls: Seq<Redirection>, diags: Seq<Diag>, s: Seq<u8>, es: int) -> bool {
    forall|i: int|
        0 <= i < ls.len() ==> {
            &&& 0 <= (#[trigger] ls[i]).file <= ls[i].efile <= es
            &&& diags.len() == 0 ==> is_word(s, es, ls[i].file as int, ls[i].efile as int)
        }
}

/// The words and files of a parsed command lie within the line, and are
/// whole words where no diagnostic was raised; and a parse that gives no
/// command has raised a diagnostic.
pub open spec fn sound(r: Parse, s: Seq<u8>, es: int) -> bool {
    &&& r.node matches Some(n) ==> spans_within(n, 0, es) && (r.diags.len() == 0 ==> all_words(
        n,
        s,
        es,
    ))
    &&& r.node is None ==> r.diags.len() > 0
}

proof fn lemma_wrap_sound(c: Node, ls: Seq<Redirection>, diags: Seq<Diag>, s: Seq<u8>, es: int)
    requires
        spans_within(c, 0, es),
        diags.len() == 0 ==> all_words(c, s, es),
        layers_sound(ls, diags, s, es),
    ensures
        spans_within(wrap(c, ls), 0, es),
        diags.len() == 0 ==> all_words(wrap(c, ls), s, es),
    decreases ls.len(),
{
    if ls.len() > 0 {
        let l = ls.last();
        assert(ls[ls.len() - 1] == l);
        assert(layers_sound(ls.drop_last(), diags, s, es)) by {
            assert forall|i: int| 0 <= i < ls.drop_last().len() implies #[trigger] ls.drop_last()[i] == ls[i] by {}
        }
        lemma_wrap_sound(c, ls.drop_last(), diags, s, es);
    }
}

/// Parsing redirections moves forward within the line, and gives sound
/// redirections.
proof fn lemma_redirs_sound(s: Seq<u8>, es: int, p: int)
    requires
        wf_line(s, es),
        es <= usize::MAX,
        0 <= p <= es,
    ensures
        p <= p_redirs(s, es, p).pos <= es,
        layers_sound(p_redirs(s, es, p).layers, p_redirs(s, es, p).diags, s, es),
    decreases es - p,
{
    lemma_skip_space_bounds(s, es, p);
    let p1 = skip_space(s, es, p);
    if peeks(s, es, p1, seq![LT, GT]) {
        lemma_token_bounds(s, es, p1);
        let p2 = tok_next(s, es, p1);
        lemma_token_bounds(s, es, p2);
        let p3 = tok_next(s, es, p2);
        lemma_skip_space_idem(s, es, p1);
        assert(p < p3 <= es);
        lemma_redirs_sound(s, es, p3);
        let r = p_redirs(s, es, p);
        let rest = p_redirs(s, es, p3);
        assert forall|i: int| 0 <= i < r.layers.len() implies {
            &&& 0 <= (#[trigger] r.layers[i]).file <= r.layers[i].efile <= es
            &&& r.diags.len() == 0 ==> is_word(s, es, r.layers[i].file as int, r.layers[i].efile as int)
        } by {
            if i > 0 {
                assert(r.layers[i] == rest.layers[i - 1]);
            } else {
                lemma_skip_space_idem(s, es, p2);
                assert(r.layers[0] == redirection_for(tok_kind(s, es, p1), tok_start(s, es, p2), tok_end(s, es, p2)));
            }
        }
    }
}

/// The words `argv`/`eargv` lie within the line, and are whole words where
/// no diagnostic was raised; too many of them have raised a diagnostic.
pub open spec fn words_sound(
    argv: Seq<usize>,
    eargv: Seq<usize>,
    diags: Seq<Diag>,
    s: Seq<u8>,
    es: int,
) -> bool {
    &&& argv.len() == eargv.len()
    &&& argv.len() >= MAXARGS ==> diags.len() > 0
    &&& forall|k: int|
        0 <= k < argv.len() ==> {
            &&& 0 <= #[trigger] argv[k] <= eargv[k] <= es
            &&& diags.len() == 0 ==> is_word(s, es, argv[k] as int, eargv[k] as int)
        }
}

proof fn lemma_layers_append(
    a: Seq<Redirection>,
    da: Seq<Diag>,
    b: Seq<Redirection>,
    db: Seq<Diag>,
    d: Seq<Diag>,
    s: Seq<u8>,
    es: int,
)
    requires
        layers_sound(a, da, s, es),
        layers_sound(b, db, s, es),
        d.len() == 0 ==> da.len() == 0 && db.len() == 0,
    ensures
        layers_sound(a + b, d, s, es),
{
    assert forall|i: int| 0 <= i < (a + b).len() implies {
        &&& 0 <= (#[trigger] (a + b)[i]).file <= (a + b)[i].efile <= es
        &&& d.len() == 0 ==> is_word(s, es, (a + b)[i].file as int, (a + b)[i].efile as int)
    } by {
        if i < a.len() {
            assert((a + b)[i] == a[i]);
        } else {
            assert((a + b)[i] == b[i - a.len()]);
        }
    }
}

/// The rest of a simple command is parsed soundly, moving forward.
proof fn lemma_args_sound(
    s: Seq<u8>,
    es: int,
    p: int,
    argv: Seq<usize>,
    eargv: Seq<usize>,
    layers: Seq<Redirection>,
    diags: Seq<Diag>,
)
    requires
        wf_line(s, es),
        es <= usize::MAX,
        0 <= p <= es,
        words_sound(argv, eargv, diags, s, es),
        layers_sound(layers, diags, s, es),
    ensures
        sound(p_args(s, es, p, argv, eargv, layers, diags), s, es),
        p_args(s, es, p, argv, eargv, layers, diags).node is Some ==> p <= p_args(
            s,
            es,
            p,
            argv,
            eargv,
            layers,
            diags,
        ).pos <= es,
    decreases es - p,
{
    lemma_skip_space_bounds(s, es, p);
    let p1 = skip_space(s, es, p);
    if !peeks(s, es, p1, seq![BAR, RPAREN, AMP, SEMI]) && tok_kind(s, es, p1) != 0 && argv.len()
        < MAXARGS {
        lemma_skip_space_idem(s, es, p);
        lemma_token_bounds(s, es, p1);
        let k = tok_kind(s, es, p1);
        let p2 = tok_next(s, es, p1);
        let argv2 = argv.push(tok_start(s, es, p1) as usize);
        let eargv2 = eargv.push(tok_end(s, es, p1) as usize);
        let d1 = if k != WORD as int {
            seq![Diag::Syntax]
        } else {
            Seq::empty()
        };
        let d2 = if argv2.len() >= MAXARGS {
            seq![Diag::TooManyArgs]
        } else {
            Seq::empty()
        };
        lemma_redirs_sound(s, es, p2);
        let r = p_redirs(s, es, p2);
        let diags2 = diags + d1 + d2 + r.diags;
        assert(words_sound(argv2, eargv2, diags2, s, es)) by {
            assert forall|j: int| 0 <= j < argv2.len() implies {
                &&& 0 <= #[trigger] argv2[j] <= eargv2[j] <= es
                &&& diags2.len() == 0 ==> is_word(s, es, argv2[j] as int, eargv2[j] as int)
            } by {
                if j < argv.len() {
                    assert(argv2[j] == argv[j] && eargv2[j] == eargv[j]);
                }
            }
        }
        lemma_layers_append(layers, diags, r.layers, r.diags, diags2, s, es);
        lemma_args_sound(s, es, r.pos, argv2, eargv2, layers + r.layers, diags2);
    } else {
        lemma_token_bounds(s, es, p1);
        lemma_wrap_sound(Node::Exec { argv, eargv }, layers, diags, s, es);
    }
}

/// Collects redirections from `*ps` into `layers`.
fn redirections(
    s: &Vec<u8>,
    ps: &mut usize,
    es: usize,
    diags: &mut Vec<Diag>,
    layers: &mut Vec<Redirection>,
)
    requires
        wf_line(s@, es as int),
        *old(ps) <= es,
    ensures
        ({
            let r = p_redirs(s@, es as int, *old(ps) as int);
            &&& *final(ps) == r.pos
            &&& *old(ps) <= *final(ps) <= es
            &&& final(layers)@ == old(layers)@ + r.layers
            &&& final(diags)@ == old(diags)@ + r.diags
        }),
{
    let ghost p0 = *ps as int;
    let ghost total = p_redirs(s@, es as int, p0);
    let ghost diags0 = diags@;
    let ghost layers0 = layers@;
    loop
        invariant
            wf_line(s@, es as int),
            p0 == *old(ps),
            layers0 == old(layers)@,
            diags0 == old(diags)@,
            total == p_redirs(s@, es as int, p0),
            p0 <= *ps <= es,
            ({
                let r = p_redirs(s@, es as int, *ps as int);
                &&& total.pos == r.pos
                &&& layers0 + total.layers == layers@ + r.layers
                &&& diags0 + total.diags == diags@ + r.diags
            }),
        decreases es - *ps,
    {
        let ghost p = *ps as int;
        proof {
            lemma_skip_space_bounds(s@, es as int, p);
            lemma_skip_space_idem(s@, es as int, p);
        }
        let toks: &[u8] = &[LT, GT];
        proof {
            assert(toks@ =~= seq![LT, GT]);
        }
        if !peek(s, ps, es, toks) {
            proof {
                assert(layers@ + Seq::<Redirection>::empty() == layers@);
                assert(diags@ + Seq::<Diag>::empty() == diags@);
            }
            return;
        }
        let p1 = *ps;
        proof {
            lemma_token_bounds(s@, es as int, p1 as int);
        }
        let op = gettoken(s, ps, es);
        let p2 = *ps;
        proof {
            lemma_token_bounds(s@, es as int, p2 as int);
        }
        let f = gettoken(s, ps, es);
        let ghost r = p_redirs(s@, es as int, p);
        let ghost rest = p_redirs(s@, es as int, *ps as int);
        assert(r.layers == seq![redirection_for(op.kind as int, f.q as int, f.eq as int)]
            + rest.layers);
        if f.kind != WORD {
            diags.push(Diag::MissingFile);
        }
        let layer = if op.kind == LT as i32 {
            Redirection { file: f.q, efile: f.eq, mode: 0, fd: 0 }
        } else {
            Redirection { file: f.q, efile: f.eq, mode: WRITE_CREATE, fd: 1 }
        };
        layers.push(layer);
        proof {
            assert(layers@ + rest.layers == layers@.drop_last() + r.layers);
            if f.kind != WORD {
                assert(diags@ + rest.diags == diags@.drop_last() + r.diags);
            } else {
                assert(diags@ + rest.diags == diags@ + r.diags);
            }
        }
    }
}

/// Applies the redirections in `layers` to `c`, the first innermost.
fn apply_redirections(c: cmd, layers: &Vec<Redirection>) -> (r: cmd)
    ensures
        r@ == wrap(c@, layers@),
{
    let ghost c0 = c@;
    let mut r = c;
    let mut i: usize = 0;
    while i < layers.len()
        invariant
            i <= layers@.len(),
            r@ == wrap(c0, layers@.take(i as int)),
        decreases layers@.len() - i,
    {
        let l = layers[i];
        r = redircmd(r, l.file, l.efile, l.mode, l.fd);
        proof {
            assert(layers@.take(i + 1).drop_last() == layers@.take(i as int));
        }
        i = i + 1;
    }
    proof {
        assert(layers@.take(layers@.len() as int) == layers@);
    }
    r
}

/// Parses the redirections from `*ps` and applies them to `c`.
pub fn parseredirs(c: cmd, s: &Vec<u8>, ps: &mut usize, es: usize, diags: &mut Vec<Diag>) -> (r:
    cmd)
    requires
        wf_line(s@, es as int),
        *old(ps) <= es,
    ensures
        ({
            let pr = p_redirs(s@, es as int, *old(ps) as int);
            &&& r@ == wrap(c@, pr.layers)
            &&& *final(ps) == pr.pos
            &&& *old(ps) <= *final(ps) <= es
            &&& final(diags)@ == old(diags)@ + pr.diags
        }),
{
    let mut layers: Vec<Redirection> = Vec::new();
    redirections(s, ps, es, diags, &mut layers);
    proof {
        assert(layers@ == Seq::<Redirection>::empty() + layers@);
    }
    apply_redirections(c, &layers)
}

proof fn lemma_backs_advance(s: Seq<u8>, es: int, p: int, c: Node)
    requires
        wf_line(s, es),
        0 <= p <= es,
    ensures
        p <= p_backs(s, es, p, c).1 <= es,
        p_backs(s, es, p, c).1 == skip_space(s, es, p_backs(s, es, p, c).1),
    decreases es - p,
{
    lemma_skip_space_bounds(s, es, p);
    lemma_skip_space_idem(s, es, p);
    let p1 = skip_space(s, es, p);
    if peeks(s, es, p1, seq![AMP]) {
        lemma_token_bounds(s, es, p1);
        let p2 = tok_next(s, es, p1);
        if p < p2 <= es {
            lemma_backs_advance(s, es, p2, Node::Back { sub: Box::new(c) });
        }
    }
}

/// A line that parses to a command is parsed forward, within the line.
proof fn lemma_line_advances(s: Seq<u8>, es: int, p: int)
    requires
        wf_line(s, es),
        es <= usize::MAX,
        0 <= p <= es,
    ensures
        p_line(s, es, p).node is Some ==> p <= p_line(s, es, p).pos <= es,
    decreases es - p, 3int,
{
    lemma_pipe_advances(s, es, p);
    let r1 = p_pipe(s, es, p);
    if let Some(c1) = r1.node {
        lemma_backs_advance(s, es, r1.pos, c1);
        let p2 = p_backs(s, es, r1.pos, c1).1;
        if peeks(s, es, p2, seq![SEMI]) {
            lemma_token_bounds(s, es, p2);
            let p3 = tok_next(s, es, p2);
            if p < p3 <= es {
                lemma_line_advances(s, es, p3);
            }
        }
    }
}

/// A pipeline that parses to a command is parsed forward, within the line.
proof fn lemma_pipe_advances(s: Seq<u8>, es: int, p: int)
    requires
        wf_line(s, es),
        es <= usize::MAX,
        0 <= p <= es,
    ensures
        p_pipe(s, es, p).node is Some ==> p <= p_pipe(s, es, p).pos <= es,
    decreases es - p, 2int,
{
    lemma_exec_advances(s, es, p);
    let r1 = p_exec(s, es, p);
    if r1.node is Some {
        lemma_skip_space_bounds(s, es, r1.pos);
        let p2 = skip_space(s, es, r1.pos);
        if peeks(s, es, p2, seq![BAR]) {
            lemma_token_bounds(s, es, p2);
            let p3 = tok_next(s, es, p2);
            if p < p3 <= es {
                lemma_pipe_advances(s, es, p3);
            }
        }
    }
}

/// A simple command or block that parses to a command is parsed forward,
/// within the line.
proof fn lemma_exec_advances(s: Seq<u8>, es: int, p: int)
    requires
        wf_line(s, es),
        es <= usize::MAX,
        0 <= p <= es,
    ensures
        p_exec(s, es, p).node is Some ==> p <= p_exec(s, es, p).pos <= es,
    decreases es - p, 1int,
{
    lemma_skip_space_bounds(s, es, p);
    let p1 = skip_space(s, es, p);
    if peeks(s, es, p1, seq![LPAREN]) {
        lemma_block_advances(s, es, p1);
    } else {
        lemma_redirs_sound(s, es, p1);
        let r = p_redirs(s, es, p1);
        lemma_args_sound(s, es, r.pos, Seq::empty(), Seq::empty(), r.layers, r.diags);
    }
}

/// A block that parses to a command is parsed forward, within the line.
proof fn lemma_block_advances(s: Seq<u8>, es: int, p: int)
    requires
        wf_line(s, es),
        es <= usize::MAX,
        0 <= p <= es,
    ensures
        p_block(s, es, p).node is Some ==> p <= p_block(s, es, p).pos <= es,
    decreases es - p, 0int,
{
    lemma_skip_space_bounds(s, es, p);
    let p1 = skip_space(s, es, p);
    lemma_token_bounds(s, es, p1);
    let p2 = tok_next(s, es, p1);
    if p1 < p2 <= es {
        lemma_line_advances(s, es, p2);
    }
    let inner = if p1 < p2 <= es {
        p_line(s, es, p2)
    } else {
        Parse { node: Some(empty_exec()), pos: p2, diags: Seq::empty() }
    };
    if inner.node is Some {
        lemma_skip_space_bounds(s, es, inner.pos);
        let p3 = skip_space(s, es, inner.pos);
        lemma_token_bounds(s, es, p3);
        lemma_redirs_sound(s, es, tok_next(s, es, p3));
    }
}

/// Law, the rule `line := pipe ('&')* (';' line)?`: a line starts with a
/// pipeline, wrapped once for each `&` after it; where a `;` follows, the
/// line is the list of that command and of the whole line after the `;`
/// (so `a ; b ; c` is `a ; (b ; c)`, and every `;`-separated command is in
/// the tree), with the diagnostics of both and ending where the second
/// ends; otherwise the line is that command alone, ending at the next
/// token.
pub proof fn law_line_grammar(s: Seq<u8>, es: int, p: int)
    requires
        wf_line(s, es),
        es <= usize::MAX,
        0 <= p <= es,
    ensures
        ({
            let r = p_line(s, es, p);
            let r1 = p_pipe(s, es, p);
            match r1.node {
                None => r.node is None && r.diags == r1.diags,
                Some(c1) => {
                    let (c2, p2) = p_backs(s, es, r1.pos, c1);
                    let q = skip_space(s, es, p2);
                    if s[q] == SEMI {
                        let r2 = p_line(s, es, skip_space(s, es, q + 1));
                        &&& r.node == match r2.node {
                            Some(c3) => Some(Node::List { left: Box::new(c2), right: Box::new(c3) }),
                            None => None,
                        }
                        &&& r.diags == r1.diags + r2.diags
                        &&& r.pos == r2.pos
                    } else {
                        &&& r.node == Some(c2)
                        &&& r.diags == r1.diags
                        &&& r.pos == q
                    }
                },
            }
        }),
{
    lemma_pipe_advances(s, es, p);
    let r1 = p_pipe(s, es, p);
    if let Some(c1) = r1.node {
        lemma_backs_advance(s, es, r1.pos, c1);
        let p2 = p_backs(s, es, r1.pos, c1).1;
        lemma_skip_space_idem(s, es, p2);
        let q = skip_space(s, es, p2);
        if s[q] == SEMI {
            assert(seq![SEMI].contains(s[q])) by {
                assert(seq![SEMI][0] == SEMI);
            }
            lemma_token_bounds(s, es, p2);
            assert(tok_next(s, es, p2) == skip_space(s, es, q + 1));
        } else {
            assert(!seq![SEMI].contains(s[q])) by {
                if seq![SEMI].contains(s[q]) {
                    let i = choose|i: int| 0 <= i < 1 && seq![SEMI][i] == s[q];
                    assert(seq![SEMI][i] == SEMI);
                }
            }
        }
    }
}

/// At the end of a line, a line parses as the empty command, with no
/// diagnostics, and parsing stays at the end.  (`p_block`, and
/// `parseblock`, take this for the line inside a block that starts at the
/// end of the input.)
pub proof fn lemma_line_at_end(s: Seq<u8>, es: int)
    requires
        wf_line(s, es),
    ensures
        p_line(s, es, es) == (Parse { node: Some(empty_exec()), pos: es, diags: Seq::empty() }),
{
    assert(skip_space(s, es, es) == es);
    let r = p_redirs(s, es, es);
    assert(r.layers == Seq::<Redirection>::empty() && r.pos == es && r.diags == Seq::<Diag>::empty());
    assert(tok_kind(s, es, es) == 0);
    assert(tok_next(s, es, es) == es);
    let a = p_args(s, es, es, Seq::empty(), Seq::empty(), Seq::empty(), Seq::empty());
    assert(wrap(empty_exec(), Seq::empty()) == empty_exec());
    assert(a == (Parse { node: Some(empty_exec()), pos: es, diags: Seq::empty() }));
    assert(p_exec(s, es, es) == a);
    assert(p_pipe(s, es, es) == a);
    assert(p_backs(s, es, es, empty_exec()) == (empty_exec(), es));
}

/// Whether `c` is what the parse `r` gives.
pub open spec fn parsed(c: Option<cmd>, r: Parse) -> bool {
    match c {
        Some(x) => r.node == Some(x@),
        None => r.node is None,
    }
}

/// Wraps `c` once for each `&` from `*ps`.
#[verifier::loop_isolation(false)]
fn backgrounds(c: cmd, s: &Vec<u8>, ps: &mut usize, es: usize) -> (r: cmd)
    requires
        wf_line(s@, es as int),
        *old(ps) <= es,
    ensures
        (r@, *final(ps) as int) == p_backs(s@, es as int, *old(ps) as int, c@),
        *old(ps) <= *final(ps) <= es,
        skip_space(s@, es as int, *final(ps) as int) == *final(ps),
        spans_within(c@, 0, es as int) ==> spans_within(r@, 0, es as int),
        all_words(c@, s@, es as int) ==> all_words(r@, s@, es as int),
{
    let ghost total = p_backs(s@, es as int, *ps as int, c@);
    let ghost p0 = *ps;
    let ghost c0 = c@;
    let mut c = c;
    loop
        invariant
            wf_line(s@, es as int),
            p0 == *old(ps),
            total == p_backs(s@, es as int, p0 as int, c0),
            p0 <= *ps <= es,
            p_backs(s@, es as int, *ps as int, c@) == total,
            spans_within(c0, 0, es as int) ==> spans_within(c@, 0, es as int),
            all_words(c0, s@, es as int) ==> all_words(c@, s@, es as int),
        decreases es - *ps,
    {
        let ghost p = *ps as int;
        proof {
            lemma_skip_space_bounds(s@, es as int, p);
            lemma_skip_space_idem(s@, es as int, p);
        }
        let toks: &[u8] = &[AMP];
        proof {
            assert(toks@ =~= seq![AMP]);
        }
        if !peek(s, ps, es, toks) {
            return c;
        }
        proof {
            lemma_token_bounds(s@, es as int, *ps as int);
        }
        gettoken(s, ps, es);
        c = backcmd(c);
    }
}

/// Parses a command line from `*ps`.
pub fn parseline(s: &Vec<u8>, ps: &mut usize, es: usize, diags: &mut Vec<Diag>) -> (c: Option<cmd>)
    requires
        wf_line(s@, es as int),
        *old(ps) <= es,
    ensures
        ({
            let r = p_line(s@, es as int, *old(ps) as int);
            &&& parsed(c, r)
            &&& sound(r, s@, es as int)
            &&& final(diags)@ == old(diags)@ + r.diags
            &&& *final(ps) == r.pos
            &&& *old(ps) <= *final(ps) <= es
        }),
    decreases es - *old(ps), 3int,
{
    let c = parsepipe(s, ps, es, diags);
    let c = match c {
        None => return None,
        Some(c) => c,
    };
    let c = backgrounds(c, s, ps, es);
    let ghost p2 = *ps as int;
    proof {
        lemma_skip_space_bounds(s@, es as int, p2);
        lemma_skip_space_idem(s@, es as int, p2);
    }
    let toks: &[u8] = &[SEMI];
    proof {
        assert(toks@ =~= seq![SEMI]);
    }
    if peek(s, ps, es, toks) {
        proof {
            lemma_token_bounds(s@, es as int, *ps as int);
        }
        gettoken(s, ps, es);
        let right = parseline(s, ps, es, diags);
        match right {
            None => None,
            Some(r) => Some(listcmd(c, r)),
        }
    } else {
        Some(c)
    }
}

/// Parses a pipeline from `*ps`.
pub fn parsepipe(s: &Vec<u8>, ps: &mut usize, es: usize, diags: &mut Vec<Diag>) -> (c: Option<cmd>)
    requires
        wf_line(s@, es as int),
        *old(ps) <= es,
    ensures
        ({
            let r = p_pipe(s@, es as int, *old(ps) as int);
            &&& parsed(c, r)
            &&& sound(r, s@, es as int)
            &&& final(diags)@ == old(diags)@ + r.diags
            &&& *final(ps) == r.pos
            &&& *old(ps) <= *final(ps) <= es
        }),
    decreases es - *old(ps), 2int,
{
    let c = parseexec(s, ps, es, diags);
    let c = match c {
        None => return None,
        Some(c) => c,
    };
    let ghost p2 = *ps as int;
    proof {
        lemma_skip_space_bounds(s@, es as int, p2);
        lemma_skip_space_idem(s@, es as int, p2);
    }
    let toks: &[u8] = &[BAR];
    proof {
        assert(toks@ =~= seq![BAR]);
    }
    if peek(s, ps, es, toks) {
        proof {
            lemma_token_bounds(s@, es as int, *ps as int);
        }
        gettoken(s, ps, es);
        let right = parsepipe(s, ps, es, diags);
        match right {
            None => None,
            Some(r) => Some(pipecmd(c, r)),
        }
    } else {
        Some(c)
    }
}

/// The simple command with words `argv`/`eargv` and redirections `layers`;
/// `None` where it has too many words.
fn finish_exec(argv: Vec<usize>, eargv: Vec<usize>, layers: &Vec<Redirection>) -> (c: Option<
    cmd,
>)
    ensures
        parsed(c, args_done(argv@, eargv@, layers@, 0, Seq::empty())),
{
    if argv.len() >= MAXARGS {
        None
    } else {
        let e = cmd::Exec(execcmd { argv, eargv });
        Some(apply_redirections(e, layers))
    }
}

/// Parses a simple command, or a block, from `*ps`.
pub fn parseexec(s: &Vec<u8>, ps: &mut usize, es: usize, diags: &mut Vec<Diag>) -> (c: Option<cmd>)
    requires
        wf_line(s@, es as int),
        *old(ps) <= es,
    ensures
        ({
            let r = p_exec(s@, es as int, *old(ps) as int);
            &&& parsed(c, r)
            &&& sound(r, s@, es as int)
            &&& final(diags)@ == old(diags)@ + r.diags
            &&& *final(ps) == r.pos
            &&& *old(ps) <= *final(ps) <= es
        }),
    decreases es - *old(ps), 1int,
{
    let ghost p = *ps as int;
    proof {
        lemma_skip_space_bounds(s@, es as int, p);
        lemma_skip_space_idem(s@, es as int, p);
    }
    let toks: &[u8] = &[LPAREN];
    proof {
        assert(toks@ =~= seq![LPAREN]);
    }
    if peek(s, ps, es, toks) {
        return parseblock(s, ps, es, diags);
    }
    let ghost d0 = diags@;
    let mut layers: Vec<Redirection> = Vec::new();
    redirections(s, ps, es, diags, &mut layers);
    let mut argv: Vec<usize> = Vec::new();
    let mut eargv: Vec<usize> = Vec::new();
    let ghost total = p_exec(s@, es as int, p);
    let ghost mut acc: Seq<Diag> = diags@.subrange(d0.len() as int, diags@.len() as int);
    proof {
        assert(layers@ == Seq::<Redirection>::empty() + layers@);
        assert(diags@ == d0 + acc);
        let p1 = skip_space(s@, es as int, p);
        let r = p_redirs(s@, es as int, p1);
        assert(!peeks(s@, es as int, p1, seq![LPAREN]));
        assert(r.layers == layers@);
        assert(r.diags == acc);
        assert(r.pos == *ps);
        assert(total == p_args(s@, es as int, r.pos, Seq::empty(), Seq::empty(), r.layers, r.diags));
        lemma_redirs_sound(s@, es as int, p1);
        lemma_args_sound(s@, es as int, r.pos, Seq::empty(), Seq::empty(), r.layers, r.diags);
    }
    loop
        invariant
            wf_line(s@, es as int),
            p == *old(ps),
            d0 == old(diags)@,
            total == p_exec(s@, es as int, p),
            sound(total, s@, es as int),
            p <= *ps <= es,
            argv@.len() <= MAXARGS,
            diags@ == d0 + acc,
            p_args(s@, es as int, *ps as int, argv@, eargv@, layers@, acc) == total,
        decreases es - *ps,
    {
        let ghost q = *ps as int;
        proof {
            lemma_skip_space_bounds(s@, es as int, q);
            lemma_skip_space_idem(s@, es as int, q);
        }
        let toks: &[u8] = &[BAR, RPAREN, AMP, SEMI];
        proof {
            assert(toks@ =~= seq![BAR, RPAREN, AMP, SEMI]);
        }
        if peek(s, ps, es, toks) {
            return finish_exec(argv, eargv, &layers);
        }
        proof {
            lemma_token_bounds(s@, es as int, *ps as int);
        }
        let t = gettoken(s, ps, es);
        if t.kind == 0 {
            return finish_exec(argv, eargv, &layers);
        }
        if argv.len() >= MAXARGS {
            return None;
        }
        let ghost before = diags@;
        if t.kind != WORD {
            diags.push(Diag::Syntax);
        }
        argv.push(t.q);
        eargv.push(t.eq);
        if argv.len() >= MAXARGS {
            diags.push(Diag::TooManyArgs);
        }
        let ghost mid = diags@;
        let ghost l0 = layers@;
        redirections(s, ps, es, diags, &mut layers);
        proof {
            let p1 = skip_space(s@, es as int, q);
            let k = tok_kind(s@, es as int, p1);
            let r = p_redirs(s@, es as int, tok_next(s@, es as int, p1));
            let d1 = if k != WORD as int {
                seq![Diag::Syntax]
            } else {
                Seq::<Diag>::empty()
            };
            let d2 = if argv@.len() >= MAXARGS {
                seq![Diag::TooManyArgs]
            } else {
                Seq::<Diag>::empty()
            };
            assert(!peeks(s@, es as int, p1, seq![BAR, RPAREN, AMP, SEMI]));
            assert(mid == before + d1 + d2);
            assert(diags@ == mid + r.diags);
            assert(layers@ == l0 + r.layers);
            assert(q < r.pos <= es);
            acc = acc + d1 + d2 + r.diags;
        }
    }
}

/// Parses a parenthesized block from `*ps`, with the redirections after it.
pub fn parseblock(s: &Vec<u8>, ps: &mut usize, es: usize, diags: &mut Vec<Diag>) -> (c: Option<
    cmd,
>)
    requires
        wf_line(s@, es as int),
        *old(ps) <= es,
    ensures
        ({
            let r = p_block(s@, es as int, *old(ps) as int);
            &&& parsed(c, r)
            &&& sound(r, s@, es as int)
            &&& final(diags)@ == old(diags)@ + r.diags
            &&& *final(ps) == r.pos
            &&& *old(ps) <= *final(ps) <= es
        }),
    decreases es - *old(ps), 0int,
{
    let ghost p = *ps as int;
    proof {
        lemma_skip_space_bounds(s@, es as int, p);
        lemma_skip_space_idem(s@, es as int, p);
    }
    let toks: &[u8] = &[LPAREN];
    proof {
        assert(toks@ =~= seq![LPAREN]);
    }
    if !peek(s, ps, es, toks) {
        diags.push(Diag::ParseBlock);
    }
    let ghost da = diags@;
    proof {
        lemma_token_bounds(s@, es as int, *ps as int);
    }
    let t = gettoken(s, ps, es);
    // At the end of the line nothing is left to read: the line inside the
    // block is then the empty command.
    let inner = if t.kind == 0 {
        Some(execcmd())
    } else {
        parseline(s, ps, es, diags)
    };
    let c = match inner {
        None => return None,
        Some(c) => c,
    };
    let ghost db = diags@;
    let ghost p3 = *ps as int;
    proof {
        lemma_skip_space_bounds(s@, es as int, p3);
        lemma_skip_space_idem(s@, es as int, p3);
    }
    let toks: &[u8] = &[RPAREN];
    proof {
        assert(toks@ =~= seq![RPAREN]);
    }
    if !peek(s, ps, es, toks) {
        diags.push(Diag::MissingParen);
    }
    proof {
        lemma_token_bounds(s@, es as int, *ps as int);
    }
    gettoken(s, ps, es);
    let ghost p4 = *ps as int;
    let r = parseredirs(c, s, ps, es, diags);
    proof {
        let p1 = skip_space(s@, es as int, p);
        let b = p_block(s@, es as int, p);
        let rr = p_redirs(s@, es as int, p4);
        let p2 = tok_next(s@, es as int, p1);
        let inner = if p1 < p2 <= es {
            p_line(s@, es as int, p2)
        } else {
            Parse { node: Some(empty_exec()), pos: p2, diags: Seq::empty() }
        };
        assert(p4 == tok_next(s@, es as int, skip_space(s@, es as int, p3)));
        assert(db == da + inner.diags);
        assert(inner.node == Some(c@));
        assert(diags@ =~= old(diags)@ + b.diags);
        lemma_redirs_sound(s@, es as int, p4);
        lemma_wrap_sound(c@, rr.layers, b.diags, s@, es as int);
    }
    Some(r)
}

/// What parsing a whole line gives.
#[derive(Debug)]
pub struct Parsed {
    /// The command; `None` where the shell aborts, on a simple command of
    /// ten or more words.
    pub cmd: Option<cmd>,
    /// The syntax errors met, in order.
    pub diags: Vec<Diag>,
    /// The text after the point where parsing stopped, where that is not
    /// the end of the line; it is reported, and then a syntax error.
    pub leftover: Option<Vec<u8>>,
}

/// The bytes `s[from..to]`.
fn copy_range(s: &Vec<u8>, from: usize, to: usize) -> (r: Vec<u8>)
    requires
        from <= to <= s@.len(),
    ensures
        r@ == s@.subrange(from as int, to as int),
{
    let mut r: Vec<u8> = Vec::new();
    let mut i = from;
    while i < to
        invariant
            from <= i <= to <= s@.len(),
            r@ == s@.subrange(from as int, i as int),
        decreases to - i,
    {
        r.push(s[i]);
        proof {
            assert(r@ =~= s@.subrange(from as int, i + 1));
        }
        i = i + 1;
    }
    r
}

/// Parses the NUL-terminated line at the start of `buf`, and NUL-terminates
/// the words and file names of the command in place.
pub fn parsecmd(buf: &mut Vec<u8>) -> (out: Parsed)
    requires
        exists|k: int| 0 <= k < old(buf)@.len() && old(buf)@[k] == 0,
    ensures
        ({
            let s = old(buf)@;
            let es = cstr_len(s);
            let r = p_line(s, es, 0);
            &&& parsed(out.cmd, r)
            &&& out.diags@ == r.diags
            &&& out.diags.len() == 0 ==> out.cmd is Some
            &&& out.cmd is None ==> final(buf)@ == s && out.leftover is None
            &&& out.cmd matches Some(c) ==> {
                let end = skip_space(s, es, r.pos);
                &&& out.leftover is Some <==> end != es
                &&& out.leftover matches Some(v) ==> v@ == s.subrange(end, es)
                &&& spans_within(c@, 0, es)
                &&& final(buf)@ == zeroed(s, ends(c@))
                &&& out.diags.len() == 0 ==> all_words(c@, s, es) && reads_back(c@, s, final(buf)@)
            }
        }),
{
    let es = strlen(buf);
    let len = buf.len();
    let ghost s = buf@;
    let mut ps: usize = 0;
    let mut diags: Vec<Diag> = Vec::new();
    let c = parseline(buf, &mut ps, es, &mut diags);
    proof {
        assert(diags@ =~= p_line(s, es as int, 0).diags);
    }
    let c = match c {
        None => return Parsed { cmd: None, diags, leftover: None },
        Some(c) => c,
    };
    let toks: &[u8] = &[];
    peek(buf, &mut ps, es, toks);
    let leftover = if ps != es {
        Some(copy_range(buf, ps, es))
    } else {
        None
    };
    proof {
        lemma_spans_within_widen(c@, 0, es as int, len - 1);
    }
    nulterminate(&c, buf);
    proof {
        if diags@.len() == 0 {
            law_words_read_back(c@, s, es as int);
        }
    }
    Parsed { cmd: Some(c), diags, leftover }
}

} // verus!
