//! Byte classes and the tokenizer of the command language.
//!
//! A command line is a byte buffer `s` together with an end index `es`:
//! the bytes before `es` are the text (none of them is NUL) and `s[es]` is
//! the terminating NUL.  All scanning stops at `es`.
use vstd::prelude::*;

verus! {

/// `<`
pub const LT: u8 = 60;
/// `>`
pub const GT: u8 = 62;
/// `|`
pub const BAR: u8 = 124;
/// `&`
pub const AMP: u8 = 38;
/// `;`
pub const SEMI: u8 = 59;
/// `(`
pub const LPAREN: u8 = 40;
/// `)`
pub const RPAREN: u8 = 41;
/// Token kind of `>>`.
pub const APPEND: i32 = 43;
/// Token kind of a word.
pub const WORD: i32 = 97;

/// The whitespace bytes: space, tab, carriage return, newline, vertical tab.
pub open spec fn is_space(b: u8) -> bool {
    b == 32 || b == 9 || b == 13 || b == 10 || b == 11
}

/// The bytes that are tokens on their own: `< | > & ; ( )`.
pub open spec fn is_symbol(b: u8) -> bool {
    b == LT || b == BAR || b == GT || b == AMP || b == SEMI || b == LPAREN || b == RPAREN
}

/// A well-formed line: `s[es]` is NUL and no byte before it is.
pub open spec fn wf_line(s: Seq<u8>, es: int) -> bool {
    &&& 0 <= es < s.len()
    &&& s[es] == 0
    &&& forall|i: int| 0 <= i < es ==> s[i] != 0
}

/// The first position at or after `i` that holds a NUL (or the length of `s`).
pub open spec fn first_nul(s: Seq<u8>, i: int) -> int
    decreases s.len() - i,
{
    if i >= s.len() || s[i] == 0 {
        i
    } else {
        first_nul(s, i + 1)
    }
}

/// The length of the NUL-terminated string at the start of `s`.
pub open spec fn cstr_len(s: Seq<u8>) -> int {
    first_nul(s, 0)
}

/// The first NUL from `i`, where there is one, is a NUL and none comes
/// before it.
pub proof fn lemma_first_nul(s: Seq<u8>, i: int)
    requires
        0 <= i,
        exists|k: int| i <= k < s.len() && s[k] == 0,
    ensures
        i <= first_nul(s, i) < s.len(),
        s[first_nul(s, i)] == 0,
        forall|j: int| i <= j < first_nul(s, i) ==> s[j] != 0,
    decreases s.len() - i,
{
    if s[i] != 0 {
        let k = choose|k: int| i <= k < s.len() && s[k] == 0;
        assert(k != i);
        lemma_first_nul(s, i + 1);
    }
}

/// First position at or after `p` that is not whitespace (or `es`).
pub open spec fn skip_space(s: Seq<u8>, es: int, p: int) -> int
    decreases es - p,
{
    if p < es && is_space(s[p]) {
        skip_space(s, es, p + 1)
    } else {
        p
    }
}

/// First position at or after `p` that holds whitespace, a symbol, or is `es`.
pub open spec fn word_end(s: Seq<u8>, es: int, p: int) -> int
    decreases es - p,
{
    if p < es && !is_space(s[p]) && !is_symbol(s[p]) {
        word_end(s, es, p + 1)
    } else {
        p
    }
}

/// `q..e` is a whole word of the line: it is not empty, and it runs up to
/// the first whitespace, symbol or end of line.
pub open spec fn is_word(s: Seq<u8>, es: int, q: int, e: int) -> bool {
    0 <= q < e <= es && e == word_end(s, es, q)
}

/// Where the token found from `p` starts.
pub open spec fn tok_start(s: Seq<u8>, es: int, p: int) -> int {
    skip_space(s, es, p)
}

/// The kind of the token found from `p`: 0 at the end of the line, the
/// symbol byte itself for a symbol, `APPEND` for `>>`, `WORD` for a word.
pub open spec fn tok_kind(s: Seq<u8>, es: int, p: int) -> int {
    let q = tok_start(s, es, p);
    let c = s[q];
    if c == 0 {
        0
    } else if c == GT {
        if s[q + 1] == GT {
            APPEND as int
        } else {
            GT as int
        }
    } else if is_symbol(c) {
        c as int
    } else {
        WORD as int
    }
}

/// Where the token found from `p` ends (exclusive).
pub open spec fn tok_end(s: Seq<u8>, es: int, p: int) -> int {
    let q = tok_start(s, es, p);
    let c = s[q];
    if c == 0 {
        q
    } else if c == GT {
        if s[q + 1] == GT {
            q + 2
        } else {
            q + 1
        }
    } else if is_symbol(c) {
        q + 1
    } else {
        word_end(s, es, q)
    }
}

/// Where scanning resumes after the token found from `p`: past the
/// whitespace that follows it.
pub open spec fn tok_next(s: Seq<u8>, es: int, p: int) -> int {
    skip_space(s, es, tok_end(s, es, p))
}

/// Whether the next non-blank byte from `p` is one of `toks`.
pub open spec fn peeks(s: Seq<u8>, es: int, p: int, toks: Seq<u8>) -> bool {
    let q = skip_space(s, es, p);
    s[q] != 0 && toks.contains(s[q])
}

pub proof fn lemma_skip_space_bounds(s: Seq<u8>, es: int, p: int)
    requires
        p <= es,
    ensures
        p <= skip_space(s, es, p) <= es,
        skip_space(s, es, p) < es ==> !is_space(s[skip_space(s, es, p)]),
        forall|i: int| p <= i < skip_space(s, es, p) ==> is_space(#[trigger] s[i]),
    decreases es - p,
{
    if p < es && is_space(s[p]) {
        lemma_skip_space_bounds(s, es, p + 1);
    }
}

/// Skipping whitespace twice is skipping it once.
pub proof fn lemma_skip_space_idem(s: Seq<u8>, es: int, p: int)
    requires
        p <= es,
    ensures
        skip_space(s, es, skip_space(s, es, p)) == skip_space(s, es, p),
    decreases es - p,
{
    if p < es && is_space(s[p]) {
        lemma_skip_space_idem(s, es, p + 1);
    }
}

pub proof fn lemma_word_end_bounds(s: Seq<u8>, es: int, p: int)
    requires
        p <= es,
    ensures
        p <= word_end(s, es, p) <= es,
        forall|i: int|
            p <= i < word_end(s, es, p) ==> !is_space(#[trigger] s[i]) && !is_symbol(s[i]),
        word_end(s, es, p) < es ==> is_space(s[word_end(s, es, p)]) || is_symbol(
            s[word_end(s, es, p)],
        ),
    decreases es - p,
{
    if p < es && !is_space(s[p]) && !is_symbol(s[p]) {
        lemma_word_end_bounds(s, es, p + 1);
    }
}

/// The positions of a token lie in order between `p` and `es`; a word is
/// not empty.
pub proof fn lemma_token_bounds(s: Seq<u8>, es: int, p: int)
    requires
        wf_line(s, es),
        0 <= p <= es,
    ensures
        p <= tok_start(s, es, p) <= tok_end(s, es, p) <= tok_next(s, es, p) <= es,
        tok_kind(s, es, p) == 0 <==> tok_start(s, es, p) == es,
        tok_kind(s, es, p) == 0 ==> tok_next(s, es, p) == es,
        tok_kind(s, es, p) != 0 ==> tok_start(s, es, p) < tok_end(s, es, p),
{
    lemma_skip_space_bounds(s, es, p);
    let q = skip_space(s, es, p);
    if q < es {
        if s[q] == GT && s[q + 1] == GT {
            assert(q + 1 < es);
        }
        if !is_symbol(s[q]) {
            lemma_word_end_bounds(s, es, q);
        }
    }
    lemma_skip_space_bounds(s, es, tok_end(s, es, p));
}

/// Law: where `peek` finds one of `< | & ; ( )`, the next `gettoken` reads
/// that byte as a token of its own; where it finds `>`, the next token is
/// `>` or `>>`.
pub proof fn law_peek_then_token(s: Seq<u8>, es: int, p: int, c: u8)
    requires
        wf_line(s, es),
        0 <= p <= es,
        is_symbol(c),
        peeks(s, es, p, seq![c]),
    ensures
        tok_start(s, es, p) == skip_space(s, es, p),
        c != GT ==> tok_kind(s, es, p) == c as int && tok_end(s, es, p) == tok_start(s, es, p) + 1,
        c == GT ==> tok_kind(s, es, p) == GT as int || tok_kind(s, es, p) == APPEND as int,
{
    assert(seq![c].contains(s[skip_space(s, es, p)]) ==> s[skip_space(s, es, p)] == c) by {
        if seq![c].contains(s[skip_space(s, es, p)]) {
            let i = choose|i: int| 0 <= i < 1 && seq![c][i] == s[skip_space(s, es, p)];
            assert(seq![c][i] == c);
        }
    }
}

fn is_space_byte(b: u8) -> (r: bool)
    ensures
        r == is_space(b),
{
    b == 32 || b == 9 || b == 13 || b == 10 || b == 11
}

fn is_symbol_byte(b: u8) -> (r: bool)
    ensures
        r == is_symbol(b),
{
    b == LT || b == BAR || b == GT || b == AMP || b == SEMI || b == LPAREN || b == RPAREN
}

fn contains_byte(toks: &[u8], c: u8) -> (r: bool)
    ensures
        r == toks@.contains(c),
{
    let mut i: usize = 0;
    while i < toks.len()
        invariant
            i <= toks@.len(),
            forall|j: int| 0 <= j < i ==> toks@[j] != c,
        decreases toks@.len() - i,
    {
        if toks[i] == c {
            assert(toks@[i as int] == c);
            return true;
        }
        i = i + 1;
    }
    false
}

/// The length of the NUL-terminated string at the start of `s`.
pub fn strlen(s: &Vec<u8>) -> (n: usize)
    requires
        exists|k: int| 0 <= k < s@.len() && s@[k] == 0,
    ensures
        wf_line(s@, n as int),
        n == cstr_len(s@),
{
    let len = s.len();
    let mut i: usize = 0;
    while s[i] != 0
        invariant
            i < s@.len(),
            len == s@.len(),
            forall|j: int| 0 <= j < i ==> s@[j] != 0,
            exists|k: int| i <= k < s@.len() && s@[k] == 0,
            first_nul(s@, i as int) == first_nul(s@, 0),
        decreases s@.len() - i,
    {
        i = i + 1;
    }
    i
}

/// Advances `p` past whitespace.
fn skip_blanks(s: &Vec<u8>, p: usize, es: usize) -> (r: usize)
    requires
        wf_line(s@, es as int),
        p <= es,
    ensures
        r == skip_space(s@, es as int, p as int),
        p <= r <= es,
{
    let mut i = p;
    while i < es && is_space_byte(s[i])
        invariant
            p <= i <= es,
            es < s@.len(),
            skip_space(s@, es as int, i as int) == skip_space(s@, es as int, p as int),
        decreases es - i,
    {
        i = i + 1;
    }
    i
}

/// A token: its kind and the positions where it starts and ends.
#[derive(Clone, Copy, PartialEq, Eq, Structural, Debug)]
pub struct Token {
    pub kind: i32,
    pub q: usize,
    pub eq: usize,
}

/// Reads the next token from `*ps`, and leaves `*ps` past the whitespace
/// that follows it.
pub fn gettoken(s: &Vec<u8>, ps: &mut usize, es: usize) -> (t: Token)
    requires
        wf_line(s@, es as int),
        *old(ps) <= es,
    ensures
        t.kind == tok_kind(s@, es as int, *old(ps) as int),
        t.q == tok_start(s@, es as int, *old(ps) as int),
        t.eq == tok_end(s@, es as int, *old(ps) as int),
        *final(ps) == tok_next(s@, es as int, *old(ps) as int),
        *final(ps) <= es,
{
    let p0 = *ps;
    proof {
        lemma_token_bounds(s@, es as int, p0 as int);
    }
    let q = skip_blanks(s, p0, es);
    let c = s[q];
    let mut kind: i32 = c as i32;
    let mut e = q;
    if c == 0 {
    } else if c == BAR || c == LPAREN || c == RPAREN || c == SEMI || c == AMP || c == LT {
        e = q + 1;
    } else if c == GT {
        e = q + 1;
        if s[e] == GT {
            kind = APPEND;
            e = e + 1;
        }
    } else {
        kind = WORD;
        while e < es && !is_space_byte(s[e]) && !is_symbol_byte(s[e])
            invariant
                q <= e <= es,
                es < s@.len(),
                word_end(s@, es as int, e as int) == word_end(s@, es as int, q as int),
            decreases es - e,
        {
            e = e + 1;
        }
    }
    let next = skip_blanks(s, e, es);
    *ps = next;
    Token { kind, q, eq: e }
}

/// Advances `*ps` past whitespace and tells whether the byte there is one of
/// `toks`.
pub fn peek(s: &Vec<u8>, ps: &mut usize, es: usize, toks: &[u8]) -> (r: bool)
    requires
        wf_line(s@, es as int),
        *old(ps) <= es,
    ensures
        *final(ps) == skip_space(s@, es as int, *old(ps) as int),
        *final(ps) <= es,
        r == peeks(s@, es as int, *old(ps) as int, toks@),
{
    let q = skip_blanks(s, *ps, es);
    *ps = q;
    s[q] != 0 && contains_byte(toks, s[q])
}

} // verus!
