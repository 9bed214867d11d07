use xv6sh::command::{cmd, execcmd, nulterminate, redircmd};
use xv6sh::lexer::{gettoken, peek, strlen, APPEND, GT, WORD};
use xv6sh::parser::{parseblock, parsecmd, parseexec, parseline, parseredirs, Diag, Parsed};

fn line(text: &str) -> Vec<u8> {
    let mut v = text.as_bytes().to_vec();
    v.push(0);
    v
}

fn parse(text: &str) -> (Parsed, Vec<u8>) {
    let mut buf = line(text);
    let out = parsecmd(&mut buf);
    (out, buf)
}

fn cstr(buf: &[u8], q: usize) -> Vec<u8> {
    let mut e = q;
    while e < buf.len() && buf[e] != 0 {
        e += 1;
    }
    buf[q..e].to_vec()
}

fn exec_words(c: &cmd, buf: &[u8]) -> Vec<Vec<u8>> {
    match c {
        cmd::Exec(e) => e.argv.iter().map(|&q| cstr(buf, q)).collect(),
        other => panic!("not a simple command: {:?}", other),
    }
}

#[test]
fn strlen_stops_at_first_nul() {
    let v = vec![b'a', b'b', 0, b'c', 0];
    assert_eq!(strlen(&v), 2);
    assert_eq!(strlen(&vec![0u8]), 0);
}

#[test]
fn gettoken_reads_words_and_symbols() {
    let s = line("  echo>>out <in|x");
    let es = s.len() - 1;
    let mut ps = 0usize;
    let t = gettoken(&s, &mut ps, es);
    assert_eq!((t.kind, t.q, t.eq, ps), (WORD, 2, 6, 6));
    let t = gettoken(&s, &mut ps, es);
    assert_eq!((t.kind, t.q, t.eq, ps), (APPEND, 6, 8, 8));
    let t = gettoken(&s, &mut ps, es);
    assert_eq!((t.kind, t.q, t.eq, ps), (WORD, 8, 11, 12));
    let t = gettoken(&s, &mut ps, es);
    assert_eq!((t.kind, t.q, t.eq), (b'<' as i32, 12, 13));
    let t = gettoken(&s, &mut ps, es);
    assert_eq!(t.kind, WORD);
    let t = gettoken(&s, &mut ps, es);
    assert_eq!(t.kind, b'|' as i32);
    let t = gettoken(&s, &mut ps, es);
    assert_eq!((t.kind, t.q, t.eq), (WORD, 16, 17));
    let t = gettoken(&s, &mut ps, es);
    assert_eq!((t.kind, t.q, t.eq, ps), (0, es, es, es));
}

#[test]
fn gettoken_single_gt() {
    let s = line("> f");
    let mut ps = 0usize;
    let t = gettoken(&s, &mut ps, s.len() - 1);
    assert_eq!((t.kind, t.q, t.eq, ps), (GT as i32, 0, 1, 2));
}

#[test]
fn peek_skips_blanks_and_tests_next_byte() {
    let s = line(" \t ;x");
    let es = s.len() - 1;
    let mut ps = 0usize;
    assert!(peek(&s, &mut ps, es, &[b';']));
    assert_eq!(ps, 3);
    let mut ps = 0usize;
    assert!(!peek(&s, &mut ps, es, &[b'|', b'&']));
    assert_eq!(ps, 3);
    let mut ps = es;
    assert!(!peek(&s, &mut ps, es, &[b';']));
    assert_eq!(ps, es);
}

#[test]
fn simple_command_words_are_terminated_in_place() {
    let (out, buf) = parse("echo hello world\n");
    assert!(out.diags.is_empty());
    assert!(out.leftover.is_none());
    let c = out.cmd.unwrap();
    match &c {
        cmd::Exec(e) => {
            assert_eq!(e.argv, vec![0, 5, 11]);
            assert_eq!(e.eargv, vec![4, 10, 16]);
        }
        other => panic!("{:?}", other),
    }
    assert_eq!(buf[4], 0);
    assert_eq!(buf[10], 0);
    assert_eq!(buf[16], 0);
    assert_eq!(exec_words(&c, &buf), vec![b"echo".to_vec(), b"hello".to_vec(), b"world".to_vec()]);
}

#[test]
fn words_glued_to_symbols_read_back_whole() {
    let (out, buf) = parse("cat<in>out");
    assert!(out.diags.is_empty());
    let c = out.cmd.unwrap();
    match &c {
        cmd::Redir(outer) => {
            assert_eq!((outer.mode, outer.fd), (65, 1));
            assert_eq!(cstr(&buf, outer.file), b"out".to_vec());
            match &*outer.cmd {
                cmd::Redir(inner) => {
                    assert_eq!((inner.mode, inner.fd), (0, 0));
                    assert_eq!(cstr(&buf, inner.file), b"in".to_vec());
                    assert_eq!(exec_words(&inner.cmd, &buf), vec![b"cat".to_vec()]);
                }
                other => panic!("{:?}", other),
            }
        }
        other => panic!("{:?}", other),
    }
}

#[test]
fn append_redirection_is_a_plain_write() {
    let (out, buf) = parse("echo x >> log");
    assert!(out.diags.is_empty());
    match out.cmd.unwrap() {
        cmd::Redir(r) => {
            assert_eq!((r.mode, r.fd), (65, 1));
            assert_eq!(cstr(&buf, r.file), b"log".to_vec());
        }
        other => panic!("{:?}", other),
    }
}

#[test]
fn pipeline_is_right_nested() {
    let (out, buf) = parse("ls | grep a | wc");
    assert!(out.diags.is_empty());
    match out.cmd.unwrap() {
        cmd::Pipe(p) => {
            assert_eq!(exec_words(&p.left, &buf), vec![b"ls".to_vec()]);
            match *p.right {
                cmd::Pipe(q) => {
                    assert_eq!(exec_words(&q.left, &buf), vec![b"grep".to_vec(), b"a".to_vec()]);
                    assert_eq!(exec_words(&q.right, &buf), vec![b"wc".to_vec()]);
                }
                other => panic!("{:?}", other),
            }
        }
        other => panic!("{:?}", other),
    }
}

#[test]
fn list_and_background() {
    let (out, buf) = parse("sleep 1 & ; echo done");
    assert!(out.diags.is_empty());
    match out.cmd.unwrap() {
        cmd::List(l) => {
            match *l.left {
                cmd::Back(b) => {
                    assert_eq!(exec_words(&b.cmd, &buf), vec![b"sleep".to_vec(), b"1".to_vec()])
                }
                other => panic!("{:?}", other),
            }
            assert_eq!(exec_words(&l.right, &buf), vec![b"echo".to_vec(), b"done".to_vec()]);
        }
        other => panic!("{:?}", other),
    }
}

#[test]
fn double_background_wraps_twice() {
    let (out, _) = parse("a & &");
    match out.cmd.unwrap() {
        cmd::Back(b) => assert!(matches!(*b.cmd, cmd::Back(_))),
        other => panic!("{:?}", other),
    }
}

#[test]
fn block_with_redirection() {
    let (out, buf) = parse("(echo a; echo b) > f");
    assert!(out.diags.is_empty());
    match out.cmd.unwrap() {
        cmd::Redir(r) => {
            assert_eq!(cstr(&buf, r.file), b"f".to_vec());
            assert!(matches!(*r.cmd, cmd::List(_)));
        }
        other => panic!("{:?}", other),
    }
}

#[test]
fn empty_line_is_empty_command() {
    let (out, _) = parse("   \n");
    assert!(out.diags.is_empty());
    assert!(out.leftover.is_none());
    match out.cmd.unwrap() {
        cmd::Exec(e) => assert!(e.argv.is_empty() && e.eargv.is_empty()),
        other => panic!("{:?}", other),
    }
}

#[test]
fn missing_paren_is_reported_and_parsing_goes_on() {
    let (out, _) = parse("(ls");
    assert_eq!(out.diags, vec![Diag::MissingParen]);
    assert!(out.leftover.is_none());
    assert!(matches!(out.cmd, Some(cmd::Exec(_))));
}

#[test]
fn missing_file_is_reported() {
    let (out, _) = parse("echo >");
    assert_eq!(out.diags, vec![Diag::MissingFile]);
    assert!(matches!(out.cmd, Some(cmd::Redir(_))));
}

#[test]
fn symbol_where_word_wanted_is_a_syntax_error() {
    let (out, buf) = parse("a (");
    assert_eq!(out.diags, vec![Diag::Syntax]);
    let c = out.cmd.unwrap();
    match &c {
        cmd::Exec(e) => {
            assert_eq!(e.argv, vec![0, 2]);
            assert_eq!(e.eargv, vec![1, 3]);
        }
        other => panic!("{:?}", other),
    }
    assert_eq!(exec_words(&c, &buf), vec![b"a".to_vec(), b"(".to_vec()]);
}

#[test]
fn glued_syntax_error_loses_text_to_terminator() {
    // With a diagnostic, a terminator may land inside another counted
    // string: the NUL after `a` is the first byte of `(`.
    let (out, buf) = parse("a(");
    assert_eq!(out.diags, vec![Diag::Syntax]);
    let c = out.cmd.unwrap();
    assert_eq!(exec_words(&c, &buf), vec![b"a".to_vec(), Vec::new()]);
}

#[test]
fn leftovers_are_returned() {
    let (out, _) = parse("ls ) x");
    assert!(out.diags.is_empty());
    assert_eq!(out.leftover, Some(b") x".to_vec()));
    assert!(matches!(out.cmd, Some(cmd::Exec(_))));
}

#[test]
fn nine_words_parse() {
    let (out, buf) = parse("a b c d e f g h i");
    assert!(out.diags.is_empty());
    assert_eq!(exec_words(&out.cmd.unwrap(), &buf).len(), 9);
}

#[test]
fn ten_words_abort() {
    let (out, buf) = parse("a b c d e f g h i j");
    assert!(out.cmd.is_none());
    assert_eq!(out.diags, vec![Diag::TooManyArgs]);
    assert!(out.leftover.is_none());
    assert_eq!(buf, line("a b c d e f g h i j"));
}

#[test]
fn ten_words_then_bad_redirection_reports_both() {
    let (out, _) = parse("a b c d e f g h i j >");
    assert!(out.cmd.is_none());
    assert_eq!(out.diags, vec![Diag::TooManyArgs, Diag::MissingFile]);
}

#[test]
fn parseblock_without_paren_reports() {
    let s = line("x)");
    let mut ps = 0usize;
    let mut diags = Vec::new();
    let c = parseblock(&s, &mut ps, s.len() - 1, &mut diags).unwrap();
    assert_eq!(diags, vec![Diag::ParseBlock]);
    assert!(matches!(c, cmd::Exec(_)));
    assert_eq!(ps, 2);
}

#[test]
fn parseblock_at_end_of_line() {
    let s = line("  ");
    let es = s.len() - 1;
    let mut ps = 0usize;
    let mut diags = Vec::new();
    let c = parseblock(&s, &mut ps, es, &mut diags).unwrap();
    assert_eq!(diags, vec![Diag::ParseBlock, Diag::MissingParen]);
    match c {
        cmd::Exec(e) => assert!(e.argv.is_empty()),
        other => panic!("{:?}", other),
    }
    assert_eq!(ps, es);
}

#[test]
fn parseline_and_parseexec_stop_at_the_right_place() {
    let s = line("a b | c");
    let es = s.len() - 1;
    let mut ps = 0usize;
    let mut diags = Vec::new();
    let c = parseexec(&s, &mut ps, es, &mut diags).unwrap();
    assert_eq!(ps, 4);
    assert!(matches!(c, cmd::Exec(_)));
    let mut ps = 0usize;
    let c = parseline(&s, &mut ps, es, &mut diags).unwrap();
    assert_eq!(ps, es);
    assert!(matches!(c, cmd::Pipe(_)));
}

#[test]
fn parseredirs_wraps_given_command() {
    let s = line("< a > b rest");
    let es = s.len() - 1;
    let mut ps = 0usize;
    let mut diags = Vec::new();
    let c = parseredirs(execcmd(), &s, &mut ps, es, &mut diags);
    assert_eq!(ps, 8);
    assert!(diags.is_empty());
    match c {
        cmd::Redir(r) => {
            assert_eq!((r.file, r.efile, r.fd), (6, 7, 1));
            assert!(matches!(*r.cmd, cmd::Redir(_)));
        }
        other => panic!("{:?}", other),
    }
}

#[test]
fn nulterminate_writes_every_end() {
    let mut buf = line("ab cd ef");
    let inner = cmd::Exec(xv6sh::command::execcmd { argv: vec![0, 3], eargv: vec![2, 5] });
    let c = redircmd(inner, 6, 8, 0, 0);
    nulterminate(&c, &mut buf);
    assert_eq!(buf, vec![b'a', b'b', 0, b'c', b'd', 0, b'e', b'f', 0]);
}

#[test]
fn peeked_operator_is_the_next_token() {
    let s = line(" >> x");
    let es = s.len() - 1;
    let mut ps = 0usize;
    assert!(peek(&s, &mut ps, es, &[GT]));
    let t = gettoken(&s, &mut ps, es);
    assert_eq!((t.kind, t.q, t.eq), (APPEND, 1, 3));
    let s = line("\t;x");
    let es = s.len() - 1;
    let mut ps = 0usize;
    assert!(peek(&s, &mut ps, es, &[b';']));
    let t = gettoken(&s, &mut ps, es);
    assert_eq!((t.kind, t.q, t.eq), (b';' as i32, 1, 2));
}
