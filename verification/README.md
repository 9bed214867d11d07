# xv6sh

The parser and the decision logic of a small Unix shell (the xv6 shell
language: simple commands, `<`, `>`, `>>`, `|`, `;`, `&` and parenthesized
blocks), verified with Verus.

- `src/lexer.rs`: byte classes, `gettoken`, `peek`, `strlen`.
- `src/command.rs`: the command tree, its model, its constructors, and
  `nulterminate`, with the law that terminated words read back as typed.
- `src/parser.rs`: the recursive-descent parser and its specification.
- `src/runner.rs`: the state machine that decides how a command is run.
- `src/shell.rs`: reading a line, `cd`, opening the console.
- `src/process.rs`: the decisions of starting and reaping a child through
  `clone3` and a pidfd.
- `app/`: the program itself, which does the I/O (with `smol` and `libc`)
  and follows the library's decisions.
