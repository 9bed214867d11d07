//! The decisions of the shell's top level: reading a line, and the one
//! command (`cd`) that the shell runs itself.
use vstd::prelude::*;
use crate::lexer::{cstr_len, first_nul, lemma_first_nul, strlen};

verus! {

/// `c`
pub const C_BYTE: u8 = 99;
/// `d`
pub const D_BYTE: u8 = 100;
/// ` `
pub const SPACE: u8 = 32;
/// The newline.
pub const NEWLINE: u8 = 10;

/// A line that asks to change directory: it starts with `cd `.
pub open spec fn is_cd(s: Seq<u8>) -> bool {
    s.len() >= 3 && s[0] == C_BYTE && s[1] == D_BYTE && s[2] == SPACE
}

/// Ends the input of `n` bytes read into `buf`, and tells whether anything
/// was read (nothing read means the end of the input).
pub fn end_input(buf: &mut Vec<u8>, n: usize) -> (more: bool)
    requires
        n < old(buf)@.len(),
    ensures
        final(buf)@ == old(buf)@.update(n as int, 0),
        more == (n != 0),
{
    buf.set(n, 0);
    n != 0
}

/// Whether the line `s`, of length `n`, ends in a newline.
pub open spec fn ends_in_newline(s: Seq<u8>, n: int) -> bool {
    n > 0 && s[n - 1] == NEWLINE
}

/// What `cd_target` does to the line `s`: it leaves `t` in the buffer and
/// gives `dir`.
pub open spec fn cd_outcome(s: Seq<u8>, t: Seq<u8>, dir: Option<Vec<u8>>) -> bool {
    let n = cstr_len(s);
    if is_cd(s) {
        &&& t == (if ends_in_newline(s, n) {
            s.update(n - 1, 0)
        } else {
            s
        })
        &&& dir matches Some(d) && d@ == s.subrange(
            3,
            if ends_in_newline(s, n) {
                n - 1
            } else {
                n
            },
        )
    } else {
        &&& t == s
        &&& dir is None
    }
}

/// Where a line is `cd dir`, cuts off its newline, if it ends in one, and
/// gives `dir`; any other line is left alone and gives `None`, to be parsed
/// and run.
pub fn cd_target(buf: &mut Vec<u8>) -> (dir: Option<Vec<u8>>)
    requires
        exists|k: int| 0 <= k < old(buf)@.len() && old(buf)@[k] == 0,
    ensures
        cd_outcome(old(buf)@, final(buf)@, dir),
{
    let n = strlen(buf);
    if buf[0] == C_BYTE && buf[1] == D_BYTE && buf[2] == SPACE {
        // Here n >= 3, as the first three bytes are not NUL.
        let mut end = n;
        if buf[n - 1] == NEWLINE {
            end = n - 1;
            buf.set(end, 0);
        }
        let mut d: Vec<u8> = Vec::new();
        let mut i: usize = 3;
        while i < end
            invariant
                3 <= i <= end <= n < buf@.len(),
                d@ == buf@.subrange(3, i as int),
            decreases end - i,
        {
            d.push(buf[i]);
            proof {
                assert(d@ =~= buf@.subrange(3, i + 1));
            }
            i = i + 1;
        }
        proof {
            assert(d@ =~= old(buf)@.subrange(3, end as int));
        }
        Some(d)
    } else {
        None
    }
}

/// Law: a line is run as `cd` exactly when its first three bytes are `c`,
/// `d` and a space, whatever follows; the directory is then the rest of the
/// line up to its NUL, less a final newline, and only that newline is cut
/// from the buffer.
pub proof fn law_cd_lines(s: Seq<u8>, t: Seq<u8>, dir: Option<Vec<u8>>)
    requires
        exists|k: int| 0 <= k < s.len() && s[k] == 0,
        cd_outcome(s, t, dir),
    ensures
        dir is Some <==> (s.len() >= 3 && s[0] == 99 && s[1] == 100 && s[2] == 32),
        dir is None ==> t == s,
        ({
            let n = first_nul(s, 0);
            dir matches Some(d) ==> if s[n - 1] == 10 {
                &&& d@.push(10) == s.subrange(3, n)
                &&& t == s.update(n - 1, 0)
            } else {
                &&& d@ == s.subrange(3, n)
                &&& t == s
            }
        }),
{
    lemma_first_nul(s, 0);
    if let Some(d) = dir {
        let n = first_nul(s, 0);
        if s[n - 1] == 10 {
            assert(d@.push(10) =~= s.subrange(3, n));
        }
    }
}

/// What to do with a descriptor just opened on the console.
#[derive(Clone, Copy, PartialEq, Eq, Structural, Debug)]
pub enum ConsoleStep {
    /// The console could not be opened: stop.
    Stop,
    /// Descriptors 0, 1 and 2 are open: close this one and stop.
    CloseAndStop,
    /// Open the console once more.
    Again,
}

/// The shell opens the console until three descriptors are open; `fd` is
/// what the last `open` returned.
pub fn console_step(fd: i32) -> (step: ConsoleStep)
    ensures
        step == (if fd < 0 {
            ConsoleStep::Stop
        } else if fd >= 3 {
            ConsoleStep::CloseAndStop
        } else {
            ConsoleStep::Again
        }),
{
    if fd < 0 {
        ConsoleStep::Stop
    } else if fd >= 3 {
        ConsoleStep::CloseAndStop
    } else {
        ConsoleStep::Again
    }
}

} // verus!
