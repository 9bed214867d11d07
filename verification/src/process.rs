//! The decisions of starting and reaping a child process with `clone3` and
//! a pidfd.
use vstd::prelude::*;

verus! {

/// What the `clone3` system call returned.
#[derive(Clone, Copy, PartialEq, Eq, Structural, Debug)]
pub enum CloneOutcome {
    /// In the new child.
    Child,
    /// In the parent, with the child's (non-zero) process id.
    Parent { pid: u32 },
    /// The call failed with this value.
    Error(i64),
}

/// Reads the value `clone3` returned.  A positive value is a process id,
/// which must be non-zero as a `u32`.
pub fn fork_outcome(r: i64) -> (o: CloneOutcome)
    requires
        r > 0 ==> r % 0x1_0000_0000 != 0,
    ensures
        r < 0 ==> o == CloneOutcome::Error(r),
        r == 0 ==> o == CloneOutcome::Child,
        r > 0 ==> o == (CloneOutcome::Parent { pid: (r % 0x1_0000_0000) as u32 }),
        o is Parent ==> o->pid != 0,
{
    if r < 0 {
        CloneOutcome::Error(r)
    } else if r == 0 {
        CloneOutcome::Child
    } else {
        let low = r % 0x1_0000_0000;
        CloneOutcome::Parent { pid: low as u32 }
    }
}

/// What to do after `waitid` on the child's pidfd.
#[derive(Clone, Copy, PartialEq, Eq, Structural, Debug)]
pub enum WaitStep {
    /// The wait was interrupted by a signal: wait again.
    Again,
    /// The child was reaped.
    Reaped,
    /// The wait failed.
    Failed,
}

/// `err` is what `waitid` returned, `interrupted` whether `errno` is
/// `EINTR`.
pub fn wait_step(err: i32, interrupted: bool) -> (step: WaitStep)
    ensures
        step == (if err == -1 && interrupted {
            WaitStep::Again
        } else if err == 0 {
            WaitStep::Reaped
        } else {
            WaitStep::Failed
        }),
{
    if err == -1 && interrupted {
        WaitStep::Again
    } else if err == 0 {
        WaitStep::Reaped
    } else {
        WaitStep::Failed
    }
}

/// A descriptor to set up in the child: `(fd, from)` asks for descriptor
/// `fd` to refer to the file now open as `from`.
pub open spec fn needs_dup(p: (i32, i32)) -> bool {
    p.0 != p.1
}

/// Law: a wanted descriptor is duplicated exactly when it is not already
/// open where it is wanted, for every descriptor, 0 included: a pair of
/// `fds` is in the result if and only if its two descriptors differ, and
/// the result holds nothing else.
pub proof fn law_dups_exactly_moved(fds: Seq<(i32, i32)>, r: Seq<(i32, i32)>)
    requires
        r == fds.filter(|p: (i32, i32)| needs_dup(p)),
    ensures
        forall|p: (i32, i32)| fds.contains(p) ==> (r.contains(p) <==> p.0 != p.1),
        forall|p: (i32, i32)| #[trigger] r.contains(p) ==> fds.contains(p) && p.0 != p.1,
{
    let pred = |p: (i32, i32)| needs_dup(p);
    fds.filter_lemma(pred);
    assert forall|p: (i32, i32)| fds.contains(p) implies (r.contains(p) <==> p.0 != p.1) by {
        let i = choose|i: int| 0 <= i < fds.len() && fds[i] == p;
        if p.0 != p.1 {
            assert(pred(fds[i]));
        }
        if r.contains(p) {
            let j = choose|j: int| 0 <= j < r.len() && r[j] == p;
            assert(pred(r[j]));
        }
    }
    assert forall|p: (i32, i32)| #[trigger] r.contains(p) implies fds.contains(p) && p.0 != p.1 by {
        fds.lemma_filter_contains_rev(pred, p);
        let j = choose|j: int| 0 <= j < r.len() && r[j] == p;
        assert(pred(r[j]));
    }
}

/// No descriptor is wanted twice (as in a map from descriptor to file).
pub open spec fn distinct_targets(fds: Seq<(i32, i32)>) -> bool {
    forall|i: int, j: int| 0 <= i < j < fds.len() ==> (#[trigger] fds[i]).0 != (#[trigger] fds[j]).0
}

/// The descriptors, from `fds` and in their order, that the child must
/// duplicate: those not already open where they are wanted.
pub fn dups_needed(fds: &Vec<(i32, i32)>) -> (r: Vec<(i32, i32)>)
    requires
        distinct_targets(fds@),
    ensures
        r@ == fds@.filter(|p: (i32, i32)| needs_dup(p)),
        distinct_targets(r@),
        forall|p: (i32, i32)| #[trigger] r@.contains(p) <==> fds@.contains(p) && p.0 != p.1,
{
    let mut r: Vec<(i32, i32)> = Vec::new();
    let mut i: usize = 0;
    while i < fds.len()
        invariant
            i <= fds@.len(),
            distinct_targets(fds@),
            r@ == fds@.take(i as int).filter(|p: (i32, i32)| needs_dup(p)),
            distinct_targets(r@),
            forall|j: int| 0 <= j < r@.len() ==> exists|k: int| 0 <= k < i && #[trigger] r@[j] == fds@[k],
        decreases fds@.len() - i,
    {
        let p = fds[i];
        proof {
            reveal_with_fuel(Seq::<_>::filter, 1);
            assert(fds@.take(i + 1).drop_last() =~= fds@.take(i as int));
        }
        if p.0 != p.1 {
            proof {
                assert forall|j: int| 0 <= j < r@.len() implies (#[trigger] r@[j]).0 != p.0 by {
                    let k = choose|k: int| 0 <= k < i && r@[j] == fds@[k];
                    assert(fds@[k].0 != fds@[i as int].0);
                }
            }
            r.push(p);
            proof {
                assert forall|j: int| 0 <= j < r@.len() implies exists|k: int| 0 <= k < i + 1 && #[trigger] r@[j] == fds@[k] by {
                    if j == r@.len() - 1 {
                        assert(r@[j] == fds@[i as int]);
                    } else {
                        let k = choose|k: int| 0 <= k < i && r@[j] == fds@[k];
                        assert(r@[j] == fds@[k]);
                    }
                }
            }
        }
        i = i + 1;
    }
    proof {
        assert(fds@.take(fds@.len() as int) =~= fds@);
        law_dups_exactly_moved(fds@, r@);
    }
    r
}

} // verus!
