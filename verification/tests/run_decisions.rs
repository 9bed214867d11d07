use xv6sh::command::cmd;
use xv6sh::parser::parsecmd;
use xv6sh::process::{dups_needed, fork_outcome, wait_step, CloneOutcome, WaitStep};
use xv6sh::runner::{cstr_copy, runcmd_step, Action, ChildExit, Event, Report};
use xv6sh::shell::{cd_target, console_step, end_input, ConsoleStep};

fn parsed(text: &str) -> (cmd, Vec<u8>) {
    let mut buf = text.as_bytes().to_vec();
    buf.push(0);
    let out = parsecmd(&mut buf);
    assert!(out.diags.is_empty());
    (out.cmd.unwrap(), buf)
}

#[test]
fn cstr_copy_stops_at_nul_or_end() {
    let b = vec![b'x', b'y', 0, b'z'];
    assert_eq!(cstr_copy(&b, 0), b"xy".to_vec());
    assert_eq!(cstr_copy(&b, 3), b"z".to_vec());
    assert_eq!(cstr_copy(&b, 4), Vec::<u8>::new());
}

#[test]
fn simple_command_spawns_typed_words() {
    let (c, buf) = parsed("echo  hi there\n");
    match runcmd_step(&c, &buf, Event::Start) {
        Action::Spawn(w) => {
            assert_eq!(w, vec![b"echo".to_vec(), b"hi".to_vec(), b"there".to_vec()])
        }
        other => panic!("{:?}", other),
    }
}

#[test]
fn empty_command_returns_one() {
    let (c, buf) = parsed("  ");
    assert!(matches!(runcmd_step(&c, &buf, Event::Start), Action::Return(1)));
}

#[test]
fn child_status_becomes_the_status() {
    let (c, buf) = parsed("prog arg");
    assert!(matches!(runcmd_step(&c, &buf, Event::Child(ChildExit::Exited(3))), Action::Return(3)));
    assert!(matches!(runcmd_step(&c, &buf, Event::Child(ChildExit::Exited(0))), Action::Return(0)));
    assert!(matches!(runcmd_step(&c, &buf, Event::Child(ChildExit::Killed)), Action::Return(127)));
    match runcmd_step(&c, &buf, Event::Child(ChildExit::Failed)) {
        Action::ReportReturn(Report::ExecFailed(name), 1) => assert_eq!(name, b"prog".to_vec()),
        other => panic!("{:?}", other),
    }
}

#[test]
fn redirection_reopens_then_runs() {
    let (c, buf) = parsed("cat < input.txt");
    match runcmd_step(&c, &buf, Event::Start) {
        Action::Reopen { fd, path, mode } => {
            assert_eq!((fd, mode), (0, 0));
            assert_eq!(path, b"input.txt".to_vec());
        }
        other => panic!("{:?}", other),
    }
    match runcmd_step(&c, &buf, Event::Opened(-1)) {
        Action::Restore { fd: 0, report: Some(Report::OpenFailed(p)), status: 1 } => {
            assert_eq!(p, b"input.txt".to_vec())
        }
        other => panic!("{:?}", other),
    }
    match (runcmd_step(&c, &buf, Event::Opened(0)), &c) {
        (Action::Run(sub), cmd::Redir(r)) => assert!(std::ptr::eq(sub, &*r.cmd)),
        (other, _) => panic!("{:?}", other),
    }
    assert!(matches!(
        runcmd_step(&c, &buf, Event::Finished { count: 1, status: 7 }),
        Action::Restore { fd: 0, report: None, status: 7 }
    ));
    assert!(matches!(
        runcmd_step(&c, &buf, Event::Finished { count: 1, status: 0 }),
        Action::Restore { fd: 0, report: None, status: 0 }
    ));
}

#[test]
fn output_redirection_opens_for_writing() {
    let (c, buf) = parsed("ls > out");
    match runcmd_step(&c, &buf, Event::Start) {
        Action::Reopen { fd, path, mode } => {
            assert_eq!((fd, mode), (1, 65));
            assert_eq!(path, b"out".to_vec());
        }
        other => panic!("{:?}", other),
    }
}

#[test]
fn list_runs_left_then_right_and_gives_right_status() {
    let (c, buf) = parsed("a ; b");
    let l = match &c {
        cmd::List(l) => l,
        other => panic!("{:?}", other),
    };
    match runcmd_step(&c, &buf, Event::Start) {
        Action::Run(x) => assert!(std::ptr::eq(x, &*l.left)),
        other => panic!("{:?}", other),
    }
    match runcmd_step(&c, &buf, Event::Finished { count: 1, status: 5 }) {
        Action::Run(x) => assert!(std::ptr::eq(x, &*l.right)),
        other => panic!("{:?}", other),
    }
    assert!(matches!(runcmd_step(&c, &buf, Event::Finished { count: 2, status: 0 }), Action::Return(0)));
    assert!(matches!(runcmd_step(&c, &buf, Event::Finished { count: 2, status: 3 }), Action::Return(3)));
}

#[test]
fn pipe_asks_for_pipe_then_runs_both() {
    let (c, buf) = parsed("a | b");
    assert!(matches!(runcmd_step(&c, &buf, Event::Start), Action::MakePipe));
    assert!(matches!(
        runcmd_step(&c, &buf, Event::Piped(0)),
        Action::RunPiped { failed: false, .. }
    ));
    assert!(matches!(
        runcmd_step(&c, &buf, Event::Piped(-1)),
        Action::RunPiped { failed: true, .. }
    ));
    assert!(matches!(runcmd_step(&c, &buf, Event::Finished { count: 2, status: 0 }), Action::Return(1)));
}

#[test]
fn background_detaches_then_returns_one() {
    let (c, buf) = parsed("sleep 9 &");
    assert!(matches!(runcmd_step(&c, &buf, Event::Start), Action::Detach(_)));
    assert!(matches!(runcmd_step(&c, &buf, Event::Finished { count: 1, status: 0 }), Action::Return(1)));
}

#[test]
fn cd_line_is_cut_and_gives_directory() {
    let mut buf = b"cd /tmp\n\0rest".to_vec();
    let d = cd_target(&mut buf);
    assert_eq!(d, Some(b"/tmp".to_vec()));
    assert_eq!(&buf[..9], b"cd /tmp\0\0");
}

#[test]
fn cd_without_directory() {
    let mut buf = b"cd \0".to_vec();
    assert_eq!(cd_target(&mut buf), Some(Vec::new()));
    assert_eq!(buf, b"cd \0".to_vec());
    let mut buf = b"cd \n\0".to_vec();
    assert_eq!(cd_target(&mut buf), Some(Vec::new()));
    assert_eq!(buf, b"cd \0\0".to_vec());
}

#[test]
fn cd_without_newline_keeps_last_byte() {
    let mut buf = b"cd /tmp\0".to_vec();
    assert_eq!(cd_target(&mut buf), Some(b"/tmp".to_vec()));
    assert_eq!(buf, b"cd /tmp\0".to_vec());
}

#[test]
fn other_lines_are_not_cd() {
    let mut buf = b"cdx\n\0".to_vec();
    assert_eq!(cd_target(&mut buf), None);
    assert_eq!(buf, b"cdx\n\0".to_vec());
    let mut buf = b"ls\n\0".to_vec();
    assert_eq!(cd_target(&mut buf), None);
}

#[test]
fn end_input_terminates_and_detects_eof() {
    let mut buf = vec![b'a'; 4];
    assert!(end_input(&mut buf, 2));
    assert_eq!(buf, vec![b'a', b'a', 0, b'a']);
    assert!(!end_input(&mut buf, 0));
    assert_eq!(buf[0], 0);
}

#[test]
fn console_opens_until_three_descriptors() {
    assert_eq!(console_step(-1), ConsoleStep::Stop);
    assert_eq!(console_step(0), ConsoleStep::Again);
    assert_eq!(console_step(2), ConsoleStep::Again);
    assert_eq!(console_step(3), ConsoleStep::CloseAndStop);
}

#[test]
fn clone_results() {
    assert_eq!(fork_outcome(-38), CloneOutcome::Error(-38));
    assert_eq!(fork_outcome(0), CloneOutcome::Child);
    assert_eq!(fork_outcome(4242), CloneOutcome::Parent { pid: 4242 });
    assert_eq!(fork_outcome(0x1_0000_0005), CloneOutcome::Parent { pid: 5 });
}

#[test]
fn wait_results() {
    assert_eq!(wait_step(-1, true), WaitStep::Again);
    assert_eq!(wait_step(-1, false), WaitStep::Failed);
    assert_eq!(wait_step(0, true), WaitStep::Reaped);
    assert_eq!(wait_step(0, false), WaitStep::Reaped);
}

#[test]
fn only_moved_descriptors_are_duplicated() {
    let fds = vec![(0, 0), (1, 7), (2, 2), (5, 9)];
    assert_eq!(dups_needed(&fds), vec![(1, 7), (5, 9)]);
    assert_eq!(dups_needed(&Vec::new()), Vec::new());
}
