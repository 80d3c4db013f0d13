use rush::builtins::alias;
use rush::expand::Need;
use rush::lexer::tokenize;
use rush::parser::{Cmd, Fd, Parser};
use rush::runner::{reconcile_io, CmdMeta, Event, Job, Port, Runner, Step};
use rush::shell::Shell;

fn shell() -> Shell {
    Shell::new(String::from("rush"), true, vec![(String::from("HOME"), String::from("/h"))], 1)
}

fn start(line: &str, capture: bool) -> Runner {
    let tree = Parser::new(tokenize(line).unwrap()).get().unwrap();
    let mut r = Runner::new();
    r.execute(tree, capture);
    r
}

/// Runs until the next step that needs the outside world.
fn next(r: &mut Runner, sh: &mut Shell, mut ev: Event) -> Step {
    loop {
        match r.step(sh, ev) {
            Step::Continue => ev = Event::Nothing,
            s => return s,
        }
    }
}

fn spawned(s: Step) -> Job {
    match s {
        Step::Spawn(j) => j,
        other => panic!("expected a command to start, got {:?}", other),
    }
}

fn words(j: &Job) -> Vec<String> {
    let mut v = vec![j.cmd.clone()];
    v.extend(j.args.iter().cloned());
    v
}

#[test]
fn pipeline_connects_neighbours() {
    let mut sh = shell();
    let mut r = start("a | b | c", false);
    let a = spawned(next(&mut r, &mut sh, Event::Nothing));
    assert_eq!(a.cmd, "a");
    assert_eq!(a.ports[a.stdin], Port::Stdin);
    assert_eq!(a.ports[a.stdout], Port::PipeOut(2));
    assert_eq!(next(&mut r, &mut sh, Event::Status(true)), Step::ClosePipe(2));
    let b = spawned(next(&mut r, &mut sh, Event::Nothing));
    assert_eq!(b.ports[b.stdin], Port::PipeIn(2));
    assert_eq!(b.ports[b.stdout], Port::PipeOut(1));
    assert_eq!(next(&mut r, &mut sh, Event::Status(true)), Step::ClosePipe(1));
    let c = spawned(next(&mut r, &mut sh, Event::Nothing));
    assert_eq!(c.ports[c.stdin], Port::PipeIn(1));
    assert_eq!(c.ports[c.stdout], Port::Stdout);
    assert_eq!(next(&mut r, &mut sh, Event::Status(false)), Step::Finished(false));
}

#[test]
fn explicit_redirection_wins_over_pipe() {
    let mut sh = shell();
    let mut r = start("a > out | b", false);
    let a = spawned(next(&mut r, &mut sh, Event::Nothing));
    assert_eq!(a.ports[a.stdout], Port::FileName(String::from("out")));
    let mut ports = vec![Port::Stdin, Port::FileName(String::from("f")), Port::Stderr];
    reconcile_io(&mut ports, 0, 1, CmdMeta { stdin: Some(3), stdout: Some(4) });
    assert_eq!(ports, vec![Port::PipeIn(3), Port::FileName(String::from("f")), Port::Stderr]);
}

#[test]
fn capture_writes_into_pipe_zero() {
    let mut sh = shell();
    let mut r = start("echo hi", true);
    let j = spawned(next(&mut r, &mut sh, Event::Nothing));
    assert_eq!(j.ports[j.stdout], Port::PipeOut(0));
}

#[test]
fn and_or_short_circuit() {
    let mut sh = shell();
    let mut r = start("false && x || y", false);
    let j = spawned(next(&mut r, &mut sh, Event::Nothing));
    assert_eq!(j.cmd, "false");
    let j = spawned(next(&mut r, &mut sh, Event::Status(false)));
    assert_eq!(j.cmd, "y");
    assert_eq!(next(&mut r, &mut sh, Event::Status(true)), Step::Finished(true));

    let mut r = start("true || x", false);
    spawned(next(&mut r, &mut sh, Event::Nothing));
    assert_eq!(next(&mut r, &mut sh, Event::Status(true)), Step::Finished(true));
}

#[test]
fn negation_inverts() {
    let mut sh = shell();
    let mut r = start("! false", false);
    spawned(next(&mut r, &mut sh, Event::Nothing));
    assert_eq!(next(&mut r, &mut sh, Event::Status(false)), Step::Finished(true));
}

#[test]
fn assignments_alone_set_variables() {
    let mut sh = shell();
    let mut r = start("X=1; X=2", false);
    assert_eq!(next(&mut r, &mut sh, Event::Nothing), Step::Finished(true));
    assert_eq!(sh.get_var(&String::from("X")), Some(String::from("2")));
    let mut r = start("echo $X", false);
    let j = spawned(next(&mut r, &mut sh, Event::Nothing));
    assert_eq!(words(&j), vec!["echo", "2"]);
}

#[test]
fn inline_assignments_go_to_the_command() {
    let mut sh = shell();
    let mut r = start("A=b env", false);
    let j = spawned(next(&mut r, &mut sh, Event::Nothing));
    assert_eq!(j.env, Some(vec![(String::from("A"), String::from("b"))]));
    assert_eq!(sh.get_var(&String::from("A")), None);
}

#[test]
fn alias_expands_with_arguments() {
    let mut sh = shell();
    alias(&mut sh.aliases, &vec![String::from("foo=echo")]);
    let mut r = start("foo bar", false);
    let j = spawned(next(&mut r, &mut sh, Event::Nothing));
    assert_eq!(words(&j), vec!["echo", "bar"]);
}

#[test]
fn aliases_do_not_self_recurse() {
    let mut sh = shell();
    alias(&mut sh.aliases, &vec![String::from("echo=echo foo")]);
    let mut r = start("echo bar", false);
    let j = spawned(next(&mut r, &mut sh, Event::Nothing));
    assert_eq!(words(&j), vec!["echo", "foo", "bar"]);
    assert_eq!(next(&mut r, &mut sh, Event::Status(true)), Step::Finished(true));
}

#[test]
fn aliases_can_be_nested() {
    let mut sh = shell();
    alias(&mut sh.aliases, &vec![String::from("foo=bar asdf && bar fdsa")]);
    alias(&mut sh.aliases, &vec![String::from("bar=echo")]);
    let mut r = start("foo boo", false);
    let j = spawned(next(&mut r, &mut sh, Event::Nothing));
    assert_eq!(words(&j), vec!["echo", "asdf"]);
    let j = spawned(next(&mut r, &mut sh, Event::Status(true)));
    assert_eq!(words(&j), vec!["echo", "fdsa", "boo"]);
}

#[test]
fn alias_builtin_prints() {
    let mut sh = shell();
    let mut r = start("alias foo=echo", false);
    assert_eq!(next(&mut r, &mut sh, Event::Nothing), Step::Print(String::new(), String::new()));
    let mut r = start("alias foo", false);
    assert_eq!(
        next(&mut r, &mut sh, Event::Nothing),
        Step::Print(String::from("alias foo='echo'\n"), String::new())
    );
}

#[test]
fn exit_and_cd() {
    let mut sh = shell();
    let mut r = start("exit", false);
    assert_eq!(next(&mut r, &mut sh, Event::Nothing), Step::Exit(0));
    let mut r = start("exit 3", false);
    assert_eq!(next(&mut r, &mut sh, Event::Nothing), Step::Exit(3));
    let mut r = start("exit x", false);
    assert!(matches!(next(&mut r, &mut sh, Event::Nothing), Step::Print(_, _)));
    let mut r = start("cd", false);
    assert_eq!(next(&mut r, &mut sh, Event::Nothing), Step::ChangeDir(String::from("/h")));
    let mut r = start("cd /nope", false);
    assert_eq!(next(&mut r, &mut sh, Event::Nothing), Step::ChangeDir(String::from("/nope")));
    assert_eq!(next(&mut r, &mut sh, Event::Status(false)), Step::Finished(false));
}

#[test]
fn substitution_is_asked_for() {
    let mut sh = shell();
    let mut r = start("echo $(echo hi)", false);
    assert_eq!(
        next(&mut r, &mut sh, Event::Nothing),
        Step::Ask(Need::Capture(String::from("echo hi")))
    );
    let j = spawned(next(
        &mut r,
        &mut sh,
        Event::Output(String::from("echo hi"), String::from("hi\n")),
    ));
    assert_eq!(words(&j), vec!["echo", "hi"]);
}

#[test]
fn expansion_error_aborts_a_script() {
    let mut sh = Shell::new(String::from("script"), false, vec![], 1);
    let mut r = start("echo ${U?gone}", false);
    assert_eq!(next(&mut r, &mut sh, Event::Nothing), Step::Abort(String::from("U: gone")));
}

#[test]
fn echo_prints_argument() {
    let mut sh = shell();
    let mut r = start("echo foo", false);
    let j = spawned(next(&mut r, &mut sh, Event::Nothing));
    assert_eq!(words(&j), vec!["echo", "foo"]);
    assert_eq!(j.ports[j.stdout], Port::Stdout);
    assert_eq!(next(&mut r, &mut sh, Event::Status(true)), Step::Finished(true));
}

#[test]
fn exit_prints_nothing() {
    let mut sh = shell();
    let mut r = start("exit", false);
    assert_eq!(next(&mut r, &mut sh, Event::Nothing), Step::Exit(0));
}

#[test]
fn alias_defines_and_prints_aliases() {
    let mut sh = shell();
    let mut out = String::new();
    for line in ["alias foo=echo", "alias", "alias foo", "alias boo='far' foo boo", "alias"] {
        let mut r = start(line, false);
        match next(&mut r, &mut sh, Event::Nothing) {
            Step::Print(o, e) => {
                assert_eq!(e, "");
                out.push_str(&o);
            }
            other => panic!("{:?}", other),
        }
        assert_eq!(next(&mut r, &mut sh, Event::Nothing), Step::Finished(true));
    }
    assert_eq!(
        out,
        "alias foo='echo'\nalias foo='echo'\nalias foo='echo'\nalias boo='far'\nalias boo='far'\nalias foo='echo'\n"
    );
    let mut r = start("foo bar", false);
    let j = spawned(next(&mut r, &mut sh, Event::Nothing));
    assert_eq!(words(&j), vec!["echo", "bar"]);
}

#[test]
fn pipeline_passes_caller_stdin_to_its_first_command() {
    let mut sh = shell();
    alias(&mut sh.aliases, &vec![String::from("al=a | b")]);
    let mut r = start("x | al", false);
    let x = spawned(next(&mut r, &mut sh, Event::Nothing));
    assert_eq!(x.ports[x.stdout], Port::PipeOut(1));
    assert_eq!(next(&mut r, &mut sh, Event::Status(true)), Step::ClosePipe(1));
    let a = spawned(next(&mut r, &mut sh, Event::Nothing));
    assert_eq!(words(&a), vec!["a"]);
    assert_eq!(a.ports[a.stdin], Port::PipeIn(1));
    assert_eq!(a.ports[a.stdout], Port::PipeOut(2));
    assert_eq!(next(&mut r, &mut sh, Event::Status(true)), Step::ClosePipe(2));
    let b = spawned(next(&mut r, &mut sh, Event::Nothing));
    assert_eq!(b.ports[b.stdin], Port::PipeIn(2));
    assert_eq!(b.ports[b.stdout], Port::Stdout);
}

#[test]
fn alias_that_does_not_parse_keeps_redirections() {
    let mut sh = shell();
    alias(&mut sh.aliases, &vec![String::from("bad=a &&")]);
    let mut r = start("bad echo hi > out", false);
    let j = spawned(next(&mut r, &mut sh, Event::Nothing));
    assert_eq!(words(&j), vec!["echo", "hi"]);
    assert_eq!(j.ports[j.stdout], Port::FileName(String::from("out")));
    let mut r = start("X=1 bad", false);
    assert_eq!(next(&mut r, &mut sh, Event::Nothing), Step::Finished(true));
    assert_eq!(sh.get_var(&String::from("X")), None);
}

#[test]
fn stderr_redirection_is_expanded() {
    let mut sh = shell();
    sh.set_var(String::from("F"), String::from("log"));
    let mut r = start("cmd 2> ${F}.txt", false);
    let j = spawned(next(&mut r, &mut sh, Event::Nothing));
    assert_eq!(j.ports[j.stderr], Port::FileName(String::from("log.txt")));
}

#[test]
fn empty_command_name_is_not_started() {
    let mut sh = shell();
    let mut r = start("\"\" x", false);
    assert!(matches!(next(&mut r, &mut sh, Event::Nothing), Step::Print(_, _)));
}

#[test]
fn expansion_error_is_printed_when_interactive() {
    let mut sh = shell();
    let mut r = start("echo ${U?gone}", false);
    assert_eq!(
        next(&mut r, &mut sh, Event::Nothing),
        Step::Print(String::new(), String::from("U: gone"))
    );
}

#[test]
fn here_text_goes_to_stdin() {
    let mut sh = shell();
    let mut tree = Parser::new(tokenize("cat << EOF").unwrap()).get().unwrap();
    if let Cmd::Simple(s) = &mut tree {
        let i = s.io.stdin;
        s.io.fds[i] = Fd::HereText(String::from("hi\n"));
    }
    let mut r = Runner::new();
    r.execute(tree, false);
    let j = spawned(next(&mut r, &mut sh, Event::Nothing));
    assert_eq!(j.ports[j.stdin], Port::HereText(String::from("hi\n")));
}

#[test]
fn pipe_writers_run_beside_their_readers() {
    let mut sh = shell();
    let mut r = start("a | b", false);
    let a = spawned(next(&mut r, &mut sh, Event::Nothing));
    assert!(!a.wait);
    assert_eq!(next(&mut r, &mut sh, Event::Status(true)), Step::ClosePipe(1));
    let b = spawned(next(&mut r, &mut sh, Event::Nothing));
    assert!(b.wait);
}
