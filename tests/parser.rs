use rush::lexer::{tokenize, Expand};
use rush::parser::{ends_here_doc, Cmd, Fd, Io, ParseError, Parser, Simple};

fn parse(line: &str) -> Result<Cmd, ParseError> {
    Parser::new(tokenize(line).unwrap()).get()
}

fn lit(s: &str) -> Vec<Expand> {
    vec![Expand::Literal(String::from(s))]
}

#[test]
fn test_and() {
    let expected = Cmd::And(
        Box::new(Cmd::Pipeline(
            Box::new(Cmd::Simple(Simple::new(String::from("ls"), vec![], Io::new()))),
            Box::new(Cmd::Simple(Simple::new(
                String::from("grep"),
                vec![String::from("cargo")],
                Io::new(),
            ))),
        )),
        Box::new(Cmd::Simple(Simple::new(String::from("pwd"), vec![], Io::new()))),
    );
    assert_eq!(expected, parse("ls | grep cargo && pwd").unwrap())
}

#[test]
fn test_pipes() {
    let expected = Cmd::Pipeline(
        Box::new(Cmd::Simple(Simple::new(String::from("ls"), vec![], Io::new()))),
        Box::new(Cmd::Simple(Simple::new(
            String::from("grep"),
            vec![String::from("cargo")],
            Io::new(),
        ))),
    );
    assert_eq!(expected, parse("ls | grep cargo").unwrap())
}

#[test]
fn test_simple() {
    let expected = Cmd::Simple(Simple::new(
        String::from("ls"),
        vec![String::from("-ltr")],
        Io::new(),
    ));
    assert_eq!(expected, parse("ls -ltr").unwrap())
}

fn simple(c: Cmd) -> Simple {
    match c {
        Cmd::Simple(s) => s,
        other => panic!("not a simple command: {:?}", other),
    }
}

#[test]
fn and_or_associate_to_the_left() {
    match parse("a || b && c").unwrap() {
        Cmd::And(l, _) => assert!(matches!(*l, Cmd::Or(_, _))),
        other => panic!("{:?}", other),
    }
}

#[test]
fn bang_negates() {
    match parse("! false").unwrap() {
        Cmd::Not(c) => assert_eq!(simple(*c).words, vec![lit("false")]),
        other => panic!("{:?}", other),
    }
}

#[test]
fn semicolon_separates_commands() {
    match parse("X=1; X=2").unwrap() {
        Cmd::List(l, r) => {
            let l = simple(*l);
            let r = simple(*r);
            assert!(l.words.is_empty());
            assert_eq!(l.assigns, vec![(String::from("X"), lit("1"))]);
            assert_eq!(r.assigns, vec![(String::from("X"), lit("2"))]);
        }
        other => panic!("{:?}", other),
    }
}

#[test]
fn file_redirections() {
    let s = simple(parse("cat < in > out").unwrap());
    assert!(matches!(&s.io.fds[s.io.stdin], Fd::FileName(w) if *w == lit("in")));
    assert!(matches!(&s.io.fds[s.io.stdout], Fd::FileName(w) if *w == lit("out")));
    assert!(matches!(&s.io.fds[s.io.stderr], Fd::Stderr));
    let s = simple(parse("echo hi >> log").unwrap());
    assert!(matches!(&s.io.fds[s.io.stdout], Fd::FileNameAppend(w) if *w == lit("log")));
    assert_eq!(s.words, vec![lit("echo"), lit("hi")]);
}

#[test]
fn descriptor_redirections_share() {
    let s = simple(parse("cmd > out 2>&1").unwrap());
    assert_eq!(s.io.stderr, s.io.stdout);
    assert!(matches!(&s.io.fds[s.io.stderr], Fd::FileName(_)));
    let s = simple(parse("cmd 2>&1 > out").unwrap());
    assert!(matches!(&s.io.fds[s.io.stderr], Fd::Stdout));
    assert!(matches!(&s.io.fds[s.io.stdout], Fd::FileName(_)));
    let s = simple(parse("cmd 2> err").unwrap());
    assert!(matches!(&s.io.fds[s.io.stderr], Fd::FileName(w) if *w == lit("err")));
    let s = simple(parse("cmd > 5").unwrap());
    assert!(matches!(&s.io.fds[s.io.stdout], Fd::FileName(w) if *w == lit("5")));
}

#[test]
fn here_doc_delimiter() {
    let s = simple(parse("cat << 'EOF'").unwrap());
    assert!(matches!(&s.io.fds[s.io.stdin], Fd::HereDoc(d) if d == "EOF"));
    assert!(ends_here_doc(&String::from("EOF\n"), &String::from("EOF")));
    assert!(!ends_here_doc(&String::from("EOF"), &String::from("EOF")));
    assert!(!ends_here_doc(&String::from("xEOF\n"), &String::from("EOF")));
}

#[test]
fn integers_are_words_without_redirection() {
    let s = simple(parse("seq 007 10").unwrap());
    assert_eq!(s.words, vec![lit("seq"), lit("7"), lit("10")]);
}

#[test]
fn assignment_after_a_word_is_a_word() {
    let s = simple(parse("alias foo=echo").unwrap());
    assert!(s.assigns.is_empty());
    assert_eq!(
        s.words,
        vec![lit("alias"), vec![Expand::Literal(String::from("foo=")), Expand::Literal(String::from("echo"))]]
    );
}

#[test]
fn parse_errors() {
    assert_eq!(parse(""), Err(ParseError::ExpectedCommand));
    assert_eq!(parse("| x"), Err(ParseError::ExpectedCommand));
    assert_eq!(parse("a &&"), Err(ParseError::ExpectedCommand));
    assert_eq!(parse("a >"), Err(ParseError::ExpectedRedirection));
    assert_eq!(parse("a >&"), Err(ParseError::ExpectedRedirection));
    assert_eq!(parse("a 3> f"), Err(ParseError::BadDescriptor(3)));
    assert_eq!(parse("a >&7"), Err(ParseError::BadDescriptor(7)));
    assert_eq!(ParseError::ExpectedCommand.message(), "expected command but found none");
}

#[test]
fn fd_equality_is_by_kind() {
    assert_eq!(Fd::FileName(lit("a")), Fd::FileName(lit("b")));
    assert_ne!(Fd::Stdin, Fd::Stdout);
    assert_eq!(Fd::PipeOut(1), Fd::PipeOut(2));
}
