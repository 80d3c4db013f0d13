use rush::builtins::{alias, cd_target, exit_code, sorted_pairs, unalias};
use rush::expand::{brace_choice, expand_word, split_tilde, squeeze, Answers, Choice, Need, Stuck};
use rush::lexer::{tokenize, Action, Expand, Token};
use rush::shell::{join, Shell};
use rush::text::{decimal_string, parse_number};

fn shell_with_env(env: &[(&str, &str)]) -> Shell {
    let env = env.iter().map(|(k, v)| (k.to_string(), v.to_string())).collect();
    Shell::new(String::from("rush"), true, env, 4242)
}

fn word(line: &str) -> Vec<Expand> {
    match tokenize(line).unwrap().into_iter().next().unwrap() {
        Token::Word(ws) => ws,
        other => panic!("{:?}", other),
    }
}

fn expand(sh: &mut Shell, line: &str) -> Result<String, Stuck> {
    expand_word(sh, &word(line), &Answers::new())
}

#[test]
fn special_parameters() {
    let mut sh = shell_with_env(&[]);
    sh.set_pos(vec![String::from("a"), String::from("b c")]);
    assert_eq!(sh.get_var(&String::from("0")), Some(String::from("rush")));
    assert_eq!(sh.get_var(&String::from("1")), Some(String::from("a")));
    assert_eq!(sh.get_var(&String::from("2")), Some(String::from("b c")));
    assert_eq!(sh.get_var(&String::from("3")), None);
    assert_eq!(sh.get_var(&String::from("@")), Some(String::from("a b c")));
    assert_eq!(sh.get_var(&String::from("*")), Some(String::from("a b c")));
    assert_eq!(sh.get_var(&String::from("#")), Some(String::from("2")));
    assert_eq!(sh.get_var(&String::from("$")), Some(String::from("4242")));
    assert_eq!(sh.get_pos(1), Some(&String::from("a")));
    assert!(sh.is_interactive());
}

#[test]
fn set_var_prefers_the_environment() {
    let mut sh = shell_with_env(&[("PATH", "/bin")]);
    sh.set_var(String::from("PATH"), String::from("/usr/bin"));
    sh.set_var(String::from("X"), String::from("1"));
    assert_eq!(sh.env, vec![(String::from("PATH"), String::from("/usr/bin"))]);
    assert_eq!(sh.vars, vec![(String::from("X"), String::from("1"))]);
    assert_eq!(sh.get_var(&String::from("PATH")), Some(String::from("/usr/bin")));
    assert_eq!(sh.get_var(&String::from("NOPE")), None);
}

#[test]
fn reassignment_keeps_the_last_value() {
    let mut sh = shell_with_env(&[]);
    sh.set_var(String::from("X"), String::from("1"));
    sh.set_var(String::from("X"), String::from("2"));
    assert_eq!(sh.get_var(&String::from("X")), Some(String::from("2")));
    assert_eq!(expand(&mut sh, "$X").unwrap(), "2");
    assert_eq!(sh.vars.len(), 1);
}

#[test]
fn brace_table() {
    let set = Some(String::from("v"));
    let empty = Some(String::new());
    let unset: Option<String> = None;
    assert_eq!(brace_choice(Action::UseDefault(false), &set), Choice::Value);
    assert_eq!(brace_choice(Action::UseDefault(false), &empty), Choice::Value);
    assert_eq!(brace_choice(Action::UseDefault(false), &unset), Choice::Word);
    assert_eq!(brace_choice(Action::UseDefault(true), &empty), Choice::Word);
    assert_eq!(brace_choice(Action::AssignDefault(true), &empty), Choice::AssignWord);
    assert_eq!(brace_choice(Action::AssignDefault(false), &unset), Choice::AssignWord);
    assert_eq!(brace_choice(Action::IndicateError(false), &empty), Choice::Value);
    assert_eq!(brace_choice(Action::IndicateError(true), &empty), Choice::Error(true));
    assert_eq!(brace_choice(Action::IndicateError(true), &unset), Choice::Error(false));
    assert_eq!(brace_choice(Action::UseAlternate(false), &empty), Choice::Word);
    assert_eq!(brace_choice(Action::UseAlternate(true), &empty), Choice::Nothing);
    assert_eq!(brace_choice(Action::UseAlternate(true), &unset), Choice::Nothing);
    assert_eq!(brace_choice(Action::StringLength, &set), Choice::Unsupported);
}

#[test]
fn parameter_expansions() {
    let mut sh = shell_with_env(&[]);
    sh.set_var(String::from("E"), String::new());
    sh.set_var(String::from("V"), String::from("val"));
    assert_eq!(expand(&mut sh, "${U-def}").unwrap(), "def");
    assert_eq!(expand(&mut sh, "${E-def}").unwrap(), "");
    assert_eq!(expand(&mut sh, "${E:-def}").unwrap(), "def");
    assert_eq!(expand(&mut sh, "${V:-def}").unwrap(), "val");
    assert_eq!(expand(&mut sh, "${V:+alt}").unwrap(), "alt");
    assert_eq!(expand(&mut sh, "${U+alt}").unwrap(), "");
    assert_eq!(expand(&mut sh, "${N:=new}").unwrap(), "new");
    assert_eq!(sh.get_var(&String::from("N")), Some(String::from("new")));
    assert_eq!(
        expand(&mut sh, "${U?}"),
        Err(Stuck::Fail(String::from("U: parameter not set")))
    );
    assert_eq!(
        expand(&mut sh, "${E:?}"),
        Err(Stuck::Fail(String::from("E: parameter null")))
    );
    assert_eq!(
        expand(&mut sh, "${U:?oops}"),
        Err(Stuck::Fail(String::from("U: oops")))
    );
    assert_eq!(expand(&mut sh, "a${V}b$V").unwrap(), "avalbval");
}

#[test]
fn tilde_expansion() {
    let mut sh = shell_with_env(&[("HOME", "/home/me")]);
    assert_eq!(expand(&mut sh, "~").unwrap(), "/home/me");
    assert_eq!(expand(&mut sh, "~/foo").unwrap(), "/home/me/foo");
    assert_eq!(
        expand(&mut sh, "~bob/x"),
        Err(Stuck::Ask(Need::UserDir(String::from("bob"))))
    );
    let mut ans = Answers::new();
    ans.users.push((String::from("bob"), Some(String::from("/home/bob"))));
    ans.users.push((String::from("nobody"), None));
    assert_eq!(expand_word(&mut sh, &word("~bob/x"), &ans).unwrap(), "/home/bob/x");
    assert_eq!(expand_word(&mut sh, &word("~nobody"), &ans).unwrap(), "~nobody");
    assert_eq!(split_tilde(&String::from("a/b/c")), Err((String::from("a"), String::from("/b/c"))));
    assert_eq!(split_tilde(&String::from("/x")), Ok(String::from("/x")));
}

#[test]
fn command_substitution_uses_the_answer() {
    let mut sh = shell_with_env(&[]);
    assert_eq!(
        expand(&mut sh, "$(echo hi)"),
        Err(Stuck::Ask(Need::Capture(String::from("echo hi"))))
    );
    let mut ans = Answers::new();
    ans.outputs.push((String::from("echo hi"), String::from("hi\n")));
    assert_eq!(expand_word(&mut sh, &word("$(echo hi)"), &ans).unwrap(), "hi");
    assert_eq!(squeeze(&String::from("  a \n\t b  c\n")), "a b c");
    assert_eq!(squeeze(&String::from("")), "");
}

#[test]
fn numbers() {
    assert_eq!(parse_number(&String::from("42")), Some(42));
    assert_eq!(parse_number(&String::from("+42")), Some(42));
    assert_eq!(parse_number(&String::from("")), None);
    assert_eq!(parse_number(&String::from("+")), None);
    assert_eq!(parse_number(&String::from("4294967295")), Some(4294967295));
    assert_eq!(parse_number(&String::from("4294967296")), None);
    assert_eq!(parse_number(&String::from("1a")), None);
    assert_eq!(decimal_string(0), "0");
    assert_eq!(decimal_string(1234), "1234");
    assert_eq!(join(&vec![String::from("x"), String::from("y")]), "x y");
}

#[test]
fn alias_defines_and_prints() {
    let mut aliases = Vec::new();
    let o = alias(&mut aliases, &vec![String::from("foo=echo")]);
    assert_eq!((o.out.as_str(), o.err.as_str(), o.status), ("", "", true));
    let o = alias(&mut aliases, &vec![String::from("foo")]);
    assert_eq!(o.out, "alias foo='echo'\n");
    let o = alias(
        &mut aliases,
        &vec![String::from("boo=far"), String::from("foo"), String::from("boo")],
    );
    assert_eq!(o.out, "alias foo='echo'\nalias boo='far'\n");
    let o = alias(&mut aliases, &vec![]);
    assert_eq!(o.out, "alias boo='far'\nalias foo='echo'\n");
    let o = alias(&mut aliases, &vec![String::from("nope")]);
    assert_eq!(o.err, "alias: nope: not found\n");
    assert!(!o.status);
    let o = alias(&mut aliases, &vec![String::from("x=a=b")]);
    assert!(o.status);
    assert_eq!(alias(&mut aliases, &vec![String::from("x")]).out, "alias x='a=b'\n");
}

#[test]
fn alias_round_trip() {
    let mut aliases = Vec::new();
    alias(&mut aliases, &vec![String::from("X=Y")]);
    assert_eq!(alias(&mut aliases, &vec![String::from("X")]).out, "alias X='Y'\n");
}

#[test]
fn unalias_removes() {
    let mut aliases = Vec::new();
    alias(&mut aliases, &vec![String::from("a=1"), String::from("b=2")]);
    assert!(unalias(&mut aliases, &vec![String::from("a")]));
    assert_eq!(alias(&mut aliases, &vec![]).out, "alias b='2'\n");
}

#[test]
fn sorting_by_name() {
    let v = vec![
        (String::from("b"), String::from("1")),
        (String::from("a"), String::from("2")),
        (String::from("ab"), String::from("3")),
    ];
    let names: Vec<String> = sorted_pairs(&v).into_iter().map(|p| p.0).collect();
    assert_eq!(names, vec!["a", "ab", "b"]);
}

#[test]
fn set_replaces_positionals() {
    let mut sh = shell_with_env(&[]);
    assert!(rush::builtins::set(vec![String::from("x")], &mut sh));
    assert_eq!(sh.positional, vec![String::from("x")]);
}

#[test]
fn exit_arguments() {
    assert_eq!(exit_code(&vec![]), Some(0));
    assert_eq!(exit_code(&vec![String::from("3")]), Some(3));
    assert_eq!(exit_code(&vec![String::from("-3")]), Some(-3));
    assert_eq!(exit_code(&vec![String::from("-2147483648")]), Some(-2147483648));
    assert_eq!(exit_code(&vec![String::from("2147483648")]), None);
    assert_eq!(exit_code(&vec![String::from("x")]), None);
    assert_eq!(exit_code(&vec![String::from("-")]), None);
}

#[test]
fn cd_targets() {
    let sh = shell_with_env(&[("HOME", "/h")]);
    assert_eq!(cd_target(&vec![String::from("/tmp")], &sh), Some(String::from("/tmp")));
    assert_eq!(cd_target(&vec![], &sh), Some(String::from("/h")));
    let sh = shell_with_env(&[]);
    assert_eq!(cd_target(&vec![], &sh), None);
}
