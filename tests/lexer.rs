use rush::lexer::{tokenize, Action, Expand, LexError, Lexer, Op, Punct, Token};

fn lit(s: &str) -> Expand {
    Expand::Literal(String::from(s))
}

#[test]
fn test_lexer() {
    let mut lexer = Lexer::new("exa -1 | grep cargo");
    let expected = [
        Token::Word(vec![Expand::Literal(String::from("exa"))]),
        Token::Word(vec![Expand::Literal(String::from("-1"))]),
        Token::Op(Op::Pipe),
        Token::Word(vec![Expand::Literal(String::from("grep"))]),
        Token::Word(vec![Expand::Literal(String::from("cargo"))]),
    ];
    for token in &expected {
        assert_eq!(*token, lexer.next_token().unwrap().unwrap())
    }
}

#[test]
fn operators_are_read_greedily() {
    let tokens = tokenize("a || b && c & d ! e < f > g ; ( )").unwrap();
    let ops: Vec<&Token> = tokens.iter().filter(|t| !matches!(t, Token::Word(_))).collect();
    assert_eq!(
        ops,
        vec![
            &Token::Op(Op::Or),
            &Token::Op(Op::And),
            &Token::Op(Op::Ampersand),
            &Token::Op(Op::Bang),
            &Token::Op(Op::Less),
            &Token::Op(Op::More),
            &Token::Punct(Punct::Semicolon),
            &Token::Punct(Punct::LParen),
            &Token::Punct(Punct::RParen),
        ]
    );
}

#[test]
fn numbers_become_integers() {
    assert_eq!(
        tokenize("2>&1").unwrap(),
        vec![Token::Integer(2), Token::Op(Op::More), Token::Op(Op::Ampersand), Token::Integer(1)]
    );
    assert_eq!(tokenize("+7").unwrap(), vec![Token::Integer(7)]);
    assert_eq!(tokenize("4294967296").unwrap(), vec![Token::Word(vec![lit("4294967296")])]);
}

#[test]
fn assignments_are_recognised() {
    assert_eq!(
        tokenize("X=1 echo").unwrap(),
        vec![
            Token::Assign(String::from("X"), vec![lit("1")]),
            Token::Word(vec![lit("echo")]),
        ]
    );
    assert_eq!(
        tokenize("5=a").unwrap(),
        vec![Token::Word(vec![lit("5="), lit("a")])]
    );
    assert_eq!(tokenize("X=").unwrap(), vec![Token::Assign(String::from("X"), vec![])]);
}

#[test]
fn quotes_and_escapes() {
    assert_eq!(
        tokenize("\"a b\" 'c $d' e\\ f \"\"").unwrap(),
        vec![
            Token::Word(vec![lit("a b")]),
            Token::Word(vec![lit("c $d")]),
            Token::Word(vec![lit("e f")]),
            Token::Word(vec![lit("")]),
        ]
    );
    assert_eq!(
        tokenize("ab'cd'").unwrap(),
        vec![Token::Word(vec![lit("ab"), lit("cd")])]
    );
}

#[test]
fn expansions_are_recognised() {
    assert_eq!(
        tokenize("$HOME ${x:-def} ${y} ~/src $(echo hi)").unwrap(),
        vec![
            Token::Word(vec![Expand::Var(String::from("HOME"))]),
            Token::Word(vec![Expand::Brace(
                String::from("x"),
                Action::UseDefault(true),
                vec![lit("def")]
            )]),
            Token::Word(vec![Expand::Var(String::from("y"))]),
            Token::Word(vec![Expand::Tilde(vec![lit("/src")])]),
            Token::Word(vec![Expand::Sub(String::from("echo hi"))]),
        ]
    );
    assert_eq!(
        tokenize("${a-b}${c%d}${e##f}").unwrap(),
        vec![Token::Word(vec![
            Expand::Brace(String::from("a"), Action::UseDefault(false), vec![lit("b")]),
            Expand::Brace(String::from("c"), Action::RmSmallestSuffix, vec![lit("d")]),
            Expand::Brace(String::from("e"), Action::RmLargestPrefix, vec![lit("f")]),
        ])]
    );
    assert_eq!(
        tokenize("${#}").unwrap(),
        vec![Token::Word(vec![Expand::Var(String::from("#"))])]
    );
}

#[test]
fn unterminated_input_asks_for_more() {
    assert_eq!(tokenize("echo \"abc"), Err(LexError::Incomplete));
    assert_eq!(tokenize("echo 'abc"), Err(LexError::Incomplete));
    assert_eq!(tokenize("echo ${abc"), Err(LexError::Incomplete));
    assert_eq!(tokenize("echo $(ls"), Err(LexError::Incomplete));
    assert_eq!(tokenize("echo a\\\n"), Err(LexError::Incomplete));
    assert_eq!(tokenize("echo ${a b}"), Err(LexError::BadSubstitution));
}

#[test]
fn continuation_joins_lines() {
    assert_eq!(
        tokenize("echo a\\\nb\n").unwrap(),
        vec![Token::Word(vec![lit("echo")]), Token::Word(vec![lit("ab")])]
    );
    assert_eq!(
        tokenize("echo \\\n\n").unwrap(),
        vec![Token::Word(vec![lit("echo")])]
    );
}

#[test]
fn no_word_token_is_empty() {
    let lines = ["echo \"\" '' \\\n x", "a=b c=d e", "  \t ", "$ ~ \"$x\""];
    for line in lines.iter() {
        for t in tokenize(line).unwrap() {
            if let Token::Word(ws) = t {
                assert!(!ws.is_empty());
            }
        }
    }
}

#[test]
fn blank_line_has_no_tokens() {
    let mut lexer = Lexer::new("   \n");
    assert_eq!(lexer.next_token(), Ok(None));
}

#[test]
fn get_name_gives_the_text() {
    assert_eq!(lit("abc").get_name(), "abc");
    assert_eq!(Expand::Var(String::from("v")).get_name(), "v");
}
