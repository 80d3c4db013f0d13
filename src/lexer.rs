//! Turns a command line into tokens.
//!
//! The lexer works on the text it was given. Where a construct is left open at
//! the end of that text (a quote, `${`, `$(`, a backslash before the final
//! newline), it answers `LexError::Incomplete`: the caller reads a
//! continuation line, appends it, and lexes the joined text again.
use vstd::prelude::*;
use crate::text::{
    all_digits, ends_name, invalid_var, is_space, is_token_split, is_whitespace, parse_number,
    parse_u32, push_char, splits_token, chars_of,
};

verus! {

/// One token of a command line.
#[derive(Debug, PartialEq)]
pub enum Token {
    Word(Vec<Expand>),
    Integer(u32),
    Assign(String, Vec<Expand>),
    Op(Op),
    Punct(Punct),
}

/// One fragment of a word.
#[derive(Debug, PartialEq)]
pub enum Expand {
    Literal(String),
    Var(String),
    Tilde(Vec<Expand>),
    Brace(String, Action, Vec<Expand>),
    Sub(String),
}

/// What a `${name OP word}` expansion does. The flag of the first four is
/// true for the `:` forms, which treat an empty value as unset.
#[derive(Debug, PartialEq, Eq, Clone, Copy, Structural)]
pub enum Action {
    UseDefault(bool),
    AssignDefault(bool),
    IndicateError(bool),
    UseAlternate(bool),
    RmSmallestSuffix,
    RmLargestSuffix,
    RmSmallestPrefix,
    RmLargestPrefix,
    StringLength,
}

/// Operators.
#[derive(Debug, PartialEq, Eq, Clone, Copy, Structural)]
pub enum Op {
    Pipe,
    Ampersand,
    Bang,
    Or,
    And,
    Less,
    More,
}

/// Punctuation.
#[derive(Debug, PartialEq, Eq, Clone, Copy, Structural)]
pub enum Punct {
    LParen,
    RParen,
    Semicolon,
}

/// Why a line could not be lexed.
#[derive(Debug, PartialEq, Eq, Clone, Copy, Structural)]
pub enum LexError {
    /// The text ends inside a construct that needs a continuation line.
    Incomplete,
    /// A space right after the name in `${name ...}`.
    BadSubstitution,
}

/// Where a run of characters that is being read stops.
#[derive(Debug, PartialEq, Eq, Clone, Copy, Structural)]
pub enum Stop {
    /// At a character that ends an unquoted word; the end of the text also ends it.
    Split,
    /// At the closing `"`, which is consumed; the text must hold it.
    Quote,
    /// At the closing `}`, which is consumed; the text must hold it.
    Brace,
    /// At a character that cannot be part of a variable name.
    Name,
    /// As `Name`, and also at `%` and `#`: the name in `${name OP word}`.
    Param,
}

pub open spec fn stops(stop: Stop, c: char) -> bool {
    match stop {
        Stop::Split => splits_token(c) || c == ';',
        Stop::Quote => c == '"',
        Stop::Brace => c == '}',
        Stop::Name => ends_name(c),
        Stop::Param => ends_name(c) || c == '%' || c == '#',
    }
}

pub open spec fn consumes(stop: Stop) -> bool {
    stop == Stop::Quote || stop == Stop::Brace
}

fn stops_at(stop: Stop, c: char) -> (r: bool)
    ensures
        r == stops(stop, c),
{
    match stop {
        Stop::Split => is_token_split(c) || c == ';',
        Stop::Quote => c == '"',
        Stop::Brace => c == '}',
        Stop::Name => invalid_var(c),
        Stop::Param => invalid_var(c) || c == '%' || c == '#',
    }
}

/// A fragment of a word, as a value of the model.
pub enum Frag {
    Lit(Seq<char>),
    Var(Seq<char>),
    Tilde(Seq<Frag>),
    Brace(Seq<char>, Action, Seq<Frag>),
    Sub(Seq<char>),
}

/// The model of a fragment.
pub open spec fn frag_of(e: Expand) -> Frag
    decreases e,
{
    match e {
        Expand::Literal(s) => Frag::Lit(s@),
        Expand::Var(s) => Frag::Var(s@),
        Expand::Tilde(ws) => Frag::Tilde(frags_of(ws@)),
        Expand::Brace(k, a, ws) => Frag::Brace(k@, a, frags_of(ws@)),
        Expand::Sub(t) => Frag::Sub(t@),
    }
}

/// The models of fragments.
pub open spec fn frags_of(ws: Seq<Expand>) -> Seq<Frag>
    decreases ws,
{
    if ws.len() == 0 {
        Seq::empty()
    } else {
        frags_of(ws.subrange(0, ws.len() - 1)).push(frag_of(ws[ws.len() - 1]))
    }
}

/// The literal collected so far, added as a fragment if it is not empty.
pub open spec fn flush(acc: Seq<Frag>, cur: Seq<char>) -> Seq<Frag> {
    if cur.len() > 0 {
        acc.push(Frag::Lit(cur))
    } else {
        acc
    }
}

/// A backslash at `i` and what follows it: the escaped character, or
/// nothing for a line continuation or a backslash at the very end; and the
/// position after.
pub open spec fn escape(s: Seq<char>, i: int) -> (Result<Option<char>, LexError>, int) {
    if i + 1 >= s.len() {
        (Ok(None), i + 1)
    } else if s[i + 1] == '\n' {
        if i + 2 == s.len() {
            (Err(LexError::Incomplete), i + 2)
        } else {
            (Ok(None), i + 2)
        }
    } else {
        (Ok(Some(s[i + 1])), i + 2)
    }
}

/// The characters from `i` up to one that `stop` stops at, with escapes
/// taken, appended to `cur`; and the position of that character.
pub open spec fn raw_from(s: Seq<char>, i: int, stop: Stop, cur: Seq<char>) -> (Result<
    Seq<char>,
    LexError,
>, int)
    decreases s.len() - i,
{
    if i < 0 || i >= s.len() {
        (Ok(cur), i)
    } else if s[i] == '\\' {
        let (e, j) = escape(s, i);
        match e {
            Err(x) => (Err(x), j),
            Ok(Some(c)) => raw_from(s, j, stop, cur.push(c)),
            Ok(None) => raw_from(s, j, stop, cur),
        }
    } else if stops(stop, s[i]) {
        (Ok(cur), i)
    } else {
        raw_from(s, i + 1, stop, cur.push(s[i]))
    }
}

/// The characters from `i` up to the closing `'`, appended to `cur`; and the
/// position after it.
pub open spec fn single_from(s: Seq<char>, i: int, cur: Seq<char>) -> (Result<Seq<char>, LexError>, int)
    decreases s.len() - i,
{
    if i < 0 || i >= s.len() {
        (Err(LexError::Incomplete), i)
    } else if s[i] == '\'' {
        (Ok(cur), i + 1)
    } else {
        single_from(s, i + 1, cur.push(s[i]))
    }
}

/// The text from `i` up to the `)` that closes `$(`, with `depth` unclosed
/// `(` in it so far, appended to `cur`; and the position after that `)`.
pub open spec fn sub_from(s: Seq<char>, i: int, depth: nat, cur: Seq<char>) -> (Result<
    Seq<char>,
    LexError,
>, int)
    decreases s.len() - i,
{
    if i < 0 || i >= s.len() {
        (Err(LexError::Incomplete), i)
    } else if s[i] == ')' {
        if depth == 0 {
            (Ok(cur), i + 1)
        } else {
            sub_from(s, i + 1, (depth - 1) as nat, cur.push(')'))
        }
    } else {
        sub_from(s, i + 1, if s[i] == '(' { depth + 1 } else { depth }, cur.push(s[i]))
    }
}

/// The character at `i`, if there is one.
pub open spec fn char_at(s: Seq<char>, i: int) -> Option<char> {
    if 0 <= i < s.len() {
        Some(s[i])
    } else {
        None
    }
}

/// The operation of `${name OP word}` that starts at `i`, and the position
/// after it.
pub open spec fn action_from(s: Seq<char>, i: int) -> (Result<Option<Action>, LexError>, int) {
    if i < 0 || i >= s.len() {
        (Err(LexError::Incomplete), i)
    } else {
        let c = s[i];
        let k = i + 1;
        if c == ':' {
            (Ok(action_spec(true, char_at(s, k))), if k < s.len() { k + 1 } else { k })
        } else if c == '%' {
            if char_at(s, k) == Some('%') {
                (Ok(Some(Action::RmLargestSuffix)), k + 1)
            } else {
                (Ok(Some(Action::RmSmallestSuffix)), k)
            }
        } else if c == '#' {
            if char_at(s, k) == Some('#') {
                (Ok(Some(Action::RmLargestPrefix)), k + 1)
            } else {
                (Ok(Some(Action::RmSmallestPrefix)), k)
            }
        } else if c == ' ' {
            (Err(LexError::BadSubstitution), k)
        } else {
            (Ok(action_spec(false, Some(c))), k)
        }
    }
}

pub open spec fn action_spec(null: bool, c: Option<char>) -> Option<Action> {
    match c {
        Some('-') => Some(Action::UseDefault(null)),
        Some('=') => Some(Action::AssignDefault(null)),
        Some('?') => Some(Action::IndicateError(null)),
        Some('+') => Some(Action::UseAlternate(null)),
        _ => None,
    }
}

/// The name in `${name ...}` read from `i`: up to `:`, `%`, `#` or a
/// character that ends a name; a `#` alone is the name `#`.
pub open spec fn param_from(s: Seq<char>, i: int) -> (Result<Seq<char>, LexError>, int) {
    let (r, j) = raw_from(s, i, Stop::Param, Seq::empty());
    match r {
        Err(x) => (Err(x), j),
        Ok(p) => if p.len() == 0 && char_at(s, j) == Some('#') {
            (Ok(seq!['#']), j + 1)
        } else {
            (Ok(p), j)
        },
    }
}

/// What follows a `$` at `i - 1`: the fragment, and the position after it.
pub open spec fn dollar_from(s: Seq<char>, i: int) -> (Result<Frag, LexError>, int)
    decreases s.len() - i, 1nat,
{
    if 0 <= i < s.len() && s[i] == '{' {
        let (rp, j) = param_from(s, i + 1);
        match rp {
            Err(x) => (Err(x), j),
            Ok(p) => {
                let (ra, k) = action_from(s, j);
                match ra {
                    Err(x) => (Err(x), k),
                    Ok(None) => (Ok(Frag::Var(p)), k),
                    Ok(Some(a)) => if i < k <= s.len() {
                        let (rw, m) = word_from(s, k, Stop::Brace, Seq::empty(), Seq::empty());
                        match rw {
                            Err(x) => (Err(x), m),
                            Ok(w) => (Ok(Frag::Brace(p, a, w)), m),
                        }
                    } else {
                        (Err(LexError::Incomplete), k)
                    },
                }
            },
        }
    } else if 0 <= i < s.len() && s[i] == '(' {
        let (r, j) = sub_from(s, i + 1, 0, Seq::empty());
        match r {
            Err(x) => (Err(x), j),
            Ok(t) => (Ok(Frag::Sub(t)), j),
        }
    } else {
        let (r, j) = raw_from(s, i, Stop::Name, Seq::empty());
        match r {
            Err(x) => (Err(x), j),
            Ok(n) => (Ok(Frag::Var(n)), j),
        }
    }
}

/// The fragments of the word that starts at `i` and ends where `stop`
/// says, after the fragments `acc` and the literal `cur` read so far; and
/// the position after the word.
pub open spec fn word_from(s: Seq<char>, i: int, stop: Stop, acc: Seq<Frag>, cur: Seq<char>) -> (
    Result<Seq<Frag>, LexError>,
    int,
)
    decreases s.len() - i, 0nat,
{
    if i < 0 || i >= s.len() {
        if consumes(stop) {
            (Err(LexError::Incomplete), i)
        } else {
            (Ok(flush(acc, cur)), i)
        }
    } else {
        let c = s[i];
        if c == '\\' {
            let (e, j) = escape(s, i);
            match e {
                Err(x) => (Err(x), j),
                Ok(Some(d)) => word_from(s, j, stop, acc, cur.push(d)),
                Ok(None) => word_from(s, j, stop, acc, cur),
            }
        } else if stops(stop, c) {
            if c == '=' {
                word_from(s, i + 1, stop, acc.push(Frag::Lit(cur.push('='))), Seq::empty())
            } else {
                (Ok(flush(acc, cur)), if consumes(stop) { i + 1 } else { i })
            }
        } else if c == '$' {
            let (r, j) = dollar_from(s, i + 1);
            match r {
                Err(x) => (Err(x), j),
                Ok(f) => if i < j <= s.len() {
                    word_from(s, j, stop, flush(acc, cur).push(f), Seq::empty())
                } else {
                    (Err(LexError::Incomplete), j)
                },
            }
        } else if c == '~' {
            let (r, j) = word_from(s, i + 1, Stop::Name, Seq::empty(), Seq::empty());
            match r {
                Err(x) => (Err(x), j),
                Ok(w) => if i < j <= s.len() {
                    word_from(s, j, stop, flush(acc, cur).push(Frag::Tilde(w)), Seq::empty())
                } else {
                    (Err(LexError::Incomplete), j)
                },
            }
        } else if c == '"' {
            let (r, j) = word_from(s, i + 1, Stop::Quote, Seq::empty(), Seq::empty());
            match r {
                Err(x) => (Err(x), j),
                Ok(w) => if i < j <= s.len() {
                    word_from(
                        s,
                        j,
                        stop,
                        flush(acc, cur) + if w.len() == 0 {
                            seq![Frag::Lit(Seq::empty())]
                        } else {
                            w
                        },
                        Seq::empty(),
                    )
                } else {
                    (Err(LexError::Incomplete), j)
                },
            }
        } else if c == '\'' {
            let (r, j) = single_from(s, i + 1, Seq::empty());
            match r {
                Err(x) => (Err(x), j),
                Ok(p) => if i < j <= s.len() {
                    word_from(s, j, stop, flush(acc, cur).push(Frag::Lit(p)), Seq::empty())
                } else {
                    (Err(LexError::Incomplete), j)
                },
            }
        } else {
            word_from(s, i + 1, stop, acc, cur.push(c))
        }
    }
}

/// A token, as a value of the model.
pub enum Tok {
    Word(Seq<Frag>),
    Integer(u32),
    Assign(Seq<char>, Seq<Frag>),
    Op(Op),
    Punct(Punct),
}

pub open spec fn tok_of(t: Token) -> Tok {
    match t {
        Token::Word(ws) => Tok::Word(frags_of(ws@)),
        Token::Integer(n) => Tok::Integer(n),
        Token::Assign(n, ws) => Tok::Assign(n@, frags_of(ws@)),
        Token::Op(o) => Tok::Op(o),
        Token::Punct(p) => Tok::Punct(p),
    }
}

/// The token that a word read as `w` becomes: `NAME=...` an assignment, a
/// lone number an integer, anything else a word.
pub open spec fn classify_model(w: Seq<Frag>) -> Tok {
    if w.len() > 0 && w[0] is Lit && w[0]->Lit_0.len() > 0 && w[0]->Lit_0.last() == '='
        && valid_name(w[0]->Lit_0.drop_last()) {
        Tok::Assign(w[0]->Lit_0.drop_last(), w.drop_first())
    } else if w.len() == 1 && w[0] is Lit && parse_u32(w[0]->Lit_0) is Some {
        Tok::Integer(parse_u32(w[0]->Lit_0)->Some_0)
    } else {
        Tok::Word(w)
    }
}

/// The model of an operator token.
pub open spec fn tok_of_operator(t: Option<Token>) -> Tok {
    match t {
        Some(Token::Op(o)) => Tok::Op(o),
        Some(Token::Punct(p)) => Tok::Punct(p),
        _ => Tok::Word(Seq::empty()),
    }
}

/// The next token from `i`, `None` where only white space is left; and the
/// position after it. A word that reads as nothing is passed over.
pub open spec fn token_from(s: Seq<char>, i: int) -> (Result<Option<Tok>, LexError>, int)
    decreases s.len() - i,
{
    let q = skip_spaces(s, i);
    if operator_at(s, q) is Some {
        (Ok(Some(tok_of_operator(operator_at(s, q)))), q + operator_len(s, q))
    } else if q < 0 || q >= s.len() {
        (Ok(None), q)
    } else {
        let (r, j) = word_from(s, q, Stop::Split, Seq::empty(), Seq::empty());
        match r {
            Err(x) => (Err(x), j),
            Ok(w) => if w.len() > 0 {
                (Ok(Some(classify_model(w))), j)
            } else if i < j <= s.len() {
                token_from(s, j)
            } else {
                (Ok(None), j)
            },
        }
    }
}

/// All the tokens from `i` on.
pub open spec fn tokens_from(s: Seq<char>, i: int) -> Result<Seq<Tok>, LexError>
    decreases s.len() - i,
{
    let (r, j) = token_from(s, i);
    match r {
        Err(x) => Err(x),
        Ok(None) => Ok(Seq::empty()),
        Ok(Some(t)) => if i < j <= s.len() {
            match tokens_from(s, j) {
                Ok(rest) => Ok(seq![t] + rest),
                Err(x) => Err(x),
            }
        } else {
            Ok(seq![t])
        },
    }
}

/// The models of tokens.
pub open spec fn toks_of(ts: Seq<Token>) -> Seq<Tok> {
    ts.map_values(|t: Token| tok_of(t))
}

/// A name that an assignment can bind: not empty and not all digits.
pub open spec fn valid_name(s: Seq<char>) -> bool {
    s.len() > 0 && !all_digits(s)
}

/// Whether a word read as `ws` has the shape `NAME=...`.
pub open spec fn assign_form(ws: Seq<Expand>) -> bool {
    ws.len() > 0 && ws[0] is Literal && ws[0]->Literal_0@.len() > 0 && ws[0]->Literal_0@.last()
        == '=' && valid_name(ws[0]->Literal_0@.drop_last())
}

/// Whether a word read as `ws` is a number.
pub open spec fn integer_form(ws: Seq<Expand>) -> bool {
    ws.len() == 1 && ws[0] is Literal && parse_u32(ws[0]->Literal_0@) is Some
}

/// The token that a word read as `ws` becomes.
pub open spec fn classifies(ws: Seq<Expand>, t: Token) -> bool {
    if assign_form(ws) {
        t is Assign && t->Assign_0@ == ws[0]->Literal_0@.drop_last() && t->Assign_1@
            == ws.drop_first()
    } else if integer_form(ws) {
        t == Token::Integer(parse_u32(ws[0]->Literal_0@)->Some_0)
    } else {
        t is Word && t->Word_0@ == ws
    }
}

/// What a token that a line lexes to always satisfies.
pub open spec fn token_wf(t: Token) -> bool {
    &&& t is Word ==> t->Word_0@.len() > 0
    &&& t is Assign ==> valid_name(t->Assign_0@)
}

/// The first position at or after `i` that does not hold white space.
pub open spec fn skip_spaces(s: Seq<char>, i: int) -> int
    decreases s.len() - i,
{
    if i >= s.len() || !is_space(s[i]) {
        i
    } else {
        skip_spaces(s, i + 1)
    }
}

/// The token that an operator character at `i` starts, if it starts one.
pub open spec fn operator_at(s: Seq<char>, i: int) -> Option<Token> {
    if i >= s.len() {
        None
    } else if s[i] == '|' {
        Some(Token::Op(if i + 1 < s.len() && s[i + 1] == '|' { Op::Or } else { Op::Pipe }))
    } else if s[i] == '&' {
        Some(Token::Op(if i + 1 < s.len() && s[i + 1] == '&' { Op::And } else { Op::Ampersand }))
    } else if s[i] == '>' {
        Some(Token::Op(Op::More))
    } else if s[i] == '<' {
        Some(Token::Op(Op::Less))
    } else if s[i] == '!' {
        Some(Token::Op(Op::Bang))
    } else if s[i] == '(' {
        Some(Token::Punct(Punct::LParen))
    } else if s[i] == ')' {
        Some(Token::Punct(Punct::RParen))
    } else if s[i] == ';' {
        Some(Token::Punct(Punct::Semicolon))
    } else {
        None
    }
}

/// How many characters the operator at `i` takes.
pub open spec fn operator_len(s: Seq<char>, i: int) -> int {
    if (s[i] == '|' || s[i] == '&') && i + 1 < s.len() && s[i + 1] == s[i] {
        2
    } else {
        1
    }
}

/// A character that opens a construct that may need more input.
pub open spec fn opens(c: char) -> bool {
    c == '\\' || c == '$' || c == '"' || c == '\''
}

/// No character from `i` on opens such a construct.
pub open spec fn closed_from(s: Seq<char>, i: int) -> bool {
    forall|k: int| i <= k < s.len() ==> !opens(#[trigger] s[k])
}

/// A character that stands for itself in an unquoted word.
pub open spec fn plain_char(c: char) -> bool {
    !splits_token(c) && c != ';' && c != '\\' && c != '$' && c != '~' && c != '"' && c != '\''
}

/// The end of the run of plain characters that starts at `i`.
pub open spec fn run_end(s: Seq<char>, i: int) -> int
    decreases s.len() - i,
{
    if i >= s.len() || !plain_char(s[i]) {
        i
    } else {
        run_end(s, i + 1)
    }
}

/// At `i` starts a word made only of plain characters.
pub open spec fn plain_word_at(s: Seq<char>, i: int) -> bool {
    let e = run_end(s, i);
    e > i && (e == s.len() || s[e] != '=' && stops(Stop::Split, s[e]))
}

proof fn lemma_run_end(s: Seq<char>, i: int)
    requires
        0 <= i <= s.len(),
    ensures
        i <= run_end(s, i) <= s.len(),
        run_end(s, i) < s.len() ==> !plain_char(s[run_end(s, i)]),
        forall|k: int| i <= k < run_end(s, i) ==> plain_char(#[trigger] s[k]) && run_end(s, k)
            == run_end(s, i),
    decreases s.len() - i,
{
    if i < s.len() && plain_char(s[i]) {
        lemma_run_end(s, i + 1);
    }
}

impl Expand {
    /// The name or text that the fragment carries.
    pub fn get_name(self) -> (r: String)
        requires
            !(self is Tilde),
        ensures
            self is Literal ==> r == self->Literal_0,
            self is Var ==> r == self->Var_0,
            self is Brace ==> r == self->Brace_0,
            self is Sub ==> r == self->Sub_0,
    {
        match self {
            Expand::Literal(s) => s,
            Expand::Var(s) => s,
            Expand::Brace(s, _, _) => s,
            Expand::Sub(s) => s,
            Expand::Tilde(_) => String::new(),
        }
    }
}

fn action_of(null: bool, c: Option<char>) -> (r: Option<Action>)
    ensures
        r == (match c {
            Some('-') => Some(Action::UseDefault(null)),
            Some('=') => Some(Action::AssignDefault(null)),
            Some('?') => Some(Action::IndicateError(null)),
            Some('+') => Some(Action::UseAlternate(null)),
            _ => None,
        }),
{
    match c {
        Some('-') => Some(Action::UseDefault(null)),
        Some('=') => Some(Action::AssignDefault(null)),
        Some('?') => Some(Action::IndicateError(null)),
        Some('+') => Some(Action::UseAlternate(null)),
        _ => None,
    }
}

/// The token that a word read as `ws` becomes: an assignment, a number or a
/// plain word.
pub fn classify(ws: Vec<Expand>) -> (t: Token)
    ensures
        classifies(ws@, t),
{
    if ws.len() > 0 {
        if let Expand::Literal(s) = &ws[0] {
            let v = chars_of(s.as_str());
            if v.len() > 0 && v[v.len() - 1] == '=' {
                let mut name = String::new();
                let mut all_num = true;
                let mut i: usize = 0;
                while i + 1 < v.len()
                    invariant
                        v@ == s@,
                        v.len() > 0,
                        i + 1 <= v.len(),
                        name@ == v@.subrange(0, i as int),
                        all_num == all_digits(v@.subrange(0, i as int)),
                    decreases v.len() - i,
                {
                    let c = v[i];
                    push_char(&mut name, c);
                    if !('0' <= c && c <= '9') {
                        all_num = false;
                    }
                    proof {
                        let p = v@.subrange(0, i + 1);
                        assert(p.drop_last() =~= v@.subrange(0, i as int));
                        if all_digits(p) {
                            assert(p[i as int] == c);
                        }
                    }
                    i = i + 1;
                    assert(name@ =~= v@.subrange(0, i as int));
                }
                assert(v@.subrange(0, i as int) =~= v@.drop_last());
                if !name.as_str().is_empty() && !all_num {
                    let mut rest: Vec<Expand> = Vec::new();
                    let mut it = ws;
                    let ghost orig = it@;
                    it.remove(0);
                    rest = it;
                    assert(rest@ =~= orig.drop_first());
                    return Token::Assign(name, rest);
                }
            }
        }
    }
    if ws.len() == 1 {
        if let Expand::Literal(s) = &ws[0] {
            if let Some(n) = parse_number(s) {
                return Token::Integer(n);
            }
        }
    }
    Token::Word(ws)
}

/// A lexer over one (possibly joined) command line.
pub struct Lexer {
    line: Vec<char>,
    pos: usize,
}

impl Lexer {
    /// The characters being lexed.
    pub closed spec fn text(&self) -> Seq<char> {
        self.line@
    }

    /// How many characters have been consumed.
    pub closed spec fn at(&self) -> int {
        self.pos as int
    }

    pub closed spec fn wf(&self) -> bool {
        self.pos <= self.line.len()
    }

    pub fn new(line: &str) -> (r: Lexer)
        ensures
            r.wf(),
            r.text() == line@,
            r.at() == 0,
    {
        Lexer { line: chars_of(line), pos: 0 }
    }

    fn peek_char(&self) -> (r: Option<char>)
        requires
            self.wf(),
        ensures
            r == (if self.at() < self.text().len() {
                Some(self.text()[self.at()])
            } else {
                None
            }),
    {
        if self.pos < self.line.len() {
            Some(self.line[self.pos])
        } else {
            None
        }
    }

    fn next_char(&mut self) -> (r: Option<char>)
        requires
            old(self).wf(),
        ensures
            final(self).wf(),
            final(self).text() == old(self).text(),
            r == (if old(self).at() < old(self).text().len() {
                Some(old(self).text()[old(self).at()])
            } else {
                None
            }),
            final(self).at() == (if old(self).at() < old(self).text().len() {
                old(self).at() + 1
            } else {
                old(self).at()
            }),
    {
        if self.pos < self.line.len() {
            let c = self.line[self.pos];
            self.pos = self.pos + 1;
            Some(c)
        } else {
            None
        }
    }

    /// Moves past white space.
    fn skip_whitespace(&mut self)
        requires
            old(self).wf(),
        ensures
            final(self).wf(),
            final(self).text() == old(self).text(),
            final(self).at() == skip_spaces(old(self).text(), old(self).at()),
    {
        while self.pos < self.line.len() && is_whitespace(self.line[self.pos])
            invariant
                self.wf(),
                self.text() == old(self).text(),
                old(self).at() <= self.at(),
                skip_spaces(self.text(), self.at()) == skip_spaces(old(self).text(), old(self).at()),
            decreases self.line.len() - self.pos,
        {
            self.pos = self.pos + 1;
        }
    }

    /// Reads a backslash and what follows it. Returns the escaped character,
    /// or `None` for a line continuation or a backslash at the very end.
    fn read_escape(&mut self) -> (r: Result<Option<char>, LexError>)
        requires
            old(self).wf(),
            old(self).at() < old(self).text().len(),
            old(self).text()[old(self).at()] == '\\',
        ensures
            final(self).wf(),
            final(self).text() == old(self).text(),
            final(self).at() > old(self).at(),
            escape(old(self).text(), old(self).at()) == (r, final(self).at()),
    {
        self.next_char();
        match self.next_char() {
            Some('\n') => {
                if self.pos == self.line.len() {
                    Err(LexError::Incomplete)
                } else {
                    Ok(None)
                }
            },
            Some(c) => Ok(Some(c)),
            None => Ok(None),
        }
    }

    /// Reads characters, without expansions, until one that `stop` stops at.
    fn read_raw_until(&mut self, stop: Stop) -> (r: Result<String, LexError>)
        requires
            old(self).wf(),
        ensures
            final(self).wf(),
            final(self).text() == old(self).text(),
            old(self).at() <= final(self).at(),
            r is Ok ==> final(self).at() == final(self).text().len() || stops(
                stop,
                final(self).text()[final(self).at()],
            ),
            text_result(raw_from(old(self).text(), old(self).at(), stop, Seq::empty()), r, final(self).at()),
    {
        let mut word = String::new();
        loop
            invariant
                self.wf(),
                self.text() == old(self).text(),
                old(self).at() <= self.at(),
                raw_from(old(self).text(), old(self).at(), stop, Seq::empty()) == raw_from(
                    self.text(),
                    self.at(),
                    stop,
                    word@,
                ),
            ensures
                self.wf(),
                self.text() == old(self).text(),
                old(self).at() <= self.at(),
                self.at() == self.text().len() || stops(stop, self.text()[self.at()]),
                raw_from(old(self).text(), old(self).at(), stop, Seq::empty()) == (Ok::<
                    Seq<char>,
                    LexError,
                >(word@), self.at()),
            decreases self.line.len() - self.pos,
        {
            if self.pos >= self.line.len() {
                break;
            }
            let c = self.line[self.pos];
            if c == '\\' {
                if let Some(e) = self.read_escape()? {
                    push_char(&mut word, e);
                }
            } else if stops_at(stop, c) {
                break;
            } else {
                push_char(&mut word, c);
                self.pos = self.pos + 1;
            }
        }
        Ok(word)
    }

    /// Reads the text of `$( ... )` after the opening parenthesis, up to the
    /// matching closing one, which is consumed.
    fn read_sub(&mut self) -> (r: Result<String, LexError>)
        requires
            old(self).wf(),
        ensures
            final(self).wf(),
            final(self).text() == old(self).text(),
            old(self).at() <= final(self).at(),
            text_result(sub_from(old(self).text(), old(self).at(), 0, Seq::empty()), r, final(self).at()),
    {
        let mut text = String::new();
        let mut depth: usize = 0;
        loop
            invariant
                self.wf(),
                self.text() == old(self).text(),
                old(self).at() <= self.at(),
                depth <= self.at(),
                sub_from(old(self).text(), old(self).at(), 0, Seq::empty()) == sub_from(
                    self.text(),
                    self.at(),
                    depth as nat,
                    text@,
                ),
            decreases self.line.len() - self.pos,
        {
            match self.next_char() {
                None => {
                    return Err(LexError::Incomplete);
                },
                Some(')') => {
                    if depth == 0 {
                        return Ok(text);
                    }
                    depth = depth - 1;
                    push_char(&mut text, ')');
                },
                Some(c) => {
                    if c == '(' {
                        depth = depth + 1;
                    }
                    push_char(&mut text, c);
                },
            }
        }
    }

    /// Reads one word, or the inside of a quote or of `${...}`, into its
    /// fragments.
    fn read_until(&mut self, stop: Stop) -> (r: Result<Vec<Expand>, LexError>)
        requires
            old(self).wf(),
        ensures
            final(self).wf(),
            final(self).text() == old(self).text(),
            old(self).at() <= final(self).at(),
            r is Ok && !consumes(stop) ==> final(self).at() == final(self).text().len() || (stops(
                stop,
                final(self).text()[final(self).at()],
            ) && final(self).text()[final(self).at()] != '='),
            r is Ok && old(self).at() < old(self).text().len() && (old(self).text()[old(self).at()]
                == '=' || !stops(stop, old(self).text()[old(self).at()])) ==> final(self).at() > old(
                self,
            ).at(),
            !consumes(stop) && closed_from(old(self).text(), old(self).at()) ==> r is Ok,
            stop == Stop::Split && plain_word_at(old(self).text(), old(self).at()) ==> (r matches Ok(
                ws,
            ) && final(self).at() == run_end(old(self).text(), old(self).at()) && ws@.len() == 1
                && ws@[0] is Literal && ws@[0]->Literal_0@ == old(self).text().subrange(
                old(self).at(),
                final(self).at(),
            )),
            word_result(
                word_from(old(self).text(), old(self).at(), stop, Seq::empty(), Seq::empty()),
                r,
                final(self).at(),
            ),
        decreases old(self).text().len() - old(self).at(),
    {
        let mut expandables: Vec<Expand> = Vec::new();
        let mut cur_word = String::new();
        let ghost origin = word_from(self.text(), self.at(), stop, Seq::empty(), Seq::empty());
        assert(frags_of(expandables@) =~= Seq::<Frag>::empty());
        let ghost plain = stop == Stop::Split && plain_word_at(self.text(), self.at());
        let ghost e = run_end(self.text(), self.at());
        proof {
            lemma_run_end(self.text(), self.at());
        }
        loop
            invariant_except_break
                origin == word_from(self.text(), self.at(), stop, frags_of(expandables@), cur_word@),
            invariant
                self.wf(),
                self.text() == old(self).text(),
                old(self).at() <= self.at(),
                e == run_end(old(self).text(), old(self).at()),
                old(self).at() <= e <= old(self).text().len(),
                e < old(self).text().len() ==> !plain_char(old(self).text()[e]),
                forall|k: int| old(self).at() <= k < e ==> plain_char(#[trigger] old(self).text()[k]),
                plain == (stop == Stop::Split && plain_word_at(old(self).text(), old(self).at())),
                !consumes(stop) && closed_from(old(self).text(), old(self).at()) ==> closed_from(
                    self.text(),
                    self.at(),
                ),
                plain ==> self.at() <= e && expandables@.len() == 0 && cur_word@ == old(
                    self,
                ).text().subrange(old(self).at(), self.at()),
                origin == word_from(old(self).text(), old(self).at(), stop, Seq::empty(), Seq::empty()),
            ensures
                origin == (Ok::<Seq<Frag>, LexError>(flush(frags_of(expandables@), cur_word@)), self.at()),
                self.wf(),
                self.text() == old(self).text(),
                old(self).at() <= self.at(),
                !consumes(stop) ==> self.at() == self.text().len() || (stops(
                    stop,
                    self.text()[self.at()],
                ) && self.text()[self.at()] != '='),
                old(self).at() < old(self).text().len() && (old(self).text()[old(self).at()] == '='
                    || !stops(stop, old(self).text()[old(self).at()])) ==> self.at() > old(
                    self,
                ).at(),
                plain ==> self.at() == e && expandables@.len() == 0 && cur_word@ == old(
                    self,
                ).text().subrange(old(self).at(), e),
            decreases self.line.len() - self.pos,
        {
            let next = self.peek_char();
            match next {
                None => {
                    if stop == Stop::Quote || stop == Stop::Brace {
                        return Err(LexError::Incomplete);
                    }
                    break;
                },
                Some(c) => {
                    if c == '\\' {
                        if let Some(e) = self.read_escape()? {
                            push_char(&mut cur_word, e);
                        }
                    } else if stops_at(stop, c) {
                        if c == '=' {
                            self.next_char();
                            push_char(&mut cur_word, '=');
                            let ghost before = expandables@;
                            expandables.push(Expand::Literal(cur_word));
                            proof {
                                lemma_frags_push(before, Expand::Literal(cur_word));
                            }
                            cur_word = String::new();
                        } else {
                            if stop == Stop::Quote || stop == Stop::Brace {
                                self.next_char();
                            }
                            break;
                        }
                    } else if c == '$' {
                        flush_word(&mut expandables, cur_word);
                        cur_word = String::new();
                        self.next_char();
                        let e = self.read_dollar()?;
                        let ghost before = expandables@;
                        expandables.push(e);
                        proof {
                            lemma_frags_push(before, e);
                        }
                    } else if c == '~' {
                        flush_word(&mut expandables, cur_word);
                        cur_word = String::new();
                        self.next_char();
                        let tilde = self.read_until(Stop::Name)?;
                        let ghost before = expandables@;
                        let ghost t = Expand::Tilde(tilde);
                        expandables.push(Expand::Tilde(tilde));
                        proof {
                            lemma_frags_push(before, t);
                        }
                    } else if c == '"' {
                        flush_word(&mut expandables, cur_word);
                        cur_word = String::new();
                        self.next_char();
                        let mut result = self.read_until(Stop::Quote)?;
                        let ghost before = expandables@;
                        let ghost got = result@;
                        proof {
                            lemma_frags_len(got);
                        }
                        if result.len() == 0 {
                            expandables.push(Expand::Literal(String::new()));
                            proof {
                                lemma_frags_push(before, expandables@.last());
                                assert(expandables@ =~= before.push(expandables@.last()));
                                assert(frag_of(expandables@.last()) == Frag::Lit(Seq::empty()));
                                assert(frags_of(expandables@) =~= frags_of(before) + seq![
                                    Frag::Lit(Seq::empty()),
                                ]);
                            }
                        } else {
                            expandables.append(&mut result);
                            proof {
                                lemma_frags_append(before, got);
                            }
                        }
                    } else if c == '\'' {
                        flush_word(&mut expandables, cur_word);
                        cur_word = String::new();
                        self.next_char();
                        let phrase = self.read_single_quoted()?;
                        let ghost before = expandables@;
                        let ghost lit = Expand::Literal(phrase);
                        expandables.push(Expand::Literal(phrase));
                        proof {
                            lemma_frags_push(before, lit);
                        }
                    } else {
                        let ghost before = cur_word@;
                        push_char(&mut cur_word, c);
                        self.next_char();
                        proof {
                            if plain {
                                assert(cur_word@ =~= old(self).text().subrange(
                                    old(self).at(),
                                    self.at(),
                                ));
                            }
                        }
                    }
                },
            }
        }
        flush_word(&mut expandables, cur_word);
        Ok(expandables)
    }

    /// Reads what follows `'` up to the closing `'`, which is consumed.
    fn read_single_quoted(&mut self) -> (r: Result<String, LexError>)
        requires
            old(self).wf(),
        ensures
            final(self).wf(),
            final(self).text() == old(self).text(),
            old(self).at() <= final(self).at(),
            text_result(single_from(old(self).text(), old(self).at(), Seq::empty()), r, final(self).at()),
    {
        let mut phrase = String::new();
        loop
            invariant
                self.wf(),
                self.text() == old(self).text(),
                old(self).at() <= self.at(),
                single_from(old(self).text(), old(self).at(), Seq::empty()) == single_from(
                    self.text(),
                    self.at(),
                    phrase@,
                ),
            decreases self.line.len() - self.pos,
        {
            match self.next_char() {
                Some('\'') => {
                    return Ok(phrase);
                },
                Some(c) => {
                    push_char(&mut phrase, c);
                },
                None => {
                    return Err(LexError::Incomplete);
                },
            }
        }
    }

    /// Reads what follows a `$`: a variable, `${...}` or `$(...)`.
    fn read_dollar(&mut self) -> (r: Result<Expand, LexError>)
        requires
            old(self).wf(),
        ensures
            final(self).wf(),
            final(self).text() == old(self).text(),
            old(self).at() <= final(self).at(),
            frag_result(dollar_from(old(self).text(), old(self).at()), r, final(self).at()),
        decreases old(self).text().len() - old(self).at(),
    {
        match self.peek_char() {
            Some('{') => {
                self.next_char();
                let mut param = self.read_raw_until(Stop::Param)?;
                if param.as_str().is_empty() {
                    if let Some('#') = self.peek_char() {
                        // `${#}`: the number of positional parameters.
                        self.next_char();
                        push_char(&mut param, '#');
                        assert(param@ =~= seq!['#']);
                    }
                }
                assert(param_from(self.text(), old(self).at() + 1) == (Ok::<Seq<char>, LexError>(param@), self.at()));
                let ghost j = self.at();
                let action = match self.next_char() {
                    Some(':') => {
                        let c = self.next_char();
                        action_of(true, c)
                    },
                    Some('%') => {
                        if let Some('%') = self.peek_char() {
                            self.next_char();
                            Some(Action::RmLargestSuffix)
                        } else {
                            Some(Action::RmSmallestSuffix)
                        }
                    },
                    Some('#') => {
                        if let Some('#') = self.peek_char() {
                            self.next_char();
                            Some(Action::RmLargestPrefix)
                        } else {
                            Some(Action::RmSmallestPrefix)
                        }
                    },
                    Some(' ') => {
                        return Err(LexError::BadSubstitution);
                    },
                    None => {
                        return Err(LexError::Incomplete);
                    },
                    c => action_of(false, c),
                };
                assert(action_from(self.text(), j) == (Ok::<Option<Action>, LexError>(action), self.at()));
                if let Some(a) = action {
                    let word = self.read_until(Stop::Brace)?;
                    Ok(Expand::Brace(param, a, word))
                } else {
                    Ok(Expand::Var(param))
                }
            },
            Some('(') => {
                self.next_char();
                let text = self.read_sub()?;
                Ok(Expand::Sub(text))
            },
            _ => {
                let name = self.read_raw_until(Stop::Name)?;
                Ok(Expand::Var(name))
            },
        }
    }
}

/// `r`, ending at `at`, is what the model `m` of a word gives.
pub open spec fn word_result(m: (Result<Seq<Frag>, LexError>, int), r: Result<Vec<Expand>, LexError>, at: int) -> bool {
    match r {
        Ok(ws) => m == (Ok::<Seq<Frag>, LexError>(frags_of(ws@)), at),
        Err(e) => m.0 == Err::<Seq<Frag>, LexError>(e),
    }
}

/// `r`, ending at `at`, is what the model `m` of a run of text gives.
pub open spec fn text_result(m: (Result<Seq<char>, LexError>, int), r: Result<String, LexError>, at: int) -> bool {
    match r {
        Ok(t) => m == (Ok::<Seq<char>, LexError>(t@), at),
        Err(e) => m.0 == Err::<Seq<char>, LexError>(e),
    }
}

/// `r`, ending at `at`, is what the model `m` of what follows `$` gives.
pub open spec fn frag_result(m: (Result<Frag, LexError>, int), r: Result<Expand, LexError>, at: int) -> bool {
    match r {
        Ok(e) => m == (Ok::<Frag, LexError>(frag_of(e)), at),
        Err(x) => m.0 == Err::<Frag, LexError>(x),
    }
}

pub(crate) proof fn lemma_frags_push(ws: Seq<Expand>, e: Expand)
    ensures
        frags_of(ws.push(e)) == frags_of(ws).push(frag_of(e)),
{
    assert(ws.push(e).subrange(0, ws.len() as int) =~= ws);
}

pub(crate) proof fn lemma_frags_len(ws: Seq<Expand>)
    ensures
        frags_of(ws).len() == ws.len(),
    decreases ws.len(),
{
    if ws.len() > 0 {
        lemma_frags_len(ws.subrange(0, ws.len() - 1));
    }
}

/// Adds the literal `cur` to `ws` if it is not empty.
fn flush_word(ws: &mut Vec<Expand>, cur: String)
    ensures
        frags_of(final(ws)@) == flush(frags_of(old(ws)@), cur@),
        cur@.len() > 0 ==> final(ws)@ == old(ws)@.push(Expand::Literal(cur)),
        cur@.len() == 0 ==> final(ws)@ == old(ws)@,
{
    if !cur.as_str().is_empty() {
        let ghost before = ws@;
        ws.push(Expand::Literal(cur));
        proof {
            lemma_frags_push(before, Expand::Literal(cur));
        }
    }
}

pub(crate) proof fn lemma_frags_index(ws: Seq<Expand>)
    ensures
        frags_of(ws).len() == ws.len(),
        forall|k: int| 0 <= k < ws.len() ==> #[trigger] frags_of(ws)[k] == frag_of(ws[k]),
    decreases ws.len(),
{
    if ws.len() > 0 {
        let w0 = ws.subrange(0, ws.len() - 1);
        lemma_frags_index(w0);
        assert forall|k: int| 0 <= k < ws.len() implies #[trigger] frags_of(ws)[k] == frag_of(ws[k]) by {
            if k < ws.len() - 1 {
                assert(w0[k] == ws[k]);
            }
        }
    }
}

proof fn lemma_classify(ws: Seq<Expand>, t: Token)
    requires
        classifies(ws, t),
    ensures
        tok_of(t) == classify_model(frags_of(ws)),
{
    lemma_frags_index(ws);
    let f = frags_of(ws);
    if ws.len() > 0 {
        lemma_frags_index(ws.drop_first());
        assert(frags_of(ws.drop_first()) =~= f.drop_first());
        assert(f[0] == frag_of(ws[0]));
    }
}

pub(crate) proof fn lemma_frags_append(a: Seq<Expand>, b: Seq<Expand>)
    ensures
        frags_of(a + b) == frags_of(a) + frags_of(b),
    decreases b.len(),
{
    if b.len() == 0 {
        assert(a + b =~= a);
        assert(frags_of(a) + frags_of(b) =~= frags_of(a));
    } else {
        let b0 = b.subrange(0, b.len() - 1);
        lemma_frags_append(a, b0);
        assert(a + b =~= (a + b0).push(b[b.len() - 1]));
        lemma_frags_push(a + b0, b[b.len() - 1]);
        assert(b =~= b0.push(b[b.len() - 1]));
        lemma_frags_push(b0, b[b.len() - 1]);
        assert(frags_of(a) + frags_of(b) =~= (frags_of(a) + frags_of(b0)).push(frag_of(b[b.len() - 1])));
    }
}

proof fn lemma_skip_spaces(s: Seq<char>, i: int)
    requires
        0 <= i <= s.len(),
    ensures
        i <= skip_spaces(s, i) <= s.len(),
        skip_spaces(s, i) < s.len() ==> !is_space(s[skip_spaces(s, i)]),
    decreases s.len() - i,
{
    if i < s.len() && is_space(s[i]) {
        lemma_skip_spaces(s, i + 1);
    }
}

impl Lexer {
    /// Reads an operator or a punctuation mark, if one starts here.
    fn read_operator(&mut self) -> (r: Option<Token>)
        requires
            old(self).wf(),
        ensures
            final(self).wf(),
            final(self).text() == old(self).text(),
            r == operator_at(old(self).text(), old(self).at()),
            r is Some ==> final(self).at() == old(self).at() + operator_len(
                old(self).text(),
                old(self).at(),
            ),
            r is None ==> final(self).at() == old(self).at(),
    {
        let c = match self.peek_char() {
            Some(c) => c,
            None => {
                return None;
            },
        };
        let doubled = self.pos + 1 < self.line.len() && self.line[self.pos + 1] == c;
        let t = if c == '|' {
            Token::Op(if doubled { Op::Or } else { Op::Pipe })
        } else if c == '&' {
            Token::Op(if doubled { Op::And } else { Op::Ampersand })
        } else if c == '>' {
            Token::Op(Op::More)
        } else if c == '<' {
            Token::Op(Op::Less)
        } else if c == '!' {
            Token::Op(Op::Bang)
        } else if c == '(' {
            Token::Punct(Punct::LParen)
        } else if c == ')' {
            Token::Punct(Punct::RParen)
        } else if c == ';' {
            Token::Punct(Punct::Semicolon)
        } else {
            return None;
        };
        if (c == '|' || c == '&') && doubled {
            self.pos = self.pos + 2;
        } else {
            self.pos = self.pos + 1;
        }
        Some(t)
    }

    /// The next token, or `None` where only white space is left.
    ///
    /// Operators and punctuation are read greedily (`||` before `|`). Any
    /// other character starts a word, which `classify` turns into a token. A
    /// word that reads as nothing (a line continuation alone) is passed over.
    pub fn next_token(&mut self) -> (r: Result<Option<Token>, LexError>)
        requires
            old(self).wf(),
        ensures
            final(self).wf(),
            final(self).text() == old(self).text(),
            old(self).at() <= final(self).at(),
            r matches Ok(Some(t)) ==> token_wf(t) && final(self).at() > old(self).at(),
            ({
                let q = skip_spaces(old(self).text(), old(self).at());
                operator_at(old(self).text(), q) is Some ==> r == Ok::<Option<Token>, LexError>(
                    operator_at(old(self).text(), q),
                ) && final(self).at() == q + operator_len(old(self).text(), q)
            }),
            closed_from(old(self).text(), old(self).at()) ==> r is Ok,
            match r {
                Ok(Some(t)) => token_from(old(self).text(), old(self).at()) == (Ok::<
                    Option<Tok>,
                    LexError,
                >(Some(tok_of(t))), final(self).at()),
                Ok(None) => token_from(old(self).text(), old(self).at()) == (Ok::<
                    Option<Tok>,
                    LexError,
                >(None), final(self).at()),
                Err(e) => token_from(old(self).text(), old(self).at()).0 == Err::<Option<Tok>, LexError>(e),
            },
            skip_spaces(old(self).text(), old(self).at()) == old(self).text().len() ==> r == Ok::<
                Option<Token>,
                LexError,
            >(None),
            ({
                let q = skip_spaces(old(self).text(), old(self).at());
                operator_at(old(self).text(), q) is None && plain_word_at(old(self).text(), q) ==> (
                r matches Ok(Some(t)) && final(self).at() == run_end(old(self).text(), q) && exists|
                    ws: Seq<Expand>,
                |
                    ws.len() == 1 && ws[0] is Literal && ws[0]->Literal_0@ == old(self).text().subrange(
                        q,
                        run_end(old(self).text(), q),
                    ) && #[trigger] classifies(ws, t))
            }),
    {
        let ghost q = skip_spaces(self.text(), self.at());
        let ghost origin = token_from(self.text(), self.at());
        let mut first = true;
        loop
            invariant
                origin == token_from(old(self).text(), old(self).at()),
                origin == token_from(self.text(), self.at()),
                self.wf(),
                self.text() == old(self).text(),
                old(self).at() <= self.at(),
                first ==> self.at() == old(self).at(),
                q == skip_spaces(old(self).text(), old(self).at()),
                !first ==> operator_at(old(self).text(), q) is None && q < old(self).text().len(),
                !first ==> !plain_word_at(old(self).text(), q),
                closed_from(old(self).text(), old(self).at()) ==> closed_from(self.text(), self.at()),
            decreases self.line.len() - self.pos,
        {
            proof {
                lemma_skip_spaces(self.text(), self.at());
            }
            self.skip_whitespace();
            let ghost here = self.at();
            if let Some(t) = self.read_operator() {
                return Ok(Some(t));
            }
            if self.pos >= self.line.len() {
                return Ok(None);
            }
            let ws = self.read_until(Stop::Split)?;
            proof {
                lemma_frags_len(ws@);
            }
            if ws.len() > 0 {
                let ghost w = ws@;
                let t = classify(ws);
                assert(classifies(w, t));
                proof {
                    lemma_classify(w, t);
                }
                return Ok(Some(t));
            }
            first = false;
        }
    }
}

/// The tokens of `line`, in order.
pub fn tokenize(line: &str) -> (r: Result<Vec<Token>, LexError>)
    ensures
        r matches Ok(ts) ==> tokens_from(line@, 0) == Ok::<Seq<Tok>, LexError>(toks_of(ts@)),
        r matches Err(e) ==> tokens_from(line@, 0) == Err::<Seq<Tok>, LexError>(e),
        closed_from(line@, 0) ==> r is Ok,
        r is Ok ==> forall|i: int| 0 <= i < r->Ok_0@.len() ==> token_wf(#[trigger] r->Ok_0@[i]),
{
    let mut lexer = Lexer::new(line);
    let mut tokens: Vec<Token> = Vec::new();
    loop
        invariant
            lexer.wf(),
            lexer.text() == line@,
            closed_from(line@, 0) ==> closed_from(lexer.text(), lexer.at()),
            forall|i: int| 0 <= i < tokens@.len() ==> token_wf(#[trigger] tokens@[i]),
            tokens_from(line@, 0) == match tokens_from(line@, lexer.at()) {
                Ok(rest) => Ok(toks_of(tokens@) + rest),
                Err(x) => Err::<Seq<Tok>, LexError>(x),
            },
        decreases lexer.text().len() - lexer.at(),
    {
        let ghost at = lexer.at();
        match lexer.next_token()? {
            Some(t) => {
                let ghost before = tokens@;
                tokens.push(t);
                assert(toks_of(tokens@) =~= toks_of(before).push(tok_of(t)));
                assert(toks_of(before) + (seq![tok_of(t)] + match tokens_from(line@, lexer.at()) {
                    Ok(rest) => rest,
                    Err(_) => Seq::empty(),
                }) =~= toks_of(tokens@) + match tokens_from(line@, lexer.at()) {
                    Ok(rest) => rest,
                    Err(_) => Seq::empty(),
                });
            },
            None => {
                return Ok(tokens);
            },
        }
    }
}

} // verus!
