//! Builds a command tree from tokens.
//!
//! Grammar, with `&&`, `||` and `|` associating to the left:
//!
//! ```text
//! list     := and_or ( (; | &) and_or )* (; | &)?
//! and_or   := pipeline ( (&& | ||) pipeline )*
//! pipeline := simple ( | simple )*
//! simple   := (!)? ( word | assign | redir )+
//! ```
//!
//! Words are kept as their raw fragments: the runner expands them just before
//! a command runs.
use vstd::prelude::*;
use crate::lexer::{frags_of, frag_of, tok_of, toks_of, Expand, Frag, Op, Punct, Tok, Token};
use crate::text::decimal;
use crate::text::{decimal_string, owned, push_char};

verus! {

/// Where one standard stream of a command is connected.
#[derive(Debug)]
pub enum Fd {
    /// The shell's own standard input.
    Stdin,
    /// The shell's own standard output.
    Stdout,
    /// The shell's own standard error.
    Stderr,
    Inherit,
    /// The writing end of the runner's pipe with this number.
    PipeOut(usize),
    /// The reading end of the runner's pipe with this number.
    PipeIn(usize),
    /// A file opened on demand; truncated when written.
    FileName(Vec<Expand>),
    /// A file opened on demand for appending, created if missing.
    FileNameAppend(Vec<Expand>),
    /// The lines that follow the command, up to one equal to the delimiter.
    HereDoc(String),
    /// The text of a here-document whose lines have been read.
    HereText(String),
}

pub open spec fn same_variant(a: Fd, b: Fd) -> bool {
    match (a, b) {
        (Fd::Stdin, Fd::Stdin) => true,
        (Fd::Stdout, Fd::Stdout) => true,
        (Fd::Stderr, Fd::Stderr) => true,
        (Fd::Inherit, Fd::Inherit) => true,
        (Fd::PipeOut(_), Fd::PipeOut(_)) => true,
        (Fd::PipeIn(_), Fd::PipeIn(_)) => true,
        (Fd::FileName(_), Fd::FileName(_)) => true,
        (Fd::FileNameAppend(_), Fd::FileNameAppend(_)) => true,
        (Fd::HereDoc(_), Fd::HereDoc(_)) => true,
        (Fd::HereText(_), Fd::HereText(_)) => true,
        _ => false,
    }
}

/// Two endpoints are equal when they are of the same kind: equality only
/// serves to tell whether a stream is still the default one.
impl PartialEq for Fd {
    fn eq(&self, other: &Fd) -> (r: bool) {
        match (self, other) {
            (Fd::Stdin, Fd::Stdin) => true,
            (Fd::Stdout, Fd::Stdout) => true,
            (Fd::Stderr, Fd::Stderr) => true,
            (Fd::Inherit, Fd::Inherit) => true,
            (Fd::PipeOut(_), Fd::PipeOut(_)) => true,
            (Fd::PipeIn(_), Fd::PipeIn(_)) => true,
            (Fd::FileName(_), Fd::FileName(_)) => true,
            (Fd::FileNameAppend(_), Fd::FileNameAppend(_)) => true,
            (Fd::HereDoc(_), Fd::HereDoc(_)) => true,
            (Fd::HereText(_), Fd::HereText(_)) => true,
            _ => false,
        }
    }
}

impl vstd::std_specs::cmp::PartialEqSpecImpl for Fd {
    open spec fn obeys_eq_spec() -> bool {
        true
    }

    open spec fn eq_spec(&self, other: &Fd) -> bool {
        same_variant(*self, *other)
    }
}

/// The redirections of one simple command. The three streams index into
/// `fds`; `2>&1` makes two of them share one entry, so that a later change
/// of that entry is seen through both.
#[derive(Debug, PartialEq)]
pub struct Io {
    pub fds: Vec<Fd>,
    pub stdin: usize,
    pub stdout: usize,
    pub stderr: usize,
}

/// What a redirection connects a stream to.
pub enum Target {
    /// A new endpoint.
    New(Fd),
    /// The endpoint of stream 0, 1 or 2 of the same command.
    Share(u32),
}

impl Io {
    pub open spec fn wf(&self) -> bool {
        self.stdin < self.fds.len() && self.stdout < self.fds.len() && self.stderr
            < self.fds.len()
    }

    /// The index in `fds` that stream `n` uses.
    pub open spec fn slot(&self, n: u32) -> usize {
        if n == 0 {
            self.stdin
        } else if n == 1 {
            self.stdout
        } else {
            self.stderr
        }
    }

    /// The shell's own three streams.
    pub fn new() -> (r: Io)
        ensures
            r.wf(),
            r.fds@.len() == 3,
            r.fds@[0] is Stdin && r.fds@[1] is Stdout && r.fds@[2] is Stderr,
            r.stdin == 0 && r.stdout == 1 && r.stderr == 2,
    {
        let mut fds: Vec<Fd> = Vec::new();
        fds.push(Fd::Stdin);
        fds.push(Fd::Stdout);
        fds.push(Fd::Stderr);
        Io { fds, stdin: 0, stdout: 1, stderr: 2 }
    }

    /// Connects stream `n` (0, 1 or 2) to `target`.
    pub fn set(&mut self, n: u32, target: Target)
        requires
            old(self).wf(),
            n <= 2,
            target matches Target::Share(k) ==> k <= 2,
        ensures
            final(self).wf(),
            forall|m: u32| m <= 2 && m != n ==> #[trigger] final(self).slot(m) == old(self).slot(m),
            match target {
                Target::New(fd) => final(self).fds@ == old(self).fds@.push(fd) && final(self).slot(n)
                    == old(self).fds@.len(),
                Target::Share(k) => final(self).fds@ == old(self).fds@ && final(self).slot(n)
                    == old(self).slot(k),
            },
            io_of(*final(self)) == io_set(io_of(*old(self)), n, target_of(target)),
    {
        let ghost before = *self;
        let ghost t = target;
        let idx = match target {
            Target::New(fd) => {
                self.fds.push(fd);
                self.fds.len() - 1
            },
            Target::Share(k) => {
                if k == 0 {
                    self.stdin
                } else if k == 1 {
                    self.stdout
                } else {
                    self.stderr
                }
            },
        };
        if n == 0 {
            self.stdin = idx;
        } else if n == 1 {
            self.stdout = idx;
        } else {
            self.stderr = idx;
        }
        proof {
            let m = io_set(io_of(before), n, target_of(t));
            assert(io_of(*self).fds =~= m.fds);
        }
    }
}

/// The leaf of the command tree: the words that make up the command and its
/// arguments, the `NAME=value` assignments that precede them, and the
/// redirections.
#[derive(Debug, PartialEq)]
pub struct Simple {
    pub words: Vec<Vec<Expand>>,
    pub assigns: Vec<(String, Vec<Expand>)>,
    pub io: Io,
}

/// One plain word.
pub fn literal_word(s: String) -> (r: Vec<Expand>)
    ensures
        r@ == seq![Expand::Literal(s)],
{
    let mut w: Vec<Expand> = Vec::new();
    w.push(Expand::Literal(s));
    w
}

impl Simple {
    /// A command made of plain words.
    pub fn new(cmd: String, args: Vec<String>, io: Io) -> (r: Simple)
        ensures
            r.words@.len() == args@.len() + 1,
            r.words@[0]@ == seq![Expand::Literal(cmd)],
            forall|i: int| 0 <= i < args@.len() ==> #[trigger] r.words@[i + 1]@ == seq![Expand::Literal(args@[i])],
            r.assigns@.len() == 0,
            r.io == io,
    {
        let mut words: Vec<Vec<Expand>> = Vec::new();
        words.push(literal_word(cmd));
        let mut rest = args;
        let ghost all = rest@;
        let mut tail: Vec<Vec<Expand>> = Vec::new();
        while rest.len() > 0
            invariant
                rest@.len() <= all.len(),
                rest@ == all.subrange(0, rest@.len() as int),
                tail@.len() + rest@.len() == all.len(),
                forall|i: int| 0 <= i < tail@.len() ==> #[trigger] tail@[i]@ == seq![Expand::Literal(all[all.len() - 1 - i])],
            decreases rest.len(),
        {
            let a = rest.pop().unwrap();
            tail.push(literal_word(a));
        }
        while tail.len() > 0
            invariant
                words@.len() + tail@.len() == all.len() + 1,
                words@.len() >= 1,
                words@[0]@ == seq![Expand::Literal(cmd)],
                forall|i: int| 0 <= i < tail@.len() ==> #[trigger] tail@[i]@ == seq![Expand::Literal(all[all.len() - 1 - i])],
                forall|i: int| 1 <= i < words@.len() ==> #[trigger] words@[i]@ == seq![Expand::Literal(all[i - 1])],
            decreases tail.len(),
        {
            let w = tail.pop().unwrap();
            words.push(w);
        }
        Simple { words, assigns: Vec::new(), io }
    }
}

/// The command tree.
#[derive(Debug, PartialEq)]
pub enum Cmd {
    Simple(Simple),
    Pipeline(Box<Cmd>, Box<Cmd>),
    And(Box<Cmd>, Box<Cmd>),
    Or(Box<Cmd>, Box<Cmd>),
    Not(Box<Cmd>),
    /// `left ; right`: one after the other.
    List(Box<Cmd>, Box<Cmd>),
    Empty,
}

/// What every tree that the parser builds satisfies: each simple command has
/// a word or an assignment, and its streams point into its endpoints.
pub open spec fn cmd_wf(c: Cmd) -> bool
    decreases c,
{
    match c {
        Cmd::Simple(s) => s.io.wf() && (s.words@.len() > 0 || s.assigns@.len() > 0),
        Cmd::Pipeline(l, r) => cmd_wf(*l) && cmd_wf(*r),
        Cmd::And(l, r) => cmd_wf(*l) && cmd_wf(*r),
        Cmd::Or(l, r) => cmd_wf(*l) && cmd_wf(*r),
        Cmd::List(l, r) => cmd_wf(*l) && cmd_wf(*r),
        Cmd::Not(c) => cmd_wf(*c),
        Cmd::Empty => true,
    }
}







/// Why a line does not parse.
#[derive(Debug, PartialEq, Eq, Clone, Copy, Structural)]
pub enum ParseError {
    /// A command was expected (at the start, or after `|`, `&&`, `||`, `!`).
    ExpectedCommand,
    /// A redirection operator without a place to redirect to.
    ExpectedRedirection,
    /// A stream number other than 0, 1 or 2.
    BadDescriptor(u32),
}

impl ParseError {
    /// The diagnostic text.
    pub fn message(&self) -> (r: String)
        ensures
            r@ == match self {
                ParseError::ExpectedCommand => "expected command but found none"@,
                ParseError::ExpectedRedirection => "expected redirection location but found none"@,
                ParseError::BadDescriptor(_) => "bad file descriptor"@,
            },
    {
        match self {
            ParseError::ExpectedCommand => owned("expected command but found none"),
            ParseError::ExpectedRedirection => owned(
                "expected redirection location but found none",
            ),
            ParseError::BadDescriptor(_) => owned("bad file descriptor"),
        }
    }
}

/// An endpoint, as a value of the model.
pub enum FdModel {
    Stdin,
    Stdout,
    Stderr,
    Inherit,
    PipeOut(usize),
    PipeIn(usize),
    FileName(Seq<Frag>),
    FileNameAppend(Seq<Frag>),
    HereDoc(Seq<char>),
    HereText(Seq<char>),
}

/// The redirections of a command, as a value of the model.
pub struct IoModel {
    pub fds: Seq<FdModel>,
    pub stdin: int,
    pub stdout: int,
    pub stderr: int,
}

/// A command tree, as a value of the model: the words, the assignments and
/// the redirections of each simple command.
pub enum CmdModel {
    Simple(Seq<Seq<Frag>>, Seq<(Seq<char>, Seq<Frag>)>, IoModel),
    Pipeline(Box<CmdModel>, Box<CmdModel>),
    And(Box<CmdModel>, Box<CmdModel>),
    Or(Box<CmdModel>, Box<CmdModel>),
    Not(Box<CmdModel>),
    List(Box<CmdModel>, Box<CmdModel>),
    Empty,
}

/// What a redirection connects to, as a value of the model.
pub enum TargetModel {
    New(FdModel),
    Share(u32),
}

pub open spec fn fd_of(f: Fd) -> FdModel {
    match f {
        Fd::Stdin => FdModel::Stdin,
        Fd::Stdout => FdModel::Stdout,
        Fd::Stderr => FdModel::Stderr,
        Fd::Inherit => FdModel::Inherit,
        Fd::PipeOut(k) => FdModel::PipeOut(k),
        Fd::PipeIn(k) => FdModel::PipeIn(k),
        Fd::FileName(w) => FdModel::FileName(frags_of(w@)),
        Fd::FileNameAppend(w) => FdModel::FileNameAppend(frags_of(w@)),
        Fd::HereDoc(d) => FdModel::HereDoc(d@),
        Fd::HereText(t) => FdModel::HereText(t@),
    }
}

pub open spec fn io_of(io: Io) -> IoModel {
    IoModel {
        fds: io.fds@.map_values(|f: Fd| fd_of(f)),
        stdin: io.stdin as int,
        stdout: io.stdout as int,
        stderr: io.stderr as int,
    }
}

pub open spec fn target_of(t: Target) -> TargetModel {
    match t {
        Target::New(f) => TargetModel::New(fd_of(f)),
        Target::Share(k) => TargetModel::Share(k),
    }
}

pub open spec fn words_model(words: Seq<Vec<Expand>>) -> Seq<Seq<Frag>> {
    words.map_values(|w: Vec<Expand>| frags_of(w@))
}

pub open spec fn assigns_model(a: Seq<(String, Vec<Expand>)>) -> Seq<(Seq<char>, Seq<Frag>)> {
    a.map_values(|p: (String, Vec<Expand>)| (p.0@, frags_of(p.1@)))
}

pub open spec fn cmd_of(c: Cmd) -> CmdModel
    decreases c,
{
    match c {
        Cmd::Simple(s) => CmdModel::Simple(words_model(s.words@), assigns_model(s.assigns@), io_of(s.io)),
        Cmd::Pipeline(l, r) => CmdModel::Pipeline(Box::new(cmd_of(*l)), Box::new(cmd_of(*r))),
        Cmd::And(l, r) => CmdModel::And(Box::new(cmd_of(*l)), Box::new(cmd_of(*r))),
        Cmd::Or(l, r) => CmdModel::Or(Box::new(cmd_of(*l)), Box::new(cmd_of(*r))),
        Cmd::Not(c) => CmdModel::Not(Box::new(cmd_of(*c))),
        Cmd::List(l, r) => CmdModel::List(Box::new(cmd_of(*l)), Box::new(cmd_of(*r))),
        Cmd::Empty => CmdModel::Empty,
    }
}

/// The literal parts of a word model, joined.
pub open spec fn lit_parts(w: Seq<Frag>) -> Seq<char>
    decreases w.len(),
{
    if w.len() == 0 {
        Seq::empty()
    } else {
        lit_parts(w.subrange(0, w.len() - 1)) + match w[w.len() - 1] {
            Frag::Lit(s) => s,
            _ => Seq::empty(),
        }
    }
}

/// The shell's own three streams.
pub open spec fn io_new() -> IoModel {
    IoModel { fds: seq![FdModel::Stdin, FdModel::Stdout, FdModel::Stderr], stdin: 0, stdout: 1, stderr: 2 }
}

/// The redirections after stream `n` is connected to `t`.
pub open spec fn io_set(io: IoModel, n: u32, t: TargetModel) -> IoModel {
    let (fds, idx) = match t {
        TargetModel::New(f) => (io.fds.push(f), io.fds.len() as int),
        TargetModel::Share(k) => (io.fds, if k == 0 {
            io.stdin
        } else if k == 1 {
            io.stdout
        } else {
            io.stderr
        }),
    };
    IoModel {
        fds,
        stdin: if n == 0 { idx } else { io.stdin },
        stdout: if n == 1 { idx } else { io.stdout },
        stderr: if n == 2 { idx } else { io.stderr },
    }
}

pub open spec fn tok_at(ts: Seq<Tok>, i: int) -> Option<Tok> {
    if 0 <= i < ts.len() {
        Some(ts[i])
    } else {
        None
    }
}

/// What the redirection operator before `i` connects to, and the position
/// after it.
pub open spec fn target_from(ts: Seq<Tok>, i: int) -> (Result<TargetModel, ParseError>, int) {
    match tok_at(ts, i) {
        Some(Tok::Op(Op::Ampersand)) => match tok_at(ts, i + 1) {
            Some(Tok::Integer(k)) => if k > 2 {
                (Err(ParseError::BadDescriptor(k)), i + 2)
            } else {
                (Ok(TargetModel::Share(k)), i + 2)
            },
            _ => (Err(ParseError::ExpectedRedirection), i + 2),
        },
        Some(Tok::Op(Op::More)) => match tok_at(ts, i + 1) {
            Some(Tok::Word(w)) => (Ok(TargetModel::New(FdModel::FileNameAppend(w))), i + 2),
            _ => (Err(ParseError::ExpectedRedirection), i + 2),
        },
        Some(Tok::Op(Op::Less)) => match tok_at(ts, i + 1) {
            Some(Tok::Word(w)) => (Ok(TargetModel::New(FdModel::HereDoc(lit_parts(w)))), i + 2),
            _ => (Err(ParseError::ExpectedRedirection), i + 2),
        },
        Some(Tok::Word(w)) => (Ok(TargetModel::New(FdModel::FileName(w))), i + 1),
        Some(Tok::Integer(n)) => (
            Ok(TargetModel::New(FdModel::FileName(seq![Frag::Lit(decimal(n as nat))]))),
            i + 1,
        ),
        _ => (Err(ParseError::ExpectedRedirection), i + 1),
    }
}

/// A token that can go on a simple command.
pub open spec fn continues(t: Tok) -> bool {
    t is Word || t is Assign || t is Integer || t == Tok::Op(Op::Less) || t == Tok::Op(Op::More)
}

/// The rest of a simple command from `i`, after the words, assignments and
/// redirections read so far; and the position after it.
pub open spec fn simple_loop(
    ts: Seq<Tok>,
    i: int,
    words: Seq<Seq<Frag>>,
    assigns: Seq<(Seq<char>, Seq<Frag>)>,
    io: IoModel,
) -> (Result<CmdModel, ParseError>, int)
    decreases ts.len() - i,
{
    if i < 0 || i >= ts.len() || !continues(ts[i]) {
        if words.len() == 0 && assigns.len() == 0 {
            (Err(ParseError::ExpectedCommand), i)
        } else {
            (Ok(CmdModel::Simple(words, assigns, io)), i)
        }
    } else {
        match ts[i] {
            Tok::Word(w) => simple_loop(ts, i + 1, words.push(w), assigns, io),
            Tok::Assign(n, v) => if words.len() == 0 {
                simple_loop(ts, i + 1, words, assigns.push((n, v)), io)
            } else {
                simple_loop(ts, i + 1, words.push(seq![Frag::Lit(n.push('='))] + v), assigns, io)
            },
            Tok::Integer(n) => if tok_at(ts, i + 1) == Some(Tok::Op(Op::Less)) || tok_at(ts, i + 1)
                == Some(Tok::Op(Op::More)) {
                if n > 2 {
                    (Err(ParseError::BadDescriptor(n)), i + 2)
                } else {
                    let (t, j) = target_from(ts, i + 2);
                    match t {
                        Err(x) => (Err(x), j),
                        Ok(t) => if i < j <= ts.len() {
                            simple_loop(ts, j, words, assigns, io_set(io, n, t))
                        } else {
                            (Err(ParseError::ExpectedRedirection), j)
                        },
                    }
                }
            } else {
                simple_loop(ts, i + 1, words.push(seq![Frag::Lit(decimal(n as nat))]), assigns, io)
            },
            _ => {
                let n: u32 = if ts[i] == Tok::Op(Op::Less) { 0 } else { 1 };
                let (t, j) = target_from(ts, i + 1);
                match t {
                    Err(x) => (Err(x), j),
                    Ok(t) => if i < j <= ts.len() {
                        simple_loop(ts, j, words, assigns, io_set(io, n, t))
                    } else {
                        (Err(ParseError::ExpectedRedirection), j)
                    },
                }
            },
        }
    }
}

/// The simple command, with any `!` before it, that starts at `i`; and the
/// position after it.
pub open spec fn simple_from(ts: Seq<Tok>, i: int) -> (Result<CmdModel, ParseError>, int)
    decreases ts.len() - i,
{
    if 0 <= i < ts.len() && ts[i] == Tok::Op(Op::Bang) {
        let (r, j) = simple_from(ts, i + 1);
        match r {
            Ok(c) => (Ok(CmdModel::Not(Box::new(c))), j),
            Err(x) => (Err(x), j),
        }
    } else {
        simple_loop(ts, i, Seq::empty(), Seq::empty(), io_new())
    }
}

/// The rest of a pipeline from `i`, after the part `node` read so far.
pub open spec fn pipe_loop(ts: Seq<Tok>, i: int, node: CmdModel) -> (Result<CmdModel, ParseError>, int)
    decreases ts.len() - i,
{
    if 0 <= i < ts.len() && ts[i] == Tok::Op(Op::Pipe) {
        let (r, j) = simple_from(ts, i + 1);
        match r {
            Err(x) => (Err(x), j),
            Ok(c) => if i < j <= ts.len() {
                pipe_loop(ts, j, CmdModel::Pipeline(Box::new(node), Box::new(c)))
            } else {
                (Err(ParseError::ExpectedCommand), j)
            },
        }
    } else {
        (Ok(node), i)
    }
}

/// The pipeline that starts at `i`; and the position after it.
pub open spec fn pipe_from(ts: Seq<Tok>, i: int) -> (Result<CmdModel, ParseError>, int) {
    let (r, j) = simple_from(ts, i);
    match r {
        Err(x) => (Err(x), j),
        Ok(c) => pipe_loop(ts, j, c),
    }
}

/// The rest of an and-or list from `i`, after the part `node` read so far.
pub open spec fn and_loop(ts: Seq<Tok>, i: int, node: CmdModel) -> (Result<CmdModel, ParseError>, int)
    decreases ts.len() - i,
{
    if 0 <= i < ts.len() && (ts[i] == Tok::Op(Op::And) || ts[i] == Tok::Op(Op::Or)) {
        let (r, j) = pipe_from(ts, i + 1);
        match r {
            Err(x) => (Err(x), j),
            Ok(c) => if i < j <= ts.len() {
                and_loop(
                    ts,
                    j,
                    if ts[i] == Tok::Op(Op::And) {
                        CmdModel::And(Box::new(node), Box::new(c))
                    } else {
                        CmdModel::Or(Box::new(node), Box::new(c))
                    },
                )
            } else {
                (Err(ParseError::ExpectedCommand), j)
            },
        }
    } else {
        (Ok(node), i)
    }
}

/// The and-or list that starts at `i`; and the position after it.
pub open spec fn and_from(ts: Seq<Tok>, i: int) -> (Result<CmdModel, ParseError>, int) {
    let (r, j) = pipe_from(ts, i);
    match r {
        Err(x) => (Err(x), j),
        Ok(c) => and_loop(ts, j, c),
    }
}

/// Whether a token can start a command.
pub open spec fn starts(t: Tok) -> bool {
    continues(t) || t == Tok::Op(Op::Bang)
}

/// The rest of a list from `i`, after the part `node` read so far: a `;` or
/// `&` followed by a command adds it; one followed by anything else ends
/// the list after it.
pub open spec fn list_loop(ts: Seq<Tok>, i: int, node: CmdModel) -> (Result<CmdModel, ParseError>, int)
    decreases ts.len() - i,
{
    if 0 <= i < ts.len() && (ts[i] == Tok::Punct(Punct::Semicolon) || ts[i] == Tok::Op(
        Op::Ampersand,
    )) {
        if tok_at(ts, i + 1) matches Some(t) && starts(t) {
            let (r, j) = and_from(ts, i + 1);
            match r {
                Err(x) => (Err(x), j),
                Ok(c) => if i < j <= ts.len() {
                    list_loop(ts, j, CmdModel::List(Box::new(node), Box::new(c)))
                } else {
                    (Err(ParseError::ExpectedCommand), j)
                },
            }
        } else {
            (Ok(node), i + 1)
        }
    } else {
        (Ok(node), i)
    }
}

/// The whole line from `i`: commands separated by `;` or `&`.
pub open spec fn list_from(ts: Seq<Tok>, i: int) -> (Result<CmdModel, ParseError>, int) {
    let (r, j) = and_from(ts, i);
    match r {
        Err(x) => (Err(x), j),
        Ok(c) => list_loop(ts, j, c),
    }
}

/// `r`, with the parser at `at`, is what the model `m` gives.
pub open spec fn parsed(m: (Result<CmdModel, ParseError>, int), r: Result<Cmd, ParseError>, at: int) -> bool {
    match r {
        Ok(c) => m == (Ok::<CmdModel, ParseError>(cmd_of(c)), at),
        Err(e) => m.0 == Err::<CmdModel, ParseError>(e),
    }
}

/// A recursive-descent parser over a line's tokens.
pub struct Parser {
    /// The tokens not yet read, last one first.
    rest: Vec<Token>,
    /// All the tokens of the line.
    all: Ghost<Seq<Token>>,
}

proof fn lemma_take(rest: Seq<Token>, all: Seq<Token>)
    requires
        0 < rest.len() <= all.len(),
        rest == all.subrange(all.len() - rest.len(), all.len() as int).reverse(),
    ensures
        rest.last() == all[all.len() - rest.len()],
        rest.drop_last() == all.subrange(all.len() - rest.len() + 1, all.len() as int).reverse(),
{
    assert(rest.drop_last() =~= all.subrange(all.len() - rest.len() + 1, all.len() as int).reverse());
}

/// A word of one literal fragment.
pub(crate) proof fn lemma_frags_single(e: Expand)
    ensures
        frags_of(seq![e]) == seq![frag_of(e)],
{
    assert(seq![e].subrange(0, 0) =~= Seq::<Expand>::empty());
    assert(frags_of(Seq::<Expand>::empty()) == Seq::<Frag>::empty());
    assert(frags_of(seq![e]) == frags_of(seq![e].subrange(0, 0)).push(frag_of(seq![e][0])));
    assert(frags_of(seq![e]) =~= seq![frag_of(e)]);
}

proof fn lemma_lit_parts(ws: Seq<Expand>)
    ensures
        lit_parts(frags_of(ws)) == literal_parts(ws),
    decreases ws.len(),
{
    if ws.len() > 0 {
        let w0 = ws.subrange(0, ws.len() - 1);
        lemma_lit_parts(w0);
        crate::lexer::lemma_frags_len(ws);
        crate::lexer::lemma_frags_len(w0);
        let f = frags_of(ws);
        assert(f == frags_of(w0).push(frag_of(ws[ws.len() - 1])));
        assert(f.subrange(0, f.len() - 1) =~= frags_of(w0));
        assert(f[f.len() - 1] == frag_of(ws[ws.len() - 1]));
        assert(ws.drop_last() =~= w0);
    }
}

impl Parser {
    /// The tokens left in `self` are the first tokens left in `before`.
    pub closed spec fn follows(&self, before: Parser) -> bool {
        self.rest@.len() <= before.rest@.len() && self.rest@ == before.rest@.subrange(
            0,
            self.rest@.len() as int,
        )
    }

    /// All the tokens of the line, as values of the model.
    pub closed spec fn tokens(&self) -> Seq<Tok> {
        toks_of(self.all@)
    }

    /// All the tokens of the line.
    pub closed spec fn all_tokens(&self) -> Seq<Token> {
        self.all@
    }

    /// The position of the next token.
    pub closed spec fn pos(&self) -> int {
        self.all@.len() - self.rest@.len()
    }

    pub closed spec fn wf(&self) -> bool {
        &&& self.rest@.len() <= self.all@.len()
        &&& self.rest@ == self.all@.subrange(self.pos(), self.all@.len() as int).reverse()
    }

    /// How many tokens are left.
    pub closed spec fn left(&self) -> nat {
        self.rest@.len()
    }

    /// The tokens not yet read, in order.
    pub closed spec fn remaining(&self) -> Seq<Token> {
        self.rest@.reverse()
    }

    pub fn new(tokens: Vec<Token>) -> (r: Parser)
        ensures
            r.remaining() == tokens@,
            r.wf(),
            r.pos() == 0,
            r.tokens() == toks_of(tokens@),
    {
        let mut tokens = tokens;
        let ghost all = tokens@;
        let mut rest: Vec<Token> = Vec::new();
        while tokens.len() > 0
            invariant
                tokens@.len() <= all.len(),
                tokens@ == all.subrange(0, tokens@.len() as int),
                rest@ == all.subrange(tokens@.len() as int, all.len() as int).reverse(),
            decreases tokens.len(),
        {
            let t = tokens.pop().unwrap();
            rest.push(t);
            assert(tokens@ =~= all.subrange(0, tokens@.len() as int));
            let ghost n = tokens@.len() as int;
            assert forall|i: int| 0 <= i < rest@.len() implies rest@[i] == all.subrange(
                n,
                all.len() as int,
            ).reverse()[i] by {}
            assert(rest@ =~= all.subrange(n, all.len() as int).reverse());
        }
        assert(rest@.reverse() =~= all);
        assert(rest@ =~= all.subrange(0, all.len() as int).reverse());
        Parser { rest, all: Ghost(all) }
    }

    fn peek(&self) -> (r: Option<&Token>)
        requires
            self.wf(),
        ensures
            self.rest@.len() > 0 ==> r == Some(&self.rest@.last()),
            self.rest@.len() == 0 ==> r is None,
            self.pos() < self.all@.len() ==> r == Some(&self.all@[self.pos()]),
    {
        proof {
            if self.rest@.len() > 0 {
                lemma_take(self.rest@, self.all@);
            }
        }
        if self.rest.len() > 0 {
            Some(&self.rest[self.rest.len() - 1])
        } else {
            None
        }
    }

    fn next(&mut self) -> (r: Option<Token>)
        requires
            old(self).wf(),
        ensures
            old(self).rest@.len() > 0 ==> r == Some(old(self).rest@.last()) && final(self).rest@
                == old(self).rest@.drop_last(),
            old(self).rest@.len() == 0 ==> r is None && final(self).rest@ == old(self).rest@,
            final(self).wf(),
            final(self).all == old(self).all,
            old(self).pos() < old(self).all@.len() ==> r == Some(old(self).all@[old(self).pos()])
                && final(self).pos() == old(self).pos() + 1,
            old(self).pos() >= old(self).all@.len() ==> r is None && final(self).pos() == old(
                self,
            ).pos(),
    {
        proof {
            if self.rest@.len() > 0 {
                lemma_take(self.rest@, self.all@);
            }
        }
        self.rest.pop()
    }

    fn peek_is_op(&self, op: Op) -> (r: bool)
        requires
            self.wf(),
        ensures
            r == (self.rest@.len() > 0 && self.rest@.last() == Token::Op(op)),
            r == (self.pos() < self.all@.len() && self.tokens()[self.pos()] == Tok::Op(op)),
    {
        match self.peek() {
            Some(Token::Op(o)) => *o == op,
            _ => false,
        }
    }

    /// Parses the whole line: commands separated by `;` or `&`. Tokens that
    /// follow what the grammar accepts are left unread.
    pub fn get(&mut self) -> (r: Result<Cmd, ParseError>)
        requires
            old(self).wf(),
        ensures
            final(self).wf(),
            final(self).all_tokens() == old(self).all_tokens(),
            final(self).pos() >= old(self).pos(),
            parsed(list_from(old(self).tokens(), old(self).pos()), r, final(self).pos()),
            final(self).left() <= old(self).left(),
            r matches Ok(c) ==> cmd_wf(c),
            old(self).left() == 0 ==> r == Err::<Cmd, ParseError>(ParseError::ExpectedCommand),
        decreases old(self).left(), 3nat,
    {
        let mut node = self.get_and()?;
        let ghost ts = self.tokens();
        loop
            invariant_except_break
                list_from(ts, old(self).pos()) == list_loop(ts, self.pos(), cmd_of(node)),
            invariant
                ts == old(self).tokens(),
                self.wf(),
                self.all_tokens() == old(self).all_tokens(),
                self.pos() >= old(self).pos(),
                self.left() <= old(self).left(),
                cmd_wf(node),
            ensures
                list_from(ts, old(self).pos()) == (Ok::<CmdModel, ParseError>(cmd_of(node)), self.pos()),
            decreases self.left(),
        {
            let ghost i = self.pos();
            let sep = match self.peek() {
                Some(Token::Punct(Punct::Semicolon)) => true,
                Some(Token::Op(Op::Ampersand)) => true,
                _ => false,
            };
            if !sep {
                break;
            }
            self.next();
            let more = match self.peek() {
                Some(Token::Word(_)) | Some(Token::Assign(_, _)) | Some(Token::Integer(_)) | Some(
                    Token::Op(Op::Bang),
                ) | Some(Token::Op(Op::Less)) | Some(Token::Op(Op::More)) => true,
                _ => false,
            };
            assert(more == (tok_at(ts, i + 1) matches Some(t) && starts(t)));
            if !more {
                break;
            }
            let right = self.get_and()?;
            node = Cmd::List(Box::new(node), Box::new(right));
        }
        Ok(node)
    }

    /// `pipeline ( (&& | ||) pipeline )*`
    pub fn get_and(&mut self) -> (r: Result<Cmd, ParseError>)
        requires
            old(self).wf(),
        ensures
            final(self).wf(),
            final(self).all_tokens() == old(self).all_tokens(),
            final(self).pos() >= old(self).pos(),
            parsed(and_from(old(self).tokens(), old(self).pos()), r, final(self).pos()),
            final(self).left() <= old(self).left(),
            r is Ok ==> final(self).left() == 0 || (final(self).remaining()[0] != Token::Op(Op::And)
                && final(self).remaining()[0] != Token::Op(Op::Or)),
            r matches Ok(c) ==> cmd_wf(c),
            old(self).left() == 0 ==> r == Err::<Cmd, ParseError>(ParseError::ExpectedCommand),
        decreases old(self).left(), 2nat,
    {
        let mut node = self.get_pipe()?;
        loop
            invariant
                and_from(self.tokens(), old(self).pos()) == and_loop(self.tokens(), self.pos(), cmd_of(node)),
                self.wf(),
                self.all_tokens() == old(self).all_tokens(),
                self.pos() >= old(self).pos(),
                self.left() <= old(self).left(),
                cmd_wf(node),
            ensures
                and_from(self.tokens(), old(self).pos()) == and_loop(self.tokens(), self.pos(), cmd_of(node)),
                self.wf(),
                self.all_tokens() == old(self).all_tokens(),
                self.pos() >= old(self).pos(),
                self.left() <= old(self).left(),
                cmd_wf(node),
                self.left() == 0 || (self.remaining()[0] != Token::Op(Op::And)
                    && self.remaining()[0] != Token::Op(Op::Or)),
            decreases self.left(),
        {
            let is_and = self.peek_is_op(Op::And);
            let is_or = self.peek_is_op(Op::Or);
            if !is_and && !is_or {
                proof {
                    if self.rest@.len() > 0 {
                        assert(self.remaining()[0] == self.rest@.last());
                    }
                }
                break;
            }
            self.next();
            let right = self.get_pipe()?;
            if is_and {
                node = Cmd::And(Box::new(node), Box::new(right));
            } else {
                node = Cmd::Or(Box::new(node), Box::new(right));
            }
        }
        Ok(node)
    }

    /// `simple ( | simple )*`
    pub fn get_pipe(&mut self) -> (r: Result<Cmd, ParseError>)
        requires
            old(self).wf(),
        ensures
            final(self).wf(),
            final(self).all_tokens() == old(self).all_tokens(),
            final(self).pos() >= old(self).pos(),
            parsed(pipe_from(old(self).tokens(), old(self).pos()), r, final(self).pos()),
            final(self).left() <= old(self).left(),
            r is Ok ==> final(self).left() == 0 || final(self).remaining()[0] != Token::Op(Op::Pipe),
            r matches Ok(c) ==> cmd_wf(c),
            old(self).left() == 0 ==> r == Err::<Cmd, ParseError>(ParseError::ExpectedCommand),
        decreases old(self).left(), 1nat,
    {
        let mut node = self.get_simple()?;
        loop
            invariant
                pipe_from(self.tokens(), old(self).pos()) == pipe_loop(self.tokens(), self.pos(), cmd_of(node)),
                self.wf(),
                self.all_tokens() == old(self).all_tokens(),
                self.pos() >= old(self).pos(),
                self.left() <= old(self).left(),
                cmd_wf(node),
            ensures
                pipe_from(self.tokens(), old(self).pos()) == pipe_loop(self.tokens(), self.pos(), cmd_of(node)),
                self.wf(),
                self.all_tokens() == old(self).all_tokens(),
                self.pos() >= old(self).pos(),
                self.left() <= old(self).left(),
                cmd_wf(node),
                self.left() == 0 || self.remaining()[0] != Token::Op(Op::Pipe),
            decreases self.left(),
        {
            if !self.peek_is_op(Op::Pipe) {
                proof {
                    if self.rest@.len() > 0 {
                        assert(self.remaining()[0] == self.rest@.last());
                    }
                }
                break;
            }
            self.next();
            let right = self.get_simple()?;
            node = Cmd::Pipeline(Box::new(node), Box::new(right));
        }
        Ok(node)
    }

    /// `(!)? ( word | assign | redir )+`, as `simple_from` says. An
    /// assignment that follows a word is an ordinary word.
    pub fn get_simple(&mut self) -> (r: Result<Cmd, ParseError>)
        requires
            old(self).wf(),
        ensures
            final(self).wf(),
            final(self).all_tokens() == old(self).all_tokens(),
            final(self).pos() >= old(self).pos(),
            final(self).left() <= old(self).left(),
            r matches Ok(c) ==> cmd_wf(c),
            parsed(simple_from(old(self).tokens(), old(self).pos()), r, final(self).pos()),
        decreases old(self).left(), 0nat,
    {
        let ghost ts = self.tokens();
        if self.peek_is_op(Op::Bang) {
            self.next();
            let inner = self.get_simple()?;
            return Ok(Cmd::Not(Box::new(inner)));
        }
        let ghost total = self.rest@.len();
        let mut words: Vec<Vec<Expand>> = Vec::new();
        let mut assigns: Vec<(String, Vec<Expand>)> = Vec::new();
        let mut io = Io::new();
        assert(words_model(words@) =~= Seq::<Seq<Frag>>::empty());
        assert(assigns_model(assigns@) =~= Seq::<(Seq<char>, Seq<Frag>)>::empty());
        assert(io_of(io).fds =~= io_new().fds);
        loop
            invariant
                self.wf(),
                self.all_tokens() == old(self).all_tokens(),
                self.pos() >= old(self).pos(),
                ts == old(self).tokens(),
                ts.len() == old(self).all_tokens().len(),
                self.left() <= old(self).left(),
                total == old(self).rest@.len(),
                io.wf(),
                old(self).left() == 0 ==> words@.len() == 0 && assigns@.len() == 0,
                self.rest@.len() == total ==> words@.len() == 0 && assigns@.len() == 0,
                simple_from(ts, old(self).pos()) == simple_loop(
                    ts,
                    self.pos(),
                    words_model(words@),
                    assigns_model(assigns@),
                    io_of(io),
                ),
            ensures
                self.wf(),
                self.all_tokens() == old(self).all_tokens(),
                self.pos() >= old(self).pos(),
                self.left() <= old(self).left(),
                io.wf(),
                old(self).left() == 0 ==> words@.len() == 0 && assigns@.len() == 0,
                self.rest@.len() == total ==> words@.len() == 0 && assigns@.len() == 0,
                self.pos() >= ts.len() || !continues(ts[self.pos()]),
                simple_from(ts, old(self).pos()) == simple_loop(
                    ts,
                    self.pos(),
                    words_model(words@),
                    assigns_model(assigns@),
                    io_of(io),
                ),
            decreases self.left(),
        {
            proof {
                if self.rest@.len() > 0 {
                    lemma_take(self.rest@, self.all@);
                }
            }
            let kind: u8 = match self.peek() {
                Some(Token::Word(_)) => 0,
                Some(Token::Assign(_, _)) => 1,
                Some(Token::Op(Op::Less)) => 2,
                Some(Token::Op(Op::More)) => 3,
                Some(Token::Integer(_)) => 4,
                _ => 5,
            };
            if kind == 5 {
                break;
            }
            let ghost wm = words_model(words@);
            let ghost am = assigns_model(assigns@);
            let t = self.next();
            match t {
                Some(Token::Word(ws)) => {
                    words.push(ws);
                    assert(words_model(words@) =~= wm.push(frags_of(ws@)));
                },
                Some(Token::Assign(name, value)) => {
                    if words.len() == 0 {
                        let ghost p = (name@, frags_of(value@));
                        assigns.push((name, value));
                        assert(assigns_model(assigns@) =~= am.push(p));
                    } else {
                        let ghost f = seq![Frag::Lit(name@.push('='))] + frags_of(value@);
                        let w = assignment_word(name, value);
                        proof {
                            crate::lexer::lemma_frags_index(w@);
                            crate::lexer::lemma_frags_index(w@.drop_first());
                            assert(frags_of(w@) =~= f);
                        }
                        words.push(w);
                        assert(words_model(words@) =~= wm.push(f));
                    }
                },
                Some(Token::Op(Op::Less)) => {
                    let target = self.token_to_fd()?;
                    io.set(0, target);
                },
                Some(Token::Op(Op::More)) => {
                    let target = self.token_to_fd()?;
                    io.set(1, target);
                },
                Some(Token::Integer(n)) => {
                    if self.peek_is_op(Op::Less) || self.peek_is_op(Op::More) {
                        self.next();
                        if n > 2 {
                            return Err(ParseError::BadDescriptor(n));
                        }
                        let target = self.token_to_fd()?;
                        io.set(n, target);
                    } else {
                        let w = literal_word(decimal_string(n));
                        proof {
                            lemma_frags_single(w@[0]);
                            assert(w@ =~= seq![w@[0]]);
                        }
                        words.push(w);
                        assert(words_model(words@) =~= wm.push(seq![Frag::Lit(decimal(n as nat))]));
                    }
                },
                _ => {},
            }
        }
        if words.len() == 0 && assigns.len() == 0 {
            return Err(ParseError::ExpectedCommand);
        }
        Ok(Cmd::Simple(Simple { words, assigns, io }))
    }

    /// Reads what a redirection operator connects to.
    pub fn token_to_fd(&mut self) -> (r: Result<Target, ParseError>)
        requires
            old(self).wf(),
        ensures
            final(self).wf(),
            final(self).all_tokens() == old(self).all_tokens(),
            final(self).pos() >= old(self).pos(),
            final(self).left() <= old(self).left(),
            final(self).follows(*old(self)),
            match r {
                Ok(t) => target_from(old(self).tokens(), old(self).pos()) == (Ok::<
                    TargetModel,
                    ParseError,
                >(target_of(t)), final(self).pos()),
                Err(e) => target_from(old(self).tokens(), old(self).pos()).0 == Err::<
                    TargetModel,
                    ParseError,
                >(e),
            },
            r matches Ok(Target::Share(k)) ==> k <= 2,
            old(self).left() == 0 ==> r is Err,
    {
        let r = match self.next() {
            Some(Token::Op(Op::Ampersand)) => {
                match self.next() {
                    Some(Token::Integer(i)) => {
                        if i > 2 {
                            Err(ParseError::BadDescriptor(i))
                        } else {
                            Ok(Target::Share(i))
                        }
                    },
                    _ => Err(ParseError::ExpectedRedirection),
                }
            },
            Some(Token::Op(Op::More)) => {
                match self.next() {
                    Some(Token::Word(s)) => Ok(Target::New(Fd::FileNameAppend(s))),
                    _ => Err(ParseError::ExpectedRedirection),
                }
            },
            Some(Token::Op(Op::Less)) => {
                match self.next() {
                    Some(Token::Word(s)) => {
                        proof {
                            lemma_lit_parts(s@);
                        }
                        Ok(Target::New(Fd::HereDoc(literal_text(&s))))
                    },
                    _ => Err(ParseError::ExpectedRedirection),
                }
            },
            Some(Token::Word(s)) => Ok(Target::New(Fd::FileName(s))),
            Some(Token::Integer(i)) => {
                let w = literal_word(decimal_string(i));
                proof {
                    lemma_frags_single(w@[0]);
                    assert(w@ =~= seq![w@[0]]);
                }
                Ok(Target::New(Fd::FileName(w)))
            },
            _ => Err(ParseError::ExpectedRedirection),
        };
        assert(self.rest@ =~= old(self).rest@.subrange(0, self.rest@.len() as int));
        r
    }
}

/// The word `name=value` rebuilt from an assignment token.
fn assignment_word(name: String, value: Vec<Expand>) -> (r: Vec<Expand>)
    ensures
        r@.len() == value@.len() + 1,
        r@[0] is Literal && r@[0]->Literal_0@ == name@.push('='),
        r@.drop_first() == value@,
{
    let mut first = name;
    push_char(&mut first, '=');
    let mut r: Vec<Expand> = Vec::new();
    r.push(Expand::Literal(first));
    let mut rest = value;
    let ghost v = rest@;
    r.append(&mut rest);
    assert(r@.drop_first() =~= v);
    r
}

/// The literal parts of a word, joined: a here-document delimiter.
pub open spec fn literal_parts(ws: Seq<Expand>) -> Seq<char>
    decreases ws.len(),
{
    if ws.len() == 0 {
        Seq::empty()
    } else {
        literal_parts(ws.drop_last()) + match ws.last() {
            Expand::Literal(s) => s@,
            _ => Seq::empty(),
        }
    }
}

/// The literal parts of `ws`, joined.
pub fn literal_text(ws: &Vec<Expand>) -> (r: String)
    ensures
        r@ == literal_parts(ws@),
{
    let mut r = String::new();
    let mut i: usize = 0;
    while i < ws.len()
        invariant
            i <= ws.len(),
            r@ == literal_parts(ws@.subrange(0, i as int)),
        decreases ws.len() - i,
    {
        assert(ws@.subrange(0, i + 1).drop_last() =~= ws@.subrange(0, i as int));
        if let Expand::Literal(s) = &ws[i] {
            r = crate::text::concat(&r, s);
        }
        i = i + 1;
    }
    assert(ws@.subrange(0, i as int) =~= ws@);
    r
}

/// Whether `line` ends a here-document with delimiter `delim`.
pub fn ends_here_doc(line: &String, delim: &String) -> (r: bool)
    ensures
        r == (line@ == delim@.push('\n')),
{
    let mut d = delim.clone();
    push_char(&mut d, '\n');
    *line == d
}

} // verus!
