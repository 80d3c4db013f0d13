//! Walks a command tree.
//!
//! The walk is a state machine: `Runner::step` takes what happened outside
//! (a command finished, a question was answered) and says what to do next
//! (start a command, print, close a pipe, answer a question). The caller
//! performs each step and hands back its result. Pipes are named by numbers
//! that the runner gives out; the caller creates the pipe behind a number
//! the first time it sees it.
use vstd::prelude::*;
use crate::assoc::{self, to_map};
use crate::builtins::{self, alias_effect, alias_line, listing, parse_i32, sorted_by_name};
use crate::expand::{
    answers, expand_word, expansion, halt_of, stores, Answers, Halt, Need, Stores, Stuck,
};
use crate::shell::base_of;
use crate::shell::set_in;
use crate::lexer::{tokenize, tokens_from, Expand};
use crate::parser::{
    assigns_model, cmd_of, cmd_wf, lemma_frags_single, list_from, literal_word, words_model, Cmd, CmdModel, Fd,
    Io, Parser, Simple,
};
use crate::lexer::Frag;
use crate::shell::Shell;
use crate::text::{concat, owned, views};

verus! {

/// The plumbing that a node of the tree is run with: the pipe to read
/// standard input from and the pipe to write standard output to, where the
/// caller supplies them.
#[derive(Debug, PartialEq, Eq, Clone, Copy)]
pub struct CmdMeta {
    pub stdin: Option<usize>,
    pub stdout: Option<usize>,
}

impl CmdMeta {
    /// The shell's own streams.
    pub fn inherit() -> (r: CmdMeta)
        ensures
            r.stdin is None && r.stdout is None,
    {
        CmdMeta { stdin: None, stdout: None }
    }

    /// Output into pipe `writer`.
    pub fn pipe_out(writer: usize) -> (r: CmdMeta)
        ensures
            r.stdin is None && r.stdout == Some(writer),
    {
        CmdMeta { stdin: None, stdout: Some(writer) }
    }

    /// Input from pipe `reader`, output as before.
    pub fn new_in(self, reader: usize) -> (r: CmdMeta)
        ensures
            r.stdin == Some(reader) && r.stdout == self.stdout,
    {
        CmdMeta { stdin: Some(reader), stdout: self.stdout }
    }
}

/// Where one standard stream of a command that is started goes.
#[derive(Debug, PartialEq)]
pub enum Port {
    Stdin,
    Stdout,
    Stderr,
    Inherit,
    PipeOut(usize),
    PipeIn(usize),
    FileName(String),
    FileNameAppend(String),
    HereDoc(String),
    HereText(String),
}

/// A program to start. The three streams index into `ports`. A program
/// that writes into a pipe runs beside the one that reads it: the caller
/// does not wait for it (`wait` is false) and waits once the tree is done.
#[derive(Debug, PartialEq)]
pub struct Job {
    pub wait: bool,
    pub cmd: String,
    pub args: Vec<String>,
    pub env: Option<Vec<(String, String)>>,
    pub ports: Vec<Port>,
    pub stdin: usize,
    pub stdout: usize,
    pub stderr: usize,
}

/// What the caller is to do next.
#[derive(Debug, PartialEq)]
pub enum Step {
    /// Nothing outside: call `step` again.
    Continue,
    /// Start the program; where the job says to wait, wait for it and
    /// answer with its success, else answer at once with success.
    Spawn(Job),
    /// Change the working directory; answer with the success.
    ChangeDir(String),
    /// Write the first text to standard output, the second to standard error.
    Print(String, String),
    /// Write the diagnostic to standard error and end the shell with status 1.
    Abort(String),
    /// End the shell with this status.
    Exit(i32),
    /// The writing end of this pipe is no longer needed.
    ClosePipe(usize),
    /// Find this out and answer it.
    Ask(Need),
    /// The tree has been run; this is its status.
    Finished(bool),
}

/// What the caller hands back.
pub enum Event {
    /// The step needed no answer.
    Nothing,
    /// Whether the program or the directory change succeeded.
    Status(bool),
    /// The home directory of a user, if there is such a user.
    User(String, Option<String>),
    /// What a command text printed.
    Output(String, String),
}

/// Work that is left.
pub enum Frame {
    /// Run the node with this plumbing; the names are the aliases being
    /// expanded on the way to it.
    Visit(Cmd, CmdMeta, Vec<String>),
    /// Run the node if the last status is success.
    AndThen(Cmd, CmdMeta, Vec<String>),
    /// Run the node if the last status is failure.
    OrElse(Cmd, CmdMeta, Vec<String>),
    /// Run the node.
    Then(Cmd, CmdMeta, Vec<String>),
    /// The left side of a pipe is done: close the pipe's writing end and run
    /// the node reading from it.
    PipeRight(Cmd, CmdMeta, Vec<String>, usize),
    /// Invert the last status.
    Negate,
}

pub struct Runner {
    stack: Vec<Frame>,
    status: bool,
    next_pipe: usize,
    answers: Answers,
}

/// The names of a path of alias expansions.
pub open spec fn names(p: Seq<String>) -> Seq<Seq<char>> {
    p.map_values(|n: String| n@)
}

/// The status after an event: a command's success replaces it.
pub open spec fn event_status(status: bool, e: Event) -> bool {
    match e {
        Event::Status(b) => b,
        _ => status,
    }
}

/// `f` runs `c` with plumbing `m` on a path with the names `p`.
pub open spec fn is_visit(f: Frame, c: Cmd, m: CmdMeta, p: Seq<Seq<char>>) -> bool {
    match f {
        Frame::Visit(c2, m2, q) => c2 == c && m2 == m && names(q@) == p,
        _ => false,
    }
}

/// `f` runs `c`, reading from pipe `k`, once the left side of the pipe is done.
pub open spec fn is_pipe_right(f: Frame, c: Cmd, m: CmdMeta, p: Seq<Seq<char>>, k: usize) -> bool {
    match f {
        Frame::PipeRight(c2, m2, q, k2) => c2 == c && m2 == m && names(q@) == p && k2 == k,
        _ => false,
    }
}

/// `f` runs `c` after the last command, whatever its status.
pub open spec fn is_then(f: Frame, c: Cmd, m: CmdMeta, p: Seq<Seq<char>>) -> bool {
    match f {
        Frame::Then(c2, m2, q) => c2 == c && m2 == m && names(q@) == p,
        _ => false,
    }
}

/// `f` runs `c` if the last status is success.
pub open spec fn is_and_then(f: Frame, c: Cmd, m: CmdMeta, p: Seq<Seq<char>>) -> bool {
    match f {
        Frame::AndThen(c2, m2, q) => c2 == c && m2 == m && names(q@) == p,
        _ => false,
    }
}

/// `f` runs `c` if the last status is failure.
pub open spec fn is_or_else(f: Frame, c: Cmd, m: CmdMeta, p: Seq<Seq<char>>) -> bool {
    match f {
        Frame::OrElse(c2, m2, q) => c2 == c && m2 == m && names(q@) == p,
        _ => false,
    }
}

/// Whether `name` is one of `names`.
pub open spec fn among(names: Seq<String>, name: Seq<char>) -> bool {
    exists|i: int| 0 <= i < names.len() && names[i]@ == name
}

/// Whether a command named `name` is replaced by its alias, on a path where
/// the aliases `path` are being expanded.
pub open spec fn alias_applies(sh: Shell, name: Seq<char>, path: Seq<String>) -> bool {
    to_map(sh.aliases@).contains_key(name) && !among(path, name)
}

/// The alias body that replaces a command named `name`, if any: an alias
/// that is being expanded on this path is not expanded again.
pub fn alias_body(shell: &Shell, name: &String, path: &Vec<String>) -> (r: Option<String>)
    ensures
        r is Some == alias_applies(*shell, name@, path@),
        r matches Some(b) ==> b@ == to_map(shell.aliases@)[name@],
{
    let mut i: usize = 0;
    while i < path.len()
        invariant
            i <= path.len(),
            forall|j: int| 0 <= j < i ==> path@[j]@ != name@,
        decreases path.len() - i,
    {
        if path[i] == *name {
            return None;
        }
        i = i + 1;
    }
    assoc::get(&shell.aliases, name)
}

/// An endpoint of a started command, as a value of the model.
pub enum PortView {
    Stdin,
    Stdout,
    Stderr,
    Inherit,
    PipeOut(usize),
    PipeIn(usize),
    FileName(Seq<char>),
    FileNameAppend(Seq<char>),
    HereDoc(Seq<char>),
    HereText(Seq<char>),
}

pub open spec fn port_view(p: Port) -> PortView {
    match p {
        Port::Stdin => PortView::Stdin,
        Port::Stdout => PortView::Stdout,
        Port::Stderr => PortView::Stderr,
        Port::Inherit => PortView::Inherit,
        Port::PipeOut(k) => PortView::PipeOut(k),
        Port::PipeIn(k) => PortView::PipeIn(k),
        Port::FileName(n) => PortView::FileName(n@),
        Port::FileNameAppend(n) => PortView::FileNameAppend(n@),
        Port::HereDoc(d) => PortView::HereDoc(d@),
        Port::HereText(t) => PortView::HereText(t@),
    }
}

pub open spec fn port_views(ps: Seq<Port>) -> Seq<PortView> {
    ps.map_values(|p: Port| port_view(p))
}

/// The stream endpoints after the caller's pipes are put in: a stream that
/// is still the shell's own takes the pipe; a redirection stays.
pub open spec fn reconciled(ports: Seq<PortView>, stdin: int, stdout: int, meta: CmdMeta) -> Seq<PortView> {
    let with_out = if meta.stdout is Some && ports[stdout] is Stdout {
        ports.update(stdout, PortView::PipeOut(meta.stdout->Some_0))
    } else {
        ports
    };
    if meta.stdin is Some && with_out[stdin] is Stdin {
        with_out.update(stdin, PortView::PipeIn(meta.stdin->Some_0))
    } else {
        with_out
    }
}

/// Puts the caller's pipes into the streams that were not redirected.
pub fn reconcile_io(ports: &mut Vec<Port>, stdin: usize, stdout: usize, meta: CmdMeta)
    requires
        stdin < old(ports)@.len(),
        stdout < old(ports)@.len(),
    ensures
        port_views(final(ports)@) == reconciled(port_views(old(ports)@), stdin as int, stdout as int, meta),
{
    let ghost p0 = port_views(ports@);
    if let Some(w) = meta.stdout {
        if matches!(ports[stdout], Port::Stdout) {
            ports.set(stdout, Port::PipeOut(w));
            assert(port_views(ports@) =~= p0.update(stdout as int, PortView::PipeOut(w)));
        }
    }
    let ghost p1 = port_views(ports@);
    if let Some(r) = meta.stdin {
        if matches!(ports[stdin], Port::Stdin) {
            ports.set(stdin, Port::PipeIn(r));
            assert(port_views(ports@) =~= p1.update(stdin as int, PortView::PipeIn(r)));
        }
    }
}

/// The answers of the model.
pub type AnswerSeqs = (Seq<(String, Option<String>)>, Seq<(String, String)>);

/// Whether a word is kept although it expands to nothing: a word of one
/// literal fragment (`""` or `''`).
pub open spec fn kept_when_empty(w: Seq<Expand>) -> bool {
    w.len() == 1 && w[0] is Literal
}

/// The words of a command, expanded in order, where a word other than one
/// literal fragment that expands to nothing is dropped; and the stores
/// afterwards.
pub open spec fn words_expansion(
    base: (Seq<String>, String, u32),
    ans: AnswerSeqs,
    st: Stores,
    ws: Seq<Seq<Expand>>,
) -> (Result<Seq<Seq<char>>, Halt>, Stores)
    decreases ws.len(),
{
    if ws.len() == 0 {
        (Ok(Seq::empty()), st)
    } else {
        let (r0, st0) = words_expansion(base, ans, st, ws.drop_last());
        match r0 {
            Err(h) => (Err(h), st0),
            Ok(p) => {
                let w = ws.last();
                let (r1, st1) = expansion(base, ans, st0, w);
                match r1 {
                    Err(h) => (Err(h), st1),
                    Ok(t) => (Ok(if kept_when_empty(w) || t.len() > 0 { p.push(t) } else { p }), st1),
                }
            },
        }
    }
}

/// The assignments of a command with their values expanded in order; and
/// the stores afterwards.
pub open spec fn assigns_expansion(
    base: (Seq<String>, String, u32),
    ans: AnswerSeqs,
    st: Stores,
    a: Seq<(String, Vec<Expand>)>,
) -> (Result<Seq<(Seq<char>, Seq<char>)>, Halt>, Stores)
    decreases a.len(),
{
    if a.len() == 0 {
        (Ok(Seq::empty()), st)
    } else {
        let (r0, st0) = assigns_expansion(base, ans, st, a.drop_last());
        match r0 {
            Err(h) => (Err(h), st0),
            Ok(p) => {
                let (r1, st1) = expansion(base, ans, st0, a.last().1@);
                match r1 {
                    Err(h) => (Err(h), st1),
                    Ok(t) => (Ok(p.push((a.last().0@, t))), st1),
                }
            },
        }
    }
}

/// The endpoints of a command with the file names expanded in order; and
/// the stores afterwards.
pub open spec fn ports_expansion(
    base: (Seq<String>, String, u32),
    ans: AnswerSeqs,
    st: Stores,
    fds: Seq<Fd>,
) -> (Result<Seq<PortView>, Halt>, Stores)
    decreases fds.len(),
{
    if fds.len() == 0 {
        (Ok(Seq::empty()), st)
    } else {
        let (r0, st0) = ports_expansion(base, ans, st, fds.drop_last());
        match r0 {
            Err(h) => (Err(h), st0),
            Ok(p) => match fds.last() {
                Fd::FileName(ws) => {
                    let (r1, st1) = expansion(base, ans, st0, ws@);
                    match r1 {
                        Err(h) => (Err(h), st1),
                        Ok(t) => (Ok(p.push(PortView::FileName(t))), st1),
                    }
                },
                Fd::FileNameAppend(ws) => {
                    let (r1, st1) = expansion(base, ans, st0, ws@);
                    match r1 {
                        Err(h) => (Err(h), st1),
                        Ok(t) => (Ok(p.push(PortView::FileNameAppend(t))), st1),
                    }
                },
                Fd::Stdin => (Ok(p.push(PortView::Stdin)), st0),
                Fd::Stdout => (Ok(p.push(PortView::Stdout)), st0),
                Fd::Stderr => (Ok(p.push(PortView::Stderr)), st0),
                Fd::Inherit => (Ok(p.push(PortView::Inherit)), st0),
                Fd::PipeOut(k) => (Ok(p.push(PortView::PipeOut(k))), st0),
                Fd::PipeIn(k) => (Ok(p.push(PortView::PipeIn(k))), st0),
                Fd::HereDoc(d) => (Ok(p.push(PortView::HereDoc(d@))), st0),
                Fd::HereText(t) => (Ok(p.push(PortView::HereText(t@))), st0),
            },
        }
    }
}

proof fn lemma_words_halt(base: (Seq<String>, String, u32), ans: AnswerSeqs, st: Stores, ws: Seq<Seq<Expand>>, k: int)
    requires
        0 <= k <= ws.len(),
        words_expansion(base, ans, st, ws.subrange(0, k)).0 is Err,
    ensures
        words_expansion(base, ans, st, ws) == words_expansion(base, ans, st, ws.subrange(0, k)),
    decreases ws.len() - k,
{
    if k < ws.len() {
        assert(ws.subrange(0, k + 1).drop_last() =~= ws.subrange(0, k));
        lemma_words_halt(base, ans, st, ws, k + 1);
    } else {
        assert(ws.subrange(0, k) =~= ws);
    }
}

proof fn lemma_assigns_halt(base: (Seq<String>, String, u32), ans: AnswerSeqs, st: Stores, a: Seq<(String, Vec<Expand>)>, k: int)
    requires
        0 <= k <= a.len(),
        assigns_expansion(base, ans, st, a.subrange(0, k)).0 is Err,
    ensures
        assigns_expansion(base, ans, st, a) == assigns_expansion(base, ans, st, a.subrange(0, k)),
    decreases a.len() - k,
{
    if k < a.len() {
        assert(a.subrange(0, k + 1).drop_last() =~= a.subrange(0, k));
        lemma_assigns_halt(base, ans, st, a, k + 1);
    } else {
        assert(a.subrange(0, k) =~= a);
    }
}

proof fn lemma_ports_halt(base: (Seq<String>, String, u32), ans: AnswerSeqs, st: Stores, fds: Seq<Fd>, k: int)
    requires
        0 <= k <= fds.len(),
        ports_expansion(base, ans, st, fds.subrange(0, k)).0 is Err,
    ensures
        ports_expansion(base, ans, st, fds) == ports_expansion(base, ans, st, fds.subrange(0, k)),
    decreases fds.len() - k,
{
    if k < fds.len() {
        assert(fds.subrange(0, k + 1).drop_last() =~= fds.subrange(0, k));
        lemma_ports_halt(base, ans, st, fds, k + 1);
    } else {
        assert(fds.subrange(0, k) =~= fds);
    }
}

/// The words of a simple command, expanded as `words_expansion` says.
fn expand_words(shell: &mut Shell, words: &Vec<Vec<Expand>>, ans: &Answers) -> (r: Result<
    Vec<String>,
    Stuck,
>)
    requires
        old(shell).wf(),
    ensures
        final(shell).wf(),
        final(shell).positional == old(shell).positional,
        final(shell).name == old(shell).name,
        final(shell).aliases == old(shell).aliases,
        final(shell).pid == old(shell).pid,
        final(shell).interactive == old(shell).interactive,
        words_expansion(base_of(*old(shell)), answers(*ans), stores(*old(shell)), names_of(words@)) == (
            match r {
                Ok(v) => Ok::<Seq<Seq<char>>, Halt>(views(v@)),
                Err(e) => Err(halt_of(e)),
            },
            stores(*final(shell)),
        ),
{
    let ghost base = base_of(*shell);
    let ghost st0 = stores(*shell);
    let ghost ws = names_of(words@);
    let mut out: Vec<String> = Vec::new();
    let mut i: usize = 0;
    assert(ws.subrange(0, 0) =~= Seq::<Seq<Expand>>::empty());
    assert(views(out@) =~= Seq::<Seq<char>>::empty());
    while i < words.len()
        invariant
            i <= words.len(),
            base == base_of(*old(shell)),
            st0 == stores(*old(shell)),
            ws == names_of(words@),
            words_expansion(base, answers(*ans), st0, ws.subrange(0, i as int)) == (
                Ok::<Seq<Seq<char>>, Halt>(views(out@)),
                stores(*shell),
            ),
            shell.wf(),
            shell.positional == old(shell).positional,
            shell.name == old(shell).name,
            shell.aliases == old(shell).aliases,
            shell.pid == old(shell).pid,
            shell.interactive == old(shell).interactive,
        decreases words.len() - i,
    {
        let w_ref = &words[i];
        assert(ws.subrange(0, i + 1).drop_last() =~= ws.subrange(0, i as int));
        assert(ws.subrange(0, i + 1).last() == w_ref@);
        let ghost before = views(out@);
        let w = match expand_word(shell, w_ref, ans) {
            Ok(w) => w,
            Err(e) => {
                proof {
                    lemma_words_halt(base, answers(*ans), st0, ws, i + 1);
                    assert(ws.subrange(0, ws.len() as int) =~= ws);
                }
                return Err(e);
            },
        };
        let single = w_ref.len() == 1 && matches!(w_ref[0], Expand::Literal(_));
        assert(kept_when_empty(w_ref@) == single);
        if single || !w.as_str().is_empty() {
            out.push(w);
            assert(views(out@) =~= before.push(w@));
        } else {
            assert(views(out@) =~= before);
        }
        i = i + 1;
    }
    assert(ws.subrange(0, i as int) =~= ws);
    Ok(out)
}

/// The assignments of a simple command, expanded as `assigns_expansion` says.
fn expand_assigns(shell: &mut Shell, assigns: &Vec<(String, Vec<Expand>)>, ans: &Answers) -> (r:
    Result<Vec<(String, String)>, Stuck>)
    requires
        old(shell).wf(),
    ensures
        final(shell).wf(),
        final(shell).positional == old(shell).positional,
        final(shell).name == old(shell).name,
        final(shell).aliases == old(shell).aliases,
        final(shell).pid == old(shell).pid,
        final(shell).interactive == old(shell).interactive,
        assigns_expansion(base_of(*old(shell)), answers(*ans), stores(*old(shell)), assigns@) == (
            match r {
                Ok(v) => Ok::<Seq<(Seq<char>, Seq<char>)>, Halt>(pairs_view(v@)),
                Err(e) => Err(halt_of(e)),
            },
            stores(*final(shell)),
        ),
{
    let ghost base = base_of(*shell);
    let ghost st0 = stores(*shell);
    let mut out: Vec<(String, String)> = Vec::new();
    let mut i: usize = 0;
    assert(assigns@.subrange(0, 0) =~= Seq::<(String, Vec<Expand>)>::empty());
    assert(pairs_view(out@) =~= Seq::<(Seq<char>, Seq<char>)>::empty());
    while i < assigns.len()
        invariant
            i <= assigns.len(),
            base == base_of(*old(shell)),
            st0 == stores(*old(shell)),
            assigns_expansion(base, answers(*ans), st0, assigns@.subrange(0, i as int)) == (
                Ok::<Seq<(Seq<char>, Seq<char>)>, Halt>(pairs_view(out@)),
                stores(*shell),
            ),
            shell.wf(),
            shell.positional == old(shell).positional,
            shell.name == old(shell).name,
            shell.aliases == old(shell).aliases,
            shell.pid == old(shell).pid,
            shell.interactive == old(shell).interactive,
        decreases assigns.len() - i,
    {
        assert(assigns@.subrange(0, i + 1).drop_last() =~= assigns@.subrange(0, i as int));
        assert(assigns@.subrange(0, i + 1).last() == assigns@[i as int]);
        let v = match expand_word(shell, &assigns[i].1, ans) {
            Ok(v) => v,
            Err(e) => {
                proof {
                    lemma_assigns_halt(base, answers(*ans), st0, assigns@, i + 1);
                    assert(assigns@.subrange(0, assigns@.len() as int) =~= assigns@);
                }
                return Err(e);
            },
        };
        let ghost before = pairs_view(out@);
        out.push((assigns[i].0.clone(), v));
        assert(pairs_view(out@) =~= before.push((assigns@[i as int].0@, v@)));
        i = i + 1;
    }
    assert(assigns@.subrange(0, i as int) =~= assigns@);
    Ok(out)
}

/// The endpoints of a command, with file names expanded as
/// `ports_expansion` says.
fn expand_ports(shell: &mut Shell, io: &Io, ans: &Answers) -> (r: Result<Vec<Port>, Stuck>)
    requires
        old(shell).wf(),
    ensures
        final(shell).wf(),
        final(shell).positional == old(shell).positional,
        final(shell).name == old(shell).name,
        final(shell).aliases == old(shell).aliases,
        final(shell).pid == old(shell).pid,
        final(shell).interactive == old(shell).interactive,
        ports_expansion(base_of(*old(shell)), answers(*ans), stores(*old(shell)), io.fds@) == (
            match r {
                Ok(p) => Ok::<Seq<PortView>, Halt>(port_views(p@)),
                Err(e) => Err(halt_of(e)),
            },
            stores(*final(shell)),
        ),
{
    let ghost base = base_of(*shell);
    let ghost st0 = stores(*shell);
    let mut out: Vec<Port> = Vec::new();
    let mut i: usize = 0;
    assert(io.fds@.subrange(0, 0) =~= Seq::<Fd>::empty());
    assert(port_views(out@) =~= Seq::<PortView>::empty());
    while i < io.fds.len()
        invariant
            i <= io.fds.len(),
            base == base_of(*old(shell)),
            st0 == stores(*old(shell)),
            ports_expansion(base, answers(*ans), st0, io.fds@.subrange(0, i as int)) == (
                Ok::<Seq<PortView>, Halt>(port_views(out@)),
                stores(*shell),
            ),
            shell.wf(),
            shell.positional == old(shell).positional,
            shell.name == old(shell).name,
            shell.aliases == old(shell).aliases,
            shell.pid == old(shell).pid,
            shell.interactive == old(shell).interactive,
        decreases io.fds.len() - i,
    {
        assert(io.fds@.subrange(0, i + 1).drop_last() =~= io.fds@.subrange(0, i as int));
        assert(io.fds@.subrange(0, i + 1).last() == io.fds@[i as int]);
        let p = match &io.fds[i] {
            Fd::Stdin => Port::Stdin,
            Fd::Stdout => Port::Stdout,
            Fd::Stderr => Port::Stderr,
            Fd::Inherit => Port::Inherit,
            Fd::PipeOut(k) => Port::PipeOut(*k),
            Fd::PipeIn(k) => Port::PipeIn(*k),
            Fd::FileName(ws) => match expand_word(shell, ws, ans) {
                Ok(t) => Port::FileName(t),
                Err(e) => {
                    proof {
                        lemma_ports_halt(base, answers(*ans), st0, io.fds@, i + 1);
                        assert(io.fds@.subrange(0, io.fds@.len() as int) =~= io.fds@);
                    }
                    return Err(e);
                },
            },
            Fd::FileNameAppend(ws) => match expand_word(shell, ws, ans) {
                Ok(t) => Port::FileNameAppend(t),
                Err(e) => {
                    proof {
                        lemma_ports_halt(base, answers(*ans), st0, io.fds@, i + 1);
                        assert(io.fds@.subrange(0, io.fds@.len() as int) =~= io.fds@);
                    }
                    return Err(e);
                },
            },
            Fd::HereDoc(d) => Port::HereDoc(d.clone()),
            Fd::HereText(t) => Port::HereText(t.clone()),
        };
        let ghost before = port_views(out@);
        out.push(p);
        assert(port_views(out@) =~= before.push(port_view(p)));
        i = i + 1;
    }
    assert(io.fds@.subrange(0, i as int) =~= io.fds@);
    Ok(out)
}

/// The words `extra`, each as one literal fragment.
pub open spec fn lit_words(extra: Seq<Seq<char>>) -> Seq<Seq<Frag>> {
    extra.map_values(|a: Seq<char>| seq![Frag::Lit(a)])
}

/// The assignments `env`, each value as one literal fragment.
pub open spec fn lit_assigns(env: Seq<(Seq<char>, Seq<char>)>) -> Seq<(Seq<char>, Seq<Frag>)> {
    env.map_values(|p: (Seq<char>, Seq<char>)| (p.0, seq![Frag::Lit(p.1)]))
}

/// `after` is `before` with the words `extra` appended to its rightmost
/// simple command.
pub open spec fn args_moved(before: Cmd, after: Cmd, extra: Seq<Seq<char>>) -> bool
    decreases before,
{
    match (before, after) {
        (Cmd::Simple(s), Cmd::Simple(t)) => words_model(t.words@) == words_model(s.words@)
            + lit_words(extra) && t.assigns == s.assigns && t.io == s.io,
        (Cmd::Pipeline(l, r), Cmd::Pipeline(l2, r2)) => l2 == l && args_moved(*r, *r2, extra),
        (Cmd::And(l, r), Cmd::And(l2, r2)) => l2 == l && args_moved(*r, *r2, extra),
        (Cmd::Or(l, r), Cmd::Or(l2, r2)) => l2 == l && args_moved(*r, *r2, extra),
        (Cmd::List(l, r), Cmd::List(l2, r2)) => l2 == l && args_moved(*r, *r2, extra),
        (Cmd::Not(n), Cmd::Not(n2)) => args_moved(*n, *n2, extra),
        (Cmd::Empty, Cmd::Empty) => true,
        _ => false,
    }
}

/// The fragments of each word.
pub open spec fn names_of(words: Seq<Vec<Expand>>) -> Seq<Seq<Expand>> {
    words.map_values(|w: Vec<Expand>| w@)
}

/// How a step ends whose expansion stopped at `h`: a question is asked and
/// the frame `again` (the same command) is visited once more after the
/// answer; an error is printed, and ends a shell that is not interactive.
pub open spec fn halted(h: Halt, interactive: bool, again: Frame, fs: Seq<Frame>, nf: Seq<Frame>, r: Step) -> bool {
    match h {
        Halt::User(n) => nf == fs.push(again) && (r matches Step::Ask(Need::UserDir(x)) && x@ == n),
        Halt::Capture(t) => nf == fs.push(again) && (r matches Step::Ask(Need::Capture(x)) && x@ == t),
        Halt::Fail(msg) => nf == fs && if interactive {
            r matches Step::Print(o, e) && o@.len() == 0 && e@ == msg
        } else {
            r matches Step::Abort(e) && e@ == msg
        },
    }
}

/// The program started for the expanded words `w` and assignments `env`,
/// with the endpoints `ports` of the redirections `io`, run with plumbing
/// `m`: its name and arguments are the words, its environment overlay the
/// assignments, and its streams those endpoints with the caller's pipes
/// put in where the command does not redirect.
pub open spec fn job_plan(
    job: Job,
    w: Seq<Seq<char>>,
    env: Seq<(Seq<char>, Seq<char>)>,
    ports: Seq<PortView>,
    io: Io,
    m: CmdMeta,
) -> bool {
    &&& job.cmd@ == w[0] && views(job.args@) == w.drop_first()
    &&& match job.env {
        Some(e) => env.len() > 0 && pairs_view(e@) == env,
        None => env.len() == 0,
    }
    &&& job.wait == (m.stdout is None)
    &&& job.stdin == io.stdin && job.stdout == io.stdout && job.stderr == io.stderr
    &&& port_views(job.ports@) == reconciled(ports, io.stdin as int, io.stdout as int, m)
}

/// What `alias` with the words `w`, its own name first, does: as
/// `builtins::alias` says.
pub open spec fn alias_done(w: Seq<Seq<char>>, before: Shell, after: Shell, r: Step) -> bool {
    if w.len() == 1 {
        after.aliases == before.aliases && exists|l: Seq<(String, String)>|
            sorted_by_name(l) && l.to_multiset() == before.aliases@.to_multiset() && (r matches Step::Print(
                o,
                e,
            ) && o@ == listing(l) && e@.len() == 0)
    } else {
        let (mm, o, e, ok) = alias_effect(to_map(before.aliases@), w.drop_first());
        to_map(after.aliases@) == mm && (r matches Step::Print(o2, e2) && o2@ == o && e2@ == e)
    }
}

/// What a simple command does once its words `w` and assignments `env` are
/// expanded, leaving the stores `st`. No words: the assignments are set. A
/// name with an alias that applies: the alias's tree is visited in its
/// place, on the path extended by that name. Then the built-ins; an empty
/// name is an error; any other name is started as a program, once its
/// redirections are expanded.
pub open spec fn simple_run(
    s: Simple,
    m: CmdMeta,
    path: Vec<String>,
    ans: AnswerSeqs,
    w: Seq<Seq<char>>,
    env: Seq<(Seq<char>, Seq<char>)>,
    st: Stores,
    before: Shell,
    after: Shell,
    fs: Seq<Frame>,
    nf: Seq<Frame>,
    r: Step,
) -> bool {
    if w.len() == 0 {
        r == Step::Continue && nf == fs && stores(after) == assign_fold(st, env) && after.aliases
            == before.aliases
    } else if alias_applies(before, w[0], path@) {
        &&& r == Step::Continue
        &&& stores(after) == st && after.aliases == before.aliases
        &&& nf.len() == fs.len() + 1 && nf.subrange(0, fs.len() as int) == fs
        &&& match nf.last() {
            Frame::Visit(t, m2, q) => m2 == m && names(q@) == names(path@).push(w[0]) && alias_result(
                to_map(before.aliases@)[w[0]],
                w.drop_first(),
                env,
                s.io,
                t,
            ),
            _ => false,
        }
    } else if w[0] == "alias"@ {
        nf == fs && stores(after) == st && alias_done(w, before, after, r)
    } else if w[0] == "unalias"@ {
        &&& nf == fs && stores(after) == st && r == Step::Continue
        &&& forall|k: Seq<char>| #[trigger] to_map(after.aliases@).contains_key(k) <==> (to_map(
            before.aliases@,
        ).contains_key(k) && !w.drop_first().contains(k))
        &&& forall|k: Seq<char>| #[trigger] to_map(after.aliases@).contains_key(k) ==> to_map(
            after.aliases@,
        )[k] == to_map(before.aliases@)[k]
    } else if w[0] == "set"@ {
        nf == fs && stores(after) == st && r == Step::Continue && views(after.positional@)
            == w.drop_first() && after.aliases == before.aliases
    } else if w[0] == "exit"@ {
        nf == fs && after.aliases == before.aliases && if w.len() == 1 {
            r == Step::Exit(0)
        } else {
            match parse_i32(w[1]) {
                Some(n) => r == Step::Exit(n),
                None => r is Print,
            }
        }
    } else if w[0] == "cd"@ {
        nf == fs && after.aliases == before.aliases && if w.len() > 1 {
            r matches Step::ChangeDir(d) && d@ == w[1]
        } else {
            match after.value_of("HOME"@) {
                Some(h) => r matches Step::ChangeDir(d) && d@ == h,
                None => r is Print,
            }
        }
    } else if w[0].len() == 0 {
        nf == fs && after.aliases == before.aliases && r is Print
    } else {
        let (rp, st3) = ports_expansion(base_of(before), ans, st, s.io.fds@);
        &&& after.aliases == before.aliases && stores(after) == st3
        &&& match rp {
            Err(h) => halted(h, before.interactive, Frame::Visit(Cmd::Simple(s), m, path), fs, nf, r),
            Ok(ps) => nf == fs && if s.io.stdin < ps.len() && s.io.stdout < ps.len() && s.io.stderr < ps.len() {
                r matches Step::Spawn(job) && job_plan(job, w, env, ps, s.io, m)
            } else {
                r is Print
            },
        }
    }
}

/// What visiting the simple command `s` with plumbing `m` on the alias path
/// `path` does, given the answers `ans`: its words are expanded, then its
/// assignments (a question or an error stops there), then it runs as
/// `simple_run` says. `fs` and `nf` are the frames before and after.
pub open spec fn simple_outcome(
    s: Simple,
    m: CmdMeta,
    path: Vec<String>,
    ans: AnswerSeqs,
    before: Shell,
    after: Shell,
    fs: Seq<Frame>,
    nf: Seq<Frame>,
    r: Step,
) -> bool {
    let base = base_of(before);
    let again = Frame::Visit(Cmd::Simple(s), m, path);
    let (rw, st1) = words_expansion(base, ans, stores(before), names_of(s.words@));
    match rw {
        Err(h) => halted(h, before.interactive, again, fs, nf, r) && stores(after) == st1
            && after.aliases == before.aliases,
        Ok(w) => {
            let (ra, st2) = assigns_expansion(base, ans, st1, s.assigns@);
            match ra {
                Err(h) => halted(h, before.interactive, again, fs, nf, r) && stores(after) == st2
                    && after.aliases == before.aliases,
                Ok(env) => simple_run(s, m, path, ans, w, env, st2, before, after, fs, nf, r),
            }
        },
    }
}

/// The answers after an event.
pub open spec fn with_event(a: AnswerSeqs, e: Event) -> AnswerSeqs {
    match e {
        Event::User(n, d) => (a.0.push((n, d)), a.1),
        Event::Output(t, o) => (a.0, a.1.push((t, o))),
        _ => a,
    }
}

/// Appends `args` to the words of the rightmost simple command of `c`.
pub fn move_args(c: Cmd, args: &Vec<String>) -> (r: Cmd)
    ensures
        args_moved(c, r, views(args@)),
    decreases c,
{
    match c {
        Cmd::Simple(s) => {
            let ghost s0 = s;
            let mut s = s;
            let ghost w0 = words_model(s.words@);
            let mut i: usize = 0;
            while i < args.len()
                invariant
                    i <= args.len(),
                    s.assigns == s0.assigns,
                    s.io == s0.io,
                    words_model(s.words@) == w0 + lit_words(views(args@.subrange(0, i as int))),
                decreases args.len() - i,
            {
                let a = args[i].clone();
                let ghost before = words_model(s.words@);
                let w = literal_word(a);
                proof {
                    lemma_frags_single(w@[0]);
                    assert(w@ =~= seq![w@[0]]);
                }
                s.words.push(w);
                assert(words_model(s.words@) =~= before.push(seq![Frag::Lit(args@[i as int]@)]));
                assert(lit_words(views(args@.subrange(0, i + 1))) =~= lit_words(
                    views(args@.subrange(0, i as int)),
                ).push(seq![Frag::Lit(args@[i as int]@)]));
                i = i + 1;
            }
            assert(args@.subrange(0, i as int) =~= args@);
            Cmd::Simple(s)
        },
        Cmd::Pipeline(l, r) => Cmd::Pipeline(l, Box::new(move_args(*r, args))),
        Cmd::And(l, r) => Cmd::And(l, Box::new(move_args(*r, args))),
        Cmd::Or(l, r) => Cmd::Or(l, Box::new(move_args(*r, args))),
        Cmd::List(l, r) => Cmd::List(l, Box::new(move_args(*r, args))),
        Cmd::Not(n) => Cmd::Not(Box::new(move_args(*n, args))),
        Cmd::Empty => Cmd::Empty,
    }
}

fn literal_assigns(env: &Vec<(String, String)>) -> (r: Vec<(String, Vec<Expand>)>)
    ensures
        assigns_model(r@) == lit_assigns(pairs_view(env@)),
{
    let mut out: Vec<(String, Vec<Expand>)> = Vec::new();
    let mut i: usize = 0;
    while i < env.len()
        invariant
            i <= env.len(),
            assigns_model(out@) == lit_assigns(pairs_view(env@.subrange(0, i as int))),
        decreases env.len() - i,
    {
        let k = env[i].0.clone();
        let v = env[i].1.clone();
        let ghost before = assigns_model(out@);
        let w = literal_word(v);
        proof {
            lemma_frags_single(w@[0]);
            assert(w@ =~= seq![w@[0]]);
        }
        out.push((k, w));
        assert(assigns_model(out@) =~= before.push((env@[i as int].0@, seq![Frag::Lit(env@[i as int].1@)])));
        assert(lit_assigns(pairs_view(env@.subrange(0, i + 1))) =~= lit_assigns(
            pairs_view(env@.subrange(0, i as int)),
        ).push((env@[i as int].0@, seq![Frag::Lit(env@[i as int].1@)])));
        i = i + 1;
    }
    assert(env@.subrange(0, i as int) =~= env@);
    out
}

/// `after` is `before` with the assignments of every simple command
/// replaced by `env`.
pub open spec fn env_given(before: Cmd, after: Cmd, env: Seq<(Seq<char>, Seq<char>)>) -> bool
    decreases before,
{
    match (before, after) {
        (Cmd::Simple(s), Cmd::Simple(t)) => t.words == s.words && t.io == s.io && assigns_model(
            t.assigns@,
        ) == lit_assigns(env),
        (Cmd::Pipeline(l, r), Cmd::Pipeline(l2, r2)) => env_given(*l, *l2, env) && env_given(
            *r,
            *r2,
            env,
        ),
        (Cmd::And(l, r), Cmd::And(l2, r2)) => env_given(*l, *l2, env) && env_given(*r, *r2, env),
        (Cmd::Or(l, r), Cmd::Or(l2, r2)) => env_given(*l, *l2, env) && env_given(*r, *r2, env),
        (Cmd::List(l, r), Cmd::List(l2, r2)) => env_given(*l, *l2, env) && env_given(*r, *r2, env),
        (Cmd::Not(n), Cmd::Not(n2)) => env_given(*n, *n2, env),
        (Cmd::Empty, Cmd::Empty) => true,
        _ => false,
    }
}

/// Gives every simple command of `c` the assignments `env` in place of its
/// own.
pub fn propagate_env(c: Cmd, env: &Vec<(String, String)>) -> (r: Cmd)
    ensures
        env_given(c, r, pairs_view(env@)),
    decreases c,
{
    match c {
        Cmd::Simple(s) => {
            let mut s = s;
            s.assigns = literal_assigns(env);
            Cmd::Simple(s)
        },
        Cmd::Pipeline(l, r) => Cmd::Pipeline(
            Box::new(propagate_env(*l, env)),
            Box::new(propagate_env(*r, env)),
        ),
        Cmd::And(l, r) => Cmd::And(
            Box::new(propagate_env(*l, env)),
            Box::new(propagate_env(*r, env)),
        ),
        Cmd::Or(l, r) => Cmd::Or(Box::new(propagate_env(*l, env)), Box::new(propagate_env(*r, env))),
        Cmd::List(l, r) => Cmd::List(
            Box::new(propagate_env(*l, env)),
            Box::new(propagate_env(*r, env)),
        ),
        Cmd::Not(n) => Cmd::Not(Box::new(propagate_env(*n, env))),
        Cmd::Empty => Cmd::Empty,
    }
}

/// Whether an alias body lexes and parses.
pub open spec fn alias_parses(body: Seq<char>) -> bool {
    tokens_from(body, 0) matches Ok(ts) && list_from(ts, 0).0 is Ok
}

/// The tree that an alias body parses to.
pub open spec fn alias_tree(body: Seq<char>) -> CmdModel {
    list_from(tokens_from(body, 0)->Ok_0, 0).0->Ok_0
}

/// What an alias body `body` gives, for a caller with the arguments `args`,
/// the assignments `env` and the redirections `io`: the body's tree, with
/// the arguments moved to its rightmost command and the assignments given
/// to each command. Where the body does not parse, the first argument
/// becomes the command, which keeps the caller's assignments and
/// redirections; with no arguments, nothing runs.
pub open spec fn alias_result(
    body: Seq<char>,
    args: Seq<Seq<char>>,
    env: Seq<(Seq<char>, Seq<char>)>,
    io: Io,
    t: Cmd,
) -> bool {
    if alias_parses(body) {
        exists|t0: Cmd, u: Cmd|
            cmd_of(t0) == alias_tree(body) && cmd_wf(t0) && #[trigger] env_given(t0, u, env)
                && #[trigger] args_moved(u, t, args)
    } else if args.len() == 0 {
        t == Cmd::Empty
    } else {
        t matches Cmd::Simple(x) && words_model(x.words@) == lit_words(args) && assigns_model(
            x.assigns@,
        ) == lit_assigns(env) && x.io == io
    }
}

/// The tree that an alias body stands for, as `alias_result` says.
pub fn expand_alias(body: &String, args: &Vec<String>, env: &Vec<(String, String)>, io: Io) -> (r: Cmd)
    ensures
        alias_result(body@, views(args@), pairs_view(env@), io, r),
{
    let parsed = match tokenize(body.as_str()) {
        Ok(tokens) => {
            let mut parser = Parser::new(tokens);
            parser.get()
        },
        Err(_) => Err(crate::parser::ParseError::ExpectedCommand),
    };
    match parsed {
        Ok(tree) => {
            let ghost t = tree;
            let u = propagate_env(tree, env);
            let ghost u0 = u;
            let r = move_args(u, args);
            assert(cmd_wf(t) && env_given(t, u0, pairs_view(env@)) && args_moved(u0, r, views(args@)));
            r
        },
        Err(_) => {
            if args.len() == 0 {
                return Cmd::Empty;
            }
            let mut words: Vec<Vec<Expand>> = Vec::new();
            let mut i: usize = 0;
            while i < args.len()
                invariant
                    i <= args.len(),
                    words_model(words@) == lit_words(views(args@.subrange(0, i as int))),
                decreases args.len() - i,
            {
                let ghost before = words_model(words@);
                let w = literal_word(args[i].clone());
                proof {
                    lemma_frags_single(w@[0]);
                    assert(w@ =~= seq![w@[0]]);
                }
                words.push(w);
                assert(words_model(words@) =~= before.push(seq![Frag::Lit(args@[i as int]@)]));
                assert(lit_words(views(args@.subrange(0, i + 1))) =~= lit_words(
                    views(args@.subrange(0, i as int)),
                ).push(seq![Frag::Lit(args@[i as int]@)]));
                i = i + 1;
            }
            assert(args@.subrange(0, i as int) =~= args@);
            Cmd::Simple(Simple { words, assigns: literal_assigns(env), io })
        },
    }
}

/// The stores after setting each assignment of `env`, in order.
pub open spec fn assign_fold(st: Stores, env: Seq<(Seq<char>, Seq<char>)>) -> Stores
    decreases env.len(),
{
    if env.len() == 0 {
        st
    } else {
        let before = assign_fold(st, env.subrange(0, env.len() - 1));
        let p = env[env.len() - 1];
        set_in(before.0, before.1, p.0, p.1)
    }
}

/// The names and values of assignments.
pub open spec fn pairs_view(env: Seq<(String, String)>) -> Seq<(Seq<char>, Seq<char>)> {
    env.map_values(|p: (String, String)| (p.0@, p.1@))
}

/// Sets each assignment, in order.
pub fn assign_all(shell: &mut Shell, env: &Vec<(String, String)>)
    requires
        old(shell).wf(),
    ensures
        final(shell).wf(),
        stores(*final(shell)) == assign_fold(stores(*old(shell)), pairs_view(env@)),
        final(shell).positional == old(shell).positional,
        final(shell).name == old(shell).name,
        final(shell).aliases == old(shell).aliases,
        final(shell).pid == old(shell).pid,
        final(shell).interactive == old(shell).interactive,
{
    let mut i: usize = 0;
    while i < env.len()
        invariant
            i <= env.len(),
            stores(*shell) == assign_fold(stores(*old(shell)), pairs_view(env@.subrange(0, i as int))),
            shell.wf(),
            shell.positional == old(shell).positional,
            shell.name == old(shell).name,
            shell.aliases == old(shell).aliases,
            shell.pid == old(shell).pid,
            shell.interactive == old(shell).interactive,
        decreases env.len() - i,
    {
        assert(pairs_view(env@.subrange(0, i + 1)).subrange(0, i as int) =~= pairs_view(
            env@.subrange(0, i as int),
        ));
        shell.set_var(env[i].0.clone(), env[i].1.clone());
        i = i + 1;
    }
    assert(env@.subrange(0, i as int) =~= env@);
}

fn is_named(s: &String, name: &str) -> (r: bool)
    ensures
        r == (s@ == name@),
{
    *s == owned(name)
}

impl Runner {
    /// A runner with nothing to do.
    pub fn new() -> (r: Runner)
        ensures
            r.frames().len() == 0,
            r.last_status(),
    {
        Runner { stack: Vec::new(), status: true, next_pipe: 0, answers: Answers::new() }
    }

    /// Starts running `ast`. With `capture`, its standard output goes into
    /// pipe 0, which the caller reads once the run has finished.
    pub fn execute(&mut self, ast: Cmd, capture: bool)
        ensures
            final(self).frames().len() == 1,
            is_visit(
                final(self).frames()[0],
                ast,
                if capture {
                    CmdMeta { stdin: None, stdout: Some(0) }
                } else {
                    CmdMeta { stdin: None, stdout: None }
                },
                Seq::empty(),
            ),
            final(self).next_pipe() == 1,
            final(self).last_status(),
    {
        let meta = if capture {
            CmdMeta::pipe_out(0)
        } else {
            CmdMeta::inherit()
        };
        self.stack = Vec::new();
        let path: Vec<String> = Vec::new();
        assert(names(path@) =~= Seq::empty());
        self.stack.push(Frame::Visit(ast, meta, path));
        self.status = true;
        self.next_pipe = 1;
        self.answers = Answers::new();
    }

    /// The work that is left; the last frame is done next.
    pub closed spec fn frames(&self) -> Seq<Frame> {
        self.stack@
    }

    /// The status of what ran last.
    pub closed spec fn last_status(&self) -> bool {
        self.status
    }

    /// The answers given so far to the command being expanded.
    pub closed spec fn answer_seqs(&self) -> AnswerSeqs {
        answers(self.answers)
    }

    /// The number of the next pipe to be given out.
    pub closed spec fn next_pipe(&self) -> usize {
        self.next_pipe
    }

    /// One step of the walk.
    ///
    /// With `s` the status after `event`: a pipeline `l | r` takes a new
    /// pipe `k`, runs `l` writing into `k` and then, once the writing end is
    /// closed, `r` reading from `k` and writing where the pipeline writes;
    /// `l && r` runs `l` on the shell's streams and then `r` only where `l`
    /// succeeded, `l || r` only where it failed; `! c` inverts the status of
    /// `c`. A simple command whose name is an alias that is not being
    /// expanded on its path is replaced by the alias's tree, on the path
    /// extended by that name; every simple command runs as
    /// `simple_outcome` says.
    pub fn step(&mut self, shell: &mut Shell, event: Event) -> (r: Step)
        requires
            old(shell).wf(),
        ensures
            final(shell).wf(),
            old(self).frames().len() == 0 ==> r == Step::Finished(
                event_status(old(self).last_status(), event),
            ),
            old(self).frames().len() > 0 ==> ({
                let s = event_status(old(self).last_status(), event);
                let fs = old(self).frames();
                let nf = final(self).frames();
                let rest = fs.drop_last();
                let n = fs.len() - 1;
                let k = old(self).next_pipe();
                &&& fs.last() matches Frame::Visit(Cmd::Pipeline(left, right), m, p) ==> (k
                    < usize::MAX ==> r == Step::Continue && final(self).next_pipe() == k + 1
                    && nf.len() == fs.len() + 1 && nf.subrange(0, n) == rest && is_pipe_right(
                    nf[n],
                    *right,
                    m,
                    names(p@),
                    k,
                ) && is_visit(nf[n + 1], *left, CmdMeta { stdin: m.stdin, stdout: Some(k) }, names(p@)))
                &&& fs.last() matches Frame::PipeRight(c, m, p, k2) ==> (r == Step::ClosePipe(k2)
                    && nf.len() == fs.len() && nf.subrange(0, n) == rest && is_visit(
                    nf[n],
                    c,
                    CmdMeta { stdin: Some(k2), stdout: m.stdout },
                    names(p@),
                ))
                &&& fs.last() matches Frame::Visit(Cmd::And(left, right), m, p) ==> (r
                    == Step::Continue && nf.len() == fs.len() + 1 && nf.subrange(0, n) == rest
                    && is_and_then(nf[n], *right, m, names(p@)) && is_visit(
                    nf[n + 1],
                    *left,
                    CmdMeta { stdin: None, stdout: None },
                    names(p@),
                ))
                &&& fs.last() matches Frame::Visit(Cmd::List(left, right), m, p) ==> (r
                    == Step::Continue && nf.len() == fs.len() + 1 && nf.subrange(0, n) == rest
                    && is_then(nf[n], *right, m, names(p@)) && is_visit(
                    nf[n + 1],
                    *left,
                    m,
                    names(p@),
                ))
                &&& !(fs.last() matches Frame::Visit(Cmd::Pipeline(_, _), _, _)) ==> final(self).next_pipe()
                    == k
                &&& fs.last() matches Frame::Visit(Cmd::Or(left, right), m, p) ==> (r
                    == Step::Continue && nf.len() == fs.len() + 1 && nf.subrange(0, n) == rest
                    && is_or_else(nf[n], *right, m, names(p@)) && is_visit(
                    nf[n + 1],
                    *left,
                    CmdMeta { stdin: None, stdout: None },
                    names(p@),
                ))
                &&& fs.last() matches Frame::AndThen(c, m, p) ==> (r == Step::Continue && (s
                    ==> nf == rest.push(Frame::Visit(c, m, p))) && (!s ==> nf == rest))
                &&& fs.last() matches Frame::OrElse(c, m, p) ==> (r == Step::Continue && (!s
                    ==> nf == rest.push(Frame::Visit(c, m, p))) && (s ==> nf == rest))
                &&& fs.last() matches Frame::Then(c, m, p) ==> (r == Step::Continue && nf == rest.push(
                    Frame::Visit(c, m, p),
                ))
                &&& fs.last() matches Frame::Negate ==> (r == Step::Continue && nf == rest
                    && final(self).last_status() == !s)
                &&& fs.last() matches Frame::Visit(Cmd::Not(c), m, p) ==> (r == Step::Continue
                    && nf == rest.push(Frame::Negate).push(Frame::Visit(*c, m, p)))
                &&& fs.last() matches Frame::Visit(Cmd::Empty, m, p) ==> (r == Step::Continue
                    && nf == rest && final(self).last_status())
                &&& fs.last() matches Frame::Visit(Cmd::Simple(smp), m, p) ==> simple_outcome(
                    smp,
                    m,
                    p,
                    with_event(old(self).answer_seqs(), event),
                    *old(shell),
                    *final(shell),
                    rest,
                    nf,
                    r,
                )
            }),
    {
        match event {
            Event::Nothing => {},
            Event::Status(b) => {
                self.status = b;
            },
            Event::User(name, dir) => {
                self.answers.users.push((name, dir));
            },
            Event::Output(text, out) => {
                self.answers.outputs.push((text, out));
            },
        }
        let frame = match self.stack.pop() {
            Some(f) => f,
            None => {
                return Step::Finished(self.status);
            },
        };
        match frame {
            Frame::Negate => {
                self.status = !self.status;
                Step::Continue
            },
            Frame::AndThen(c, meta, path) => {
                if self.status {
                    self.stack.push(Frame::Visit(c, meta, path));
                }
                Step::Continue
            },
            Frame::OrElse(c, meta, path) => {
                if !self.status {
                    self.stack.push(Frame::Visit(c, meta, path));
                }
                Step::Continue
            },
            Frame::Then(c, meta, path) => {
                self.stack.push(Frame::Visit(c, meta, path));
                Step::Continue
            },
            Frame::PipeRight(c, meta, path, k) => {
                self.stack.push(Frame::Visit(c, meta.new_in(k), path));
                Step::ClosePipe(k)
            },
            Frame::Visit(c, meta, path) => self.visit(shell, c, meta, path),
        }
    }

    fn visit(&mut self, shell: &mut Shell, c: Cmd, meta: CmdMeta, path: Vec<String>) -> (r: Step)
        requires
            old(shell).wf(),
        ensures
            final(shell).wf(),
            ({
                let fs = old(self).frames();
                let nf = final(self).frames();
                let n = fs.len() as int;
                let k = old(self).next_pipe();
                &&& c matches Cmd::Pipeline(left, right) ==> (k < usize::MAX ==> r == Step::Continue
                    && final(self).next_pipe() == k + 1 && nf.len() == n + 2 && nf.subrange(0, n)
                    == fs && is_pipe_right(nf[n], *right, meta, names(path@), k) && is_visit(
                    nf[n + 1],
                    *left,
                    CmdMeta { stdin: meta.stdin, stdout: Some(k) },
                    names(path@),
                ))
                &&& c matches Cmd::And(left, right) ==> (r == Step::Continue && nf.len() == n + 2
                    && nf.subrange(0, n) == fs && is_and_then(nf[n], *right, meta, names(path@))
                    && is_visit(nf[n + 1], *left, CmdMeta { stdin: None, stdout: None }, names(path@)))
                &&& c matches Cmd::Or(left, right) ==> (r == Step::Continue && nf.len() == n + 2
                    && nf.subrange(0, n) == fs && is_or_else(nf[n], *right, meta, names(path@))
                    && is_visit(nf[n + 1], *left, CmdMeta { stdin: None, stdout: None }, names(path@)))
                &&& c matches Cmd::Not(x) ==> (r == Step::Continue && nf == fs.push(Frame::Negate).push(
                    Frame::Visit(*x, meta, path),
                ))
                &&& c matches Cmd::List(left, right) ==> (r == Step::Continue && nf.len() == n + 2
                    && nf.subrange(0, n) == fs && is_then(nf[n], *right, meta, names(path@))
                    && is_visit(nf[n + 1], *left, meta, names(path@)))
                &&& !(c is Pipeline) ==> final(self).next_pipe() == k
                &&& c matches Cmd::Empty ==> (r == Step::Continue && nf == fs && final(self).last_status())
                &&& c matches Cmd::Simple(smp) ==> simple_outcome(
                    smp,
                    meta,
                    path,
                    old(self).answer_seqs(),
                    *old(shell),
                    *final(shell),
                    fs,
                    nf,
                    r,
                )
            }),
    {
        match c {
            Cmd::Empty => {
                self.status = true;
                Step::Continue
            },
            Cmd::Not(n) => {
                self.stack.push(Frame::Negate);
                self.stack.push(Frame::Visit(*n, meta, path));
                Step::Continue
            },
            Cmd::And(l, r) => {
                let p2 = path.clone();
                assert(p2@ =~= path@);
                self.stack.push(Frame::AndThen(*r, meta, p2));
                self.stack.push(Frame::Visit(*l, CmdMeta::inherit(), path));
                Step::Continue
            },
            Cmd::Or(l, r) => {
                let p2 = path.clone();
                assert(p2@ =~= path@);
                self.stack.push(Frame::OrElse(*r, meta, p2));
                self.stack.push(Frame::Visit(*l, CmdMeta::inherit(), path));
                Step::Continue
            },
            Cmd::List(l, r) => {
                let p2 = path.clone();
                assert(p2@ =~= path@);
                self.stack.push(Frame::Then(*r, meta, p2));
                self.stack.push(Frame::Visit(*l, meta, path));
                Step::Continue
            },
            Cmd::Pipeline(l, r) => {
                if self.next_pipe == usize::MAX {
                    self.status = false;
                    return Step::Print(String::new(), owned("too many pipes"));
                }
                let k = self.next_pipe;
                self.next_pipe = k + 1;
                let p2 = path.clone();
                assert(p2@ =~= path@);
                self.stack.push(Frame::PipeRight(*r, meta, p2, k));
                self.stack.push(Frame::Visit(*l, CmdMeta { stdin: meta.stdin, stdout: Some(k) }, path));
                Step::Continue
            },
            Cmd::Simple(s) => self.visit_simple(shell, s, meta, path),
        }
    }

    fn visit_simple(&mut self, shell: &mut Shell, s: Simple, meta: CmdMeta, path: Vec<String>) -> (r:
        Step)
        requires
            old(shell).wf(),
        ensures
            final(shell).wf(),
            simple_outcome(
                s,
                meta,
                path,
                old(self).answer_seqs(),
                *old(shell),
                *final(shell),
                old(self).frames(),
                final(self).frames(),
                r,
            ),
            final(self).next_pipe() == old(self).next_pipe(),
    {
        proof {
            reveal_strlit("alias");
            reveal_strlit("unalias");
            reveal_strlit("set");
            reveal_strlit("exit");
            reveal_strlit("cd");
            reveal_strlit("HOME");
        }
        let words = match expand_words(shell, &s.words, &self.answers) {
            Ok(w) => w,
            Err(stuck) => {
                return self.stuck(shell, stuck, Frame::Visit(Cmd::Simple(s), meta, path));
            },
        };
        let env = match expand_assigns(shell, &s.assigns, &self.answers) {
            Ok(e) => e,
            Err(stuck) => {
                return self.stuck(shell, stuck, Frame::Visit(Cmd::Simple(s), meta, path));
            },
        };
        if words.len() == 0 {
            assign_all(shell, &env);
            self.answers = Answers::new();
            self.status = true;
            return Step::Continue;
        }
        let ghost w = views(words@);
        let mut args = words;
        let cmd = args.remove(0);
        proof {
            assert(views(seq![cmd] + args@) =~= w);
            assert(views(seq![cmd] + args@)[0] == cmd@);
            assert(w.drop_first() =~= views(args@));
            assert(alias_applies(*shell, cmd@, path@) == alias_applies(*old(shell), cmd@, path@));
        }
        if let Some(body) = alias_body(shell, &cmd, &path) {
            let ghost io = s.io;
            let tree = expand_alias(&body, &args, &env, s.io);
            let ghost before = path@;
            let ghost named = cmd;
            assert(alias_applies(*old(shell), named@, before));
            assert(body@ == to_map(old(shell).aliases@)[w[0]]);
            assert(alias_result(to_map(old(shell).aliases@)[w[0]], w.drop_first(), pairs_view(env@), io, tree));
            let mut inner = path;
            inner.push(cmd);
            assert(names(inner@) =~= names(before).push(named@));
            self.answers = Answers::new();
            let ghost fs = self.stack@;
            self.stack.push(Frame::Visit(tree, meta, inner));
            assert(self.stack@.subrange(0, fs.len() as int) =~= fs);
            return Step::Continue;
        }
        if is_named(&cmd, "alias") {
            self.answers = Answers::new();
            let o = builtins::alias(&mut shell.aliases, &args);
            self.status = o.status;
            return Step::Print(o.out, o.err);
        }
        if is_named(&cmd, "unalias") {
            self.answers = Answers::new();
            self.status = builtins::unalias(&mut shell.aliases, &args);
            return Step::Continue;
        }
        if is_named(&cmd, "set") {
            self.answers = Answers::new();
            self.status = builtins::set(args, shell);
            return Step::Continue;
        }
        if is_named(&cmd, "exit") {
            self.answers = Answers::new();
            return match builtins::exit_code(&args) {
                Some(n) => Step::Exit(n),
                None => {
                    self.status = false;
                    let mut msg = owned("exit: ");
                    msg = concat(&msg, &args[0]);
                    msg = concat(&msg, &owned(": numeric argument required"));
                    Step::Print(String::new(), msg)
                },
            };
        }
        if is_named(&cmd, "cd") {
            self.answers = Answers::new();
            proof {
                assert("HOME"@ =~= seq!['H', 'O', 'M', 'E']);
                if args@.len() > 0 {
                    assert(views(args@)[0] == args@[0]@);
                }
            }
            return match builtins::cd_target(&args, shell) {
                Some(dir) => Step::ChangeDir(dir),
                None => {
                    self.status = false;
                    Step::Print(String::new(), owned("cd: HOME not set"))
                },
            };
        }
        if cmd.as_str().is_empty() {
            self.answers = Answers::new();
            self.status = false;
            return Step::Print(String::new(), owned(": command not found"));
        }
        let mut ports = match expand_ports(shell, &s.io, &self.answers) {
            Ok(p) => p,
            Err(stuck) => {
                return self.stuck(shell, stuck, Frame::Visit(Cmd::Simple(s), meta, path));
            },
        };
        self.answers = Answers::new();
        if s.io.stdin >= ports.len() || s.io.stdout >= ports.len() || s.io.stderr >= ports.len() {
            self.status = false;
            return Step::Print(String::new(), owned("bad redirection"));
        }
        reconcile_io(&mut ports, s.io.stdin, s.io.stdout, meta);
        let job = Job {
            wait: meta.stdout.is_none(),
            cmd,
            args,
            env: if env.len() > 0 {
                Some(env)
            } else {
                None
            },
            ports,
            stdin: s.io.stdin,
            stdout: s.io.stdout,
            stderr: s.io.stderr,
        };
        Step::Spawn(job)
    }

    fn stuck(&mut self, shell: &Shell, stuck: Stuck, again: Frame) -> (r: Step)
        ensures
            final(self).next_pipe() == old(self).next_pipe(),
            halted(halt_of(stuck), shell.interactive, again, old(self).frames(), final(self).frames(), r),
    {
        match stuck {
            Stuck::Ask(need) => {
                self.stack.push(again);
                Step::Ask(need)
            },
            Stuck::Fail(msg) => {
                self.answers = Answers::new();
                self.status = false;
                if shell.is_interactive() {
                    Step::Print(String::new(), msg)
                } else {
                    Step::Abort(msg)
                }
            },
        }
    }
}

/// Alias expansion never runs the body of an alias again while an outer
/// expansion of that alias is in progress: along one command path, where
/// each expansion applies on the names expanded before it, all the names
/// differ.
pub proof fn lemma_expansions_distinct(sh: Shell, path: Seq<String>)
    requires
        forall|i: int| 0 <= i < path.len() ==> #[trigger] alias_applies(sh, path[i]@, path.subrange(0, i)),
    ensures
        forall|i: int, j: int| 0 <= i < j < path.len() ==> path[i]@ != path[j]@,
{
    assert forall|i: int, j: int| 0 <= i < j < path.len() implies path[i]@ != path[j]@ by {
        assert(alias_applies(sh, path[j]@, path.subrange(0, j)));
        if path[i]@ == path[j]@ {
            assert(path.subrange(0, j)[i]@ == path[j]@);
        }
    }
}

/// Alias expansion on one command path ends: a path on which each name was
/// expanded where it applied holds distinct names of aliases, so it is no
/// longer than the number of aliases.
pub proof fn lemma_expansion_depth(sh: Shell, path: Seq<String>)
    requires
        forall|i: int| 0 <= i < path.len() ==> #[trigger] alias_applies(sh, path[i]@, path.subrange(0, i)),
    ensures
        path.len() <= to_map(sh.aliases@).dom().len(),
{
    lemma_expansions_distinct(sh, path);
    let v = names(path);
    assert(v.no_duplicates()) by {
        assert forall|i: int, j: int| 0 <= i < v.len() && 0 <= j < v.len() && i != j implies v[i] != v[j] by {
            if i < j {
                assert(path[i]@ != path[j]@);
            } else {
                assert(path[j]@ != path[i]@);
            }
        }
    }
    v.unique_seq_to_set();
    crate::assoc::lemma_finite(sh.aliases@);
    assert(v.to_set().subset_of(to_map(sh.aliases@).dom())) by {
        assert forall|x: Seq<char>| v.to_set().contains(x) implies to_map(sh.aliases@).dom().contains(x) by {
            let i = choose|i: int| 0 <= i < v.len() && v[i] == x;
            assert(alias_applies(sh, path[i]@, path.subrange(0, i)));
        }
    }
    vstd::set_lib::lemma_len_subset(v.to_set(), to_map(sh.aliases@).dom());
}

/// In a session, `alias X='Y'` followed by `alias X` prints `alias X='Y'`:
/// what the runner does for the first leaves the aliases from which the
/// second prints that line, for a name `X` without `=`.
pub proof fn lemma_alias_session(
    before: Shell,
    mid: Shell,
    after: Shell,
    x: Seq<char>,
    y: Seq<char>,
    r1: Step,
    r2: Step,
)
    requires
        forall|i: int| 0 <= i < x.len() ==> x[i] != '=',
        alias_done(seq!["alias"@, x + seq!['='] + y], before, mid, r1),
        alias_done(seq!["alias"@, x], mid, after, r2),
    ensures
        r2 matches Step::Print(o, e) && o@ == alias_line(x, y) && e@.len() == 0,
{
    let d = x + seq!['='] + y;
    assert(seq!["alias"@, d].drop_first() =~= seq![d]);
    assert(seq!["alias"@, x].drop_first() =~= seq![x]);
    builtins::lemma_alias_round_trip(to_map(before.aliases@), x, y);
    let m1 = alias_effect(to_map(before.aliases@), seq![d]).0;
    assert(to_map(mid.aliases@) == m1);
    assert(seq![x].drop_last() =~= Seq::<Seq<char>>::empty());
    assert(seq![d].drop_last() =~= Seq::<Seq<char>>::empty());
    assert(alias_effect(m1, Seq::<Seq<char>>::empty()).2 =~= Seq::<char>::empty());
    assert(alias_effect(to_map(before.aliases@), Seq::<Seq<char>>::empty()).2 =~= Seq::<char>::empty());
}

/// An explicit redirection wins over the caller's pipes: a stream that is
/// not the shell's own keeps its endpoint.
pub proof fn lemma_redirection_kept(ports: Seq<PortView>, stdin: int, stdout: int, meta: CmdMeta, i: int)
    requires
        0 <= stdin < ports.len(),
        0 <= stdout < ports.len(),
        0 <= i < ports.len(),
        !(ports[i] is Stdin),
        !(ports[i] is Stdout),
    ensures
        reconciled(ports, stdin, stdout, meta)[i] == ports[i],
{
}

/// A pipeline of simple commands, associating to the left.
pub open spec fn pipe_chain(c: Cmd) -> bool
    decreases c,
{
    match c {
        Cmd::Simple(_) => true,
        Cmd::Pipeline(l, r) => pipe_chain(*l) && (*r is Simple),
        _ => false,
    }
}

/// How many commands a pipeline has.
pub open spec fn chain_len(c: Cmd) -> nat
    decreases c,
{
    match c {
        Cmd::Pipeline(l, _) => chain_len(*l) + 1,
        _ => 1,
    }
}

/// The plumbing that each command of a pipeline is run with, in order, when
/// the pipeline is run with `m` and the next pipe to be given out is `k`:
/// `l | r` gives pipe `k` to `l` for writing and to `r` for reading.
pub open spec fn chain_metas(c: Cmd, m: CmdMeta, k: nat) -> Seq<CmdMeta>
    decreases c,
{
    match c {
        Cmd::Pipeline(l, _) => chain_metas(*l, CmdMeta { stdin: m.stdin, stdout: Some(k as usize) }, k + 1).push(
            CmdMeta { stdin: Some(k as usize), stdout: m.stdout },
        ),
        _ => seq![m],
    }
}

/// In a pipeline of `n` commands: command `i` writes into the pipe that
/// command `i + 1` reads, the first reads the caller's standard input, and
/// the last writes where the caller asked.
pub proof fn lemma_pipeline_wiring(c: Cmd, m: CmdMeta, k: nat)
    requires
        pipe_chain(c),
        k + chain_len(c) <= usize::MAX,
    ensures
        chain_metas(c, m, k).len() == chain_len(c),
        chain_metas(c, m, k)[0].stdin == m.stdin,
        chain_metas(c, m, k).last().stdout == m.stdout,
        forall|i: int| 0 <= i < chain_len(c) - 1 ==> (#[trigger] chain_metas(c, m, k)[i]).stdout is Some
            && chain_metas(c, m, k)[i].stdout == chain_metas(c, m, k)[i + 1].stdin,
    decreases c,
{
    match c {
        Cmd::Pipeline(l, _) => {
            let m2 = CmdMeta { stdin: m.stdin, stdout: Some(k as usize) };
            lemma_pipeline_wiring(*l, m2, k + 1);
            let inner = chain_metas(*l, m2, k + 1);
            let all = chain_metas(c, m, k);
            assert(all == inner.push(CmdMeta { stdin: Some(k as usize), stdout: m.stdout }));
            assert forall|i: int| 0 <= i < chain_len(c) - 1 implies (#[trigger] all[i]).stdout is Some
                && all[i].stdout == all[i + 1].stdin by {
                if i < chain_len(*l) - 1 {
                    assert(all[i] == inner[i]);
                    assert(all[i + 1] == inner[i + 1]);
                } else {
                    assert(all[i] == inner.last());
                }
            }
        },
        _ => {},
    }
}

/// A command made only of the assignment `NAME=V` (see `simple_run`: its
/// stores become `assign_fold` of the one pair) leaves `NAME` mapped to the
/// expansion `v` of `V` in exactly one store, and the other store without
/// `NAME`.
pub proof fn lemma_lone_assignment(before: Shell, k: Seq<char>, v: Seq<char>)
    requires
        before.wf(),
    ensures
        ({
            let st = assign_fold(stores(before), seq![(k, v)]);
            (st.1.contains_key(k) && st.1[k] == v && !st.0.contains_key(k)) || (st.0.contains_key(k)
                && st.0[k] == v && !st.1.contains_key(k))
        }),
{
    let env = seq![(k, v)];
    assert(env.subrange(0, 0) =~= Seq::<(Seq<char>, Seq<char>)>::empty());
    assert(assign_fold(stores(before), env.subrange(0, 0)) == stores(before));
}

} // verus!
