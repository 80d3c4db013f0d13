//! Word expansion: turns the fragments of a word into one string, just
//! before a command runs.
//!
//! Two fragments need the outside world: `~name` needs the home directory of
//! a user, `$(...)` the output of a command. Expansion does not wait for
//! them: it reports what it needs (`Stuck::Ask`), the caller finds it out
//! and expands again with the answer added to `Answers`.
use vstd::prelude::*;
use crate::lexer::{Action, Expand};
use crate::assoc::to_map;
use crate::shell::{assigned, base_of, lemma_reassign, set_in, value_in, Shell};
use crate::text::{concat, is_space, is_whitespace, owned, push_char};
use vstd::string::StrSliceExecFns;

verus! {

/// Something that expansion needs from outside.
#[derive(Debug, PartialEq)]
pub enum Need {
    /// The home directory of the user with this name.
    UserDir(String),
    /// The output of this command text.
    Capture(String),
}

/// Why a word could not be expanded yet.
#[derive(Debug, PartialEq)]
pub enum Stuck {
    Ask(Need),
    /// `${name?...}` on an unset or empty value, or an operation that is not
    /// supported. The text is the diagnostic.
    Fail(String),
}

/// What the outside world answered so far.
pub struct Answers {
    pub users: Vec<(String, Option<String>)>,
    pub outputs: Vec<(String, String)>,
}

impl Answers {
    pub fn new() -> (r: Answers)
        ensures
            r.users@.len() == 0,
            r.outputs@.len() == 0,
    {
        Answers { users: Vec::new(), outputs: Vec::new() }
    }
}

/// What `${name OP word}` gives, given the value of `name`.
#[derive(Debug, PartialEq, Eq, Clone, Copy, Structural)]
pub enum Choice {
    /// The value of the parameter.
    Value,
    /// The expansion of the word.
    Word,
    /// The expansion of the word, which is also assigned to the parameter.
    AssignWord,
    /// The empty string.
    Nothing,
    /// An error: `null` when the parameter is set but empty.
    Error(bool),
    /// An operation that this shell does not carry out.
    Unsupported,
}

/// The table of `${name OP word}`: what each action gives on a value that is
/// set and not empty, set and empty, or unset.
pub open spec fn brace_rule(action: Action, val: Option<Seq<char>>) -> Choice {
    let set = val is Some;
    let empty = set && val->Some_0.len() == 0;
    match action {
        Action::UseDefault(null) => if !set || (empty && null) {
            Choice::Word
        } else {
            Choice::Value
        },
        Action::AssignDefault(null) => if !set || (empty && null) {
            Choice::AssignWord
        } else {
            Choice::Value
        },
        Action::IndicateError(null) => if !set {
            Choice::Error(false)
        } else if empty && null {
            Choice::Error(true)
        } else {
            Choice::Value
        },
        Action::UseAlternate(null) => if !set || (empty && null) {
            Choice::Nothing
        } else {
            Choice::Word
        },
        _ => Choice::Unsupported,
    }
}

/// Picks the entry of the table of `${name OP word}`.
pub fn brace_choice(action: Action, val: &Option<String>) -> (r: Choice)
    ensures
        r == brace_rule(
            action,
            match val {
                Some(s) => Some(s@),
                None => None,
            },
        ),
{
    let (set, empty) = match val {
        Some(s) => (true, s.as_str().is_empty()),
        None => (false, false),
    };
    match action {
        Action::UseDefault(null) => if !set || (empty && null) {
            Choice::Word
        } else {
            Choice::Value
        },
        Action::AssignDefault(null) => if !set || (empty && null) {
            Choice::AssignWord
        } else {
            Choice::Value
        },
        Action::IndicateError(null) => if !set {
            Choice::Error(false)
        } else if empty && null {
            Choice::Error(true)
        } else {
            Choice::Value
        },
        Action::UseAlternate(null) => if !set || (empty && null) {
            Choice::Nothing
        } else {
            Choice::Word
        },
        _ => Choice::Unsupported,
    }
}

/// A word made only of literal text and plain variables.
pub open spec fn plain(ws: Seq<Expand>) -> bool {
    forall|i: int| 0 <= i < ws.len() ==> (#[trigger] ws[i] is Literal || ws[i] is Var)
}

/// The expansion of a plain word: literal text as it is, a variable as its
/// value, or nothing where it is unset.
pub open spec fn plain_text(sh: Shell, ws: Seq<Expand>) -> Seq<char>
    decreases ws.len(),
{
    if ws.len() == 0 {
        Seq::empty()
    } else {
        plain_text(sh, ws.drop_last()) + match ws.last() {
            Expand::Literal(s) => s@,
            Expand::Var(n) => match sh.value_of(n@) {
                Some(v) => v,
                None => Seq::empty(),
            },
            _ => Seq::empty(),
        }
    }
}

/// `s` with each run of white space made one space, and none at either end.
pub open spec fn squeezed(s: Seq<char>) -> Seq<char>
    decreases s.len(),
{
    if s.len() == 0 {
        Seq::empty()
    } else if is_space(s.last()) {
        squeezed(s.drop_last())
    } else {
        let before = squeezed(s.drop_last());
        if before.len() > 0 && is_space(s[s.len() - 2]) {
            before.push(' ').push(s.last())
        } else {
            before.push(s.last())
        }
    }
}

/// Makes each run of white space in `s` one space and trims both ends.
pub fn squeeze(s: &String) -> (r: String)
    ensures
        r@ == squeezed(s@),
{
    let n = s.as_str().unicode_len();
    let mut r = String::new();
    let mut i: usize = 0;
    while i < n
        invariant
            n == s@.len(),
            i <= n,
            r@ == squeezed(s@.subrange(0, i as int)),
        decreases n - i,
    {
        let c = s.as_str().get_char(i);
        let ghost pre = s@.subrange(0, i + 1);
        assert(pre.drop_last() =~= s@.subrange(0, i as int));
        if !is_whitespace(c) {
            if i > 0 && r.as_str().unicode_len() > 0 && is_whitespace(s.as_str().get_char(i - 1)) {
                push_char(&mut r, ' ');
            }
            push_char(&mut r, c);
        }
        i = i + 1;
    }
    assert(s@.subrange(0, n as int) =~= s@);
    r
}

fn find_user(ans: &Answers, name: &String) -> (r: Option<Option<String>>)
    ensures
        user_answer(ans.users@, name@) == match r {
            Some(Some(d)) => Some(Some(d@)),
            Some(None) => Some(None::<Seq<char>>),
            None => None,
        },
{
    let mut i: usize = 0;
    assert(ans.users@.subrange(0, ans.users@.len() as int) =~= ans.users@);
    while i < ans.users.len()
        invariant
            i <= ans.users.len(),
            user_answer(ans.users@, name@) == user_answer(
                ans.users@.subrange(i as int, ans.users@.len() as int),
                name@,
            ),
        decreases ans.users.len() - i,
    {
        let ghost rest = ans.users@.subrange(i as int, ans.users@.len() as int);
        assert(rest.drop_first() =~= ans.users@.subrange(i + 1, ans.users@.len() as int));
        if ans.users[i].0 == *name {
            return match &ans.users[i].1 {
                Some(d) => Some(Some(d.clone())),
                None => Some(None),
            };
        }
        i = i + 1;
    }
    None
}

fn find_output(ans: &Answers, text: &String) -> (r: Option<String>)
    ensures
        output_answer(ans.outputs@, text@) == match r {
            Some(o) => Some(o@),
            None => None,
        },
{
    let mut i: usize = 0;
    assert(ans.outputs@.subrange(0, ans.outputs@.len() as int) =~= ans.outputs@);
    while i < ans.outputs.len()
        invariant
            i <= ans.outputs.len(),
            output_answer(ans.outputs@, text@) == output_answer(
                ans.outputs@.subrange(i as int, ans.outputs@.len() as int),
                text@,
            ),
        decreases ans.outputs.len() - i,
    {
        let ghost rest = ans.outputs@.subrange(i as int, ans.outputs@.len() as int);
        assert(rest.drop_first() =~= ans.outputs@.subrange(i + 1, ans.outputs@.len() as int));
        if ans.outputs[i].0 == *text {
            return Some(ans.outputs[i].1.clone());
        }
        i = i + 1;
    }
    None
}

/// Where `~` followed by `s` points: `Ok(rest)` for `$HOME` followed by
/// `rest`, `Err((name, rest))` for the home of user `name` followed by `rest`.
pub open spec fn tilde_rule(s: Seq<char>) -> Result<Seq<char>, (Seq<char>, Seq<char>)> {
    if s.len() == 0 || s[0] == '/' {
        Ok(s)
    } else if exists|i: int|
        0 <= i < s.len() && s[i] == '/' && forall|j: int| 0 <= j < i ==> s[j] != '/' {
        let i = choose|i: int| 0 <= i < s.len() && s[i] == '/' && forall|j: int| 0 <= j < i ==> s[j] != '/';
        Err((s.subrange(0, i), s.subrange(i, s.len() as int)))
    } else {
        Err((s, Seq::empty()))
    }
}

/// Splits what follows `~` at its first `/`.
pub fn split_tilde(s: &String) -> (r: Result<String, (String, String)>)
    ensures
        match (r, tilde_rule(s@)) {
            (Ok(a), Ok(b)) => a@ == b,
            (Err((n, p)), Err((m, q))) => n@ == m && p@ == q,
            _ => false,
        },
{
    let n = s.as_str().unicode_len();
    if n == 0 || s.as_str().get_char(0) == '/' {
        return Ok(s.clone());
    }
    let mut name = String::new();
    let mut i: usize = 0;
    while i < n && s.as_str().get_char(i) != '/'
        invariant
            n == s@.len(),
            i <= n,
            name@ == s@.subrange(0, i as int),
            forall|j: int| 0 <= j < i ==> s@[j] != '/',
        decreases n - i,
    {
        push_char(&mut name, s.as_str().get_char(i));
        i = i + 1;
    }
    if i == n {
        assert(name@ =~= s@);
        return Err((name, String::new()));
    }
    let mut rest = String::new();
    let mut j: usize = i;
    while j < n
        invariant
            n == s@.len(),
            i <= j <= n,
            rest@ == s@.subrange(i as int, j as int),
        decreases n - j,
    {
        push_char(&mut rest, s.as_str().get_char(j));
        j = j + 1;
        assert(rest@ =~= s@.subrange(i as int, j as int));
    }
    proof {
        assert(s@[i as int] == '/');
        let k = choose|k: int|
            0 <= k < s@.len() && s@[k] == '/' && forall|j: int| 0 <= j < k ==> s@[j] != '/';
        if k > i {
            assert(s@[i as int] != '/');
        }
        assert(k == i);
        assert(name@ =~= s@.subrange(0, i as int));
    }
    Err((name, rest))
}

/// Why expansion stopped, as a value of the model.
pub enum Halt {
    /// The home directory of this user is needed.
    User(Seq<char>),
    /// The output of this command text is needed.
    Capture(Seq<char>),
    /// The diagnostic of an error.
    Fail(Seq<char>),
}

pub open spec fn halt_of(s: Stuck) -> Halt {
    match s {
        Stuck::Ask(Need::UserDir(n)) => Halt::User(n@),
        Stuck::Ask(Need::Capture(t)) => Halt::Capture(t@),
        Stuck::Fail(m) => Halt::Fail(m@),
    }
}

/// The first answer about user `name`.
pub open spec fn user_answer(us: Seq<(String, Option<String>)>, name: Seq<char>) -> Option<
    Option<Seq<char>>,
>
    decreases us.len(),
{
    if us.len() == 0 {
        None
    } else if us[0].0@ == name {
        Some(
            match us[0].1 {
                Some(d) => Some(d@),
                None => None,
            },
        )
    } else {
        user_answer(us.drop_first(), name)
    }
}

/// The first answer about command text `text`.
pub open spec fn output_answer(outs: Seq<(String, String)>, text: Seq<char>) -> Option<Seq<char>>
    decreases outs.len(),
{
    if outs.len() == 0 {
        None
    } else if outs[0].0@ == text {
        Some(outs[0].1@)
    } else {
        output_answer(outs.drop_first(), text)
    }
}

/// The stores of variables: the shell's own, then the environment.
pub type Stores = (Map<Seq<char>, Seq<char>>, Map<Seq<char>, Seq<char>>);

/// The diagnostic of `${key?message}`.
pub open spec fn error_text(key: Seq<char>, message: Seq<char>, null: bool) -> Seq<char> {
    key + seq![':', ' '] + if message.len() > 0 {
        message
    } else if null {
        "parameter null"@
    } else {
        "parameter not set"@
    }
}

/// What a word expands to, with the answers `ans` and the stores `st`, and
/// the stores afterwards. Fragments are expanded left to right; each sees
/// the assignments of those before it.
pub open spec fn expansion(
    base: (Seq<String>, String, u32),
    ans: (Seq<(String, Option<String>)>, Seq<(String, String)>),
    st: Stores,
    ws: Seq<Expand>,
) -> (Result<Seq<char>, Halt>, Stores)
    decreases ws,
{
    if ws.len() == 0 {
        (Ok(Seq::empty()), st)
    } else {
        let (r0, st0) = expansion(base, ans, st, ws.subrange(0, ws.len() - 1));
        match r0 {
            Err(h) => (Err(h), st0),
            Ok(p) => {
                let (r1, st1) = fragment(base, ans, st0, ws[ws.len() - 1]);
                (
                    match r1 {
                        Ok(t) => Ok(p + t),
                        Err(h) => Err(h),
                    },
                    st1,
                )
            },
        }
    }
}

/// What one fragment expands to, and the stores afterwards.
pub open spec fn fragment(
    base: (Seq<String>, String, u32),
    ans: (Seq<(String, Option<String>)>, Seq<(String, String)>),
    st: Stores,
    e: Expand,
) -> (Result<Seq<char>, Halt>, Stores)
    decreases e,
{
    match e {
        Expand::Literal(s) => (Ok(s@), st),
        Expand::Var(n) => (
            Ok(
                match value_in(base, st.0, st.1, n@) {
                    Some(v) => v,
                    None => Seq::empty(),
                },
            ),
            st,
        ),
        Expand::Tilde(inner) => {
            let (ri, sti) = expansion(base, ans, st, inner@);
            match ri {
                Err(h) => (Err(h), sti),
                Ok(t) => (
                    match tilde_rule(t) {
                        Ok(rest) => Ok(
                            match value_in(base, sti.0, sti.1, "HOME"@) {
                                Some(h) => h,
                                None => Seq::empty(),
                            } + rest,
                        ),
                        Err((name, rest)) => match user_answer(ans.0, name) {
                            Some(Some(dir)) => Ok(dir + rest),
                            Some(None) => Ok(seq!['~'] + t),
                            None => Err(Halt::User(name)),
                        },
                    },
                    sti,
                ),
            }
        },
        Expand::Brace(key, action, inner) => {
            let val = value_in(base, st.0, st.1, key@);
            match brace_rule(action, val) {
                Choice::Value => (Ok(val->Some_0), st),
                Choice::Nothing => (Ok(Seq::empty()), st),
                Choice::Unsupported => (Err(Halt::Fail(key@ + ": unsupported substitution"@)), st),
                Choice::Word => expansion(base, ans, st, inner@),
                Choice::AssignWord => {
                    let (ri, sti) = expansion(base, ans, st, inner@);
                    match ri {
                        Ok(t) => (Ok(t), set_in(sti.0, sti.1, key@, t)),
                        Err(h) => (Err(h), sti),
                    }
                },
                Choice::Error(null) => {
                    let (ri, sti) = expansion(base, ans, st, inner@);
                    match ri {
                        Ok(m) => (Err(Halt::Fail(error_text(key@, m, null))), sti),
                        Err(h) => (Err(h), sti),
                    }
                },
            }
        },
        Expand::Sub(text) => (
            match output_answer(ans.1, text@) {
                Some(o) => Ok(squeezed(o)),
                None => Err(Halt::Capture(text@)),
            },
            st,
        ),
    }
}

/// The stores of a shell.
pub open spec fn stores(sh: Shell) -> Stores {
    (to_map(sh.vars@), to_map(sh.env@))
}

/// The answers, as values of the model.
pub open spec fn answers(a: Answers) -> (Seq<(String, Option<String>)>, Seq<(String, String)>) {
    (a.users@, a.outputs@)
}

/// `r` and the stores of `after` are what the model gives.
pub open spec fn as_modelled(model: (Result<Seq<char>, Halt>, Stores), r: Result<String, Stuck>, after: Shell) -> bool {
    &&& stores(after) == model.1
    &&& match r {
        Ok(s) => model.0 == Ok::<Seq<char>, Halt>(s@),
        Err(e) => model.0 == Err::<Seq<char>, Halt>(halt_of(e)),
    }
}

/// Once a prefix of a word stops, the word stops there.
proof fn lemma_halt_stays(
    base: (Seq<String>, String, u32),
    ans: (Seq<(String, Option<String>)>, Seq<(String, String)>),
    st: Stores,
    ws: Seq<Expand>,
    k: int,
)
    requires
        0 <= k <= ws.len(),
        expansion(base, ans, st, ws.subrange(0, k)).0 is Err,
    ensures
        expansion(base, ans, st, ws) == expansion(base, ans, st, ws.subrange(0, k)),
    decreases ws.len() - k,
{
    if k < ws.len() {
        assert(ws.subrange(0, k + 1).subrange(0, k) =~= ws.subrange(0, k));
        lemma_halt_stays(base, ans, st, ws, k + 1);
    } else {
        assert(ws.subrange(0, k) =~= ws);
    }
}

/// Expands one word, as `expansion` says.
///
/// A plain word (literal text and variables) expands to `plain_text` and
/// leaves the shell as it is. Otherwise the shell's variables can change
/// only through `${name=word}` and `${name:=word}`.
pub fn expand_word(shell: &mut Shell, ws: &Vec<Expand>, ans: &Answers) -> (r: Result<String, Stuck>)
    requires
        old(shell).wf(),
    ensures
        final(shell).wf(),
        final(shell).positional == old(shell).positional,
        final(shell).name == old(shell).name,
        final(shell).aliases == old(shell).aliases,
        final(shell).pid == old(shell).pid,
        final(shell).interactive == old(shell).interactive,
        as_modelled(
            expansion(base_of(*old(shell)), answers(*ans), stores(*old(shell)), ws@),
            r,
            *final(shell),
        ),
        plain(ws@) ==> *final(shell) == *old(shell),
        plain(ws@) ==> (r matches Ok(s) && s@ == plain_text(*old(shell), ws@)),
    decreases ws,
{
    let ghost base = base_of(*shell);
    let ghost av = answers(*ans);
    let ghost st0 = stores(*shell);
    let mut phrase = String::new();
    let mut i: usize = 0;
    assert(ws@.subrange(0, 0) =~= Seq::<Expand>::empty());
    while i < ws.len()
        invariant
            i <= ws.len(),
            shell.wf(),
            shell.positional == old(shell).positional,
            shell.name == old(shell).name,
            shell.aliases == old(shell).aliases,
            shell.pid == old(shell).pid,
            shell.interactive == old(shell).interactive,
            base == base_of(*old(shell)),
            av == answers(*ans),
            st0 == stores(*old(shell)),
            expansion(base, av, st0, ws@.subrange(0, i as int)) == (
                Ok::<Seq<char>, Halt>(phrase@),
                stores(*shell),
            ),
            plain(ws@) ==> *shell == *old(shell) && phrase@ == plain_text(
                *old(shell),
                ws@.subrange(0, i as int),
            ),
        decreases ws.len() - i,
    {
        let ghost pre = ws@.subrange(0, i + 1);
        assert(pre.drop_last() =~= ws@.subrange(0, i as int));
        assert(pre.subrange(0, pre.len() - 1) =~= ws@.subrange(0, i as int));
        assert(pre[pre.len() - 1] == ws@[i as int]);
        assert(decreases_to!(ws => ws@));
        assert(decreases_to!(ws@ => ws@[i as int]));
        let t = match expand_fragment(shell, &ws[i], ans) {
            Ok(t) => t,
            Err(e) => {
                proof {
                    lemma_halt_stays(base, av, st0, ws@, i + 1);
                }
                return Err(e);
            },
        };
        phrase = concat(&phrase, &t);
        i = i + 1;
    }
    assert(ws@.subrange(0, i as int) =~= ws@);
    Ok(phrase)
}

/// Expands one fragment, as `fragment` says.
pub fn expand_fragment(shell: &mut Shell, e: &Expand, ans: &Answers) -> (r: Result<String, Stuck>)
    requires
        old(shell).wf(),
    ensures
        final(shell).wf(),
        final(shell).positional == old(shell).positional,
        final(shell).name == old(shell).name,
        final(shell).aliases == old(shell).aliases,
        final(shell).pid == old(shell).pid,
        final(shell).interactive == old(shell).interactive,
        as_modelled(
            fragment(base_of(*old(shell)), answers(*ans), stores(*old(shell)), *e),
            r,
            *final(shell),
        ),
        (e is Literal || e is Var) ==> *final(shell) == *old(shell),
        e is Literal ==> (r matches Ok(s) && s@ == e->Literal_0@),
        e is Var ==> (r matches Ok(s) && s@ == match old(shell).value_of(e->Var_0@) {
            Some(v) => v,
            None => Seq::empty(),
        }),
    decreases e,
{
    proof {
        reveal_strlit("HOME");
        reveal_strlit("parameter null");
        reveal_strlit("parameter not set");
        reveal_strlit(": unsupported substitution");
    }
    match e {
        Expand::Literal(s) => Ok(s.clone()),
        Expand::Var(n) => {
            match shell.get_var(n) {
                Some(v) => Ok(v),
                None => Ok(String::new()),
            }
        },
        Expand::Tilde(inner) => {
            let s = expand_word(shell, inner, ans)?;
            match split_tilde(&s) {
                Ok(rest) => {
                    let home = match shell.get_var(&owned("HOME")) {
                        Some(h) => h,
                        None => String::new(),
                    };
                    Ok(concat(&home, &rest))
                },
                Err((name, rest)) => {
                    match find_user(ans, &name) {
                        Some(Some(dir)) => Ok(concat(&dir, &rest)),
                        Some(None) => {
                            let mut t = String::new();
                            push_char(&mut t, '~');
                            assert(t@ =~= seq!['~']);
                            Ok(concat(&t, &s))
                        },
                        None => Err(Stuck::Ask(Need::UserDir(name))),
                    }
                },
            }
        },
        Expand::Brace(key, action, inner) => {
            let val = shell.get_var(key);
            match brace_choice(*action, &val) {
                Choice::Value => {
                    match val {
                        Some(v) => Ok(v),
                        None => Ok(String::new()),
                    }
                },
                Choice::Word => expand_word(shell, inner, ans),
                Choice::AssignWord => {
                    let w = expand_word(shell, inner, ans)?;
                    shell.set_var(key.clone(), w.clone());
                    Ok(w)
                },
                Choice::Nothing => Ok(String::new()),
                Choice::Error(null) => {
                    let message = expand_word(shell, inner, ans)?;
                    let mut text = key.clone();
                    push_char(&mut text, ':');
                    push_char(&mut text, ' ');
                    assert(text@ =~= key@ + seq![':', ' ']);
                    if !message.as_str().is_empty() {
                        text = concat(&text, &message);
                    } else if null {
                        text = concat(&text, &owned("parameter null"));
                    } else {
                        text = concat(&text, &owned("parameter not set"));
                    }
                    assert(text@ =~= error_text(key@, message@, null));
                    Err(Stuck::Fail(text))
                },
                Choice::Unsupported => {
                    let text = concat(key, &owned(": unsupported substitution"));
                    Err(Stuck::Fail(text))
                },
            }
        },
        Expand::Sub(text) => {
            match find_output(ans, text) {
                Some(out) => Ok(squeeze(&out)),
                None => Err(Stuck::Ask(Need::Capture(text.clone()))),
            }
        },
    }
}

/// After `X=v1` and then `X=v2`, the word `$X` expands to `v2`.
pub proof fn lemma_reassigned_word(s0: Shell, s1: Shell, s2: Shell, x: String, v1: Seq<char>, v2: Seq<char>)
    requires
        s0.wf(),
        Shell::is_variable(x@),
        assigned(s0, s1, x@, v1),
        assigned(s1, s2, x@, v2),
    ensures
        plain(seq![Expand::Var(x)]),
        plain_text(s2, seq![Expand::Var(x)]) == v2,
{
    lemma_reassign(s0, s1, s2, x@, v1, v2);
    let w = seq![Expand::Var(x)];
    assert(w.drop_last() =~= Seq::<Expand>::empty());
    assert(plain_text(s2, w.drop_last()) == Seq::<char>::empty());
    assert(w.last() == Expand::Var(x));
    assert(Seq::<char>::empty() + v2 =~= v2);
}

} // verus!
