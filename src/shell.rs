//! The long-lived state of the shell: positional parameters, variables,
//! aliases, and a copy of the process environment.
use vstd::prelude::*;
use crate::assoc::{self, to_map};
use vstd::string::StrSliceExecFns;
use crate::text::{decimal, decimal_string, owned, parse_number, parse_u32, push_char};

verus! {

/// The positional parameters joined by single spaces, as `$@` gives them.
pub open spec fn joined(s: Seq<String>) -> Seq<char>
    decreases s.len(),
{
    if s.len() == 0 {
        Seq::empty()
    } else if s.len() == 1 {
        s[0]@
    } else {
        joined(s.drop_last()).push(' ') + s.last()@
    }
}

pub struct Shell {
    pub interactive: bool,
    /// `$1`, `$2`, ...
    pub positional: Vec<String>,
    /// `$0`.
    pub name: String,
    /// Variables of the shell that are not in the environment.
    pub vars: Vec<(String, String)>,
    /// The process environment.
    pub env: Vec<(String, String)>,
    /// The process id, `$$`.
    pub pid: u32,
    pub aliases: Vec<(String, String)>,
}

/// The parts of the shell that parameters read and that expansion does not
/// change: the positional parameters, the name and the process id.
pub open spec fn base_of(sh: Shell) -> (Seq<String>, String, u32) {
    (sh.positional@, sh.name, sh.pid)
}

/// The value of parameter `key`, with the shell's variables `vars` and the
/// environment `env`: `0` is the shell's name, `n` the n-th positional
/// parameter, `@` and `*` all of them joined by spaces, `#` their count, `$`
/// the process id; any other name is looked up in `vars`, then in `env`.
pub open spec fn value_in(
    base: (Seq<String>, String, u32),
    vars: Map<Seq<char>, Seq<char>>,
    env: Map<Seq<char>, Seq<char>>,
    key: Seq<char>,
) -> Option<Seq<char>> {
    let (positional, name, pid) = base;
    if parse_u32(key) is Some {
        let n = parse_u32(key)->Some_0;
        if n == 0 {
            Some(name@)
        } else if n <= positional.len() {
            Some(positional[n - 1]@)
        } else {
            None
        }
    } else if key == seq!['@'] || key == seq!['*'] {
        Some(joined(positional))
    } else if key == seq!['#'] {
        Some(decimal(positional.len()))
    } else if key == seq!['$'] {
        Some(decimal(pid as nat))
    } else if vars.contains_key(key) {
        Some(vars[key])
    } else if env.contains_key(key) {
        Some(env[key])
    } else {
        None
    }
}

/// The stores after setting `k` to `v`: the environment where `k` is there,
/// else the shell's variables.
pub open spec fn set_in(
    vars: Map<Seq<char>, Seq<char>>,
    env: Map<Seq<char>, Seq<char>>,
    k: Seq<char>,
    v: Seq<char>,
) -> (Map<Seq<char>, Seq<char>>, Map<Seq<char>, Seq<char>>) {
    if env.contains_key(k) {
        (vars, env.insert(k, v))
    } else {
        (vars.insert(k, v), env)
    }
}

/// `after` is `before` with variable `k` set to `v`: in the environment
/// where `k` is there, else among the shell's variables.
pub open spec fn assigned(before: Shell, after: Shell, k: Seq<char>, v: Seq<char>) -> bool {
    &&& to_map(before.env@).contains_key(k) ==> to_map(after.env@) == to_map(before.env@).insert(
        k,
        v,
    ) && after.vars == before.vars
    &&& !to_map(before.env@).contains_key(k) ==> to_map(after.vars@) == to_map(
        before.vars@,
    ).insert(k, v) && after.env == before.env
    &&& after.positional == before.positional
    &&& after.name == before.name
    &&& after.aliases == before.aliases
    &&& after.pid == before.pid
    &&& after.interactive == before.interactive
}

/// An assignment lands in exactly one store: the environment where the name
/// is already there, else the shell's variables. That store then maps the
/// name to the value and the other store does not hold the name.
pub proof fn lemma_assignment_in_one_store(before: Shell, after: Shell, k: Seq<char>, v: Seq<char>)
    requires
        before.wf(),
        assigned(before, after, k, v),
    ensures
        after.wf(),
        (to_map(after.env@).contains_key(k) && to_map(after.env@)[k] == v && !to_map(
            after.vars@,
        ).contains_key(k)) || (to_map(after.vars@).contains_key(k) && to_map(after.vars@)[k] == v
            && !to_map(after.env@).contains_key(k)),
{
    if !to_map(before.env@).contains_key(k) {
        assert forall|j: Seq<char>| #[trigger] to_map(after.vars@).contains_key(j) implies !to_map(
            after.env@,
        ).contains_key(j) by {
            if j != k {
                assert(to_map(before.vars@).contains_key(j));
            }
        }
    }
}

/// Setting a variable twice leaves the second value: after `X=v1` and then
/// `X=v2`, `$X` is `v2`.
pub proof fn lemma_reassign(
    s0: Shell,
    s1: Shell,
    s2: Shell,
    k: Seq<char>,
    v1: Seq<char>,
    v2: Seq<char>,
)
    requires
        s0.wf(),
        Shell::is_variable(k),
        assigned(s0, s1, k, v1),
        assigned(s1, s2, k, v2),
    ensures
        s2.value_of(k) == Some(v2),
{
    lemma_assignment_in_one_store(s0, s1, k, v1);
    lemma_assignment_in_one_store(s1, s2, k, v2);
}

impl Shell {
    /// No name is both a variable of the shell and in the environment.
    pub open spec fn wf(&self) -> bool {
        forall|k: Seq<char>| #[trigger] to_map(self.vars@).contains_key(k) ==> !to_map(
            self.env@,
        ).contains_key(k)
    }

    /// The value of parameter `key`.
    pub open spec fn value_of(&self, key: Seq<char>) -> Option<Seq<char>> {
        value_in(base_of(*self), to_map(self.vars@), to_map(self.env@), key)
    }

    /// Whether `key` names a variable rather than a special parameter.
    pub open spec fn is_variable(key: Seq<char>) -> bool {
        parse_u32(key) is None && key != seq!['@'] && key != seq!['*'] && key != seq!['#'] && key
            != seq!['$']
    }

    /// A shell with no positional parameters, variables or aliases, reading
    /// the environment `env`.
    pub fn new(name: String, interactive: bool, env: Vec<(String, String)>, pid: u32) -> (r: Shell)
        ensures
            r.wf(),
            r.name == name,
            r.interactive == interactive,
            r.env == env,
            r.pid == pid,
            r.positional@.len() == 0,
            to_map(r.vars@) == Map::<Seq<char>, Seq<char>>::empty(),
            to_map(r.aliases@) == Map::<Seq<char>, Seq<char>>::empty(),
    {
        Shell {
            interactive,
            positional: Vec::new(),
            name,
            vars: Vec::new(),
            env,
            pid,
            aliases: Vec::new(),
        }
    }

    /// Positional parameter `n`, counting from 1.
    pub fn get_pos(&self, n: u32) -> (r: Option<&String>)
        requires
            n >= 1,
        ensures
            n <= self.positional@.len() ==> r == Some(&self.positional@[n - 1]),
            n > self.positional@.len() ==> r is None,
    {
        let i = (n - 1) as usize;
        if i < self.positional.len() {
            Some(&self.positional[i])
        } else {
            None
        }
    }

    /// Replaces the positional parameters.
    pub fn set_pos(&mut self, pos: Vec<String>)
        ensures
            final(self).positional == pos,
            final(self).name == old(self).name,
            final(self).vars == old(self).vars,
            final(self).env == old(self).env,
            final(self).aliases == old(self).aliases,
            final(self).pid == old(self).pid,
            final(self).interactive == old(self).interactive,
    {
        self.positional = pos;
    }

    pub fn is_interactive(&self) -> (r: bool)
        ensures
            r == self.interactive,
    {
        self.interactive
    }

    /// The value of `key`: `0` is the shell's name, `n` the n-th positional
    /// parameter, `@` and `*` all of them joined by spaces, `#` their count,
    /// `$` the process id; any other name is looked up among the shell's
    /// variables, then in the environment.
    pub fn get_var(&self, key: &String) -> (r: Option<String>)
        ensures
            r is Some == self.value_of(key@) is Some,
            r matches Some(v) ==> v@ == self.value_of(key@)->Some_0,
    {
        proof {
            reveal_strlit("@");
            reveal_strlit("*");
            reveal_strlit("#");
            reveal_strlit("$");
        }
        if let Some(n) = parse_number(key) {
            if n == 0 {
                return Some(self.name.clone());
            }
            return match self.get_pos(n) {
                Some(s) => Some(s.clone()),
                None => None,
            };
        }
        let at = owned("@");
        let star = owned("*");
        let hash = owned("#");
        let dollar = owned("$");
        assert(at@ =~= seq!['@']);
        assert(star@ =~= seq!['*']);
        assert(hash@ =~= seq!['#']);
        assert(dollar@ =~= seq!['$']);
        if *key == at || *key == star {
            Some(join(&self.positional))
        } else if *key == hash {
            Some(decimal_string_of_len(self.positional.len()))
        } else if *key == dollar {
            Some(decimal_string(self.pid))
        } else {
            match assoc::get(&self.vars, key) {
                Some(v) => Some(v),
                None => assoc::get(&self.env, key),
            }
        }
    }

    /// Sets variable `key`: in the environment where it is already there,
    /// else among the shell's variables.
    pub fn set_var(&mut self, key: String, val: String)
        requires
            old(self).wf(),
        ensures
            final(self).wf(),
            assigned(*old(self), *final(self), key@, val@),
    {
        if assoc::get(&self.env, &key).is_some() {
            assoc::insert(&mut self.env, key, val);
        } else {
            assoc::insert(&mut self.vars, key, val);
        }
    }
}

fn decimal_string_of_len(n: usize) -> (r: String)
    ensures
        r@ == decimal(n as nat),
    decreases n,
{
    if n < 10 {
        decimal_string(n as u32)
    } else {
        let mut r = decimal_string_of_len(n / 10);
        let d = decimal_string((n % 10) as u32);
        proof {
            reveal_with_fuel(decimal, 2);
        }
        assert(d@.len() == 1);
        push_char(&mut r, d.as_str().get_char(0));
        r
    }
}

/// The strings of `v` joined by single spaces.
pub fn join(v: &Vec<String>) -> (r: String)
    ensures
        r@ == joined(v@),
{
    let mut r = String::new();
    let mut i: usize = 0;
    while i < v.len()
        invariant
            i <= v.len(),
            r@ == joined(v@.subrange(0, i as int)),
        decreases v.len() - i,
    {
        let ghost pre = v@.subrange(0, i + 1);
        assert(pre.drop_last() =~= v@.subrange(0, i as int));
        if i > 0 {
            push_char(&mut r, ' ');
        }
        r = crate::text::concat(&r, &v[i]);
        i = i + 1;
        assert(r@ =~= joined(v@.subrange(0, i as int)));
    }
    assert(v@.subrange(0, i as int) =~= v@);
    r
}

} // verus!
