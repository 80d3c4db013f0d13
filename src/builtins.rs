//! The commands that the shell carries out itself: `alias`, `unalias`,
//! `set`, and the decisions of `exit` and `cd`.
use vstd::prelude::*;
use vstd::seq_lib::{to_multiset_build, to_multiset_insert};
use vstd::string::StrSliceExecFns;
use crate::assoc::{self, to_map};
use crate::shell::Shell;
use crate::text::{all_digits, concat, digits_value, owned, parse_u32, push_char, views};

verus! {

/// What a built-in printed and whether it succeeded.
#[derive(Debug, PartialEq)]
pub struct Outcome {
    pub out: String,
    pub err: String,
    pub status: bool,
}

/// Lexicographic order on names, character by character.
pub open spec fn key_lt(a: Seq<char>, b: Seq<char>) -> bool
    decreases a.len(),
{
    if a.len() == 0 {
        b.len() > 0
    } else if b.len() == 0 {
        false
    } else if a[0] != b[0] {
        (a[0] as u32) < (b[0] as u32)
    } else {
        key_lt(a.drop_first(), b.drop_first())
    }
}

proof fn lemma_key_lt_irreflexive(a: Seq<char>)
    ensures
        !key_lt(a, a),
    decreases a.len(),
{
    if a.len() > 0 {
        lemma_key_lt_irreflexive(a.drop_first());
    }
}

proof fn lemma_key_lt_transitive(a: Seq<char>, b: Seq<char>, c: Seq<char>)
    requires
        key_lt(a, b),
        key_lt(b, c),
    ensures
        key_lt(a, c),
    decreases a.len(),
{
    if a.len() > 0 && b.len() > 0 && c.len() > 0 && a[0] == b[0] && b[0] == c[0] {
        lemma_key_lt_transitive(a.drop_first(), b.drop_first(), c.drop_first());
    }
}

/// Pairs in ascending order of their names.
pub open spec fn sorted_by_name(s: Seq<(String, String)>) -> bool {
    forall|i: int, j: int| 0 <= i < j < s.len() ==> !key_lt(#[trigger] s[j].0@, #[trigger] s[i].0@)
}

fn less(a: &String, b: &String) -> (r: bool)
    ensures
        r == key_lt(a@, b@),
{
    let n = a.as_str().unicode_len();
    let m = b.as_str().unicode_len();
    let mut i: usize = 0;
    assert(a@.subrange(0, n as int) =~= a@);
    assert(b@.subrange(0, m as int) =~= b@);
    while i < n && i < m && a.as_str().get_char(i) == b.as_str().get_char(i)
        invariant
            n == a@.len(),
            m == b@.len(),
            i <= n,
            i <= m,
            key_lt(a@, b@) == key_lt(a@.subrange(i as int, n as int), b@.subrange(i as int, m as int)),
        decreases n - i,
    {
        let ghost x = a@.subrange(i as int, n as int);
        let ghost y = b@.subrange(i as int, m as int);
        assert(x.drop_first() =~= a@.subrange(i + 1, n as int));
        assert(y.drop_first() =~= b@.subrange(i + 1, m as int));
        i = i + 1;
    }
    if i == n {
        i < m
    } else if i == m {
        false
    } else {
        (a.as_str().get_char(i) as u32) < (b.as_str().get_char(i) as u32)
    }
}

/// The pairs of `v` in ascending order of their names; pairs with equal
/// names keep their order.
pub fn sorted_pairs(v: &Vec<(String, String)>) -> (r: Vec<(String, String)>)
    ensures
        sorted_by_name(r@),
        r@.to_multiset() == v@.to_multiset(),
{
    broadcast use to_multiset_build, to_multiset_insert;

    let mut r: Vec<(String, String)> = Vec::new();
    let mut i: usize = 0;
    assert(v@.subrange(0, 0) =~= Seq::<(String, String)>::empty());
    assert(r@ =~= Seq::<(String, String)>::empty());
    while i < v.len()
        invariant
            i <= v.len(),
            sorted_by_name(r@),
            r@.to_multiset() == v@.subrange(0, i as int).to_multiset(),
        decreases v.len() - i,
    {
        let x = (v[i].0.clone(), v[i].1.clone());
        assert(x == v@[i as int]);
        let mut p: usize = 0;
        while p < r.len() && !less(&x.0, &r[p].0)
            invariant
                p <= r.len(),
                forall|q: int| 0 <= q < p ==> !key_lt(x.0@, #[trigger] r@[q].0@),
            decreases r.len() - p,
        {
            p = p + 1;
        }
        let ghost before = r@;
        r.insert(p, x);
        proof {
            assert forall|a: int, b: int| 0 <= a < b < r@.len() implies !key_lt(
                #[trigger] r@[b].0@,
                #[trigger] r@[a].0@,
            ) by {
                if a < p as int && b == p as int {
                } else if a == p as int && b > p as int {
                    let y = before[p as int].0@;
                    assert(key_lt(x.0@, y));
                    if key_lt(r@[b].0@, x.0@) {
                        if b == p + 1 {
                            lemma_key_lt_transitive(y, x.0@, y);
                            lemma_key_lt_irreflexive(y);
                        } else {
                            lemma_key_lt_transitive(before[b - 1].0@, x.0@, y);
                            assert(!key_lt(before[b - 1].0@, before[p as int].0@));
                        }
                    }
                } else if a < p as int && b > p as int {
                    assert(r@[b] == before[b - 1]);
                    assert(r@[a] == before[a]);
                } else if a > p as int {
                    assert(r@[b] == before[b - 1]);
                    assert(r@[a] == before[a - 1]);
                } else {
                    assert(r@[b] == before[b]);
                    assert(r@[a] == before[a]);
                }
            }
            assert(v@.subrange(0, i + 1) =~= v@.subrange(0, i as int).push(v@[i as int]));
            to_multiset_insert(before, p as int, x);
            to_multiset_build(v@.subrange(0, i as int), v@[i as int]);
        }
        i = i + 1;
    }
    assert(v@.subrange(0, i as int) =~= v@);
    r
}

/// The line that describes one alias.
pub open spec fn alias_line(k: Seq<char>, v: Seq<char>) -> Seq<char> {
    seq!['a', 'l', 'i', 'a', 's', ' '] + k + seq!['=', '\''] + v + seq!['\'', '\n']
}

/// The lines that describe the aliases `s`, in order.
pub open spec fn listing(s: Seq<(String, String)>) -> Seq<char>
    decreases s.len(),
{
    if s.len() == 0 {
        Seq::empty()
    } else {
        listing(s.drop_last()) + alias_line(s.last().0@, s.last().1@)
    }
}

fn line_of(k: &String, v: &String) -> (r: String)
    ensures
        r@ == alias_line(k@, v@),
{
    let mut r = owned("alias ");
    proof {
        reveal_strlit("alias ");
    }
    r = concat(&r, k);
    push_char(&mut r, '=');
    push_char(&mut r, '\'');
    r = concat(&r, v);
    push_char(&mut r, '\'');
    push_char(&mut r, '\n');
    assert(r@ =~= alias_line(k@, v@));
    r
}

/// The position of the first `c` in `s`.
pub open spec fn first_index(s: Seq<char>, c: char) -> Option<int> {
    if exists|i: int| 0 <= i < s.len() && s[i] == c && forall|j: int| 0 <= j < i ==> s[j] != c {
        Some(choose|i: int| 0 <= i < s.len() && s[i] == c && forall|j: int| 0 <= j < i ==> s[j] != c)
    } else {
        None
    }
}

/// Splits `s` at its first `=`.
fn split_assignment(s: &String) -> (r: Option<(String, String)>)
    ensures
        first_index(s@, '=') is None ==> r is None,
        first_index(s@, '=') matches Some(i) ==> (r matches Some((k, v)) && k@ == s@.subrange(0, i)
            && v@ == s@.subrange(i + 1, s@.len() as int)),
{
    let n = s.as_str().unicode_len();
    let mut k = String::new();
    let mut i: usize = 0;
    while i < n && s.as_str().get_char(i) != '='
        invariant
            n == s@.len(),
            i <= n,
            k@ == s@.subrange(0, i as int),
            forall|j: int| 0 <= j < i ==> s@[j] != '=',
        decreases n - i,
    {
        push_char(&mut k, s.as_str().get_char(i));
        i = i + 1;
        assert(k@ =~= s@.subrange(0, i as int));
    }
    if i == n {
        return None;
    }
    let mut v = String::new();
    let mut j: usize = i + 1;
    while j < n
        invariant
            n == s@.len(),
            i < j <= n,
            v@ == s@.subrange(i + 1, j as int),
        decreases n - j,
    {
        push_char(&mut v, s.as_str().get_char(j));
        j = j + 1;
        assert(v@ =~= s@.subrange(i + 1, j as int));
    }
    proof {
        assert(s@[i as int] == '=');
        let c = choose|c: int| 0 <= c < s@.len() && s@[c] == '=' && forall|j: int| 0 <= j < c ==> s@[j] != '=';
        if c > i {
            assert(s@[i as int] != '=');
        }
        assert(c == i);
    }
    Some((k, v))
}

/// What `alias` does with its arguments, one after the other, starting from
/// the aliases `m`: `NAME=VALUE` defines, `NAME` prints the definition or,
/// where there is none, a complaint. Gives the aliases, what went to the
/// standard output and error, and whether every name was found.
pub open spec fn alias_effect(m: Map<Seq<char>, Seq<char>>, args: Seq<Seq<char>>) -> (
    Map<Seq<char>, Seq<char>>,
    Seq<char>,
    Seq<char>,
    bool,
)
    decreases args.len(),
{
    if args.len() == 0 {
        (m, Seq::empty(), Seq::empty(), true)
    } else {
        let (m1, o1, e1, ok1) = alias_effect(m, args.drop_last());
        let a = args.last();
        match first_index(a, '=') {
            Some(i) => (m1.insert(a.subrange(0, i), a.subrange(i + 1, a.len() as int)), o1, e1, ok1),
            None => if m1.contains_key(a) {
                (m1, o1 + alias_line(a, m1[a]), e1, ok1)
            } else {
                (m1, o1, e1 + not_found(a), false)
            },
        }
    }
}

/// The complaint about an unknown alias.
pub open spec fn not_found(a: Seq<char>) -> Seq<char> {
    seq!['a', 'l', 'i', 'a', 's', ':', ' '] + a + seq![':', ' ', 'n', 'o', 't', ' ', 'f', 'o', 'u', 'n', 'd', '\n']
}

/// `alias`: with no arguments, prints every alias in ascending order of
/// names; else handles each argument as `alias_effect` says.
pub fn alias(aliases: &mut Vec<(String, String)>, args: &Vec<String>) -> (r: Outcome)
    ensures
        args@.len() == 0 ==> *final(aliases) == *old(aliases) && r.status && r.err@.len() == 0
            && exists|s: Seq<(String, String)>|
            sorted_by_name(s) && s.to_multiset() == old(aliases)@.to_multiset() && r.out@
                == listing(s),
        args@.len() > 0 ==> ({
            let (m, o, e, ok) = alias_effect(to_map(old(aliases)@), views(args@));
            to_map(final(aliases)@) == m && r.out@ == o && r.err@ == e && r.status == ok
        }),
{
    if args.len() == 0 {
        let s = sorted_pairs(aliases);
        let mut out = String::new();
        let mut i: usize = 0;
        while i < s.len()
            invariant
                i <= s.len(),
                out@ == listing(s@.subrange(0, i as int)),
            decreases s.len() - i,
        {
            assert(s@.subrange(0, i + 1).drop_last() =~= s@.subrange(0, i as int));
            out = concat(&out, &line_of(&s[i].0, &s[i].1));
            i = i + 1;
        }
        assert(s@.subrange(0, i as int) =~= s@);
        return Outcome { out, err: String::new(), status: true };
    }
    let mut out = String::new();
    let mut err = String::new();
    let mut status = true;
    let mut i: usize = 0;
    while i < args.len()
        invariant
            i <= args.len(),
            ({
                let (m, o, e, ok) = alias_effect(to_map(old(aliases)@), views(args@.subrange(0, i as int)));
                to_map(aliases@) == m && out@ == o && err@ == e && status == ok
            }),
        decreases args.len() - i,
    {
        assert(views(args@.subrange(0, i + 1)).drop_last() =~= views(args@.subrange(0, i as int)));
        assert(views(args@.subrange(0, i + 1)).last() == args@[i as int]@);
        let a = &args[i];
        match split_assignment(a) {
            Some((k, v)) => {
                assoc::insert(aliases, k, v);
            },
            None => {
                match assoc::get(aliases, a) {
                    Some(v) => {
                        out = concat(&out, &line_of(a, &v));
                    },
                    None => {
                        let mut line = owned("alias: ");
                        line = concat(&line, a);
                        line = concat(&line, &owned(": not found\n"));
                        proof {
                            reveal_strlit("alias: ");
                            reveal_strlit(": not found\n");
                        }
                        assert(line@ =~= not_found(a@));
                        err = concat(&err, &line);
                        status = false;
                    },
                }
            },
        }
        i = i + 1;
    }
    assert(args@.subrange(0, i as int) =~= args@);
    Outcome { out, err, status: status }
}

/// `unalias`: removes each named alias.
pub fn unalias(aliases: &mut Vec<(String, String)>, args: &Vec<String>) -> (r: bool)
    ensures
        r,
        forall|k: Seq<char>| #[trigger] to_map(final(aliases)@).contains_key(k) <==> (to_map(
            old(aliases)@,
        ).contains_key(k) && !views(args@).contains(k)),
        forall|k: Seq<char>| #[trigger] to_map(final(aliases)@).contains_key(k) ==> to_map(
            final(aliases)@,
        )[k] == to_map(old(aliases)@)[k],
{
    let mut i: usize = 0;
    assert forall|k: Seq<char>| views(args@).contains(k) <==> (exists|j: int| 0 <= j < args@.len() && args@[j]@ == k) by {
        if views(args@).contains(k) {
            let j = choose|j: int| 0 <= j < views(args@).len() && views(args@)[j] == k;
            assert(args@[j]@ == k);
        }
        if exists|j: int| 0 <= j < args@.len() && args@[j]@ == k {
            let j = choose|j: int| 0 <= j < args@.len() && args@[j]@ == k;
            assert(views(args@)[j] == k);
        }
    }
    while i < args.len()
        invariant
            i <= args.len(),
            forall|k: Seq<char>| views(args@).contains(k) <==> (exists|j: int| 0 <= j < args@.len() && args@[j]@ == k),
            forall|k: Seq<char>| #[trigger] to_map(aliases@).contains_key(k) <==> (to_map(
                old(aliases)@,
            ).contains_key(k) && !(exists|j: int| 0 <= j < i && args@[j]@ == k)),
            forall|k: Seq<char>| #[trigger] to_map(aliases@).contains_key(k) ==> to_map(
                aliases@,
            )[k] == to_map(old(aliases)@)[k],
        decreases args.len() - i,
    {
        assoc::remove(aliases, &args[i]);
        i = i + 1;
    }
    true
}

/// `set`: the arguments become the positional parameters.
pub fn set(args: Vec<String>, shell: &mut Shell) -> (r: bool)
    ensures
        r,
        final(shell).positional == args,
        final(shell).name == old(shell).name,
        final(shell).vars == old(shell).vars,
        final(shell).env == old(shell).env,
        final(shell).aliases == old(shell).aliases,
        final(shell).pid == old(shell).pid,
        final(shell).interactive == old(shell).interactive,
{
    shell.set_pos(args);
    true
}

/// What `str::parse::<i32>` gives: an optional sign, then at least one
/// digit, and a value that fits.
pub open spec fn parse_i32(s: Seq<char>) -> Option<i32> {
    if s.len() > 0 && s[0] == '-' {
        let d = s.drop_first();
        if d.len() > 0 && all_digits(d) && digits_value(d) <= 0x8000_0000 {
            Some((0 - digits_value(d)) as i32)
        } else {
            None
        }
    } else {
        match parse_u32(s) {
            Some(n) => if n <= i32::MAX {
                Some(n as i32)
            } else {
                None
            },
            None => None,
        }
    }
}

/// The status that `exit` ends the shell with: its first argument, 0
/// without one, `None` where that argument is not a number.
pub fn exit_code(args: &Vec<String>) -> (r: Option<i32>)
    ensures
        args@.len() == 0 ==> r == Some(0i32),
        args@.len() > 0 ==> r == parse_i32(args@[0]@),
{
    if args.len() == 0 {
        return Some(0);
    }
    let s = &args[0];
    let n = s.as_str().unicode_len();
    if n > 0 && s.as_str().get_char(0) == '-' {
        if n == 1 {
            return None;
        }
        let mut acc: u64 = 0;
        let mut i: usize = 1;
        let ghost d = s@.drop_first();
        while i < n
            invariant
                args@.len() > 0,
                s@ == args@[0]@,
                s@[0] == '-',
                n == s@.len(),
                1 <= i <= n,
                d == s@.drop_first(),
                all_digits(s@.subrange(1, i as int)),
                acc as nat == digits_value(s@.subrange(1, i as int)),
                acc <= 0x8000_0000,
            decreases n - i,
        {
            let c = s.as_str().get_char(i);
            if !('0' <= c && c <= '9') {
                assert(d[i - 1] == c);
                return None;
            }
            let ghost pre = s@.subrange(1, i + 1);
            assert(pre.drop_last() =~= s@.subrange(1, i as int));
            acc = acc * 10 + (c as u64 - '0' as u64);
            i = i + 1;
            if acc > 0x8000_0000 {
                proof {
                    if all_digits(d) {
                        crate::text::lemma_prefix_value(d, (i - 1) as nat);
                        assert(d.subrange(0, i - 1) =~= s@.subrange(1, i as int));
                    }
                }
                return None;
            }
        }
        assert(s@.subrange(1, i as int) =~= d);
        return Some((0 - (acc as i64)) as i32);
    }
    match crate::text::parse_number(s) {
        Some(v) => if v <= 0x7fff_ffff {
            Some(v as i32)
        } else {
            None
        },
        None => None,
    }
}

/// Where `cd` goes: its first argument, else `$HOME`; `None` where neither
/// is there.
pub fn cd_target(args: &Vec<String>, shell: &Shell) -> (r: Option<String>)
    ensures
        args@.len() > 0 ==> r == Some(args@[0]),
        args@.len() == 0 ==> (r is Some <==> shell.value_of(seq!['H', 'O', 'M', 'E']) is Some),
        args@.len() == 0 ==> (r matches Some(h) ==> h@ == shell.value_of(
            seq!['H', 'O', 'M', 'E'],
        )->Some_0),
{
    if args.len() > 0 {
        return Some(args[0].clone());
    }
    let home = owned("HOME");
    proof {
        reveal_strlit("HOME");
    }
    assert(home@ =~= seq!['H', 'O', 'M', 'E']);
    shell.get_var(&home)
}

/// `alias X='Y'` followed by `alias X` prints `alias X='Y'`, whatever the
/// aliases were, for a name `X` without `=`.
pub proof fn lemma_alias_round_trip(m: Map<Seq<char>, Seq<char>>, x: Seq<char>, y: Seq<char>)
    requires
        forall|i: int| 0 <= i < x.len() ==> x[i] != '=',
    ensures
        alias_effect(alias_effect(m, seq![x + seq!['='] + y]).0, seq![x]).1 == alias_line(x, y),
{
    let d = x + seq!['='] + y;
    let n = x.len() as int;
    assert(d[n] == '=');
    assert(forall|j: int| 0 <= j < n ==> d[j] == x[j]);
    assert(0 <= n < d.len() && d[n] == '=' && forall|j: int| 0 <= j < n ==> d[j] != '=');
    let c = choose|c: int| 0 <= c < d.len() && d[c] == '=' && forall|j: int| 0 <= j < c ==> d[j] != '=';
    if c > n {
        assert(d[n] != '=');
    }
    assert(c == n);
    assert(first_index(d, '=') == Some(n));
    assert(d.subrange(0, n) =~= x);
    assert(d.subrange(n + 1, d.len() as int) =~= y);
    assert(seq![d].drop_last() =~= Seq::<Seq<char>>::empty());
    assert(seq![x].drop_last() =~= Seq::<Seq<char>>::empty());
    assert(first_index(x, '=') is None);
    let e0 = alias_effect(m, Seq::<Seq<char>>::empty());
    assert(e0.0 == m);
    assert(alias_effect(m, seq![d].drop_last()) == e0);
    let m1 = alias_effect(m, seq![d]).0;
    assert(m1 == m.insert(x, y));
    assert(alias_effect(m1, Seq::<Seq<char>>::empty()).1 =~= Seq::<char>::empty());
}

} // verus!
