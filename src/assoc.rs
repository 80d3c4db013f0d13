//! Maps from names to strings, kept as vectors of pairs. A later pair
//! overrides an earlier one with the same name.
use vstd::prelude::*;

verus! {

/// The map that a vector of pairs stands for.
pub open spec fn to_map(s: Seq<(String, String)>) -> Map<Seq<char>, Seq<char>>
    decreases s.len(),
{
    if s.len() == 0 {
        Map::empty()
    } else {
        to_map(s.drop_last()).insert(s.last().0@, s.last().1@)
    }
}

/// Pairs after position `j` that do not bind `k` leave its value as the
/// prefix up to `j` has it.
proof fn lemma_suffix(s: Seq<(String, String)>, j: int, k: Seq<char>)
    requires
        0 <= j <= s.len(),
        forall|m: int| j <= m < s.len() ==> (#[trigger] s[m]).0@ != k,
    ensures
        to_map(s).contains_key(k) == to_map(s.subrange(0, j)).contains_key(k),
        to_map(s).contains_key(k) ==> to_map(s)[k] == to_map(s.subrange(0, j))[k],
    decreases s.len() - j,
{
    if j < s.len() {
        let t = s.drop_last();
        assert(forall|m: int| j <= m < t.len() ==> (#[trigger] t[m]).0@ == s[m].0@);
        lemma_suffix(t, j, k);
        assert(t.subrange(0, j) =~= s.subrange(0, j));
    } else {
        assert(s.subrange(0, j) =~= s);
    }
}

/// The value bound to `k`.
pub fn get(v: &Vec<(String, String)>, k: &String) -> (r: Option<String>)
    ensures
        r is Some == to_map(v@).contains_key(k@),
        r matches Some(x) ==> x@ == to_map(v@)[k@],
{
    let mut i: usize = v.len();
    while i > 0
        invariant
            i <= v.len(),
            forall|m: int| i <= m < v@.len() ==> (#[trigger] v@[m]).0@ != k@,
        decreases i,
    {
        if v[i - 1].0 == *k {
            proof {
                lemma_suffix(v@, i as int, k@);
                assert(v@.subrange(0, i as int).drop_last() =~= v@.subrange(0, i - 1));
            }
            return Some(v[i - 1].1.clone());
        }
        i = i - 1;
    }
    proof {
        lemma_suffix(v@, 0, k@);
    }
    None
}

/// Removes every binding of `k`.
pub fn remove(v: &mut Vec<(String, String)>, k: &String)
    ensures
        to_map(final(v)@) == to_map(old(v)@).remove(k@),
{
    let mut kept: Vec<(String, String)> = Vec::new();
    let mut src: Vec<(String, String)> = Vec::new();
    std::mem::swap(v, &mut src);
    let ghost all = src@;
    let mut taken: Vec<(String, String)> = Vec::new();
    // Walk from the back, then rebuild in order.
    while src.len() > 0
        invariant
            src@.len() <= all.len(),
            src@ == all.subrange(0, src@.len() as int),
            taken@.len() + src@.len() == all.len(),
            forall|m: int| 0 <= m < taken@.len() ==> #[trigger] taken@[m] == all[all.len() - 1 - m],
        decreases src.len(),
    {
        let p = src.pop().unwrap();
        taken.push(p);
    }
    let ghost n = all.len();
    while taken.len() > 0
        invariant
            taken@.len() <= n,
            n == all.len(),
            forall|m: int| 0 <= m < taken@.len() ==> #[trigger] taken@[m] == all[n - 1 - m],
            to_map(kept@) == to_map(all.subrange(0, n - taken@.len())).remove(k@),
        decreases taken.len(),
    {
        let ghost i = n - taken@.len();
        let p = taken.pop().unwrap();
        assert(p == all[i]);
        assert(all.subrange(0, i + 1).drop_last() =~= all.subrange(0, i));
        if p.0 == *k {
            assert(to_map(all.subrange(0, i + 1)).remove(k@) =~= to_map(all.subrange(0, i)).remove(
                k@,
            ));
        } else {
            let ghost before = kept@;
            kept.push(p);
            assert(kept@.drop_last() =~= before);
            assert(to_map(kept@) =~= to_map(all.subrange(0, i + 1)).remove(k@));
        }
    }
    assert(all.subrange(0, n as int) =~= all);
    *v = kept;
}

/// Binds `k` to `x`, replacing any earlier binding.
pub fn insert(v: &mut Vec<(String, String)>, k: String, x: String)
    ensures
        to_map(final(v)@) == to_map(old(v)@).insert(k@, x@),
{
    remove(v, &k);
    let ghost mid = v@;
    v.push((k, x));
    assert(v@.drop_last() =~= mid);
    assert(to_map(v@) =~= to_map(old(v)@).insert(k@, x@));
}

/// A vector of pairs binds finitely many names.
pub proof fn lemma_finite(s: Seq<(String, String)>)
    ensures
        to_map(s).dom().finite(),
    decreases s.len(),
{
    if s.len() > 0 {
        lemma_finite(s.drop_last());
    }
}

} // verus!
