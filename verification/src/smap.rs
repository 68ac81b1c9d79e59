use vstd::prelude::*;

use crate::value::str_eq;

verus! {

/// First value bound to key `k` in an association list of string keys.
pub open spec fn skey_get<V>(s: Seq<(String, V)>, k: Seq<char>) -> Option<V>
    decreases s.len(),
{
    if s.len() == 0 {
        None
    } else if s[0].0@ == k {
        Some(s[0].1)
    } else {
        skey_get(s.drop_first(), k)
    }
}

/// Pairwise-distinct keys.
pub open spec fn skeys_unique<V>(s: Seq<(String, V)>) -> bool {
    forall|i: int, j: int| 0 <= i < j < s.len() ==> (#[trigger] s[i]).0@ != (#[trigger] s[j]).0@
}

/// Under distinct keys, the binding at any position is what lookup finds.
pub proof fn lemma_skey_get_index<V>(s: Seq<(String, V)>, i: int)
    requires
        skeys_unique(s),
        0 <= i < s.len(),
    ensures
        skey_get(s, s[i].0@) == Some(s[i].1),
    decreases s.len(),
{
    if i > 0 {
        assert(s[0].0@ != s[i].0@);
        lemma_skey_get_index(s.drop_first(), i - 1);
    }
}

/// Lookup fails exactly when no pair holds the key.
pub proof fn lemma_skey_get_none<V>(s: Seq<(String, V)>, k: Seq<char>)
    ensures
        (skey_get(s, k) is None) <==> (forall|i: int| 0 <= i < s.len() ==> (#[trigger] s[i]).0@
            != k),
    decreases s.len(),
{
    if s.len() > 0 {
        lemma_skey_get_none(s.drop_first(), k);
        if skey_get(s, k) is None {
            assert forall|i: int| 0 <= i < s.len() implies (#[trigger] s[i]).0@ != k by {
                if i > 0 {
                    assert(s.drop_first()[i - 1] == s[i]);
                }
            }
        }
        if forall|i: int| 0 <= i < s.len() ==> (#[trigger] s[i]).0@ != k {
            assert forall|i: int|
                0 <= i < s.drop_first().len() implies (#[trigger] s.drop_first()[i]).0@ != k by {
                assert(s.drop_first()[i] == s[i + 1]);
            }
            assert(skey_get(s, k) is None);
        }
    }
}

/// Replacing the value at a position changes only that key's binding.
pub proof fn lemma_skey_get_update<V>(s: Seq<(String, V)>, i: int, v2: V, k: Seq<char>)
    requires
        skeys_unique(s),
        0 <= i < s.len(),
    ensures
        skey_get(s.update(i, (s[i].0, v2)), k) == if k == s[i].0@ {
            Some(v2)
        } else {
            skey_get(s, k)
        },
        skeys_unique(s.update(i, (s[i].0, v2))),
    decreases s.len(),
{
    let t = s.update(i, (s[i].0, v2));
    assert(t.len() == s.len());
    assert(forall|j: int| 0 <= j < s.len() && j != i ==> t[j] == s[j]);
    assert(t[i].0 == s[i].0);
    if i == 0 {
        if s[0].0@ != k {
            assert(t.drop_first() =~= s.drop_first());
        }
    } else {
        assert(t.drop_first() =~= s.drop_first().update(i - 1, (s[i].0, v2)));
        assert(s.drop_first()[i - 1] == s[i]);
        lemma_skey_get_update(s.drop_first(), i - 1, v2, k);
    }
}

/// Appending a pair with a fresh key adds exactly that binding.
pub proof fn lemma_skey_get_push<V>(s: Seq<(String, V)>, p: (String, V), k: Seq<char>)
    requires
        skey_get(s, p.0@) is None,
    ensures
        skey_get(s.push(p), k) == if k == p.0@ {
            Some(p.1)
        } else {
            skey_get(s, k)
        },
        skeys_unique(s) ==> skeys_unique(s.push(p)),
    decreases s.len(),
{
    lemma_skey_get_none(s, p.0@);
    let t = s.push(p);
    assert(t.len() == s.len() + 1);
    if s.len() == 0 {
        assert(t[0] == p);
        assert(t.drop_first() =~= Seq::<(String, V)>::empty());
        if k == p.0@ {
            assert(skey_get(t, k) == Some(p.1));
        } else {
            assert(skey_get(t, k) is None);
        }
    } else {
        assert(t[0] == s[0]);
        assert(t.drop_first() =~= s.drop_first().push(p));
        lemma_skey_get_push(s.drop_first(), p, k);
        if t[0].0@ == k {
            assert(skey_get(t, k) == Some(s[0].1));
            assert(skey_get(s, k) == Some(s[0].1));
            assert(k != p.0@);
        } else {
            assert(skey_get(t, k) == skey_get(s.drop_first().push(p), k));
        }
    }
}

/// Removing the pair at a position removes exactly that key's binding.
pub proof fn lemma_skey_get_remove<V>(s: Seq<(String, V)>, i: int, k: Seq<char>)
    requires
        skeys_unique(s),
        0 <= i < s.len(),
    ensures
        skey_get(s.remove(i), k) == if k == s[i].0@ {
            None
        } else {
            skey_get(s, k)
        },
        skeys_unique(s.remove(i)),
    decreases s.len(),
{
    let t = s.remove(i);
    assert(t.len() == s.len() - 1);
    assert(forall|j: int| 0 <= j < i ==> t[j] == s[j]);
    assert(forall|j: int| i <= j < t.len() ==> t[j] == s[j + 1]);
    if i == 0 {
        assert(t =~= s.drop_first());
        if s[0].0@ == k {
            lemma_skey_get_none(s, k);
            lemma_skey_get_none(t, k);
            assert(forall|j: int| 0 <= j < t.len() ==> (#[trigger] t[j]).0@ != k);
        }
    } else {
        assert(t.drop_first() =~= s.drop_first().remove(i - 1));
        assert(s.drop_first()[i - 1] == s[i]);
        lemma_skey_get_remove(s.drop_first(), i - 1, k);
    }
}

/// Position of the first pair with key `k`, if any.
#[verifier::loop_isolation(false)]
pub fn skey_find<V>(v: &Vec<(String, V)>, k: &String) -> (r: Option<usize>)
    ensures
        match r {
            Some(i) => i < v@.len() && v@[i as int].0@ == k@ && skey_get(v@, k@) == Some(
                v@[i as int].1,
            ),
            None => skey_get(v@, k@) is None,
        },
{
    proof {
        assert(v@.skip(0) =~= v@);
    }
    let mut i: usize = 0;
    while i < v.len()
        invariant
            0 <= i <= v@.len(),
            skey_get(v@, k@) == skey_get(v@.skip(i as int), k@),
            forall|j: int| 0 <= j < i ==> (#[trigger] v@[j]).0@ != k@,
        decreases v@.len() - i,
    {
        proof {
            assert(v@.skip(i as int)[0] == v@[i as int]);
        }
        if str_eq(&v[i].0, k) {
            return Some(i);
        }
        proof {
            assert(v@.skip(i as int).drop_first() =~= v@.skip(i + 1));
        }
        i += 1;
    }
    proof {
        assert(v@.skip(i as int).len() == 0);
    }
    None
}

} // verus!
