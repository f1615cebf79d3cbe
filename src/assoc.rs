use vstd::prelude::*;

verus! {

/// The map that a list of pairs stands for; a later pair wins over an
/// earlier one with the same key.
pub open spec fn assoc<A, B>(s: Seq<(A, B)>) -> Map<A, B>
    decreases s.len(),
{
    if s.len() == 0 {
        Map::empty()
    } else {
        assoc(s.drop_last()).insert(s.last().0, s.last().1)
    }
}

/// No key occurs twice.
pub open spec fn unique_keys<A, B>(s: Seq<(A, B)>) -> bool {
    forall|i: int, j: int| 0 <= i < j < s.len() ==> s[i].0 != s[j].0
}

pub proof fn lemma_assoc_absent<A, B>(s: Seq<(A, B)>, k: A)
    requires
        forall|i: int| 0 <= i < s.len() ==> s[i].0 != k,
    ensures
        !assoc(s).contains_key(k),
    decreases s.len(),
{
    if s.len() > 0 {
        lemma_assoc_absent(s.drop_last(), k);
    }
}

pub proof fn lemma_assoc_index<A, B>(s: Seq<(A, B)>, i: int)
    requires
        unique_keys(s),
        0 <= i < s.len(),
    ensures
        assoc(s).contains_key(s[i].0),
        assoc(s)[s[i].0] == s[i].1,
    decreases s.len(),
{
    if i < s.len() - 1 {
        lemma_assoc_index(s.drop_last(), i);
    }
}

pub proof fn lemma_assoc_update<A, B>(s: Seq<(A, B)>, i: int, v: B)
    requires
        unique_keys(s),
        0 <= i < s.len(),
    ensures
        assoc(s.update(i, (s[i].0, v))) == assoc(s).insert(s[i].0, v),
        unique_keys(s.update(i, (s[i].0, v))),
    decreases s.len(),
{
    let t = s.update(i, (s[i].0, v));
    if i == s.len() - 1 {
        assert(t.drop_last() =~= s.drop_last());
        assert(assoc(t) =~= assoc(s).insert(s[i].0, v));
    } else {
        assert(t.drop_last() =~= s.drop_last().update(i, (s[i].0, v)));
        lemma_assoc_update(s.drop_last(), i, v);
        assert(assoc(t) =~= assoc(s).insert(s[i].0, v));
    }
    assert forall|a: int, b: int| 0 <= a < b < t.len() implies t[a].0 != t[b].0 by {
        assert(t[a].0 == s[a].0 && t[b].0 == s[b].0);
    }
}

pub proof fn lemma_assoc_push<A, B>(s: Seq<(A, B)>, k: A, v: B)
    requires
        unique_keys(s),
        forall|i: int| 0 <= i < s.len() ==> s[i].0 != k,
    ensures
        assoc(s.push((k, v))) == assoc(s).insert(k, v),
        unique_keys(s.push((k, v))),
{
    assert(s.push((k, v)).drop_last() =~= s);
    assert forall|a: int, b: int| 0 <= a < b < s.len() + 1 implies s.push((k, v))[a].0 != s.push((k, v))[b].0 by {
        if b == s.len() {
            assert(s.push((k, v))[a] == s[a]);
        }
    }
}

pub proof fn lemma_assoc_remove<A, B>(s: Seq<(A, B)>, i: int)
    requires
        unique_keys(s),
        0 <= i < s.len(),
    ensures
        assoc(s.remove(i)) == assoc(s).remove(s[i].0),
        unique_keys(s.remove(i)),
    decreases s.len(),
{
    let k = s[i].0;
    let t = s.remove(i);
    if i == s.len() - 1 {
        assert(t =~= s.drop_last());
        assert forall|j: int| 0 <= j < t.len() implies t[j].0 != k by {
            assert(t[j] == s[j]);
        }
        lemma_assoc_absent(t, k);
        assert(assoc(t) =~= assoc(s).remove(k));
    } else {
        assert(t =~= s.drop_last().remove(i).push(s.last()));
        lemma_assoc_remove(s.drop_last(), i);
        assert(t.drop_last() =~= s.drop_last().remove(i));
        assert(s.last().0 != k);
        assert(assoc(t) =~= assoc(s).remove(k));
    }
    assert forall|a: int, b: int| 0 <= a < b < t.len() implies t[a].0 != t[b].0 by {
        let sa = if a < i { a } else { a + 1 };
        let sb = if b < i { b } else { b + 1 };
        assert(t[a] == s[sa] && t[b] == s[sb]);
    }
}

} // verus!
