//! Association lists keyed by text, with distinct keys, and the map each
//! one stands for.
use vstd::prelude::*;

verus! {

/// The map that an association list stands for; a later entry for a key
/// replaces an earlier one.
pub open spec fn assoc<V>(s: Seq<(Seq<char>, V)>) -> Map<Seq<char>, V>
    decreases s.len(),
{
    if s.len() == 0 {
        Map::empty()
    } else {
        assoc(s.drop_last()).insert(s.last().0, s.last().1)
    }
}

/// No key occurs twice.
pub open spec fn distinct_keys<V>(s: Seq<(Seq<char>, V)>) -> bool {
    forall|i: int, j: int| 0 <= i < j < s.len() ==> #[trigger] s[i].0 != #[trigger] s[j].0
}

pub proof fn lemma_assoc_dom<V>(s: Seq<(Seq<char>, V)>, k: Seq<char>)
    ensures
        assoc(s).contains_key(k) <==> exists|i: int| 0 <= i < s.len() && #[trigger] s[i].0 == k,
    decreases s.len(),
{
    if s.len() > 0 {
        lemma_assoc_dom(s.drop_last(), k);
        if assoc(s).contains_key(k) && k != s.last().0 {
            let i = choose|i: int| 0 <= i < s.drop_last().len() && #[trigger] s.drop_last()[i].0 == k;
            assert(s[i].0 == k);
        }
        if exists|i: int| 0 <= i < s.len() && #[trigger] s[i].0 == k {
            let i = choose|i: int| 0 <= i < s.len() && #[trigger] s[i].0 == k;
            if i < s.len() - 1 {
                assert(s.drop_last()[i].0 == k);
            }
        }
    }
}

pub proof fn lemma_assoc_get<V>(s: Seq<(Seq<char>, V)>, i: int)
    requires
        distinct_keys(s),
        0 <= i < s.len(),
    ensures
        assoc(s).contains_key(s[i].0),
        assoc(s)[s[i].0] == s[i].1,
    decreases s.len(),
{
    if i < s.len() - 1 {
        let t = s.drop_last();
        assert(t[i] == s[i]);
        assert(distinct_keys(t)) by {
            assert forall|a: int, b: int| 0 <= a < b < t.len() implies #[trigger] t[a].0 != #[trigger] t[b].0 by {
                assert(s[a] == t[a] && s[b] == t[b]);
            }
        }
        lemma_assoc_get(t, i);
        assert(s[i].0 != s[s.len() - 1].0);
    }
}

pub proof fn lemma_assoc_update<V>(s: Seq<(Seq<char>, V)>, i: int, v: V)
    requires
        distinct_keys(s),
        0 <= i < s.len(),
    ensures
        assoc(s.update(i, (s[i].0, v))) =~= assoc(s).insert(s[i].0, v),
        distinct_keys(s.update(i, (s[i].0, v))),
    decreases s.len(),
{
    let u = s.update(i, (s[i].0, v));
    assert(distinct_keys(u)) by {
        assert forall|a: int, b: int| 0 <= a < b < u.len() implies #[trigger] u[a].0 != #[trigger] u[b].0 by {
            assert(u[a].0 == s[a].0 && u[b].0 == s[b].0);
        }
    }
    let t = s.drop_last();
    assert(distinct_keys(t)) by {
        assert forall|a: int, b: int| 0 <= a < b < t.len() implies #[trigger] t[a].0 != #[trigger] t[b].0 by {
            assert(s[a] == t[a] && s[b] == t[b]);
        }
    }
    if i == s.len() - 1 {
        assert(u.drop_last() =~= t);
        lemma_assoc_dom(t, s[i].0);
        if assoc(t).contains_key(s[i].0) {
            let j = choose|j: int| 0 <= j < t.len() && #[trigger] t[j].0 == s[i].0;
            assert(s[j].0 == s[i].0);
        }
    } else {
        assert(u.drop_last() =~= t.update(i, (t[i].0, v)));
        lemma_assoc_update(t, i, v);
        assert(s[i].0 != s.last().0);
    }
}

pub proof fn lemma_assoc_push<V>(s: Seq<(Seq<char>, V)>, k: Seq<char>, v: V)
    requires
        distinct_keys(s),
        !assoc(s).contains_key(k),
    ensures
        assoc(s.push((k, v))) == assoc(s).insert(k, v),
        distinct_keys(s.push((k, v))),
{
    let p = s.push((k, v));
    assert(p.drop_last() =~= s);
    lemma_assoc_dom(s, k);
    assert forall|a: int, b: int| 0 <= a < b < p.len() implies #[trigger] p[a].0 != #[trigger] p[b].0 by {
        if b == s.len() {
            assert(p[a] == s[a]);
        } else {
            assert(p[a] == s[a] && p[b] == s[b]);
        }
    }
}

pub proof fn lemma_assoc_len<V>(s: Seq<(Seq<char>, V)>)
    requires
        distinct_keys(s),
    ensures
        assoc(s).dom().finite(),
        assoc(s).dom().len() == s.len(),
    decreases s.len(),
{
    if s.len() > 0 {
        let t = s.drop_last();
        assert(distinct_keys(t)) by {
            assert forall|a: int, b: int| 0 <= a < b < t.len() implies #[trigger] t[a].0 != #[trigger] t[b].0 by {
                assert(s[a] == t[a] && s[b] == t[b]);
            }
        }
        lemma_assoc_len(t);
        lemma_assoc_dom(t, s.last().0);
        if assoc(t).contains_key(s.last().0) {
            let j = choose|j: int| 0 <= j < t.len() && #[trigger] t[j].0 == s.last().0;
            assert(s[j].0 == s[s.len() - 1].0);
        }
    }
}

} // verus!
