//! Association lists keyed by character sequences: the lookup function and
//! the facts insertion and update preserve, shared by the registries.

use vstd::prelude::*;

verus! {

/// First value bound to `k` in an association list.
pub open spec fn spec_assoc<V>(s: Seq<(Seq<char>, V)>, k: Seq<char>) -> Option<V>
    decreases s.len(),
{
    if s.len() == 0 {
        None
    } else if s[0].0 == k {
        Some(s[0].1)
    } else {
        spec_assoc(s.drop_first(), k)
    }
}

/// Whether an association list's keys are pairwise distinct.
pub open spec fn spec_unique_keys<V>(s: Seq<(Seq<char>, V)>) -> bool {
    forall|i: int, j: int| 0 <= i < j < s.len() ==> (#[trigger] s[i]).0 != (#[trigger] s[j]).0
}

/// When no key matches, the lookup is `None`.
pub proof fn lemma_assoc_none<V>(s: Seq<(Seq<char>, V)>, k: Seq<char>)
    requires
        forall|i: int| 0 <= i < s.len() ==> (#[trigger] s[i]).0 != k,
    ensures
        spec_assoc(s, k) is None,
    decreases s.len(),
{
    if s.len() > 0 {
        lemma_assoc_none(s.drop_first(), k);
    }
}

/// The first index whose key matches decides the lookup.
pub proof fn lemma_assoc_at<V>(s: Seq<(Seq<char>, V)>, k: Seq<char>, i: int)
    requires
        0 <= i < s.len(),
        s[i].0 == k,
        forall|j: int| 0 <= j < i ==> (#[trigger] s[j]).0 != k,
    ensures
        spec_assoc(s, k) == Some(s[i].1),
    decreases i,
{
    if i > 0 {
        lemma_assoc_at(s.drop_first(), k, i - 1);
    }
}

/// Updating one entry leaves lookups of other keys alone.
pub proof fn lemma_assoc_update_other<V>(s: Seq<(Seq<char>, V)>, i: int, p: (Seq<char>, V), k: Seq<char>)
    requires
        0 <= i < s.len(),
        s[i].0 == p.0,
        k != p.0,
    ensures
        spec_assoc(s.update(i, p), k) == spec_assoc(s, k),
    decreases i,
{
    if s.len() > 0 {
        if i == 0 {
            assert(s.update(0, p).drop_first() =~= s.drop_first());
        } else {
            lemma_assoc_update_other(s.drop_first(), i - 1, p, k);
            assert(s.update(i, p).drop_first() =~= s.drop_first().update(i - 1, p));
        }
    }
}

/// Appending an entry changes only its own key's lookup, and only when the
/// key was absent.
pub proof fn lemma_assoc_push<V>(s: Seq<(Seq<char>, V)>, p: (Seq<char>, V))
    ensures
        forall|k: Seq<char>|
            k != p.0 && spec_assoc(s, k) is None ==> #[trigger] spec_assoc(s.push(p), k) is None,
        forall|k: Seq<char>|
            spec_assoc(s, k) is Some ==> #[trigger] spec_assoc(s.push(p), k) == spec_assoc(s, k),
        spec_assoc(s, p.0) is None ==> spec_assoc(s.push(p), p.0) == Some(p.1),
    decreases s.len(),
{
    if s.len() == 0 {
        assert(s.push(p)[0] == p);
        assert(s.push(p).drop_first() =~= Seq::<(Seq<char>, V)>::empty());
        assert forall|k: Seq<char>|
            k != p.0 && spec_assoc(s, k) is None implies #[trigger] spec_assoc(
            s.push(p),
            k,
        ) is None by {
            assert(spec_assoc(s.push(p).drop_first(), k) is None);
        }
    } else {
        lemma_assoc_push(s.drop_first(), p);
        assert(s.push(p)[0] == s[0]);
        assert(s.push(p).drop_first() =~= s.drop_first().push(p));
        assert forall|k: Seq<char>|
            k != p.0 && spec_assoc(s, k) is None implies #[trigger] spec_assoc(
            s.push(p),
            k,
        ) is None by {
            assert(s[0].0 != k);
            assert(spec_assoc(s.drop_first(), k) is None);
            assert(spec_assoc(s.drop_first().push(p), k) is None);
            assert(spec_assoc(s.push(p), k) == spec_assoc(s.drop_first().push(p), k));
        }
        assert forall|k: Seq<char>| spec_assoc(s, k) is Some implies #[trigger] spec_assoc(
            s.push(p),
            k,
        ) == spec_assoc(s, k) by {
            if s[0].0 != k {
                assert(spec_assoc(s.drop_first(), k) is Some);
                assert(spec_assoc(s.drop_first().push(p), k) == spec_assoc(s.drop_first(), k));
                assert(spec_assoc(s.push(p), k) == spec_assoc(s.drop_first().push(p), k));
            }
        }
    }
}

/// An entry whose key is present makes the lookup succeed.
pub proof fn lemma_assoc_some<V>(s: Seq<(Seq<char>, V)>, i: int, k: Seq<char>)
    requires
        0 <= i < s.len(),
        s[i].0 == k,
    ensures
        spec_assoc(s, k) is Some,
    decreases i,
{
    if i > 0 && s[0].0 != k {
        lemma_assoc_some(s.drop_first(), i - 1, k);
    }
}


/// The list with `k` bound to `v`: the first entry with key `k` replaced in
/// place, or the binding appended when the key is absent.
pub open spec fn spec_upsert<V>(s: Seq<(Seq<char>, V)>, k: Seq<char>, v: V) -> Seq<(Seq<char>, V)>
    decreases s.len(),
{
    if s.len() == 0 {
        seq![(k, v)]
    } else if s[0].0 == k {
        seq![(k, v)] + s.drop_first()
    } else {
        seq![s[0]] + spec_upsert(s.drop_first(), k, v)
    }
}

/// When `i` is the first entry bound to `k`, upserting updates it in place.
pub proof fn lemma_upsert_at<V>(s: Seq<(Seq<char>, V)>, k: Seq<char>, v: V, i: int)
    requires
        0 <= i < s.len(),
        s[i].0 == k,
        forall|j: int| 0 <= j < i ==> (#[trigger] s[j]).0 != k,
    ensures
        spec_upsert(s, k, v) == s.update(i, (k, v)),
    decreases i,
{
    if i == 0 {
        assert(spec_upsert(s, k, v) =~= s.update(0, (k, v)));
    } else {
        lemma_upsert_at(s.drop_first(), k, v, i - 1);
        assert(s.drop_first().update(i - 1, (k, v)) =~= s.update(i, (k, v)).drop_first());
        assert(spec_upsert(s, k, v) =~= s.update(i, (k, v)));
    }
}

/// When no entry is bound to `k`, upserting appends the binding.
pub proof fn lemma_upsert_absent<V>(s: Seq<(Seq<char>, V)>, k: Seq<char>, v: V)
    requires
        forall|j: int| 0 <= j < s.len() ==> (#[trigger] s[j]).0 != k,
    ensures
        spec_upsert(s, k, v) == s.push((k, v)),
    decreases s.len(),
{
    if s.len() == 0 {
        assert(spec_upsert(s, k, v) =~= s.push((k, v)));
    } else {
        lemma_upsert_absent(s.drop_first(), k, v);
        assert(s.drop_first().push((k, v)) =~= s.push((k, v)).drop_first());
        assert(spec_upsert(s, k, v) =~= s.push((k, v)));
    }
}

/// A failed lookup means no entry carries the key.
pub proof fn lemma_assoc_none_keys<V>(s: Seq<(Seq<char>, V)>, k: Seq<char>)
    requires
        spec_assoc(s, k) is None,
    ensures
        forall|j: int| 0 <= j < s.len() ==> (#[trigger] s[j]).0 != k,
    decreases s.len(),
{
    if s.len() > 0 {
        lemma_assoc_none_keys(s.drop_first(), k);
        assert forall|j: int| 0 <= j < s.len() implies (#[trigger] s[j]).0 != k by {
            if j > 0 {
                assert(s.drop_first()[j - 1] == s[j]);
            }
        }
    }
}

} // verus!
