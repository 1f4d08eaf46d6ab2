//! What holds of every diff: the three lists divide the two mappings between
//! them, and each key lands in the list that its presence on either side calls for.

use vstd::prelude::*;
use crate::diff::{absent_from, added, matched, paired_with, present_in, removed};
use crate::keyed::{ascending, has_key, lemma_ascending_keys_distinct, position_of, Keyed};

verus! {

/// The wanted entries of a list of pairs.
pub open spec fn wanted_side<S, R>(m: Seq<(Keyed<S>, Keyed<R>)>) -> Seq<Keyed<S>> {
    Seq::new(m.len(), |i: int| m[i].0)
}

/// The actual entries of a list of pairs.
pub open spec fn actual_side<S, R>(m: Seq<(Keyed<S>, Keyed<R>)>) -> Seq<Keyed<R>> {
    Seq::new(m.len(), |i: int| m[i].1)
}

/// What passes a filter is what was there and meets the condition.
pub proof fn lemma_filter_contains<A>(s: Seq<A>, pred: spec_fn(A) -> bool, x: A)
    ensures
        s.filter(pred).contains(x) <==> s.contains(x) && pred(x),
    decreases s.len(),
{
    reveal(Seq::filter);
    if s.len() > 0 {
        let t = s.drop_last();
        let f = t.filter(pred);
        lemma_filter_contains(t, pred, x);
        if s.filter(pred).contains(x) {
            let i = choose|i: int| 0 <= i < s.filter(pred).len() && s.filter(pred)[i] == x;
            if i < f.len() {
                assert(f[i] == x);
                assert(f.contains(x));
                let j = choose|j: int| 0 <= j < t.len() && t[j] == x;
                assert(s[j] == x);
            } else {
                assert(s[s.len() - 1] == x);
            }
        }
        if s.contains(x) && pred(x) {
            let j = choose|j: int| 0 <= j < s.len() && s[j] == x;
            if j < t.len() {
                assert(t[j] == x);
                assert(t.contains(x));
                let i = choose|i: int| 0 <= i < f.len() && f[i] == x;
                assert(s.filter(pred)[i] == x);
            } else {
                assert(s.filter(pred)[f.len() as int] == x);
            }
        }
    }
}

/// A filter that everything meets changes nothing.
pub proof fn lemma_filter_all<A>(s: Seq<A>, pred: spec_fn(A) -> bool)
    requires
        forall|i: int| 0 <= i < s.len() ==> pred(#[trigger] s[i]),
    ensures
        s.filter(pred) == s,
    decreases s.len(),
{
    reveal(Seq::filter);
    if s.len() > 0 {
        let t = s.drop_last();
        assert forall|i: int| 0 <= i < t.len() implies pred(#[trigger] t[i]) by {
            assert(t[i] == s[i]);
        }
        lemma_filter_all(t, pred);
        assert(t.push(s.last()) =~= s);
    } else {
        assert(s.filter(pred) =~= s);
    }
}

/// The keys that pass a filter on keys: those that were there and meet it.
pub proof fn lemma_filter_keys<T>(s: Seq<Keyed<T>>, pred: spec_fn(Keyed<T>) -> bool, k: Seq<u8>)
    requires
        forall|e: Keyed<T>, f: Keyed<T>| e.key == f.key ==> #[trigger] pred(e) == #[trigger] pred(f),
    ensures
        has_key(s.filter(pred), k) <==> exists|i: int|
            #![trigger s[i]]
            0 <= i < s.len() && s[i].key == k && pred(s[i]),
{
    let f = s.filter(pred);
    if has_key(f, k) {
        let i = position_of(f, k);
        assert(f.contains(f[i]));
        lemma_filter_contains(s, pred, f[i]);
        let j = choose|j: int| 0 <= j < s.len() && s[j] == f[i];
        assert(s[j].key == k && pred(s[j]));
    }
    if exists|i: int| #![trigger s[i]] 0 <= i < s.len() && s[i].key == k && pred(s[i]) {
        let i = choose|i: int| #![trigger s[i]] 0 <= i < s.len() && s[i].key == k && pred(s[i]);
        assert(s.contains(s[i]));
        lemma_filter_contains(s, pred, s[i]);
        let j = choose|j: int| 0 <= j < f.len() && f[j] == s[i];
        assert(f[j].key == k);
    }
}

/// A key is among the entries to add exactly when it is wanted and not there.
pub proof fn lemma_added_keys<S, R>(w: Seq<Keyed<S>>, a: Seq<Keyed<R>>, k: Seq<u8>)
    ensures
        has_key(added(w, a), k) <==> has_key(w, k) && !has_key(a, k),
{
    lemma_filter_keys(w, absent_from::<S, R>(a), k);
}

/// A key is among the entries to remove exactly when it is there and not wanted.
pub proof fn lemma_removed_keys<S, R>(w: Seq<Keyed<S>>, a: Seq<Keyed<R>>, k: Seq<u8>)
    ensures
        has_key(removed(w, a), k) <==> has_key(a, k) && !has_key(w, k),
{
    lemma_filter_keys(a, absent_from::<R, S>(w), k);
}

/// The wanted side of the pairs is the wanted entries that have a counterpart,
/// and the two entries of a pair have one key.
pub proof fn lemma_matched_sides<S, R>(w: Seq<Keyed<S>>, a: Seq<Keyed<R>>)
    ensures
        wanted_side(matched(w, a)) == w.filter(present_in(a)),
        forall|i: int|
            0 <= i < matched(w, a).len() ==> {
                let p = #[trigger] matched(w, a)[i];
                p.0.key == p.1.key && a.contains(p.1) && w.contains(p.0)
            },
{
    let f = w.filter(present_in::<S, R>(a));
    let m = matched(w, a);
    assert(wanted_side(m) =~= f);
    assert forall|i: int| 0 <= i < m.len() implies {
        let p = #[trigger] m[i];
        p.0.key == p.1.key && a.contains(p.1) && w.contains(p.0)
    } by {
        assert(f.contains(f[i]));
        lemma_filter_contains(w, present_in::<S, R>(a), f[i]);
        assert(has_key(a, f[i].key));
        assert(m[i] == paired_with::<S, R>(a)(f[i]));
    }
}

/// A key is among the pairs exactly when it is both wanted and there.
pub proof fn lemma_matched_keys<S, R>(w: Seq<Keyed<S>>, a: Seq<Keyed<R>>, k: Seq<u8>)
    ensures
        has_key(wanted_side(matched(w, a)), k) <==> has_key(w, k) && has_key(a, k),
        has_key(actual_side(matched(w, a)), k) <==> has_key(w, k) && has_key(a, k),
{
    let m = matched(w, a);
    lemma_matched_sides(w, a);
    lemma_filter_keys(w, present_in::<S, R>(a), k);
    if has_key(actual_side(m), k) {
        let i = position_of(actual_side(m), k);
        assert(m[i].0.key == k);
        assert(wanted_side(m)[i].key == k);
    }
    if has_key(wanted_side(m), k) {
        let i = position_of(wanted_side(m), k);
        assert(m[i].1.key == k);
        assert(actual_side(m)[i].key == k);
    }
}

/// The lists to add and to keep in step hold the wanted entries between them,
/// the lists to remove and to keep in step hold the actual ones, and no key
/// stands in two lists.
pub proof fn law_partition<S, R>(w: Seq<Keyed<S>>, a: Seq<Keyed<R>>)
    requires
        ascending(w),
        ascending(a),
    ensures
        added(w, a).to_set().union(wanted_side(matched(w, a)).to_set()) == w.to_set(),
        removed(w, a).to_set().union(actual_side(matched(w, a)).to_set()) == a.to_set(),
        forall|k: Seq<u8>| !(has_key(added(w, a), k) && has_key(removed(w, a), k)),
        forall|k: Seq<u8>| !(has_key(added(w, a), k) && has_key(wanted_side(matched(w, a)), k)),
        forall|k: Seq<u8>| !(has_key(added(w, a), k) && has_key(actual_side(matched(w, a)), k)),
        forall|k: Seq<u8>| !(has_key(removed(w, a), k) && has_key(wanted_side(matched(w, a)), k)),
        forall|k: Seq<u8>| !(has_key(removed(w, a), k) && has_key(actual_side(matched(w, a)), k)),
{
    let m = matched(w, a);
    lemma_matched_sides(w, a);
    assert forall|k: Seq<u8>|
        !(has_key(added(w, a), k) && has_key(wanted_side(m), k)) && !(has_key(added(w, a), k)
            && has_key(actual_side(m), k)) && !(has_key(removed(w, a), k) && has_key(
            wanted_side(m),
            k,
        )) && !(has_key(removed(w, a), k) && has_key(actual_side(m), k)) by {
        lemma_added_keys(w, a, k);
        lemma_removed_keys(w, a, k);
        lemma_matched_keys(w, a, k);
    }
    assert forall|k: Seq<u8>| !(has_key(added(w, a), k) && has_key(removed(w, a), k)) by {
        lemma_added_keys(w, a, k);
        lemma_removed_keys(w, a, k);
    }
    assert forall|e: Keyed<S>|
        (added(w, a).contains(e) || wanted_side(m).contains(e)) <==> w.contains(e) by {
        lemma_filter_contains(w, absent_from::<S, R>(a), e);
        lemma_filter_contains(w, present_in::<S, R>(a), e);
    }
    assert(added(w, a).to_set().union(wanted_side(m).to_set()) =~= w.to_set());
    assert forall|e: Keyed<R>|
        (removed(w, a).contains(e) || actual_side(m).contains(e)) <==> a.contains(e) by {
        lemma_filter_contains(a, absent_from::<R, S>(w), e);
        if actual_side(m).contains(e) {
            let i = choose|i: int| 0 <= i < actual_side(m).len() && actual_side(m)[i] == e;
            assert(m[i].1 == e);
        }
        if a.contains(e) && has_key(w, e.key) {
            let n = position_of(w, e.key);
            let j = choose|j: int| 0 <= j < a.len() && a[j] == e;
            assert(has_key(a, w[n].key));
            assert(w.contains(w[n]));
            lemma_filter_contains(w, present_in::<S, R>(a), w[n]);
            let f = w.filter(present_in::<S, R>(a));
            let i = choose|i: int| 0 <= i < f.len() && f[i] == w[n];
            lemma_ascending_keys_distinct(a, position_of(a, w[n].key), j);
            assert(m[i] == paired_with::<S, R>(a)(f[i]));
            assert(actual_side(m)[i] == e);
        }
    }
    assert(removed(w, a).to_set().union(actual_side(m).to_set()) =~= a.to_set());
}

/// A key on both sides stands among the pairs and nowhere else; a key that is
/// only wanted stands only in the list to add; a key that is only there
/// stands only in the list to remove.
pub proof fn law_classification<S, R>(w: Seq<Keyed<S>>, a: Seq<Keyed<R>>, k: Seq<u8>)
    ensures
        has_key(w, k) && has_key(a, k) ==> has_key(wanted_side(matched(w, a)), k) && has_key(
            actual_side(matched(w, a)),
            k,
        ) && !has_key(added(w, a), k) && !has_key(removed(w, a), k),
        has_key(w, k) && !has_key(a, k) ==> has_key(added(w, a), k) && !has_key(removed(w, a), k)
            && !has_key(wanted_side(matched(w, a)), k) && !has_key(
            actual_side(matched(w, a)),
            k,
        ),
        !has_key(w, k) && has_key(a, k) ==> has_key(removed(w, a), k) && !has_key(added(w, a), k)
            && !has_key(wanted_side(matched(w, a)), k) && !has_key(
            actual_side(matched(w, a)),
            k,
        ),
{
    lemma_added_keys(w, a, k);
    lemma_removed_keys(w, a, k);
    lemma_matched_keys(w, a, k);
}

/// Where both sides hold the same keys there is nothing to add and nothing
/// to remove, and every wanted entry has its pair.
pub proof fn law_equal_keys<S, R>(w: Seq<Keyed<S>>, a: Seq<Keyed<R>>)
    requires
        forall|k: Seq<u8>| has_key(w, k) <==> has_key(a, k),
    ensures
        added(w, a) == Seq::<Keyed<S>>::empty(),
        removed(w, a) == Seq::<Keyed<R>>::empty(),
        matched(w, a).len() == w.len(),
        wanted_side(matched(w, a)) == w,
{
    if added(w, a).len() > 0 {
        let e = added(w, a)[0];
        lemma_added_keys(w, a, e.key);
    }
    if removed(w, a).len() > 0 {
        let e = removed(w, a)[0];
        lemma_removed_keys(w, a, e.key);
    }
    assert(added(w, a) =~= Seq::<Keyed<S>>::empty());
    assert(removed(w, a) =~= Seq::<Keyed<R>>::empty());
    assert forall|i: int| 0 <= i < w.len() implies present_in::<S, R>(a)(#[trigger] w[i]) by {
        assert(has_key(w, w[i].key));
    }
    lemma_filter_all(w, present_in::<S, R>(a));
    lemma_matched_sides(w, a);
}

} // verus!
