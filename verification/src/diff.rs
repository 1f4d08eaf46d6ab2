//! The diff engine: one ascending walk over the wanted and the actual
//! mapping, sorting every entry into what to add, what to remove and what
//! to keep in step.

use vstd::prelude::*;
use crate::keyed::{ascending, has_key, lemma_ascending_keys_distinct, position_of, ByName, Keyed};
use crate::order::{compare_names, lemma_key_lt_asymmetric, lemma_key_lt_transitive, KeyOrder};

verus! {

/// Holds of an entry whose key occurs nowhere in `other`.
pub open spec fn absent_from<T, U>(other: Seq<Keyed<U>>) -> spec_fn(Keyed<T>) -> bool {
    |e: Keyed<T>| !has_key(other, e.key)
}

/// Holds of an entry whose key occurs in `other`.
pub open spec fn present_in<T, U>(other: Seq<Keyed<U>>) -> spec_fn(Keyed<T>) -> bool {
    |e: Keyed<T>| has_key(other, e.key)
}

/// An entry paired with the entry of `other` that has the same key.
pub open spec fn paired_with<T, U>(other: Seq<Keyed<U>>) -> spec_fn(Keyed<T>) -> (Keyed<T>, Keyed<U>) {
    |e: Keyed<T>| (e, other[position_of(other, e.key)])
}

/// The wanted entries that have no counterpart among the actual ones, in order.
pub open spec fn added<S, R>(wanted: Seq<Keyed<S>>, actual: Seq<Keyed<R>>) -> Seq<Keyed<S>> {
    wanted.filter(absent_from(actual))
}

/// The actual entries that have no counterpart among the wanted ones, in order.
pub open spec fn removed<S, R>(wanted: Seq<Keyed<S>>, actual: Seq<Keyed<R>>) -> Seq<Keyed<R>> {
    actual.filter(absent_from(wanted))
}

/// The wanted entries that have a counterpart, each with that counterpart, in order.
pub open spec fn matched<S, R>(wanted: Seq<Keyed<S>>, actual: Seq<Keyed<R>>) -> Seq<
    (Keyed<S>, Keyed<R>),
> {
    wanted.filter(present_in(actual)).map_values(paired_with(actual))
}

/// The items that a list of entries holds.
pub open spec fn items<T>(s: Seq<Keyed<T>>) -> Seq<T> {
    Seq::new(s.len(), |i: int| s[i].item)
}

/// The items that a list of pairs of entries holds.
pub open spec fn item_pairs<S, R>(s: Seq<(Keyed<S>, Keyed<R>)>) -> Seq<(S, R)> {
    Seq::new(s.len(), |i: int| (s[i].0.item, s[i].1.item))
}

/// What a list of borrowed items refers to.
pub open spec fn referents<T>(v: Seq<&T>) -> Seq<T> {
    Seq::new(v.len(), |i: int| *v[i])
}

/// What a list of borrowed pairs refers to.
pub open spec fn pair_referents<S, R>(v: Seq<(&S, &R)>) -> Seq<(S, R)> {
    Seq::new(v.len(), |i: int| (*v[i].0, *v[i].1))
}

/// The three action lists of one pass.
pub struct Diff<'a, S, R> {
    /// Wanted, and not there yet: to be created.
    pub to_add: Vec<&'a S>,
    /// There, and not wanted: to be destroyed.
    pub to_remove: Vec<&'a R>,
    /// Wanted and there: to be brought in step.
    pub to_sync: Vec<(&'a S, &'a R)>,
}

proof fn lemma_filter_next<A>(s: Seq<A>, i: int, pred: spec_fn(A) -> bool)
    requires
        0 <= i < s.len(),
    ensures
        s.take(i + 1).filter(pred) == if pred(s[i]) {
            s.take(i).filter(pred).push(s[i])
        } else {
            s.take(i).filter(pred)
        },
{
    reveal(Seq::filter);
    assert(s.take(i + 1).drop_last() =~= s.take(i));
}

proof fn lemma_push_item<T>(v: Seq<&T>, x: &T, f: Seq<Keyed<T>>, e: Keyed<T>)
    requires
        referents(v) == items(f),
        *x == e.item,
    ensures
        referents(v.push(x)) == items(f.push(e)),
{
    assert(referents(v).len() == v.len());
    assert(items(f).len() == f.len());
    assert forall|k: int| 0 <= k < v.len() implies *v[k] == f[k].item by {
        assert(referents(v)[k] == *v[k]);
        assert(items(f)[k] == f[k].item);
    }
    assert(referents(v.push(x)) =~= items(f.push(e)));
}

proof fn lemma_push_pair<S, R>(
    v: Seq<(&S, &R)>,
    x: (&S, &R),
    f: Seq<(Keyed<S>, Keyed<R>)>,
    e: (Keyed<S>, Keyed<R>),
)
    requires
        pair_referents(v) == item_pairs(f),
        *x.0 == e.0.item,
        *x.1 == e.1.item,
    ensures
        pair_referents(v.push(x)) == item_pairs(f.push(e)),
{
    assert(pair_referents(v).len() == v.len());
    assert(item_pairs(f).len() == f.len());
    assert forall|k: int| 0 <= k < v.len() implies (*v[k].0, *v[k].1) == (f[k].0.item, f[k].1.item) by {
        assert(pair_referents(v)[k] == item_pairs(f)[k]);
    }
    assert(pair_referents(v.push(x)) =~= item_pairs(f.push(e)));
}

/// Sorts the entries of two mappings by whether their name occurs in the
/// other. Names are the only thing compared: what an item holds plays no part.
pub fn diff<'a, S, R>(wanted: &ByName<'a, S>, actual: &ByName<'a, R>) -> (d: Diff<'a, S, R>)
    requires
        wanted.wf(),
        actual.wf(),
    ensures
        referents(d.to_add@) == items(added(wanted@, actual@)),
        referents(d.to_remove@) == items(removed(wanted@, actual@)),
        pair_referents(d.to_sync@) == item_pairs(matched(wanted@, actual@)),
{
    let ghost w = wanted@;
    let ghost a = actual@;
    let ghost lone_w = absent_from::<S, R>(a);
    let ghost lone_a = absent_from::<R, S>(w);
    let ghost both = present_in::<S, R>(a);
    let wn: usize = wanted.len();
    let an: usize = actual.len();
    let mut i: usize = 0;
    let mut j: usize = 0;
    let mut to_add: Vec<&'a S> = Vec::new();
    let mut to_remove: Vec<&'a R> = Vec::new();
    let mut to_sync: Vec<(&'a S, &'a R)> = Vec::new();
    proof {
        reveal(Seq::filter);
        assert(w.take(0).filter(lone_w) =~= Seq::<Keyed<S>>::empty());
        assert(w.take(0).filter(both) =~= Seq::<Keyed<S>>::empty());
        assert(a.take(0).filter(lone_a) =~= Seq::<Keyed<R>>::empty());
    }
    while i < wn || j < an
        invariant
            w == wanted@,
            a == actual@,
            lone_w == absent_from::<S, R>(a),
            lone_a == absent_from::<R, S>(w),
            both == present_in::<S, R>(a),
            ascending(w),
            ascending(a),
            wn == w.len(),
            an == a.len(),
            i <= wn,
            j <= an,
            forall|k: int, m: int|
                #![trigger a[k], w[m]]
                0 <= k < j && i <= m < wn ==> a[k].key != w[m].key,
            forall|k: int, m: int|
                #![trigger w[k], a[m]]
                0 <= k < i && j <= m < an ==> w[k].key != a[m].key,
            referents(to_add@) =~= items(w.take(i as int).filter(lone_w)),
            referents(to_remove@) =~= items(a.take(j as int).filter(lone_a)),
            pair_referents(to_sync@) =~= item_pairs(
                w.take(i as int).filter(both).map_values(paired_with(a)),
            ),
        decreases (wn - i) + (an - j),
    {
        let side: KeyOrder = if j >= an {
            KeyOrder::Before
        } else if i >= wn {
            KeyOrder::After
        } else {
            compare_names(wanted.name(i), actual.name(j))
        };
        match side {
            KeyOrder::Before => {
                proof {
                    assert forall|m: int| #![trigger a[m]] 0 <= m < an implies a[m].key
                        != w[i as int].key by {
                        if m >= j {
                            if m > j {
                                lemma_key_lt_transitive(w[i as int].key, a[j as int].key, a[m].key);
                            }
                            lemma_key_lt_asymmetric(w[i as int].key, a[m].key);
                        }
                    }
                    assert(lone_w(w[i as int]));
                    assert(!both(w[i as int]));
                    lemma_filter_next(w, i as int, lone_w);
                    lemma_filter_next(w, i as int, both);
                }
                let x = wanted.item(i);
                proof {
                    lemma_push_item(to_add@, x, w.take(i as int).filter(lone_w), w[i as int]);
                }
                to_add.push(x);
                i += 1;
            },
            KeyOrder::Same => {
                proof {
                    assert(a[j as int].key == w[i as int].key);
                    assert(both(w[i as int]));
                    assert(!lone_w(w[i as int]));
                    assert(has_key(w, a[j as int].key)) by {
                        assert(w[i as int].key == a[j as int].key);
                    }
                    assert(!lone_a(a[j as int]));
                    lemma_ascending_keys_distinct(a, position_of(a, w[i as int].key), j as int);
                    lemma_filter_next(w, i as int, lone_w);
                    lemma_filter_next(w, i as int, both);
                    lemma_filter_next(a, j as int, lone_a);
                    assert forall|m: int| #![trigger w[m]] i < m < wn implies a[j as int].key
                        != w[m].key by {
                        lemma_key_lt_asymmetric(w[i as int].key, w[m].key);
                    }
                    assert forall|m: int| #![trigger a[m]] j < m < an implies w[i as int].key
                        != a[m].key by {
                        lemma_key_lt_asymmetric(a[j as int].key, a[m].key);
                    }
                }
                let pair = (wanted.item(i), actual.item(j));
                proof {
                    let f = w.take(i as int).filter(both);
                    lemma_push_pair(
                        to_sync@,
                        pair,
                        f.map_values(paired_with(a)),
                        (w[i as int], a[j as int]),
                    );
                    assert(f.push(w[i as int]).map_values(paired_with(a)) =~= f.map_values(
                        paired_with(a),
                    ).push((w[i as int], a[j as int])));
                }
                to_sync.push(pair);
                i += 1;
                j += 1;
            },
            KeyOrder::After => {
                proof {
                    assert forall|m: int| #![trigger w[m]] 0 <= m < wn implies w[m].key
                        != a[j as int].key by {
                        if m >= i {
                            if m > i {
                                lemma_key_lt_transitive(a[j as int].key, w[i as int].key, w[m].key);
                            }
                            lemma_key_lt_asymmetric(a[j as int].key, w[m].key);
                        }
                    }
                    assert(lone_a(a[j as int]));
                    lemma_filter_next(a, j as int, lone_a);
                }
                let x = actual.item(j);
                proof {
                    lemma_push_item(to_remove@, x, a.take(j as int).filter(lone_a), a[j as int]);
                }
                to_remove.push(x);
                j += 1;
            },
        }
    }
    proof {
        assert(w.take(wn as int) =~= w);
        assert(a.take(an as int) =~= a);
    }
    Diff { to_add, to_remove, to_sync }
}

} // verus!
