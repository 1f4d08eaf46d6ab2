//! Collections ordered by name: the form in which wanted and actual resources
//! are compared.

use vstd::prelude::*;
use vstd::string::StringSliceAdditionalSpecFns;
use vstd::seq_lib::{
    to_multiset_build, to_multiset_contains, to_multiset_insert, to_multiset_len, to_multiset_remove,
};
use vstd::utf8::encode_utf8;
use crate::error::Error;
use crate::order::{compare_names, key_lt, lemma_key_lt_asymmetric, lemma_key_lt_transitive, KeyOrder};

verus! {

/// An item together with the key it is filed under: what contracts see of an
/// entry. The key is the name's UTF-8 bytes.
pub struct Keyed<T> {
    pub key: Seq<u8>,
    pub item: T,
}

/// Every entry's key comes strictly before the keys of all later entries.
pub open spec fn ascending<T>(s: Seq<Keyed<T>>) -> bool {
    forall|i: int, j: int| #![trigger s[i], s[j]] 0 <= i < j < s.len() ==> key_lt(s[i].key, s[j].key)
}

/// Some entry of `s` is filed under `k`.
pub open spec fn has_key<T>(s: Seq<Keyed<T>>, k: Seq<u8>) -> bool {
    exists|i: int| #![trigger s[i]] 0 <= i < s.len() && s[i].key == k
}

/// The position of the entry filed under `k`, where there is one.
pub open spec fn position_of<T>(s: Seq<Keyed<T>>, k: Seq<u8>) -> int {
    choose|i: int| #![trigger s[i]] 0 <= i < s.len() && s[i].key == k
}

/// In an ascending sequence a key is found at one position only.
pub proof fn lemma_ascending_keys_distinct<T>(s: Seq<Keyed<T>>, i: int, j: int)
    requires
        ascending(s),
        0 <= i < s.len(),
        0 <= j < s.len(),
        s[i].key == s[j].key,
    ensures
        i == j,
{
    if i < j {
        lemma_key_lt_asymmetric(s[i].key, s[j].key);
    } else if j < i {
        lemma_key_lt_asymmetric(s[j].key, s[i].key);
    }
}

/// `sorted` holds the entries of `given`, in ascending order of key.
pub open spec fn ordering_of<T>(sorted: Seq<Keyed<T>>, given: Seq<Keyed<T>>) -> bool {
    ascending(sorted) && sorted.to_multiset() == given.to_multiset()
}

/// The entries of `given` in ascending order of key, where they can be
/// ordered so, that is where no key occurs twice.
pub open spec fn in_order<T>(given: Seq<Keyed<T>>) -> Seq<Keyed<T>> {
    choose|sorted: Seq<Keyed<T>>| ordering_of(sorted, given)
}

/// Entries can be put in ascending order in one way only.
pub proof fn lemma_ascending_unique<T>(s: Seq<Keyed<T>>, t: Seq<Keyed<T>>)
    requires
        ascending(s),
        ascending(t),
        s.to_multiset() == t.to_multiset(),
    ensures
        s == t,
    decreases s.len(),
{
    to_multiset_len(s);
    to_multiset_len(t);
    if s.len() == 0 {
        assert(s =~= t);
    } else {
        let n = s.len() - 1;
        assert(s.contains(s[n]));
        assert(t.contains(t[n]));
        to_multiset_contains(s, s[n]);
        to_multiset_contains(t, s[n]);
        to_multiset_contains(s, t[n]);
        to_multiset_contains(t, t[n]);
        let i = choose|i: int| 0 <= i < s.len() && s[i] == t[n];
        let j = choose|j: int| 0 <= j < t.len() && t[j] == s[n];
        if i < n && j < n {
            assert(key_lt(s[i].key, s[n].key));
            assert(key_lt(t[j].key, t[n].key));
            lemma_key_lt_asymmetric(s[i].key, s[n].key);
        }
        assert(s[n] == t[n]);
        to_multiset_remove(s, n);
        to_multiset_remove(t, n);
        assert(s.remove(n) =~= s.drop_last());
        assert(t.remove(n) =~= t.drop_last());
        lemma_ascending_unique(s.drop_last(), t.drop_last());
        assert(s =~= s.drop_last().push(s[n]));
        assert(t =~= t.drop_last().push(t[n]));
    }
}

/// Whatever holds the entries of `given` in ascending order is `in_order(given)`.
pub proof fn lemma_in_order<T>(sorted: Seq<Keyed<T>>, given: Seq<Keyed<T>>)
    requires
        ordering_of(sorted, given),
    ensures
        sorted == in_order(given),
{
    lemma_ascending_unique(sorted, in_order(given));
}

/// No two entries are filed under one key.
pub open spec fn distinct_keys<T>(s: Seq<Keyed<T>>) -> bool {
    forall|i: int, j: int| #![trigger s[i], s[j]] 0 <= i < j < s.len() ==> s[i].key != s[j].key
}

/// The key is filed under at two places of `s`.
pub open spec fn occurs_twice<T>(s: Seq<Keyed<T>>, k: Seq<u8>) -> bool {
    exists|i: int, j: int| #![trigger s[i], s[j]] 0 <= i < j < s.len() && s[i].key == k && s[j].key == k
}

/// What contracts see of a list of names with their items.
pub open spec fn entries_of<T>(pairs: Seq<(&str, &T)>) -> Seq<Keyed<T>> {
    Seq::new(pairs.len(), |i: int| Keyed { key: pairs[i].0.spec_bytes(), item: *pairs[i].1 })
}

/// A mapping from name to a borrowed item, held in ascending order of name.
pub struct ByName<'a, T> {
    entries: Vec<(&'a str, &'a T)>,
}

impl<'a, T> View for ByName<'a, T> {
    type V = Seq<Keyed<T>>;

    closed spec fn view(&self) -> Seq<Keyed<T>> {
        Seq::new(
            self.entries@.len(),
            |i: int| Keyed { key: self.entries@[i].0.spec_bytes(), item: *self.entries@[i].1 },
        )
    }
}

impl<'a, T> ByName<'a, T> {
    /// The names are strictly ascending, so no name occurs twice.
    pub open spec fn wf(&self) -> bool {
        ascending(self@)
    }

    /// The empty mapping.
    pub fn new() -> (m: Self)
        ensures
            m@ == Seq::<Keyed<T>>::empty(),
            m.wf(),
    {
        let m = ByName { entries: Vec::new() };
        assert(m@ =~= Seq::<Keyed<T>>::empty());
        m
    }

    /// Orders the pairs by name. Two pairs under one name are an error of
    /// whoever put the list together, and are reported as such.
    pub fn collect(pairs: &Vec<(&'a str, &'a T)>) -> (r: Result<Self, Error>)
        ensures
            r is Ok <==> distinct_keys(entries_of(pairs@)),
            match r {
                Ok(m) => m.wf() && m@ == in_order(entries_of(pairs@)) && m@.to_multiset()
                    == entries_of(pairs@).to_multiset(),
                Err(Error::InvariantViolation { name }) => occurs_twice(
                    entries_of(pairs@),
                    encode_utf8(name@),
                ),
                Err(_) => false,
            },
    {
        let ghost all = entries_of(pairs@);
        let mut m: ByName<'a, T> = ByName::new();
        let mut i: usize = 0;
        assert(all.take(0) =~= m@);
        while i < pairs.len()
            invariant
                all == entries_of(pairs@),
                i <= pairs@.len(),
                m.wf(),
                m@.to_multiset() == all.take(i as int).to_multiset(),
                distinct_keys(all.take(i as int)),
            decreases pairs@.len() - i,
        {
            let name: &'a str = pairs[i].0;
            let item: &'a T = pairs[i].1;
            let ghost before = m@;
            let ghost seen = all.take(i as int);
            let ghost e = all[i as int];
            assert(e.key == name.spec_bytes() && e.item == *item);
            let added: bool = m.insert(name, item);
            if !added {
                let owned: String = name.to_owned();
                proof {
                    let q = position_of(before, e.key);
                    to_multiset_contains(before, before[q]);
                    to_multiset_contains(seen, before[q]);
                    let j = choose|j: int| 0 <= j < seen.len() && seen[j] == before[q];
                    assert(all[j].key == e.key && all[i as int].key == e.key);
                }
                return Err(Error::InvariantViolation { name: owned });
            }
            proof {
                let p = choose|p: int| 0 <= p <= before.len() && m@ == before.insert(p, e);
                to_multiset_insert(before, p, e);
                to_multiset_build(seen, e);
                let next = all.take(i + 1);
                assert(next =~= seen.push(e));
                assert forall|x: int, y: int| #![trigger next[x], next[y]]
                    0 <= x < y < next.len() implies next[x].key != next[y].key by {
                    if y == i {
                        assert(seen[x] == next[x]);
                        assert(seen.contains(seen[x]));
                        to_multiset_contains(seen, seen[x]);
                        to_multiset_contains(before, seen[x]);
                        let q = choose|q: int| 0 <= q < before.len() && before[q] == seen[x];
                        assert(before[q].key == next[x].key);
                    } else {
                        assert(seen[x] == next[x] && seen[y] == next[y]);
                    }
                }
            }
            i += 1;
        }
        proof {
            assert(all.take(i as int) =~= all);
            lemma_in_order(m@, all);
        }
        Ok(m)
    }

    /// The number of entries.
    pub fn len(&self) -> (n: usize)
        ensures
            n == self@.len(),
    {
        self.entries.len()
    }

    /// The name of the entry at position `i`.
    pub fn name(&self, i: usize) -> (r: &'a str)
        requires
            i < self@.len(),
        ensures
            r.spec_bytes() == self@[i as int].key,
    {
        self.entries[i].0
    }

    /// The item of the entry at position `i`.
    pub fn item(&self, i: usize) -> (r: &'a T)
        requires
            i < self@.len(),
        ensures
            *r == self@[i as int].item,
    {
        self.entries[i].1
    }

    /// Files `item` under `name`, keeping the order. Where the name is taken
    /// already, the mapping stays as it is and the answer is `false`.
    pub fn insert(&mut self, name: &'a str, item: &'a T) -> (added: bool)
        requires
            old(self).wf(),
        ensures
            final(self).wf(),
            added <==> !has_key(old(self)@, name.spec_bytes()),
            !added ==> final(self)@ == old(self)@,
            added ==> exists|p: int|
                0 <= p <= old(self)@.len() && final(self)@ == #[trigger] old(self)@.insert(
                    p,
                    Keyed { key: name.spec_bytes(), item: *item },
                ),
    {
        let ghost before = self@;
        let ghost key = name.spec_bytes();
        let n: usize = self.entries.len();
        let mut p: usize = 0;
        let mut placed: bool = false;
        while !placed && p < n
            invariant
                self@ == before,
                ascending(before),
                n == before.len(),
                n == self.entries@.len(),
                key == name.spec_bytes(),
                p <= n,
                forall|j: int| #![trigger before[j]] 0 <= j < p ==> key_lt(before[j].key, key),
                placed ==> p < n && key_lt(key, before[p as int].key),
            decreases n - p + (if placed { 0int } else { 1int }),
        {
            match compare_names(self.entries[p].0, name) {
                KeyOrder::Before => {
                    p += 1;
                },
                KeyOrder::Same => {
                    assert(before[p as int].key == key);
                    return false;
                },
                KeyOrder::After => {
                    placed = true;
                },
            }
        }
        proof {
            assert forall|j: int| #![trigger before[j]] 0 <= j < n implies before[j].key != key by {
                if j < p {
                    lemma_key_lt_asymmetric(before[j].key, key);
                } else {
                    if j > p {
                        lemma_key_lt_transitive(key, before[p as int].key, before[j].key);
                    }
                    lemma_key_lt_asymmetric(key, before[j].key);
                }
            }
        }
        self.entries.insert(p, (name, item));
        proof {
            let e = Keyed { key, item: *item };
            let after = before.insert(p as int, e);
            assert(self@ =~= after);
            assert forall|i: int, j: int| #![trigger after[i], after[j]]
                0 <= i < j < after.len() implies key_lt(after[i].key, after[j].key) by {
                if j < p {
                    assert(after[i] == before[i] && after[j] == before[j]);
                } else if j == p {
                    assert(after[i] == before[i]);
                } else if i < p {
                    assert(after[i] == before[i] && after[j] == before[j - 1]);
                    if j - 1 == p {
                        lemma_key_lt_transitive(before[i].key, key, before[p as int].key);
                    }
                } else if i == p {
                    assert(after[j] == before[j - 1]);
                    if j - 1 > p {
                        lemma_key_lt_transitive(key, before[p as int].key, before[j - 1].key);
                    }
                } else {
                    assert(after[i] == before[i - 1] && after[j] == before[j - 1]);
                }
            }
        }
        true
    }
}

} // verus!
