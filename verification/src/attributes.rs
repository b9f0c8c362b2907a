//! Tag maps: the `key=value` attributes a map primitive carries, kept in key
//! order.

use vstd::prelude::*;
use crate::text::str_eq;

verus! {

/// Strict order on keys: character by character, a proper prefix first.
pub open spec fn key_less(a: Seq<char>, b: Seq<char>) -> bool {
    exists|k: int|
        0 <= k <= a.len() && k <= b.len() && #[trigger] a.subrange(0, k) == b.subrange(0, k) && ((k == a.len()
            && k < b.len()) || (k < a.len() && k < b.len() && (a[k] as int) < (b[k] as int)))
}

/// Entries in key order with `(key, value)` put in its place: replacing the
/// entry under `key` if there is one.
pub open spec fn sorted_insert(es: Seq<(Seq<char>, Seq<char>)>, key: Seq<char>, value: Seq<char>) -> Seq<
    (Seq<char>, Seq<char>),
>
    decreases es.len(),
{
    if es.len() == 0 {
        seq![(key, value)]
    } else if es[0].0 == key {
        seq![(key, value)] + es.drop_first()
    } else if key_less(es[0].0, key) {
        seq![es[0]] + sorted_insert(es.drop_first(), key, value)
    } else {
        seq![(key, value)] + es
    }
}

/// Putting an entry in place is splicing it in where the smaller keys end.
pub proof fn lemma_sorted_insert_at(es: Seq<(Seq<char>, Seq<char>)>, key: Seq<char>, value: Seq<char>, i: int)
    requires
        0 <= i <= es.len(),
        forall|j: int| 0 <= j < i ==> key_less(#[trigger] es[j].0, key),
        i == es.len() || !key_less(es[i].0, key),
    ensures
        sorted_insert(es, key, value) == es.take(i) + seq![(key, value)] + (if i < es.len() && es[i].0 == key {
            es.skip(i + 1)
        } else {
            es.skip(i)
        }),
    decreases i,
{
    if i == 0 {
        if es.len() > 0 {
            assert(es.skip(1) =~= es.drop_first());
        }
        assert(es.skip(0) =~= es);
        assert(es.take(0) =~= Seq::<(Seq<char>, Seq<char>)>::empty());
    } else {
        let t = es.drop_first();
        assert(key_less(es[0].0, key));
        assert(es[0].0 != key) by {
            if es[0].0 == key {
                assert(!key_less(key, key));
            }
        }
        assert forall|j: int| 0 <= j < i - 1 implies key_less(#[trigger] t[j].0, key) by {
            assert(t[j] == es[j + 1]);
        }
        if i - 1 < t.len() {
            assert(t[i - 1] == es[i]);
        }
        lemma_sorted_insert_at(t, key, value, i - 1);
        assert(es.take(i) =~= seq![es[0]] + t.take(i - 1));
        if i < es.len() {
            assert(es.skip(i + 1) =~= t.skip(i));
        }
        assert(es.skip(i) =~= t.skip(i - 1));
    }
}

/// Two different keys are ordered one way or the other.
pub proof fn lemma_key_total(a: Seq<char>, b: Seq<char>, k: int)
    requires
        0 <= k <= a.len(),
        k <= b.len(),
        a.subrange(0, k) == b.subrange(0, k),
        a != b,
        !key_less(a, b),
    ensures
        key_less(b, a),
    decreases a.len() - k,
{
    if k == a.len() {
        if k < b.len() {
            assert(key_less(a, b));
        } else {
            assert(a =~= a.subrange(0, k));
            assert(b =~= b.subrange(0, k));
        }
    } else if k == b.len() {
        assert(b.subrange(0, k) == a.subrange(0, k));
        assert(key_less(b, a));
    } else if a[k] == b[k] {
        assert(a.subrange(0, k + 1) =~= a.subrange(0, k).push(a[k]));
        assert(b.subrange(0, k + 1) =~= b.subrange(0, k).push(b[k]));
        lemma_key_total(a, b, k + 1);
    } else {
        if (a[k] as int) < (b[k] as int) {
            assert(key_less(a, b));
        } else {
            assert(b.subrange(0, k) == a.subrange(0, k));
            assert(key_less(b, a));
        }
    }
}

/// The value of the first entry under `key`.
pub open spec fn lookup(entries: Seq<(Seq<char>, Seq<char>)>, key: Seq<char>) -> Option<Seq<char>>
    decreases entries.len(),
{
    if entries.len() == 0 {
        None
    } else if entries[0].0 == key {
        Some(entries[0].1)
    } else {
        lookup(entries.drop_first(), key)
    }
}

/// A tag value read as a yes/no answer: `true`, `yes` and `1` are yes;
/// `false`, `no` and `0` are no; anything else is no answer.
pub open spec fn as_bool(value: Seq<char>) -> Option<bool> {
    if value == "true"@ || value == "yes"@ || value == "1"@ {
        Some(true)
    } else if value == "false"@ || value == "no"@ || value == "0"@ {
        Some(false)
    } else {
        None
    }
}

pub fn parse_bool(value: &str) -> (r: Option<bool>)
    ensures
        r == as_bool(value@),
{
    if str_eq(value, "true") || str_eq(value, "yes") || str_eq(value, "1") {
        Some(true)
    } else if str_eq(value, "false") || str_eq(value, "no") || str_eq(value, "0") {
        Some(false)
    } else {
        None
    }
}

/// Whether `a` sorts strictly before `b`.
pub fn less(a: &str, b: &str) -> (r: bool)
    ensures
        r == key_less(a@, b@),
{
    let n = a.unicode_len();
    let m = b.unicode_len();
    let mut k: usize = 0;
    while k < n && k < m
        invariant
            n == a@.len(),
            m == b@.len(),
            k <= n && k <= m,
            a@.subrange(0, k as int) == b@.subrange(0, k as int),
        decreases n - k,
    {
        let x = a.get_char(k);
        let y = b.get_char(k);
        if x != y {
            let r = (x as u32) < (y as u32);
            proof {
                if r {
                    assert(key_less(a@, b@));
                } else {
                    assert forall|j: int|
                        0 <= j <= a@.len() && j <= b@.len() && #[trigger] a@.subrange(0, j) == b@.subrange(0, j)
                        implies !((j == a@.len() && j < b@.len()) || (j < a@.len() && j < b@.len() && (a@[j] as int)
                        < (b@[j] as int))) by {
                        if j > k {
                            assert(a@.subrange(0, j)[k as int] == b@.subrange(0, j)[k as int]);
                        } else if j < k {
                            assert(a@.subrange(0, k as int)[j] == b@.subrange(0, k as int)[j]);
                        }
                    }
                }
            }
            return r;
        }
        assert(a@.subrange(0, k + 1) =~= a@.subrange(0, k as int).push(x));
        assert(b@.subrange(0, k + 1) =~= b@.subrange(0, k as int).push(y));
        k = k + 1;
    }
    let r = k == n && k < m;
    proof {
        if r {
            assert(key_less(a@, b@));
        } else {
            assert forall|j: int|
                0 <= j <= a@.len() && j <= b@.len() && #[trigger] a@.subrange(0, j) == b@.subrange(0, j)
                implies !((j == a@.len() && j < b@.len()) || (j < a@.len() && j < b@.len() && (a@[j] as int)
                < (b@[j] as int))) by {
                if j < k {
                    assert(a@.subrange(0, k as int)[j] == b@.subrange(0, k as int)[j]);
                }
            }
        }
    }
    r
}

/// A tag map, each key once, in key order.
pub struct AttributeMap {
    entries: Vec<(String, String)>,
}

/// The entries, with each key and value as characters.
pub open spec fn entry_views(entries: Seq<(String, String)>) -> Seq<(Seq<char>, Seq<char>)> {
    entries.map_values(|e: (String, String)| (e.0@, e.1@))
}

impl AttributeMap {
    /// The entries in key order.
    pub closed spec fn spec_entries(&self) -> Seq<(Seq<char>, Seq<char>)> {
        entry_views(self.entries@)
    }

    /// Keys strictly increase.
    pub closed spec fn wf(&self) -> bool {
        forall|i: int|
            0 <= i < self.entries@.len() - 1 ==> key_less(
                #[trigger] self.entries@[i].0@,
                self.entries@[i + 1].0@,
            )
    }

    pub fn new() -> (r: AttributeMap)
        ensures
            r.wf(),
            r.spec_entries() == Seq::<(Seq<char>, Seq<char>)>::empty(),
    {
        let r = AttributeMap { entries: Vec::new() };
        assert(r.spec_entries() =~= Seq::<(Seq<char>, Seq<char>)>::empty());
        r
    }

    pub fn len(&self) -> (r: usize)
        ensures
            r == self.spec_entries().len(),
    {
        self.entries.len()
    }

    /// The entry at a position in key order.
    pub fn entry(&self, index: usize) -> (r: (&str, &str))
        requires
            index < self.spec_entries().len(),
        ensures
            r.0@ == self.spec_entries()[index as int].0,
            r.1@ == self.spec_entries()[index as int].1,
    {
        (self.entries[index].0.as_str(), self.entries[index].1.as_str())
    }

    /// The value under `key`, if any.
    pub fn get(&self, key: &str) -> (r: Option<&str>)
        ensures
            match lookup(self.spec_entries(), key@) {
                Some(v) => r is Some && r->0@ == v,
                None => r is None,
            },
    {
        let ghost es = self.spec_entries();
        assert(es.subrange(0, es.len() as int) =~= es);
        let mut i: usize = 0;
        while i < self.entries.len()
            invariant
                i <= self.entries@.len(),
                es == entry_views(self.entries@),
                lookup(es, key@) == lookup(es.subrange(i as int, es.len() as int), key@),
            decreases self.entries@.len() - i,
        {
            assert(es.subrange(i as int, es.len() as int)[0] == es[i as int]);
            assert(es.subrange(i as int, es.len() as int).drop_first() =~= es.subrange(i + 1, es.len() as int));
            if str_eq(self.entries[i].0.as_str(), key) {
                return Some(self.entries[i].1.as_str());
            }
            i = i + 1;
        }
        None
    }

    /// Sets `key` to `value`, replacing any value it had; key order is kept.
    pub fn insert(&mut self, key: &str, value: &str)
        requires
            old(self).wf(),
        ensures
            final(self).wf(),
            final(self).spec_entries() == sorted_insert(old(self).spec_entries(), key@, value@),
    {
        let ghost es = self.spec_entries();
        let mut i: usize = 0;
        while i < self.entries.len() && less(self.entries[i].0.as_str(), key)
            invariant
                i <= self.entries@.len(),
                es == entry_views(self.entries@),
                self.wf(),
                forall|j: int| 0 <= j < i ==> key_less(#[trigger] es[j].0, key@),
            decreases self.entries@.len() - i,
        {
            i = i + 1;
        }
        if i < self.entries.len() && str_eq(self.entries[i].0.as_str(), key) {
            self.entries.set(i, (key.to_owned(), value.to_owned()));
            proof {
                assert(self.spec_entries() =~= es.update(i as int, (key@, value@)));
                lemma_sorted_insert_at(es, key@, value@, i as int);
                assert(es.update(i as int, (key@, value@)) =~= es.take(i as int) + seq![(key@, value@)] + es.skip(i + 1));
            }
        } else {
            self.entries.insert(i, (key.to_owned(), value.to_owned()));
            proof {
                assert(self.spec_entries() =~= es.insert(i as int, (key@, value@)));
                lemma_sorted_insert_at(es, key@, value@, i as int);
                assert(es.insert(i as int, (key@, value@)) =~= es.take(i as int) + seq![(key@, value@)] + es.skip(i as int));
            }
        }
        proof {
            let ns = self.entries@;
            if i < es.len() && es[i as int].0 == key@ {
                assert forall|j: int| 0 <= j < ns.len() - 1 implies key_less(#[trigger] ns[j].0@, ns[j + 1].0@) by {
                    assert(ns[j].0@ == es[j].0);
                    assert(ns[j + 1].0@ == es[j + 1].0);
                    assert(key_less(old(self).entries@[j].0@, old(self).entries@[j + 1].0@));
                }
            } else {
                if i < es.len() {
                    assert(es[i as int].0.subrange(0, 0) =~= key@.subrange(0, 0));
                    lemma_key_total(es[i as int].0, key@, 0);
                }
                assert forall|j: int| 0 <= j < ns.len() - 1 implies key_less(#[trigger] ns[j].0@, ns[j + 1].0@) by {
                    if j < i - 1 {
                        assert(ns[j].0@ == es[j].0 && ns[j + 1].0@ == es[j + 1].0);
                        assert(key_less(old(self).entries@[j].0@, old(self).entries@[j + 1].0@));
                    } else if j == i - 1 {
                        assert(ns[j].0@ == es[j].0 && ns[j + 1].0@ == key@);
                    } else if j == i {
                        assert(ns[j].0@ == key@ && ns[j + 1].0@ == es[j].0);
                    } else {
                        assert(ns[j].0@ == es[j - 1].0 && ns[j + 1].0@ == es[j].0);
                        assert(key_less(old(self).entries@[j - 1].0@, old(self).entries@[j].0@));
                    }
                }
            }
        }
    }
}

/// Reading a key back after setting it gives the value set, and every other
/// key reads as it did before.
pub proof fn lemma_get_after_insert(es: Seq<(Seq<char>, Seq<char>)>, key: Seq<char>, value: Seq<char>, other: Seq<char>)
    ensures
        lookup(sorted_insert(es, key, value), key) == Some(value),
        other != key ==> lookup(sorted_insert(es, key, value), other) == lookup(es, other),
    decreases es.len(),
{
    if es.len() > 0 && es[0].0 != key && key_less(es[0].0, key) {
        lemma_get_after_insert(es.drop_first(), key, value, other);
        let r = seq![es[0]] + sorted_insert(es.drop_first(), key, value);
        assert(r.drop_first() =~= sorted_insert(es.drop_first(), key, value));
    } else if es.len() > 0 && es[0].0 == key {
        let r = seq![(key, value)] + es.drop_first();
        assert(r.drop_first() =~= es.drop_first());
    } else {
        let r = seq![(key, value)] + es;
        assert(r.drop_first() =~= es);
    }
}

} // verus!
