//! A string-keyed association map with insertion-order entries.
//!
//! The world model stores every mapping (objects of a room, actions of an
//! object, rooms of the world, a session's script scratchpad) in this one
//! container. Its view is the ordered sequence of `(key, value)` entries;
//! lookup semantics are given by [`kv_get`], and well-formed maps never hold
//! two entries with the same key.

use vstd::prelude::*;
use crate::strutil::str_eq;

verus! {

/// Value at the first entry of `s` whose key is `k`.
pub open spec fn kv_get<T>(s: Seq<(Seq<char>, T)>, k: Seq<char>) -> Option<T>
    decreases s.len(),
{
    if s.len() == 0 {
        None::<T>
    } else if s[0].0 == k {
        Some(s[0].1)
    } else {
        kv_get(s.drop_first(), k)
    }
}

/// True iff no two entries of `s` share a key.
pub open spec fn kv_distinct<T>(s: Seq<(Seq<char>, T)>) -> bool {
    forall|i: int, j: int| 0 <= i < j < s.len() ==> s[i].0 != s[j].0
}

/// `s` with the first entry keyed `k` replaced by `(k, v)`, or with `(k, v)`
/// appended when no entry holds `k`.
pub open spec fn kv_insert<T>(s: Seq<(Seq<char>, T)>, k: Seq<char>, v: T) -> Seq<(Seq<char>, T)>
    decreases s.len(),
{
    if s.len() == 0 {
        seq![(k, v)]
    } else if s[0].0 == k {
        seq![(k, v)] + s.drop_first()
    } else {
        seq![s[0]] + kv_insert(s.drop_first(), k, v)
    }
}

pub proof fn lemma_kv_get_none<T>(s: Seq<(Seq<char>, T)>, k: Seq<char>)
    requires
        forall|i: int| 0 <= i < s.len() ==> s[i].0 != k,
    ensures
        kv_get(s, k) is None,
    decreases s.len(),
{
    if s.len() > 0 {
        lemma_kv_get_none(s.drop_first(), k);
    }
}

pub proof fn lemma_kv_get_none_keys<T>(s: Seq<(Seq<char>, T)>, k: Seq<char>)
    requires
        kv_get(s, k) is None,
    ensures
        forall|i: int| 0 <= i < s.len() ==> s[i].0 != k,
    decreases s.len(),
{
    if s.len() > 0 {
        lemma_kv_get_none_keys(s.drop_first(), k);
        assert forall|i: int| 0 <= i < s.len() implies s[i].0 != k by {
            if i > 0 {
                assert(s.drop_first()[i - 1] == s[i]);
            }
        }
    }
}

pub proof fn lemma_kv_get_first<T>(s: Seq<(Seq<char>, T)>, k: Seq<char>, i: int)
    requires
        0 <= i < s.len(),
        s[i].0 == k,
        forall|j: int| 0 <= j < i ==> s[j].0 != k,
    ensures
        kv_get(s, k) == Some(s[i].1),
    decreases s.len(),
{
    if i > 0 {
        lemma_kv_get_first(s.drop_first(), k, i - 1);
    }
}

/// A successful lookup returns the value of some entry.
pub proof fn lemma_kv_get_is_entry<T>(s: Seq<(Seq<char>, T)>, k: Seq<char>)
    ensures
        match kv_get(s, k) {
            Some(v) => exists|i: int| 0 <= i < s.len() && #[trigger] s[i] == (k, v),
            None => true,
        },
    decreases s.len(),
{
    if s.len() > 0 {
        if s[0].0 == k {
            assert(s[0] == (k, s[0].1));
        } else {
            lemma_kv_get_is_entry(s.drop_first(), k);
            match kv_get(s.drop_first(), k) {
                Some(v) => {
                    let i = choose|i: int| 0 <= i < s.drop_first().len() && #[trigger] s.drop_first()[
                        i] == (k, v);
                    assert(s[i + 1] == (k, v));
                },
                None => {},
            }
        }
    }
}

pub proof fn lemma_kv_insert_get<T>(s: Seq<(Seq<char>, T)>, k: Seq<char>, v: T, k2: Seq<char>)
    ensures
        kv_get(kv_insert(s, k, v), k2) == if k2 == k {
            Some(v)
        } else {
            kv_get(s, k2)
        },
    decreases s.len(),
{
    if s.len() == 0 {
        let t = seq![(k, v)];
        assert(kv_insert(s, k, v) == t);
        if k2 == k {
            assert(kv_get(t, k2) == Some(v));
        } else {
            assert(kv_get(t, k2) == kv_get(t.drop_first(), k2));
            assert(t.drop_first().len() == 0);
            assert(kv_get(t.drop_first(), k2) is None);
            assert(kv_get(s, k2) is None);
        }
    } else if s[0].0 == k {
        let t = seq![(k, v)] + s.drop_first();
        assert(t[0] == (k, v));
        assert(t.drop_first() =~= s.drop_first());
    } else {
        let t = seq![s[0]] + kv_insert(s.drop_first(), k, v);
        assert(t[0] == s[0]);
        assert(t.drop_first() =~= kv_insert(s.drop_first(), k, v));
        lemma_kv_insert_get(s.drop_first(), k, v, k2);
    }
}

/// The keys found in `kv_insert(s, k, v)` are those of `s` plus `k`.
pub proof fn lemma_kv_insert_keys<T>(s: Seq<(Seq<char>, T)>, k: Seq<char>, v: T)
    ensures
        forall|i: int| 0 <= i < kv_insert(s, k, v).len() ==> (#[trigger] kv_insert(s, k, v)[i].0
            == k || exists|j: int| 0 <= j < s.len() && s[j].0 == kv_insert(s, k, v)[i].0),
    decreases s.len(),
{
    if s.len() == 0 {
    } else if s[0].0 == k {
        let t = seq![(k, v)] + s.drop_first();
        assert forall|i: int| 0 <= i < t.len() implies (#[trigger] t[i].0 == k || exists|j: int|
            0 <= j < s.len() && s[j].0 == t[i].0) by {
            if i > 0 {
                assert(t[i] == s.drop_first()[i - 1]);
                assert(s[i] == s.drop_first()[i - 1]);
                assert(s[i].0 == t[i].0);
            }
        }
    } else {
        lemma_kv_insert_keys(s.drop_first(), k, v);
        let rest = kv_insert(s.drop_first(), k, v);
        let t = seq![s[0]] + rest;
        assert forall|i: int| 0 <= i < t.len() implies (#[trigger] t[i].0 == k || exists|j: int|
            0 <= j < s.len() && s[j].0 == t[i].0) by {
            if i == 0 {
                assert(s[0].0 == t[0].0);
            } else {
                assert(t[i] == rest[i - 1]);
                if rest[i - 1].0 != k {
                    let j = choose|j: int| 0 <= j < s.drop_first().len() && s.drop_first()[j].0
                        == rest[i - 1].0;
                    assert(s[j + 1].0 == t[i].0);
                }
            }
        }
    }
}

pub proof fn lemma_kv_insert_distinct<T>(s: Seq<(Seq<char>, T)>, k: Seq<char>, v: T)
    requires
        kv_distinct(s),
    ensures
        kv_distinct(kv_insert(s, k, v)),
    decreases s.len(),
{
    if s.len() == 0 {
    } else if s[0].0 == k {
        let t = seq![(k, v)] + s.drop_first();
        assert forall|i: int, j: int| 0 <= i < j < t.len() implies t[i].0 != t[j].0 by {
            assert(s[i] == if i == 0 { s[0] } else { t[i] });
            assert(t[j] == s[j]);
            if i > 0 {
                assert(t[i] == s[i]);
            }
        }
    } else {
        assert(kv_distinct(s.drop_first())) by {
            assert forall|i: int, j: int| 0 <= i < j < s.drop_first().len() implies (
            #[trigger] s.drop_first()[i]).0 != (#[trigger] s.drop_first()[j]).0 by {
                assert(s.drop_first()[i] == s[i + 1]);
                assert(s.drop_first()[j] == s[j + 1]);
            }
        }
        lemma_kv_insert_distinct(s.drop_first(), k, v);
        lemma_kv_insert_keys(s.drop_first(), k, v);
        let rest = kv_insert(s.drop_first(), k, v);
        let t = seq![s[0]] + rest;
        assert forall|i: int, j: int| 0 <= i < j < t.len() implies t[i].0 != t[j].0 by {
            if i == 0 {
                assert(t[j] == rest[j - 1]);
                if rest[j - 1].0 != k {
                    let m = choose|m: int| 0 <= m < s.drop_first().len() && s.drop_first()[m].0
                        == rest[j - 1].0;
                    assert(s[m + 1].0 == rest[j - 1].0);
                    assert(s[0].0 != s[m + 1].0);
                }
            } else {
                assert(t[i] == rest[i - 1]);
                assert(t[j] == rest[j - 1]);
            }
        }
    }
}

/// When `k` is absent, inserting appends.
pub proof fn lemma_kv_insert_absent<T>(s: Seq<(Seq<char>, T)>, k: Seq<char>, v: T)
    requires
        forall|i: int| 0 <= i < s.len() ==> s[i].0 != k,
    ensures
        kv_insert(s, k, v) == s.push((k, v)),
    decreases s.len(),
{
    if s.len() == 0 {
        assert(kv_insert(s, k, v) =~= s.push((k, v)));
    } else {
        lemma_kv_insert_absent(s.drop_first(), k, v);
        assert(kv_insert(s, k, v) =~= s.push((k, v)));
    }
}

/// When the first entry keyed `k` stands at `i`, inserting updates in place.
pub proof fn lemma_kv_insert_present<T>(s: Seq<(Seq<char>, T)>, k: Seq<char>, v: T, i: int)
    requires
        0 <= i < s.len(),
        s[i].0 == k,
        forall|j: int| 0 <= j < i ==> s[j].0 != k,
    ensures
        kv_insert(s, k, v) == s.update(i, (k, v)),
    decreases s.len(),
{
    if i == 0 {
        assert(kv_insert(s, k, v) =~= s.update(0, (k, v)));
    } else {
        lemma_kv_insert_present(s.drop_first(), k, v, i - 1);
        assert(s.drop_first().update(i - 1, (k, v)) =~= s.update(i, (k, v)).drop_first());
        assert(kv_insert(s, k, v) =~= s.update(i, (k, v)));
    }
}

/// String-keyed map, stored as a vector of entries in insertion order.
pub struct KvMap<V> {
    pub entries: Vec<(String, V)>,
}

impl<V: View> View for KvMap<V> {
    type V = Seq<(Seq<char>, <V as View>::V)>;

    open spec fn view(&self) -> Seq<(Seq<char>, <V as View>::V)> {
        self.entries@.map_values(|p: (String, V)| (p.0@, p.1@))
    }
}

impl<V: View> KvMap<V> {
    /// Well-formed: no key occurs twice.
    pub open spec fn wf(&self) -> bool {
        kv_distinct(self@)
    }

    pub fn new() -> (r: Self)
        ensures
            r@ == Seq::<(Seq<char>, <V as View>::V)>::empty(),
            r.wf(),
    {
        let r = KvMap { entries: Vec::new() };
        proof {
            assert(r@ =~= Seq::<(Seq<char>, <V as View>::V)>::empty());
        }
        r
    }

    pub fn len(&self) -> (r: usize)
        ensures
            r == self@.len(),
    {
        self.entries.len()
    }

    /// Position of the first entry keyed `k`, if any.
    pub fn index_of(&self, k: &str) -> (r: Option<usize>)
        ensures
            match r {
                Some(i) => i < self@.len() && self@[i as int].0 == k@ && forall|j: int|
                    0 <= j < i ==> self@[j].0 != k@,
                None => forall|j: int| 0 <= j < self@.len() ==> self@[j].0 != k@,
            },
    {
        let n = self.entries.len();
        let mut i: usize = 0;
        while i < n
            invariant
                i <= n,
                n == self.entries@.len(),
                n == self@.len(),
                forall|j: int| 0 <= j < i ==> self@[j].0 != k@,
            decreases n - i,
        {
            assert(self@[i as int].0 == self.entries@[i as int].0@);
            if str_eq(self.entries[i].0.as_str(), k) {
                return Some(i);
            }
            i += 1;
        }
        None
    }

    pub fn contains_key(&self, k: &str) -> (r: bool)
        ensures
            r == (kv_get(self@, k@) is Some),
    {
        match self.index_of(k) {
            Some(i) => {
                proof {
                    lemma_kv_get_first(self@, k@, i as int);
                }
                true
            },
            None => {
                proof {
                    lemma_kv_get_none(self@, k@);
                }
                false
            },
        }
    }

    /// Borrow the value bound to `k`.
    pub fn get<'a>(&'a self, k: &str) -> (r: Option<&'a V>)
        ensures
            match r {
                Some(v) => kv_get(self@, k@) == Some(v@),
                None => kv_get(self@, k@) is None,
            },
    {
        match self.index_of(k) {
            Some(i) => {
                proof {
                    lemma_kv_get_first(self@, k@, i as int);
                }
                assert(self@[i as int].1 == self.entries@[i as int].1@);
                Some(&self.entries[i].1)
            },
            None => {
                proof {
                    lemma_kv_get_none(self@, k@);
                }
                None
            },
        }
    }

    pub fn key_at(&self, i: usize) -> (r: &String)
        requires
            i < self@.len(),
        ensures
            r@ == self@[i as int].0,
    {
        assert(self@[i as int].0 == self.entries@[i as int].0@);
        &self.entries[i].0
    }

    pub fn value_at(&self, i: usize) -> (r: &V)
        requires
            i < self@.len(),
        ensures
            r@ == self@[i as int].1,
    {
        assert(self@[i as int].1 == self.entries@[i as int].1@);
        &self.entries[i].1
    }

    /// Whether no key occurs twice: the well-formedness check run on parsed
    /// data before it is trusted.
    pub fn distinct_keys(&self) -> (r: bool)
        ensures
            r == kv_distinct(self@),
    {
        let n = self.entries.len();
        proof {
            assert(n == self@.len());
        }
        let mut i: usize = 0;
        while i < n
            invariant
                i <= n,
                n == self@.len(),
                n == self.entries@.len(),
                forall|a: int, b: int| 0 <= a < b < n && a < i ==> self@[a].0 != self@[b].0,
            decreases n - i,
        {
            let mut j: usize = i + 1;
            while j < n
                invariant
                    i < j <= n,
                    i < n,
                    n == self@.len(),
                    n == self.entries@.len(),
                    forall|b: int| i < b < j ==> self@[i as int].0 != self@[b].0,
                decreases n - j,
            {
                proof {
                    assert(self@[i as int].0 == self.entries@[i as int].0@);
                    assert(self@[j as int].0 == self.entries@[j as int].0@);
                }
                if str_eq(self.entries[i].0.as_str(), self.entries[j].0.as_str()) {
                    return false;
                }
                j += 1;
            }
            i += 1;
        }
        true
    }

    /// Bind `k` to `v`: replace the first entry keyed `k`, or append one.
    pub fn insert(&mut self, k: String, v: V)
        ensures
            final(self)@ == kv_insert(old(self)@, k@, v@),
            old(self).wf() ==> final(self).wf(),
    {
        proof {
            if kv_distinct(old(self)@) {
                lemma_kv_insert_distinct(old(self)@, k@, v@);
            }
        }
        match self.index_of(k.as_str()) {
            Some(i) => {
                proof {
                    lemma_kv_insert_present(old(self)@, k@, v@, i as int);
                }
                self.entries[i] = (k, v);
                proof {
                    assert(self@ =~= old(self)@.update(i as int, (k@, v@)));
                }
            },
            None => {
                proof {
                    lemma_kv_insert_absent(old(self)@, k@, v@);
                }
                self.entries.push((k, v));
                proof {
                    assert(self@ =~= old(self)@.push((k@, v@)));
                }
            },
        }
    }
}

} // verus!
