//! A map that keeps its entries in the order in which their keys came.

use vstd::prelude::*;

verus! {

/// What can be a key: a value that is told apart by an identity.
pub trait Key: Sized {
    type Id;

    spec fn id(&self) -> Self::Id;

    fn same(&self, other: &Self) -> (r: bool)
        ensures
            r == (self.id() == other.id()),
    ;
}

impl Key for u128 {
    type Id = u128;

    open spec fn id(&self) -> u128 {
        *self
    }

    fn same(&self, other: &Self) -> (r: bool) {
        *self == *other
    }
}

impl Key for String {
    type Id = Seq<char>;

    open spec fn id(&self) -> Seq<char> {
        self@
    }

    fn same(&self, other: &Self) -> (r: bool) {
        *self == *other
    }
}

impl Key for [u8; 32] {
    type Id = Seq<u8>;

    open spec fn id(&self) -> Seq<u8> {
        self@
    }

    fn same(&self, other: &Self) -> (r: bool) {
        let mut i: usize = 0;
        while i < 32
            invariant
                i <= 32,
                forall|k: int| 0 <= k < i ==> self@[k] == other@[k],
            decreases 32 - i,
        {
            if self[i] != other[i] {
                assert(self@[i as int] != other@[i as int]);
                return false;
            }
            i = i + 1;
        }
        assert(self@ =~= other@);
        true
    }
}

/// Entries in order, each with its key.
pub struct VecMap<K, V> {
    pub entries: Vec<(K, V)>,
}

/// The entries, each by the identity of its key.
pub open spec fn pairs_of<K: Key, V>(entries: Seq<(K, V)>) -> Seq<(K::Id, V)> {
    Seq::new(entries.len(), |i: int| (entries[i].0.id(), entries[i].1))
}

/// No key occurs twice.
pub open spec fn distinct<I, V>(s: Seq<(I, V)>) -> bool {
    forall|i: int, j: int| 0 <= i < j < s.len() ==> (#[trigger] s[i]).0 != (#[trigger] s[j]).0
}

/// The place of a key, or the number of entries where there is none.
pub open spec fn place<I, V>(s: Seq<(I, V)>, k: I) -> int
    decreases s.len(),
{
    if s.len() == 0 {
        0
    } else if s[0].0 == k {
        0
    } else {
        1 + place(s.skip(1), k)
    }
}

/// There is an entry under the key.
pub open spec fn holds_key<I, V>(s: Seq<(I, V)>, k: I) -> bool {
    place(s, k) < s.len()
}

/// The value under a key, if there is one.
pub open spec fn lookup<I, V>(s: Seq<(I, V)>, k: I) -> Option<V> {
    if holds_key(s, k) {
        Some(s[place(s, k)].1)
    } else {
        None
    }
}

/// The entries once a value has been put under a key: in its place, or at the
/// end.
pub open spec fn put<I, V>(s: Seq<(I, V)>, k: I, v: V) -> Seq<(I, V)> {
    if holds_key(s, k) {
        s.update(place(s, k), (k, v))
    } else {
        s.push((k, v))
    }
}

/// The entries without that of a key.
pub open spec fn without<I, V>(s: Seq<(I, V)>, k: I) -> Seq<(I, V)> {
    if holds_key(s, k) {
        s.remove(place(s, k))
    } else {
        s
    }
}

/// The place of a key is the first one where it stands.
pub proof fn lemma_place<I, V>(s: Seq<(I, V)>, k: I)
    ensures
        0 <= place(s, k) <= s.len(),
        holds_key(s, k) ==> s[place(s, k)].0 == k,
        forall|i: int| 0 <= i < place(s, k) ==> (#[trigger] s[i]).0 != k,
    decreases s.len(),
{
    if s.len() > 0 && s[0].0 != k {
        lemma_place(s.skip(1), k);
        assert forall|i: int| 0 <= i < place(s, k) implies (#[trigger] s[i]).0 != k by {
            if i > 0 {
                assert(s.skip(1)[i - 1] == s[i]);
            }
        }
    }
}

/// Where a key stands, and not before, there is its place.
pub proof fn lemma_place_is<I, V>(s: Seq<(I, V)>, k: I, n: int)
    requires
        0 <= n <= s.len(),
        n < s.len() ==> s[n].0 == k,
        forall|i: int| 0 <= i < n ==> (#[trigger] s[i]).0 != k,
    ensures
        place(s, k) == n,
{
    lemma_place(s, k);
    let p = place(s, k);
    if p < n {
        assert(s[p].0 != k);
    }
    if n < p {
        assert(s[n].0 != k);
    }
}

/// What was put under a key is found there, and nothing else has changed.
pub proof fn law_put_lookup<I, V>(s: Seq<(I, V)>, k: I, v: V, other: I)
    requires
        distinct(s),
    ensures
        distinct(put(s, k, v)),
        lookup(put(s, k, v), k) == Some(v),
        other != k ==> lookup(put(s, k, v), other) == lookup(s, other),
{
    let r = put(s, k, v);
    let p = place(s, k);
    lemma_place(s, k);
    lemma_place(s, other);
    assert forall|i: int, j: int| 0 <= i < j < r.len() implies (#[trigger] r[i]).0
        != (#[trigger] r[j]).0 by {
        if j < s.len() {
            assert(s[i].0 != s[j].0);
        } else {
            assert(s[i].0 != k);
        }
    }
    lemma_place_is(r, k, p);
    if other != k {
        let q = place(s, other);
        if q < s.len() {
            lemma_place_is(r, other, q);
        } else {
            lemma_place_is(r, other, r.len() as int);
        }
    }
}

/// What was removed is not found, and nothing else has changed.
pub proof fn law_without_lookup<I, V>(s: Seq<(I, V)>, k: I, other: I)
    requires
        distinct(s),
    ensures
        distinct(without(s, k)),
        lookup(without(s, k), k) is None,
        other != k ==> lookup(without(s, k), other) == lookup(s, other),
{
    let r = without(s, k);
    let p = place(s, k);
    lemma_place(s, k);
    lemma_place(s, other);
    if p < s.len() {
        assert forall|i: int, j: int| 0 <= i < j < r.len() implies (#[trigger] r[i]).0
            != (#[trigger] r[j]).0 by {
            let a = if i < p { i } else { i + 1 };
            let b = if j < p { j } else { j + 1 };
            assert(s[a].0 != s[b].0);
        }
        assert forall|i: int| 0 <= i < r.len() implies (#[trigger] r[i]).0 != k by {
            let a = if i < p { i } else { i + 1 };
            assert(s[a].0 != s[p].0) by {
                if a < p {
                    assert(s[a].0 != s[p].0);
                } else {
                    assert(s[p].0 != s[a].0);
                }
            }
        }
        lemma_place_is(r, k, r.len() as int);
        if other != k {
            let q = place(s, other);
            if q < p {
                lemma_place_is(r, other, q);
            } else if q < s.len() {
                assert forall|i: int| 0 <= i < q - 1 implies (#[trigger] r[i]).0 != other by {
                    let a = if i < p { i } else { i + 1 };
                    assert(s[a].0 != other);
                }
                lemma_place_is(r, other, q - 1);
            } else {
                assert forall|i: int| 0 <= i < r.len() implies (#[trigger] r[i]).0 != other by {
                    let a = if i < p { i } else { i + 1 };
                    assert(s[a].0 != other);
                }
                lemma_place_is(r, other, r.len() as int);
            }
        }
    }
}

/// The entries, each by the view of its value.
pub open spec fn views<I, V: View>(s: Seq<(I, V)>) -> Seq<(I, V::V)> {
    Seq::new(s.len(), |i: int| (s[i].0, s[i].1@))
}

/// Looking up, putting and removing go the same by views.
pub proof fn lemma_views<I, V: View>(s: Seq<(I, V)>, k: I)
    ensures
        place(views(s), k) == place(s, k),
        lookup(views(s), k) == match lookup(s, k) {
            Some(v) => Some(v@),
            None => None,
        },
        forall|v: V| views(#[trigger] put(s, k, v)) == put(views(s), k, v@),
        views(without(s, k)) == without(views(s), k),
        distinct(views(s)) == distinct(s),
{
    let w = views(s);
    lemma_place(s, k);
    assert forall|i: int| 0 <= i < place(s, k) implies (#[trigger] w[i]).0 != k by {
        assert(s[i].0 != k);
    }
    lemma_place_is(w, k, place(s, k));
    assert forall|v: V| views(#[trigger] put(s, k, v)) == put(w, k, v@) by {
        assert(views(put(s, k, v)) =~= put(w, k, v@));
    }
    assert(views(without(s, k)) =~= without(w, k));
    if distinct(w) {
        assert forall|i: int, j: int| 0 <= i < j < s.len() implies (#[trigger] s[i]).0
            != (#[trigger] s[j]).0 by {
            assert(w[i].0 != w[j].0);
        }
    }
    if distinct(s) {
        assert forall|i: int, j: int| 0 <= i < j < w.len() implies (#[trigger] w[i]).0
            != (#[trigger] w[j]).0 by {
            assert(s[i].0 != s[j].0);
        }
    }
}

impl<K: Key, V> VecMap<K, V> {
    /// The entries, each by the identity of its key.
    pub open spec fn pairs(self) -> Seq<(K::Id, V)> {
        pairs_of(self.entries@)
    }

    /// No key occurs twice.
    pub open spec fn wf(self) -> bool {
        distinct(self.pairs())
    }

    pub fn new() -> (r: Self)
        ensures
            r.wf(),
            r.pairs() == Seq::<(K::Id, V)>::empty(),
    {
        let r = VecMap { entries: Vec::new() };
        assert(r.pairs() =~= Seq::<(K::Id, V)>::empty());
        r
    }

    pub fn len(&self) -> (r: usize)
        ensures
            r == self.pairs().len(),
    {
        self.entries.len()
    }

    /// The place of a key.
    pub fn find(&self, k: &K) -> (r: Option<usize>)
        ensures
            match r {
                Some(i) => i == place(self.pairs(), k.id()) && i < self.pairs().len(),
                None => !holds_key(self.pairs(), k.id()),
            },
    {
        let mut i: usize = 0;
        while i < self.entries.len()
            invariant
                i <= self.entries.len(),
                forall|j: int| 0 <= j < i ==> (#[trigger] self.pairs()[j]).0 != k.id(),
            decreases self.entries.len() - i,
        {
            if self.entries[i].0.same(k) {
                proof {
                    lemma_place_is(self.pairs(), k.id(), i as int);
                }
                return Some(i);
            }
            i = i + 1;
        }
        proof {
            lemma_place_is(self.pairs(), k.id(), i as int);
        }
        None
    }

    pub fn contains_key(&self, k: &K) -> (r: bool)
        ensures
            r == holds_key(self.pairs(), k.id()),
    {
        self.find(k).is_some()
    }

    pub fn get(&self, k: &K) -> (r: Option<&V>)
        ensures
            match r {
                Some(v) => lookup(self.pairs(), k.id()) == Some(*v),
                None => lookup(self.pairs(), k.id()) is None,
            },
    {
        match self.find(k) {
            Some(i) => Some(&self.entries[i].1),
            None => None,
        }
    }

    /// The value under a key, for change.
    pub fn get_mut(&mut self, k: &K) -> (r: Option<&mut V>)
        ensures
            match r {
                Some(v) => {
                    &&& lookup(old(self).pairs(), k.id()) == Some(*v)
                    &&& final(self).pairs() =~= put(old(self).pairs(), k.id(), *final(v))
                },
                None => {
                    &&& lookup(old(self).pairs(), k.id()) is None
                    &&& final(self).pairs() == old(self).pairs()
                },
            },
    {
        match self.find(k) {
            Some(i) => {
                proof {
                    lemma_place(self.pairs(), k.id());
                }
                Some(&mut self.entries[i].1)
            },
            None => None,
        }
    }

    /// Puts a value under a key; gives back what it replaced.
    pub fn insert(&mut self, k: K, v: V) -> (r: Option<V>)
        ensures
            final(self).pairs() == put(old(self).pairs(), k.id(), v),
            r == lookup(old(self).pairs(), k.id()),
            old(self).wf() ==> final(self).wf(),
    {
        proof {
            lemma_place(self.pairs(), k.id());
            if self.wf() {
                law_put_lookup(self.pairs(), k.id(), v, k.id());
            }
        }
        match self.find(&k) {
            Some(i) => {
                let mut value = v;
                std::mem::swap(&mut self.entries[i].1, &mut value);
                assert(self.pairs() =~= put(old(self).pairs(), k.id(), v));
                Some(value)
            },
            None => {
                self.entries.push((k, v));
                assert(self.pairs() =~= put(old(self).pairs(), k.id(), v));
                None
            },
        }
    }

    /// Takes out the value under a key.
    pub fn remove(&mut self, k: &K) -> (r: Option<V>)
        ensures
            final(self).pairs() == without(old(self).pairs(), k.id()),
            r == lookup(old(self).pairs(), k.id()),
            old(self).wf() ==> final(self).wf(),
    {
        proof {
            if self.wf() {
                law_without_lookup(self.pairs(), k.id(), k.id());
            }
        }
        match self.find(k) {
            Some(i) => {
                let entry = self.entries.remove(i);
                assert(self.pairs() =~= without(old(self).pairs(), k.id()));
                Some(entry.1)
            },
            None => None,
        }
    }
}

} // verus!
