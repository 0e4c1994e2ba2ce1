//! An association list in ascending key order.
use crate::order::OrderedKey;
use vstd::prelude::*;

verus! {

/// The keys of `s` are strictly ascending.
pub open spec fn keys_ascending<K: OrderedKey, V>(s: Seq<(K::Model, V)>) -> bool {
    forall|i: int, j: int| 0 <= i < j < s.len() ==> K::precedes(#[trigger] s[i].0, #[trigger] s[j].0)
}

/// The number of leading entries of `s` whose key comes before `key`. In an
/// ascending sequence this is where `key` stands, or would stand.
pub open spec fn lower_bound<K: OrderedKey, V>(s: Seq<(K::Model, V)>, key: K::Model) -> int
    decreases s.len(),
{
    if s.len() > 0 && K::precedes(s[0].0, key) {
        1 + lower_bound::<K, V>(s.skip(1), key)
    } else {
        0
    }
}

/// The value that `s` holds for `key`, if it holds one.
pub open spec fn spec_get<K: OrderedKey, V>(s: Seq<(K::Model, V)>, key: K::Model) -> Option<V> {
    let i = lower_bound::<K, V>(s, key);
    if i < s.len() && s[i].0 == key {
        Some(s[i].1)
    } else {
        None
    }
}

/// `s` with `key` bound to `value`, in place of an earlier binding or between
/// its neighbours.
pub open spec fn spec_put<K: OrderedKey, V>(s: Seq<(K::Model, V)>, key: K::Model, value: V) -> Seq<
    (K::Model, V),
> {
    let i = lower_bound::<K, V>(s, key);
    if i < s.len() && s[i].0 == key {
        s.update(i, (key, value))
    } else {
        s.insert(i, (key, value))
    }
}

/// `s` without the binding of `key`.
pub open spec fn spec_remove<K: OrderedKey, V>(s: Seq<(K::Model, V)>, key: K::Model) -> Seq<
    (K::Model, V),
> {
    let i = lower_bound::<K, V>(s, key);
    if i < s.len() && s[i].0 == key {
        s.remove(i)
    } else {
        s
    }
}

pub proof fn lemma_lower_bound_range<K: OrderedKey, V>(s: Seq<(K::Model, V)>, key: K::Model)
    ensures
        0 <= lower_bound::<K, V>(s, key) <= s.len(),
    decreases s.len(),
{
    if s.len() > 0 && K::precedes(s[0].0, key) {
        lemma_lower_bound_range::<K, V>(s.skip(1), key);
    }
}

/// A position that splits `s` into keys before `key` and a first key that is
/// not before it is the lower bound.
pub proof fn lemma_lower_bound_is<K: OrderedKey, V>(s: Seq<(K::Model, V)>, key: K::Model, i: int)
    requires
        0 <= i <= s.len(),
        forall|j: int| 0 <= j < i ==> K::precedes(#[trigger] s[j].0, key),
        i < s.len() ==> !K::precedes(s[i].0, key),
    ensures
        lower_bound::<K, V>(s, key) == i,
    decreases s.len(),
{
    if i > 0 {
        assert(K::precedes(s[0].0, key));
        let t = s.skip(1);
        assert forall|j: int| 0 <= j < i - 1 implies K::precedes(#[trigger] t[j].0, key) by {
            assert(t[j] == s[j + 1]);
        }
        lemma_lower_bound_is::<K, V>(t, key, i - 1);
    }
}

/// In an ascending sequence the lower bound parts the keys before `key` from
/// the others.
pub proof fn lemma_lower_bound_parts<K: OrderedKey, V>(s: Seq<(K::Model, V)>, key: K::Model)
    requires
        keys_ascending::<K, V>(s),
    ensures
        0 <= lower_bound::<K, V>(s, key) <= s.len(),
        forall|j: int| 0 <= j < lower_bound::<K, V>(s, key) ==> K::precedes(#[trigger] s[j].0, key),
        forall|j: int|
            lower_bound::<K, V>(s, key) <= j < s.len() ==> !K::precedes(#[trigger] s[j].0, key),
        forall|j: int|
            0 <= j < s.len() && j != lower_bound::<K, V>(s, key) ==> #[trigger] s[j].0 != key,
    decreases s.len(),
{
    if s.len() > 0 && K::precedes(s[0].0, key) {
        let t = s.skip(1);
        assert forall|i: int, j: int| 0 <= i < j < t.len() implies K::precedes(
            #[trigger] t[i].0,
            #[trigger] t[j].0,
        ) by {
            assert(t[i] == s[i + 1] && t[j] == s[j + 1]);
        }
        lemma_lower_bound_parts::<K, V>(t, key);
        let b = lower_bound::<K, V>(t, key);
        assert forall|j: int| 0 <= j < b + 1 implies K::precedes(#[trigger] s[j].0, key) by {
            if j > 0 {
                assert(t[j - 1] == s[j]);
            }
        }
        assert forall|j: int| b + 1 <= j < s.len() implies !K::precedes(#[trigger] s[j].0, key) by {
            assert(t[j - 1] == s[j]);
        }
        assert forall|j: int| 0 <= j < s.len() && j != b + 1 implies #[trigger] s[j].0 != key by {
            if j == 0 {
                K::lemma_irreflexive(key);
            } else {
                assert(t[j - 1] == s[j]);
            }
        }
    } else {
        assert forall|j: int| 0 <= j < s.len() implies !K::precedes(#[trigger] s[j].0, key) by {
            if j > 0 && K::precedes(s[j].0, key) {
                assert(K::precedes(s[0].0, s[j].0));
                K::lemma_transitive(s[0].0, s[j].0, key);
            }
        }
        assert forall|j: int| 0 <= j < s.len() && j != 0 implies #[trigger] s[j].0 != key by {
            if s[j].0 == key {
                assert(K::precedes(s[0].0, s[j].0));
            }
        }
    }
}

/// Binding a key keeps the keys ascending.
pub proof fn lemma_put_ascending<K: OrderedKey, V>(s: Seq<(K::Model, V)>, key: K::Model, value: V)
    requires
        keys_ascending::<K, V>(s),
    ensures
        keys_ascending::<K, V>(spec_put::<K, V>(s, key, value)),
{
    lemma_lower_bound_parts::<K, V>(s, key);
    let b = lower_bound::<K, V>(s, key);
    let r = spec_put::<K, V>(s, key, value);
    if b < s.len() && s[b].0 == key {
        assert forall|i: int, j: int| 0 <= i < j < r.len() implies K::precedes(
            #[trigger] r[i].0,
            #[trigger] r[j].0,
        ) by {
            assert(K::precedes(s[i].0, s[j].0));
        }
    } else {
        assert forall|i: int, j: int| 0 <= i < j < r.len() implies K::precedes(
            #[trigger] r[i].0,
            #[trigger] r[j].0,
        ) by {
            if j < b {
                assert(K::precedes(s[i].0, s[j].0));
            } else if j == b {
                assert(K::precedes(s[i].0, key));
            } else if i == b {
                assert(!K::precedes(s[j - 1].0, key));
                assert(s[j - 1].0 != key);
                K::lemma_connected(s[j - 1].0, key);
            } else if i < b {
                assert(K::precedes(s[i].0, s[j - 1].0));
            } else {
                assert(K::precedes(s[i - 1].0, s[j - 1].0));
            }
        }
    }
}

/// Removing a key keeps the keys ascending.
pub proof fn lemma_remove_ascending<K: OrderedKey, V>(s: Seq<(K::Model, V)>, key: K::Model)
    requires
        keys_ascending::<K, V>(s),
    ensures
        keys_ascending::<K, V>(spec_remove::<K, V>(s, key)),
{
    lemma_lower_bound_range::<K, V>(s, key);
    let b = lower_bound::<K, V>(s, key);
    let r = spec_remove::<K, V>(s, key);
    if b < s.len() && s[b].0 == key {
        assert forall|i: int, j: int| 0 <= i < j < r.len() implies K::precedes(
            #[trigger] r[i].0,
            #[trigger] r[j].0,
        ) by {
            let i0 = if i < b { i } else { i + 1 };
            let j0 = if j < b { j } else { j + 1 };
            assert(K::precedes(s[i0].0, s[j0].0));
        }
    }
}

/// In an ascending sequence, `spec_get` finds a key exactly where an entry
/// holds it.
pub proof fn lemma_get_is_entry<K: OrderedKey, V>(s: Seq<(K::Model, V)>, key: K::Model)
    requires
        keys_ascending::<K, V>(s),
    ensures
        spec_get::<K, V>(s, key) is Some <==> exists|j: int| 0 <= j < s.len() && #[trigger] s[j].0 == key,
        forall|j: int|
            0 <= j < s.len() && #[trigger] s[j].0 == key ==> spec_get::<K, V>(s, key) == Some(s[j].1),
{
    lemma_lower_bound_parts::<K, V>(s, key);
}

/// What a sequence holds for `q` after `key` was bound to `value`.
pub proof fn lemma_get_after_put<K: OrderedKey, V>(
    s: Seq<(K::Model, V)>,
    key: K::Model,
    value: V,
    q: K::Model,
)
    requires
        keys_ascending::<K, V>(s),
    ensures
        spec_get::<K, V>(spec_put::<K, V>(s, key, value), q) == if q == key {
            Some(value)
        } else {
            spec_get::<K, V>(s, q)
        },
{
    let r = spec_put::<K, V>(s, key, value);
    lemma_put_ascending::<K, V>(s, key, value);
    lemma_lower_bound_parts::<K, V>(s, key);
    lemma_get_is_entry::<K, V>(s, q);
    lemma_get_is_entry::<K, V>(r, q);
    let b = lower_bound::<K, V>(s, key);
    assert(r[b] == (key, value));
    assert(r[b].0 == key);
    if q != key {
        if b < s.len() && s[b].0 == key {
            if spec_get::<K, V>(s, q) is Some {
                let j = choose|j: int| 0 <= j < s.len() && #[trigger] s[j].0 == q;
                assert(r[j] == s[j]);
                assert(r[j].0 == q);
            }
            if spec_get::<K, V>(r, q) is Some {
                let j = choose|j: int| 0 <= j < r.len() && #[trigger] r[j].0 == q;
                assert(r[j] == s[j]);
                assert(s[j].0 == q);
            }
        } else {
            if spec_get::<K, V>(s, q) is Some {
                let j = choose|j: int| 0 <= j < s.len() && #[trigger] s[j].0 == q;
                let j1 = if j < b { j } else { j + 1 };
                assert(r[j1] == s[j]);
                assert(r[j1].0 == q);
            }
            if spec_get::<K, V>(r, q) is Some {
                let j = choose|j: int| 0 <= j < r.len() && #[trigger] r[j].0 == q;
                let j0 = if j < b { j } else { j - 1 };
                assert(r[j] == s[j0]);
                assert(s[j0].0 == q);
            }
        }
    }
}

/// What a sequence holds for `q` after `key` was removed.
pub proof fn lemma_get_after_remove<K: OrderedKey, V>(s: Seq<(K::Model, V)>, key: K::Model, q: K::Model)
    requires
        keys_ascending::<K, V>(s),
    ensures
        spec_get::<K, V>(spec_remove::<K, V>(s, key), q) == if q == key {
            None
        } else {
            spec_get::<K, V>(s, q)
        },
{
    let r = spec_remove::<K, V>(s, key);
    lemma_remove_ascending::<K, V>(s, key);
    lemma_lower_bound_parts::<K, V>(s, key);
    lemma_get_is_entry::<K, V>(s, q);
    lemma_get_is_entry::<K, V>(r, q);
    let b = lower_bound::<K, V>(s, key);
    if b < s.len() && s[b].0 == key {
        if spec_get::<K, V>(r, q) is Some {
            let j = choose|j: int| 0 <= j < r.len() && #[trigger] r[j].0 == q;
            let j0 = if j < b { j } else { j + 1 };
            assert(r[j] == s[j0]);
            assert(s[j0].0 == q);
        }
        if q != key && spec_get::<K, V>(s, q) is Some {
            let j = choose|j: int| 0 <= j < s.len() && #[trigger] s[j].0 == q;
            let j1 = if j < b { j } else { j - 1 };
            assert(r[j1] == s[j]);
            assert(r[j1].0 == q);
        }
    }
}

/// An association list kept in ascending key order, with at most one entry
/// per key.
///
/// A key is found by binary search. Binding a new key and removing one move
/// the entries behind it, so both are cheap at the end of the list and take
/// time in proportion to its length elsewhere.
pub struct OrderedMap<K: OrderedKey, V: DeepView> {
    entries: Vec<(K, V)>,
}

impl<K: OrderedKey, V: DeepView> OrderedMap<K, V> {
    /// The entries as pairs of key model and value model, in order.
    pub closed spec fn model(&self) -> Seq<(K::Model, V::V)> {
        Seq::new(
            self.entries@.len(),
            |i: int| (self.entries@[i].0.model(), self.entries@[i].1.deep_view()),
        )
    }

    /// The keys ascend. Every map that `new` made and these methods changed
    /// is so.
    pub open spec fn wf(&self) -> bool {
        keys_ascending::<K, V::V>(self.model())
    }

    pub fn new() -> (r: Self)
        ensures
            r.wf(),
            r.model() == Seq::<(K::Model, V::V)>::empty(),
    {
        let r = OrderedMap { entries: Vec::new() };
        assert(r.model() =~= Seq::<(K::Model, V::V)>::empty());
        r
    }

    pub fn len(&self) -> (n: usize)
        ensures
            n == self.model().len(),
    {
        self.entries.len()
    }

    /// The key of the entry at position `i`.
    pub fn key_at(&self, i: usize) -> (k: &K)
        requires
            i < self.model().len(),
        ensures
            k.model() == self.model()[i as int].0,
    {
        &self.entries[i].0
    }

    /// Binary search for the place of `key`.
    fn locate(&self, key: &K) -> (r: (usize, bool))
        requires
            self.wf(),
        ensures
            r.0 == lower_bound::<K, V::V>(self.model(), key.model()),
            r.0 <= self.model().len(),
            r.0 <= self.entries@.len(),
            r.1 == (r.0 < self.model().len() && self.model()[r.0 as int].0 == key.model()),
    {
        let ghost s = self.model();
        let ghost k = key.model();
        let mut lo: usize = 0;
        let mut hi: usize = self.entries.len();
        while lo < hi
            invariant
                s == self.model(),
                k == key.model(),
                keys_ascending::<K, V::V>(s),
                lo <= hi <= s.len(),
                s.len() == self.entries@.len(),
                forall|j: int| 0 <= j < lo ==> K::precedes(#[trigger] s[j].0, k),
                forall|j: int| hi <= j < s.len() ==> !K::precedes(#[trigger] s[j].0, k),
            decreases hi - lo,
        {
            let mid = lo + (hi - lo) / 2;
            assert(s[mid as int].0 == self.entries@[mid as int].0.model());
            if self.entries[mid].0.key_lt(key) {
                proof {
                    assert forall|j: int| 0 <= j < mid + 1 implies K::precedes(#[trigger] s[j].0, k) by {
                        if j < mid {
                            assert(K::precedes(s[j].0, s[mid as int].0));
                            K::lemma_transitive(s[j].0, s[mid as int].0, k);
                        }
                    }
                }
                lo = mid + 1;
            } else {
                proof {
                    assert forall|j: int| mid <= j < s.len() implies !K::precedes(#[trigger] s[j].0, k) by {
                        if j > mid && K::precedes(s[j].0, k) {
                            assert(K::precedes(s[mid as int].0, s[j].0));
                            K::lemma_transitive(s[mid as int].0, s[j].0, k);
                        }
                    }
                }
                hi = mid;
            }
        }
        proof {
            lemma_lower_bound_is::<K, V::V>(s, k, lo as int);
        }
        if lo < self.entries.len() {
            assert(s[lo as int].0 == self.entries@[lo as int].0.model());
            let found = self.entries[lo].0.key_eq(key);
            (lo, found)
        } else {
            (lo, false)
        }
    }

    /// The value bound to `key`.
    pub fn get(&self, key: &K) -> (r: Option<&V>)
        requires
            self.wf(),
        ensures
            match r {
                Some(v) => spec_get::<K, V::V>(self.model(), key.model()) == Some(v.deep_view()),
                None => spec_get::<K, V::V>(self.model(), key.model()) is None,
            },
    {
        let (i, found) = self.locate(key);
        if found {
            assert(self.model()[i as int].1 == self.entries@[i as int].1.deep_view());
            Some(&self.entries[i].1)
        } else {
            None
        }
    }

    /// Binds `key` to `value`, replacing what it was bound to.
    pub fn put(&mut self, key: K, value: V)
        requires
            old(self).wf(),
        ensures
            final(self).wf(),
            final(self).model() == spec_put::<K, V::V>(
                old(self).model(),
                key.model(),
                value.deep_view(),
            ),
    {
        let ghost s = self.model();
        let (i, found) = self.locate(&key);
        let ghost k = key.model();
        let ghost v = value.deep_view();
        if found {
            self.entries.set(i, (key, value));
        } else {
            self.entries.insert(i, (key, value));
        }
        proof {
            assert(self.model() =~= spec_put::<K, V::V>(s, k, v));
            lemma_put_ascending::<K, V::V>(s, k, v);
        }
    }

    /// Exchanges the value bound to `key` with `value`. Where `key` is not
    /// bound, nothing changes and the result is `false`.
    pub fn swap_value(&mut self, key: &K, value: &mut V) -> (found: bool)
        requires
            old(self).wf(),
        ensures
            final(self).wf(),
            found == (spec_get::<K, V::V>(old(self).model(), key.model()) is Some),
            found ==> spec_get::<K, V::V>(old(self).model(), key.model()) == Some(
                final(value).deep_view(),
            ) && final(self).model() == spec_put::<K, V::V>(
                old(self).model(),
                key.model(),
                old(value).deep_view(),
            ),
            !found ==> final(self).model() == old(self).model() && *final(value) == *old(value),
    {
        let ghost s = self.model();
        let ghost v = value.deep_view();
        let (i, found) = self.locate(key);
        if found {
            assert(s[i as int] == (self.entries@[i as int].0.model(), self.entries@[i as int].1.deep_view()));
            core::mem::swap(&mut self.entries[i].1, value);
            proof {
                assert(self.model() =~= spec_put::<K, V::V>(s, key.model(), v));
                lemma_put_ascending::<K, V::V>(s, key.model(), v);
            }
        }
        found
    }

    /// Removes the binding of `key`, if there is one.
    pub fn remove(&mut self, key: &K)
        requires
            old(self).wf(),
        ensures
            final(self).wf(),
            final(self).model() == spec_remove::<K, V::V>(old(self).model(), key.model()),
    {
        let ghost s = self.model();
        let (i, found) = self.locate(key);
        if found {
            self.entries.remove(i);
        }
        proof {
            assert(self.model() =~= spec_remove::<K, V::V>(s, key.model()));
            lemma_remove_ascending::<K, V::V>(s, key.model());
        }
    }

    /// The entries, in ascending key order.
    pub fn into_entries(self) -> (r: Vec<(K, V)>)
        ensures
            r@.len() == self.model().len(),
            forall|i: int|
                0 <= i < r@.len() ==> (#[trigger] r@[i]).0.model() == self.model()[i].0
                    && r@[i].1.deep_view() == self.model()[i].1,
    {
        self.entries
    }
}

} // verus!
