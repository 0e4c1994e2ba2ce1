//! Finite sets of texts.
use crate::order::OrderedKey;
use crate::sorted_map::{
    keys_ascending, lemma_get_after_put, lemma_get_is_entry, spec_get, spec_put, OrderedMap,
};
use vstd::prelude::*;

verus! {

/// The keys of `s`, in its order.
pub open spec fn key_seq(s: Seq<(Seq<char>, ())>) -> Seq<Seq<char>> {
    Seq::new(s.len(), |i: int| s[i].0)
}

/// The set of the keys of `s`.
pub open spec fn key_set(s: Seq<(Seq<char>, ())>) -> Set<Seq<char>> {
    key_seq(s).to_set()
}

/// A key is in the set of keys exactly where it is bound.
pub proof fn lemma_key_set_contains(s: Seq<(Seq<char>, ())>, q: Seq<char>)
    requires
        keys_ascending::<String, ()>(s),
    ensures
        key_set(s).contains(q) <==> spec_get::<String, ()>(s, q) is Some,
{
    lemma_get_is_entry::<String, ()>(s, q);
    if key_set(s).contains(q) {
        let j = choose|j: int| 0 <= j < key_seq(s).len() && key_seq(s)[j] == q;
        assert(s[j].0 == q);
    }
    if spec_get::<String, ()>(s, q) is Some {
        let j = choose|j: int| 0 <= j < s.len() && #[trigger] s[j].0 == q;
        assert(key_seq(s)[j] == q);
    }
}

/// Binding a key adds it to the set of keys.
pub proof fn lemma_key_set_put(s: Seq<(Seq<char>, ())>, k: Seq<char>)
    requires
        keys_ascending::<String, ()>(s),
    ensures
        key_set(spec_put::<String, ()>(s, k, ())) == key_set(s).insert(k),
{
    let r = spec_put::<String, ()>(s, k, ());
    crate::sorted_map::lemma_put_ascending::<String, ()>(s, k, ());
    assert forall|q: Seq<char>| key_set(r).contains(q) <==> key_set(s).insert(k).contains(q) by {
        lemma_key_set_contains(r, q);
        lemma_key_set_contains(s, q);
        lemma_get_after_put::<String, ()>(s, k, (), q);
    }
    assert(key_set(r) =~= key_set(s).insert(k));
}

/// Ascending keys are as many as their set.
pub proof fn lemma_key_set_len(s: Seq<(Seq<char>, ())>)
    requires
        keys_ascending::<String, ()>(s),
    ensures
        key_set(s).finite(),
        key_set(s).len() == s.len(),
        key_seq(s).no_duplicates(),
{
    let ks = key_seq(s);
    assert forall|i: int, j: int| 0 <= i < ks.len() && 0 <= j < ks.len() && i != j implies ks[i] != ks[j] by {
        if i < j {
            assert(String::precedes(s[i].0, s[j].0));
        } else {
            assert(String::precedes(s[j].0, s[i].0));
        }
        String::lemma_irreflexive(ks[i]);
    }
    ks.unique_seq_to_set();
    vstd::seq_lib::seq_to_set_is_finite(ks);
}

/// A finite set of texts.
pub struct TextSet {
    map: OrderedMap<String, ()>,
}

impl View for TextSet {
    type V = Set<Seq<char>>;

    closed spec fn view(&self) -> Set<Seq<char>> {
        key_set(self.map.model())
    }
}

impl TextSet {
    pub closed spec fn wf(&self) -> bool {
        self.map.wf()
    }

    pub fn new() -> (r: Self)
        ensures
            r.wf(),
            r@ == Set::<Seq<char>>::empty(),
    {
        let r = TextSet { map: OrderedMap::new() };
        assert(key_seq(r.map.model()) =~= Seq::<Seq<char>>::empty());
        assert(r@ =~= Set::<Seq<char>>::empty());
        r
    }

    /// Adds `s` to the set.
    pub fn insert(&mut self, s: String)
        requires
            old(self).wf(),
        ensures
            final(self).wf(),
            final(self)@ == old(self)@.insert(s@),
    {
        proof {
            lemma_key_set_put(self.map.model(), s@);
        }
        self.map.put(s, ());
    }

    /// Whether `s` is in the set.
    pub fn contains(&self, s: &String) -> (r: bool)
        requires
            self.wf(),
        ensures
            r == self@.contains(s@),
    {
        proof {
            lemma_key_set_contains(self.map.model(), s@);
        }
        self.map.get(s).is_some()
    }

    /// The number of texts in the set.
    pub fn len(&self) -> (n: usize)
        requires
            self.wf(),
        ensures
            n == self@.len(),
    {
        proof {
            lemma_key_set_len(self.map.model());
        }
        self.map.len()
    }

    /// The texts of the set, in ascending order.
    pub fn into_texts(self) -> (r: Vec<String>)
        requires
            self.wf(),
        ensures
            r.deep_view().to_set() == self@,
            r.deep_view().no_duplicates(),
            forall|i: int, j: int|
                0 <= i < j < r@.len() ==> crate::order::text_lt((#[trigger] r@[i])@, (#[trigger] r@[j])@),
    {
        let ghost m = self.map.model();
        proof {
            lemma_key_set_len(m);
        }
        let entries = self.map.into_entries();
        let mut r: Vec<String> = Vec::new();
        for e in it: entries
            invariant
                it.seq().len() == m.len(),
                forall|j: int| 0 <= j < m.len() ==> (#[trigger] it.seq()[j]).0.model() == m[j].0,
                r@.len() == it.index(),
                forall|j: int| 0 <= j < it.index() ==> (#[trigger] r@[j])@ == m[j].0,
        {
            r.push(e.0);
        }
        proof {
            assert(r.deep_view() =~= key_seq(m));
            assert forall|i: int, j: int| 0 <= i < j < r@.len() implies crate::order::text_lt(
                (#[trigger] r@[i])@,
                (#[trigger] r@[j])@,
            ) by {
                assert(String::precedes(m[i].0, m[j].0));
            }
        }
        r
    }

    /// The number of texts in the set that are not in `other`.
    pub fn count_outside(&self, other: &TextSet) -> (n: usize)
        requires
            self.wf(),
            other.wf(),
        ensures
            n == self@.difference(other@).len(),
    {
        let ghost ks = key_seq(self.map.model());
        proof {
            lemma_key_set_len(self.map.model());
        }
        let mut n: usize = 0;
        let mut i: usize = 0;
        assert(ks.take(0) =~= Seq::<Seq<char>>::empty());
        assert(ks.take(0).to_set().difference(other@) =~= Set::<Seq<char>>::empty());
        while i < self.map.len()
            invariant
                i <= ks.len(),
                self.wf(),
                other.wf(),
                ks == key_seq(self.map.model()),
                ks.len() == self.map.model().len(),
                ks.no_duplicates(),
                n <= i,
                n == ks.take(i as int).to_set().difference(other@).len(),
            decreases ks.len() - i,
        {
            let key = self.map.key_at(i);
            let inside = other.contains(key);
            proof {
                let x = ks[i as int];
                let before = ks.take(i as int);
                assert(ks.take(i + 1) =~= before.push(x));
                before.lemma_push_to_set_commute(x);
                vstd::seq_lib::seq_to_set_is_finite(before);
                assert(!before.to_set().contains(x)) by {
                    if before.to_set().contains(x) {
                        let j = choose|j: int| 0 <= j < before.len() && before[j] == x;
                        assert(ks[j] == ks[i as int]);
                    }
                }
                let d = before.to_set().difference(other@);
                vstd::set_lib::lemma_len_difference(before.to_set(), other@);
                if inside {
                    assert(before.to_set().insert(x).difference(other@) =~= d);
                } else {
                    assert(before.to_set().insert(x).difference(other@) =~= d.insert(x));
                    assert(d.finite());
                }
            }
            if !inside {
                n += 1;
            }
            i += 1;
        }
        assert(ks.take(i as int) =~= ks);
        n
    }
}

} // verus!
