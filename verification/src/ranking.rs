//! Stable ordering of positions by an integer rank.
use crate::order::OrderedKey;
use crate::sorted_map::{
    keys_ascending, lemma_get_after_put, lemma_get_is_entry, lemma_lower_bound_parts,
    lemma_put_ascending, lower_bound, spec_get, spec_put,
};
use vstd::prelude::*;

verus! {

/// A sort key: a rank, and the position of the item that has it, which breaks
/// ties so that items of equal rank keep their order.
#[derive(Debug, Clone, Copy)]
pub struct RankKey {
    pub rank: i128,
    pub index: usize,
}

impl OrderedKey for RankKey {
    type Model = (int, int);

    open spec fn model(&self) -> (int, int) {
        (self.rank as int, self.index as int)
    }

    open spec fn precedes(a: (int, int), b: (int, int)) -> bool {
        a.0 < b.0 || (a.0 == b.0 && a.1 < b.1)
    }

    proof fn lemma_irreflexive(a: (int, int)) {
    }

    proof fn lemma_transitive(a: (int, int), b: (int, int), c: (int, int)) {
    }

    proof fn lemma_connected(a: (int, int), b: (int, int)) {
    }

    fn key_lt(&self, other: &RankKey) -> (r: bool) {
        self.rank < other.rank || (self.rank == other.rank && self.index < other.index)
    }

    fn key_eq(&self, other: &RankKey) -> (r: bool) {
        self.rank == other.rank && self.index == other.index
    }
}

/// The first `n` positions of `ranks`, each with its rank, in ascending order
/// of rank and, within a rank, of position.
pub open spec fn ranked_upto(ranks: Seq<int>, n: nat) -> Seq<((int, int), ())>
    decreases n,
{
    if n == 0 {
        Seq::empty()
    } else {
        spec_put::<RankKey, ()>(ranked_upto(ranks, (n - 1) as nat), (ranks[n - 1], n - 1), ())
    }
}

/// The positions of `ranks` in stable ascending order of rank.
pub open spec fn stable_order(ranks: Seq<int>) -> Seq<int> {
    Seq::new(ranks.len(), |k: int| ranked_upto(ranks, ranks.len())[k].0.1)
}

/// What `ranked_upto` holds: one entry for each of the first `n` positions,
/// carrying that position's rank, in ascending order.
pub proof fn lemma_ranked(ranks: Seq<int>, n: nat)
    requires
        n <= ranks.len(),
    ensures
        ranked_upto(ranks, n).len() == n,
        keys_ascending::<RankKey, ()>(ranked_upto(ranks, n)),
        forall|k: int|
            0 <= k < n ==> 0 <= (#[trigger] ranked_upto(ranks, n)[k]).0.1 < n && ranked_upto(
                ranks,
                n,
            )[k].0.0 == ranks[ranked_upto(ranks, n)[k].0.1],
        forall|i: int|
            0 <= i < n ==> spec_get::<RankKey, ()>(ranked_upto(ranks, n), (#[trigger] ranks[i], i))
                is Some,
    decreases n,
{
    if n > 0 {
        let prev = ranked_upto(ranks, (n - 1) as nat);
        let key = (ranks[n - 1], n - 1);
        let cur = ranked_upto(ranks, n);
        lemma_ranked(ranks, (n - 1) as nat);
        lemma_put_ascending::<RankKey, ()>(prev, key, ());
        lemma_lower_bound_parts::<RankKey, ()>(prev, key);
        let b = lower_bound::<RankKey, ()>(prev, key);
        if b < prev.len() && prev[b].0 == key {
            assert(prev[b].0.1 < n - 1);
        }
        assert(cur == prev.insert(b, (key, ())));
        assert forall|k: int| 0 <= k < n implies 0 <= (#[trigger] cur[k]).0.1 < n && cur[k].0.0
            == ranks[cur[k].0.1] by {
            if k < b {
                assert(cur[k] == prev[k]);
            } else if k > b {
                assert(cur[k] == prev[k - 1]);
            }
        }
        assert forall|i: int| 0 <= i < n implies spec_get::<RankKey, ()>(cur, (#[trigger] ranks[i], i))
            is Some by {
            lemma_get_after_put::<RankKey, ()>(prev, key, (), (ranks[i], i));
        }
    }
}

/// The stable order lists every position exactly once, and in ascending
/// order of rank, equal ranks by position.
pub proof fn lemma_stable_order(ranks: Seq<int>)
    ensures
        stable_order(ranks).len() == ranks.len(),
        forall|k: int|
            0 <= k < ranks.len() ==> 0 <= #[trigger] stable_order(ranks)[k] < ranks.len(),
        forall|i: int| 0 <= i < ranks.len() ==> #[trigger] stable_order(ranks).contains(i),
        forall|j: int, k: int|
            0 <= j < k < ranks.len() ==> {
                let a = #[trigger] stable_order(ranks)[j];
                let b = #[trigger] stable_order(ranks)[k];
                ranks[a] < ranks[b] || (ranks[a] == ranks[b] && a < b)
            },
{
    let n = ranks.len();
    let r = ranked_upto(ranks, n);
    let o = stable_order(ranks);
    lemma_ranked(ranks, n);
    assert forall|i: int| 0 <= i < n implies #[trigger] o.contains(i) by {
        lemma_get_is_entry::<RankKey, ()>(r, (ranks[i], i));
        let k = choose|k: int| 0 <= k < r.len() && #[trigger] r[k].0 == (ranks[i], i);
        assert(o[k] == i);
    }
    assert forall|j: int, k: int| 0 <= j < k < n implies {
        let a = #[trigger] o[j];
        let b = #[trigger] o[k];
        ranks[a] < ranks[b] || (ranks[a] == ranks[b] && a < b)
    } by {
        assert(RankKey::precedes(r[j].0, r[k].0));
    }
}

/// What `f` gives for the first `n` positions, in stable order of rank.
pub open spec fn arranged<T>(ranks: Seq<int>, f: spec_fn(int) -> T, n: nat) -> Seq<T> {
    Seq::new(n, |j: int| f(ranked_upto(ranks, n)[j].0.1))
}

/// What `f` gives for the first `n` positions, in their own order.
pub open spec fn listed<T>(f: spec_fn(int) -> T, n: nat) -> Seq<T> {
    Seq::new(n, |j: int| f(j))
}

/// Ordering by rank only rearranges: the same items stand in the result,
/// each as often as before.
pub proof fn lemma_arranged_multiset<T>(ranks: Seq<int>, f: spec_fn(int) -> T, n: nat)
    requires
        n <= ranks.len(),
    ensures
        arranged(ranks, f, n).to_multiset() == listed(f, n).to_multiset(),
    decreases n,
{
    if n == 0 {
        assert(arranged(ranks, f, n) =~= listed(f, n));
    } else {
        let m = (n - 1) as nat;
        lemma_arranged_multiset(ranks, f, m);
        lemma_ranked(ranks, m);
        let prev = ranked_upto(ranks, m);
        let key = (ranks[n - 1], n - 1);
        let cur = ranked_upto(ranks, n);
        lemma_lower_bound_parts::<RankKey, ()>(prev, key);
        let b = lower_bound::<RankKey, ()>(prev, key);
        if b < prev.len() && prev[b].0 == key {
            assert(prev[b].0.1 < n - 1);
        }
        assert(cur == prev.insert(b, (key, ())));
        assert(arranged(ranks, f, n) =~= arranged(ranks, f, m).insert(b, f(n - 1)));
        vstd::seq_lib::to_multiset_insert(arranged(ranks, f, m), b, f(n - 1));
        assert(listed(f, n) =~= listed(f, m).push(f(n - 1)));
        vstd::seq_lib::to_multiset_build(listed(f, m), f(n - 1));
    }
}

/// The model of a list of ranks.
pub open spec fn ranks_model(ranks: Seq<i128>) -> Seq<int> {
    Seq::new(ranks.len(), |i: int| ranks[i] as int)
}

/// The models of a list of sort keys.
pub open spec fn keys_of(v: Seq<RankKey>) -> Seq<(int, int)> {
    Seq::new(v.len(), |i: int| v[i].model())
}

/// The sort keys stand in strictly ascending order.
pub open spec fn ascending(s: Seq<(int, int)>) -> bool {
    forall|i: int, j: int| 0 <= i < j < s.len() ==> RankKey::precedes(#[trigger] s[i], #[trigger] s[j])
}

/// The sort key of a position.
pub open spec fn key_at(ranks: Seq<int>) -> spec_fn(int) -> (int, int) {
    |i: int| (ranks[i], i)
}

/// There is one way only to put given keys in ascending order.
pub proof fn lemma_ascending_unique(a: Seq<(int, int)>, b: Seq<(int, int)>)
    requires
        ascending(a),
        ascending(b),
        a.to_multiset() == b.to_multiset(),
    ensures
        a == b,
    decreases a.len(),
{
    vstd::seq_lib::to_multiset_len(a);
    vstd::seq_lib::to_multiset_len(b);
    if a.len() == 0 {
        assert(a =~= b);
    } else {
        vstd::seq_lib::to_multiset_contains(a, a[0]);
        vstd::seq_lib::to_multiset_contains(b, a[0]);
        vstd::seq_lib::to_multiset_contains(a, b[0]);
        vstd::seq_lib::to_multiset_contains(b, b[0]);
        assert(a.contains(a[0]));
        assert(b.contains(b[0]));
        let j = choose|j: int| 0 <= j < b.len() && b[j] == a[0];
        let i = choose|i: int| 0 <= i < a.len() && a[i] == b[0];
        if j > 0 {
            assert(RankKey::precedes(b[0], b[j]));
            if i > 0 {
                assert(RankKey::precedes(a[0], a[i]));
            }
        }
        assert(a[0] == b[0]);
        vstd::seq_lib::to_multiset_remove(a, 0);
        vstd::seq_lib::to_multiset_remove(b, 0);
        assert(a.remove(0) =~= a.skip(1));
        assert(b.remove(0) =~= b.skip(1));
        assert(ascending(a.skip(1))) by {
            assert forall|x: int, y: int| 0 <= x < y < a.skip(1).len() implies RankKey::precedes(
                #[trigger] a.skip(1)[x],
                #[trigger] a.skip(1)[y],
            ) by {
                assert(RankKey::precedes(a[x + 1], a[y + 1]));
            }
        }
        assert(ascending(b.skip(1))) by {
            assert forall|x: int, y: int| 0 <= x < y < b.skip(1).len() implies RankKey::precedes(
                #[trigger] b.skip(1)[x],
                #[trigger] b.skip(1)[y],
            ) by {
                assert(RankKey::precedes(b[x + 1], b[y + 1]));
            }
        }
        lemma_ascending_unique(a.skip(1), b.skip(1));
        assert(a =~= seq![a[0]] + a.skip(1));
        assert(b =~= seq![b[0]] + b.skip(1));
    }
}

/// Merges two ascending runs of keys into one.
fn merge_runs(a: &Vec<RankKey>, b: &Vec<RankKey>) -> (r: Vec<RankKey>)
    requires
        ascending(keys_of(a@)),
        ascending(keys_of(b@)),
        forall|i: int, j: int| 0 <= i < a@.len() && 0 <= j < b@.len() ==> keys_of(a@)[i] != keys_of(b@)[j],
        a@.len() + b@.len() <= usize::MAX,
    ensures
        ascending(keys_of(r@)),
        keys_of(r@).to_multiset() == keys_of(a@).to_multiset().add(keys_of(b@).to_multiset()),
{
    let ghost am = keys_of(a@);
    let ghost bm = keys_of(b@);
    let mut r: Vec<RankKey> = Vec::new();
    let mut i: usize = 0;
    let mut j: usize = 0;
    proof {
        broadcast use vstd::seq_lib::group_to_multiset_ensures;

        assert(am.take(0) =~= Seq::<(int, int)>::empty());
        assert(bm.take(0) =~= Seq::<(int, int)>::empty());
        assert(keys_of(r@) =~= Seq::<(int, int)>::empty());
        assert(keys_of(r@).to_multiset() =~= am.take(0).to_multiset().add(bm.take(0).to_multiset()));
    }
    while i < a.len() || j < b.len()
        invariant
            i <= a@.len(),
            j <= b@.len(),
            a@.len() + b@.len() <= usize::MAX,
            am == keys_of(a@),
            bm == keys_of(b@),
            ascending(am),
            ascending(bm),
            forall|x: int, y: int| 0 <= x < am.len() && 0 <= y < bm.len() ==> am[x] != bm[y],
            r@.len() == i + j,
            ascending(keys_of(r@)),
            forall|k: int|
                0 <= k < r@.len() ==> (i < a@.len() ==> RankKey::precedes(
                    #[trigger] keys_of(r@)[k],
                    am[i as int],
                )) && (j < b@.len() ==> RankKey::precedes(keys_of(r@)[k], bm[j as int])),
            keys_of(r@).to_multiset() == am.take(i as int).to_multiset().add(
                bm.take(j as int).to_multiset(),
            ),
        decreases a@.len() - i + b@.len() - j,
    {
        let ghost before = keys_of(r@);
        let from_a = if i < a.len() {
            if j < b.len() {
                a[i].key_lt(&b[j])
            } else {
                true
            }
        } else {
            false
        };
        if from_a {
            r.push(a[i]);
            proof {
                assert(keys_of(r@) =~= before.push(am[i as int]));
                assert(am.take(i + 1) =~= am.take(i as int).push(am[i as int]));
                vstd::seq_lib::to_multiset_build(before, am[i as int]);
                vstd::seq_lib::to_multiset_build(am.take(i as int), am[i as int]);
                assert(keys_of(r@).to_multiset() =~= am.take(i + 1).to_multiset().add(
                    bm.take(j as int).to_multiset(),
                ));
                if i + 1 < a@.len() {
                    assert(RankKey::precedes(am[i as int], am[i + 1]));
                }
            }
            i += 1;
        } else {
            r.push(b[j]);
            proof {
                assert(keys_of(r@) =~= before.push(bm[j as int]));
                assert(bm.take(j + 1) =~= bm.take(j as int).push(bm[j as int]));
                vstd::seq_lib::to_multiset_build(before, bm[j as int]);
                vstd::seq_lib::to_multiset_build(bm.take(j as int), bm[j as int]);
                assert(keys_of(r@).to_multiset() =~= am.take(i as int).to_multiset().add(
                    bm.take(j + 1).to_multiset(),
                ));
                if j + 1 < b@.len() {
                    assert(RankKey::precedes(bm[j as int], bm[j + 1]));
                }
                if i < a@.len() {
                    assert(am[i as int] != bm[j as int]);
                }
            }
            j += 1;
        }
    }
    proof {
        assert(am.take(i as int) =~= am);
        assert(bm.take(j as int) =~= bm);
    }
    r
}

/// Sorts the keys that stand from `lo` up to `hi` by merging.
fn sort_run(keys: &Vec<RankKey>, lo: usize, hi: usize) -> (r: Vec<RankKey>)
    requires
        lo <= hi <= keys@.len(),
        forall|i: int, j: int| 0 <= i < j < keys@.len() ==> keys_of(keys@)[i] != keys_of(keys@)[j],
    ensures
        r@.len() == hi - lo,
        ascending(keys_of(r@)),
        keys_of(r@).to_multiset() == keys_of(keys@).subrange(lo as int, hi as int).to_multiset(),
    decreases hi - lo,
{
    let ghost km = keys_of(keys@);
    if hi - lo <= 1 {
        let mut r: Vec<RankKey> = Vec::new();
        if lo < hi {
            r.push(keys[lo]);
        }
        assert(keys_of(r@) =~= km.subrange(lo as int, hi as int));
        return r;
    }
    let mid = lo + (hi - lo) / 2;
    let left = sort_run(keys, lo, mid);
    let right = sort_run(keys, mid, hi);
    proof {
        let lm = keys_of(left@);
        let rm = keys_of(right@);
        let ls = km.subrange(lo as int, mid as int);
        let rs = km.subrange(mid as int, hi as int);
        assert forall|i: int, j: int| 0 <= i < left@.len() && 0 <= j < right@.len() implies lm[i] != rm[j] by {
            vstd::seq_lib::to_multiset_contains(lm, lm[i]);
            vstd::seq_lib::to_multiset_contains(ls, lm[i]);
            vstd::seq_lib::to_multiset_contains(rm, rm[j]);
            vstd::seq_lib::to_multiset_contains(rs, rm[j]);
            assert(lm.contains(lm[i]));
            assert(rm.contains(rm[j]));
            let x = choose|x: int| 0 <= x < ls.len() && ls[x] == lm[i];
            let y = choose|y: int| 0 <= y < rs.len() && rs[y] == rm[j];
            assert(km[lo + x] != km[mid + y]);
        }
        assert(km.subrange(lo as int, hi as int) =~= ls + rs);
        vstd::seq_lib::lemma_multiset_commutative(ls, rs);
        vstd::seq_lib::to_multiset_len(lm);
        vstd::seq_lib::to_multiset_len(rm);
    }
    let r = merge_runs(&left, &right);
    proof {
        vstd::seq_lib::to_multiset_len(keys_of(r@));
        vstd::seq_lib::to_multiset_len(km.subrange(lo as int, hi as int));
    }
    r
}

/// Sorts the positions of `ranks` by rank, keeping the order of equal ranks.
pub fn sort_positions(ranks: &Vec<i128>) -> (order: Vec<usize>)
    ensures
        order@.len() == ranks@.len(),
        forall|k: int| 0 <= k < order@.len() ==> order@[k] as int == stable_order(ranks_model(ranks@))[k],
        forall|k: int| 0 <= k < order@.len() ==> (#[trigger] order@[k]) < ranks@.len(),
{
    let ghost m = ranks_model(ranks@);
    let mut keys: Vec<RankKey> = Vec::new();
    let mut i: usize = 0;
    while i < ranks.len()
        invariant
            i <= ranks@.len(),
            m == ranks_model(ranks@),
            keys@.len() == i,
            forall|j: int| 0 <= j < i ==> (#[trigger] keys@[j]).model() == (m[j], j),
        decreases ranks.len() - i,
    {
        keys.push(RankKey { rank: ranks[i], index: i });
        i += 1;
    }
    let sorted = sort_run(&keys, 0, keys.len());
    let ghost ranked = ranked_upto(m, m.len());
    proof {
        lemma_ranked(m, m.len());
        lemma_arranged_multiset(m, key_at(m), m.len());
        let in_order = arranged(m, key_at(m), m.len());
        assert(keys_of(keys@) =~= listed(key_at(m), m.len()));
        assert(keys_of(keys@).subrange(0, keys@.len() as int) =~= keys_of(keys@));
        assert forall|x: int, y: int| 0 <= x < y < in_order.len() implies RankKey::precedes(
            #[trigger] in_order[x],
            #[trigger] in_order[y],
        ) by {
            assert(in_order[x] == ranked[x].0);
            assert(in_order[y] == ranked[y].0);
            assert(RankKey::precedes(ranked[x].0, ranked[y].0));
        }
        lemma_ascending_unique(keys_of(sorted@), in_order);
    }
    let mut order: Vec<usize> = Vec::new();
    let mut k: usize = 0;
    while k < sorted.len()
        invariant
            k <= sorted@.len(),
            sorted@.len() == m.len(),
            m.len() == ranks@.len(),
            ranked == ranked_upto(m, m.len()),
            keys_of(sorted@) == arranged(m, key_at(m), m.len()),
            forall|j: int| 0 <= j < m.len() ==> 0 <= (#[trigger] ranked[j]).0.1 < m.len(),
            forall|j: int| 0 <= j < m.len() ==> (#[trigger] ranked[j]).0.0 == m[ranked[j].0.1],
            order@.len() == k,
            forall|j: int| 0 <= j < k ==> order@[j] as int == stable_order(m)[j],
            forall|j: int| 0 <= j < k ==> (#[trigger] order@[j]) < ranks@.len(),
        decreases sorted.len() - k,
    {
        proof {
            assert(keys_of(sorted@)[k as int] == sorted@[k as int].model());
            assert(arranged(m, key_at(m), m.len())[k as int] == (
                m[ranked[k as int].0.1],
                ranked[k as int].0.1,
            ));
        }
        order.push(sorted[k].index);
        k += 1;
    }
    order
}

} // verus!
