//! Grouping of files by their values for partition columns.
use crate::model::{AddFileLite, FileModel, PartitionModel};
use crate::order::models_of;
use crate::sorted_map::{
    keys_ascending, lemma_get_is_entry, lemma_put_ascending, spec_get, spec_put, OrderedMap,
};
use crate::text::{copy_texts, first_bound, lemma_first_bound_at, position_of_key};
use vstd::multiset::Multiset;
use vstd::prelude::*;

verus! {

/// The value that stands for a partition column which a file does not
/// declare, or declares as null.
pub open spec fn unknown_value() -> Seq<char> {
    "__UNKNOWN__"@
}

/// What `pv` declares for the column `name`: the first entry of that name.
pub open spec fn find_value(pv: PartitionModel, name: Seq<char>) -> Option<Option<Seq<char>>> {
    first_bound(pv, name)
}

/// The value of the column `name` by which a file is grouped.
pub open spec fn column_value(pv: PartitionModel, name: Seq<char>) -> Seq<char> {
    match find_value(pv, name) {
        Some(Some(v)) => v,
        _ => unknown_value(),
    }
}

/// The key by which a file is grouped: its values for the columns `by`, in
/// their order.
pub open spec fn group_key(pv: PartitionModel, by: Seq<Seq<char>>) -> Seq<Seq<char>> {
    Seq::new(by.len(), |i: int| column_value(pv, by[i]))
}

/// The value of the column `name` by which a file is grouped.
pub fn column_value_of(pv: &Vec<(String, Option<String>)>, name: &str) -> (r: String)
    ensures
        r@ == column_value(pv.deep_view(), name@),
{
    let ghost m = pv.deep_view();
    match position_of_key(pv, name) {
        Some(i) => {
            proof {
                assert forall|j: int| 0 <= j < i implies (#[trigger] m[j]).0 != name@ by {
                    assert(m[j].0 == pv@[j].0@);
                }
                assert(m[i as int] == (pv@[i as int].0@, pv@[i as int].1.deep_view()));
                lemma_first_bound_at(m, name@, i as int);
            }
            match &pv[i].1 {
                Some(v) => v.clone(),
                None => "__UNKNOWN__".to_owned(),
            }
        },
        None => {
            proof {
                assert forall|j: int| 0 <= j < m.len() implies (#[trigger] m[j]).0 != name@ by {
                    assert(m[j].0 == pv@[j].0@);
                }
                lemma_first_bound_at(m, name@, m.len() as int);
            }
            "__UNKNOWN__".to_owned()
        },
    }
}

/// The key by which a file with partition values `pv` is grouped.
pub fn group_key_of(pv: &Vec<(String, Option<String>)>, by: &Vec<String>) -> (r: Vec<String>)
    ensures
        r.deep_view() == group_key(pv.deep_view(), by.deep_view()),
{
    let mut r: Vec<String> = Vec::new();
    let mut i: usize = 0;
    while i < by.len()
        invariant
            i <= by@.len(),
            r@.len() == i,
            forall|j: int| 0 <= j < i ==> r@[j]@ == column_value(pv.deep_view(), by@[j]@),
        decreases by.len() - i,
    {
        r.push(column_value_of(pv, by[i].as_str()));
        i += 1;
    }
    assert(r.deep_view() =~= group_key(pv.deep_view(), by.deep_view()));
    r
}

/// The groups that the first `n` of `keys` form: each key that occurs, in
/// ascending order, with the positions at which it occurs, in ascending
/// order.
pub open spec fn grouped_upto(keys: Seq<Seq<Seq<char>>>, n: nat) -> Seq<(Seq<Seq<char>>, Seq<usize>)>
    decreases n,
{
    if n == 0 {
        Seq::empty()
    } else {
        let before = grouped_upto(keys, (n - 1) as nat);
        let key = keys[n - 1];
        let members = match spec_get::<Vec<String>, Seq<usize>>(before, key) {
            Some(m) => m.push((n - 1) as usize),
            None => seq![(n - 1) as usize],
        };
        spec_put::<Vec<String>, Seq<usize>>(before, key, members)
    }
}

/// The groups that `keys` form.
pub open spec fn grouped(keys: Seq<Seq<Seq<char>>>) -> Seq<(Seq<Seq<char>>, Seq<usize>)> {
    grouped_upto(keys, keys.len())
}

/// The positions among the first `n` of `keys` at which `key` stands, in
/// ascending order.
pub open spec fn positions_of(keys: Seq<Seq<Seq<char>>>, key: Seq<Seq<char>>, n: nat) -> Seq<usize>
    decreases n,
{
    if n == 0 {
        Seq::empty()
    } else if keys[n - 1] == key {
        positions_of(keys, key, (n - 1) as nat).push((n - 1) as usize)
    } else {
        positions_of(keys, key, (n - 1) as nat)
    }
}

/// What the groups are: their keys ascend, and each key among the first `n`
/// has exactly one group, which holds the positions at which it stands.
pub proof fn lemma_grouped(keys: Seq<Seq<Seq<char>>>, n: nat)
    requires
        n <= keys.len(),
        keys.len() <= usize::MAX,
    ensures
        keys_ascending::<Vec<String>, Seq<usize>>(grouped_upto(keys, n)),
        forall|key: Seq<Seq<char>>|
            #[trigger] spec_get::<Vec<String>, Seq<usize>>(grouped_upto(keys, n), key) == if positions_of(
                keys,
                key,
                n,
            ).len() > 0 {
                Some(positions_of(keys, key, n))
            } else {
                None
            },
    decreases n,
{
    if n > 0 {
        let before = grouped_upto(keys, (n - 1) as nat);
        let key = keys[n - 1];
        let members = match spec_get::<Vec<String>, Seq<usize>>(before, key) {
            Some(m) => m.push((n - 1) as usize),
            None => seq![(n - 1) as usize],
        };
        lemma_grouped(keys, (n - 1) as nat);
        lemma_put_ascending::<Vec<String>, Seq<usize>>(before, key, members);
        assert forall|q: Seq<Seq<char>>|
            #[trigger] spec_get::<Vec<String>, Seq<usize>>(grouped_upto(keys, n), q) == if positions_of(
                keys,
                q,
                n,
            ).len() > 0 {
                Some(positions_of(keys, q, n))
            } else {
                None
            } by {
            crate::sorted_map::lemma_get_after_put::<Vec<String>, Seq<usize>>(before, key, members, q);
            assert(spec_get::<Vec<String>, Seq<usize>>(before, q) == if positions_of(
                keys,
                q,
                (n - 1) as nat,
            ).len() > 0 {
                Some(positions_of(keys, q, (n - 1) as nat))
            } else {
                None
            });
            if q == key {
                if positions_of(keys, key, (n - 1) as nat).len() == 0 {
                    assert(positions_of(keys, key, (n - 1) as nat) =~= Seq::<usize>::empty());
                    assert(positions_of(keys, key, n) =~= seq![(n - 1) as usize]);
                }
            }
        }
    }
}

/// Every position that a group holds is below `n` and has the group's key.
pub proof fn lemma_positions_of(keys: Seq<Seq<Seq<char>>>, key: Seq<Seq<char>>, n: nat)
    requires
        n <= keys.len(),
        keys.len() <= usize::MAX,
    ensures
        forall|k: int|
            0 <= k < positions_of(keys, key, n).len() ==> (#[trigger] positions_of(keys, key, n)[k]) < n
                && keys[positions_of(keys, key, n)[k] as int] == key,
        forall|j: int, k: int|
            0 <= j < k < positions_of(keys, key, n).len() ==> positions_of(keys, key, n)[j]
                < positions_of(keys, key, n)[k],
        forall|i: int|
            0 <= i < n && keys[i] == key ==> #[trigger] positions_of(keys, key, n).contains(i as usize),
    decreases n,
{
    if n > 0 {
        lemma_positions_of(keys, key, (n - 1) as nat);
        let before = positions_of(keys, key, (n - 1) as nat);
        let now = positions_of(keys, key, n);
        assert forall|i: int| 0 <= i < n && keys[i] == key implies #[trigger] now.contains(i as usize) by {
            if i < n - 1 {
                assert(before.contains(i as usize));
                let k = choose|k: int| 0 <= k < before.len() && before[k] == i as usize;
                assert(now[k] == i as usize);
            } else {
                assert(now[now.len() - 1] == i as usize);
            }
        }
    }
}

/// What the groups of `keys` are: each holds the positions at which its key
/// stands, at least one, and no group is without its key.
pub proof fn lemma_groups(keys: Seq<Seq<Seq<char>>>)
    requires
        keys.len() <= usize::MAX,
    ensures
        keys_ascending::<Vec<String>, Seq<usize>>(grouped(keys)),
        forall|g: int|
            0 <= g < grouped(keys).len() ==> {
                let group = #[trigger] grouped(keys)[g];
                &&& group.1 == positions_of(keys, group.0, keys.len())
                &&& group.1.len() > 0
                &&& forall|k: int|
                    0 <= k < group.1.len() ==> (#[trigger] group.1[k]) < keys.len() && keys[group.1[k] as int]
                        == group.0
            },
{
    let groups = grouped(keys);
    lemma_grouped(keys, keys.len());
    assert forall|g: int| 0 <= g < groups.len() implies {
        let group = #[trigger] groups[g];
        &&& group.1 == positions_of(keys, group.0, keys.len())
        &&& group.1.len() > 0
        &&& forall|k: int|
            0 <= k < group.1.len() ==> (#[trigger] group.1[k]) < keys.len() && keys[group.1[k] as int]
                == group.0
    } by {
        let group = groups[g];
        lemma_get_is_entry::<Vec<String>, Seq<usize>>(groups, group.0);
        assert(groups[g].0 == group.0);
        assert(spec_get::<Vec<String>, Seq<usize>>(groups, group.0) == Some(group.1));
        lemma_positions_of(keys, group.0, keys.len());
    }
}

/// What `f` gives for the positions `members`, in their order.
pub open spec fn members_of<T>(members: Seq<usize>, f: spec_fn(int) -> T) -> Seq<T> {
    Seq::new(members.len(), |m: int| f(members[m] as int))
}

/// What `f` gives for the members of all of `groups`, each as often as it
/// is a member.
pub open spec fn group_pool<T>(groups: Seq<(Seq<Seq<char>>, Seq<usize>)>, f: spec_fn(int) -> T) -> Multiset<T>
    decreases groups.len(),
{
    if groups.len() == 0 {
        Multiset::empty()
    } else {
        group_pool(groups.drop_last(), f).add(members_of(groups.last().1, f).to_multiset())
    }
}

/// A new group adds its members to the pool.
pub proof fn lemma_pool_insert<T>(
    groups: Seq<(Seq<Seq<char>>, Seq<usize>)>,
    b: int,
    e: (Seq<Seq<char>>, Seq<usize>),
    f: spec_fn(int) -> T,
)
    requires
        0 <= b <= groups.len(),
    ensures
        group_pool(groups.insert(b, e), f) == group_pool(groups, f).add(members_of(e.1, f).to_multiset()),
    decreases groups.len(),
{
    let r = groups.insert(b, e);
    if b == groups.len() {
        assert(r.drop_last() =~= groups);
    } else {
        assert(r.drop_last() =~= groups.drop_last().insert(b, e));
        assert(r.last() == groups.last());
        lemma_pool_insert(groups.drop_last(), b, e, f);
        assert(group_pool(r, f) =~= group_pool(groups, f).add(members_of(e.1, f).to_multiset()));
    }
}

/// A new member of a group adds to the pool.
pub proof fn lemma_pool_push<T>(
    groups: Seq<(Seq<Seq<char>>, Seq<usize>)>,
    b: int,
    x: usize,
    f: spec_fn(int) -> T,
)
    requires
        0 <= b < groups.len(),
    ensures
        group_pool(groups.update(b, (groups[b].0, groups[b].1.push(x))), f) == group_pool(groups, f).insert(
            f(x as int),
        ),
    decreases groups.len(),
{
    let e = (groups[b].0, groups[b].1.push(x));
    let r = groups.update(b, e);
    if b == groups.len() - 1 {
        assert(r.drop_last() =~= groups.drop_last());
        assert(members_of(e.1, f) =~= members_of(groups[b].1, f).push(f(x as int)));
        vstd::seq_lib::to_multiset_build(members_of(groups[b].1, f), f(x as int));
        assert(group_pool(r, f) =~= group_pool(groups, f).insert(f(x as int)));
    } else {
        assert(r.drop_last() =~= groups.drop_last().update(b, e));
        assert(r.last() == groups.last());
        lemma_pool_push(groups.drop_last(), b, x, f);
        assert(group_pool(r, f) =~= group_pool(groups, f).insert(f(x as int)));
    }
}

/// Grouping only rearranges: the members of all groups are the positions
/// grouped, each once.
pub proof fn lemma_group_pool<T>(keys: Seq<Seq<Seq<char>>>, f: spec_fn(int) -> T, n: nat)
    requires
        n <= keys.len(),
        keys.len() <= usize::MAX,
    ensures
        group_pool(grouped_upto(keys, n), f) == crate::ranking::listed(f, n).to_multiset(),
    decreases n,
{
    if n == 0 {
        assert(crate::ranking::listed(f, n) =~= Seq::<T>::empty());
        assert(crate::ranking::listed(f, n).to_multiset() =~= Multiset::<T>::empty()) by {
            broadcast use vstd::seq_lib::group_to_multiset_ensures;

        }
    } else {
        let m = (n - 1) as nat;
        lemma_group_pool(keys, f, m);
        lemma_grouped(keys, m);
        let before = grouped_upto(keys, m);
        let key = keys[n - 1];
        crate::sorted_map::lemma_lower_bound_parts::<Vec<String>, Seq<usize>>(before, key);
        let b = crate::sorted_map::lower_bound::<Vec<String>, Seq<usize>>(before, key);
        let x = (n - 1) as usize;
        if b < before.len() && before[b].0 == key {
            lemma_pool_push(before, b, x, f);
        } else {
            lemma_pool_insert(before, b, (key, seq![x]), f);
            assert(members_of(seq![x], f) =~= Seq::<T>::empty().push(f(x as int)));
            vstd::seq_lib::to_multiset_build(Seq::<T>::empty(), f(x as int));
            assert(Seq::<T>::empty().to_multiset() =~= Multiset::<T>::empty()) by {
                broadcast use vstd::seq_lib::group_to_multiset_ensures;

            }
        }
        assert(crate::ranking::listed(f, n) =~= crate::ranking::listed(f, m).push(f(n - 1)));
        vstd::seq_lib::to_multiset_build(crate::ranking::listed(f, m), f(n - 1));
        assert(group_pool(grouped_upto(keys, n), f) =~= crate::ranking::listed(f, n).to_multiset());
    }
}

/// The model of a list of group keys.
pub open spec fn keys_model(keys: Seq<Vec<String>>) -> Seq<Seq<Seq<char>>> {
    Seq::new(keys.len(), |i: int| models_of::<String>(keys[i]@))
}

/// Groups the positions of `keys` by key: the groups in ascending order of
/// key, the positions of each in ascending order.
pub fn group_positions(keys: &Vec<Vec<String>>) -> (groups: Vec<(Vec<String>, Vec<usize>)>)
    ensures
        groups.deep_view() == grouped(keys_model(keys@)),
        forall|g: int, k: int|
            0 <= g < groups@.len() && 0 <= k < groups@[g].1@.len() ==> (#[trigger] groups@[g].1@[k])
                < keys@.len() && keys@[groups@[g].1@[k] as int]@.len() == groups@[g].0@.len(),
{
    let ghost km = keys_model(keys@);
    let mut map: OrderedMap<Vec<String>, Vec<usize>> = OrderedMap::new();
    let mut i: usize = 0;
    while i < keys.len()
        invariant
            i <= keys@.len(),
            km == keys_model(keys@),
            map.wf(),
            map.model() == grouped_upto(km, i as nat),
        decreases keys.len() - i,
    {
        let ghost before = map.model();
        assert(km[i as int] == models_of::<String>(keys@[i as int]@));
        let mut members: Vec<usize> = Vec::new();
        if map.swap_value(&keys[i], &mut members) {
            members.push(i);
            let ghost pushed = members.deep_view();
            let mut empty: Vec<usize> = Vec::new();
            let ghost e = empty.deep_view();
            core::mem::swap(&mut members, &mut empty);
            let found = map.swap_value(&keys[i], &mut empty);
            proof {
                let mid = spec_put::<Vec<String>, Seq<usize>>(before, km[i as int], e);
                lemma_put_ascending::<Vec<String>, Seq<usize>>(before, km[i as int], e);
                crate::sorted_map::lemma_get_after_put::<Vec<String>, Seq<usize>>(
                    before,
                    km[i as int],
                    e,
                    km[i as int],
                );
                assert(found);
                lemma_put_twice(before, km[i as int], e, pushed);
                assert(pushed =~= spec_get::<Vec<String>, Seq<usize>>(before, km[i as int])->Some_0.push(
                    i,
                ));
            }
        } else {
            members.push(i);
            let key = copy_texts(&keys[i]);
            assert(members.deep_view() =~= seq![i]);
            map.put(key, members);
        }
        i += 1;
    }
    let ghost model = map.model();
    let groups = map.into_entries();
    assert(groups.deep_view() =~= model) by {
        assert forall|j: int| 0 <= j < groups@.len() implies groups.deep_view()[j] == model[j] by {
            assert(groups@[j].0.deep_view() =~= models_of::<String>(groups@[j].0@));
        }
    }
    proof {
        lemma_groups(km);
        assert forall|g: int, k: int|
            0 <= g < groups@.len() && 0 <= k < groups@[g].1@.len() implies (#[trigger] groups@[g].1@[k])
            < keys@.len() && keys@[groups@[g].1@[k] as int]@.len() == groups@[g].0@.len() by {
            assert(groups.deep_view()[g] == model[g]);
            assert(groups@[g].1.deep_view() =~= groups@[g].1@);
            let m = groups@[g].1@[k];
            assert(model[g].1[k] == m);
            assert(km[m as int] == model[g].0);
            assert(km[m as int].len() == keys@[m as int]@.len());
            assert(groups@[g].0.deep_view().len() == groups@[g].0@.len());
        }
    }
    groups
}

/// Binding a key twice leaves the second binding.
pub proof fn lemma_put_twice(
    s: Seq<(Seq<Seq<char>>, Seq<usize>)>,
    key: Seq<Seq<char>>,
    first: Seq<usize>,
    second: Seq<usize>,
)
    requires
        keys_ascending::<Vec<String>, Seq<usize>>(s),
    ensures
        spec_put::<Vec<String>, Seq<usize>>(spec_put::<Vec<String>, Seq<usize>>(s, key, first), key, second)
            == spec_put::<Vec<String>, Seq<usize>>(s, key, second),
{
    let mid = spec_put::<Vec<String>, Seq<usize>>(s, key, first);
    lemma_put_ascending::<Vec<String>, Seq<usize>>(s, key, first);
    crate::sorted_map::lemma_lower_bound_parts::<Vec<String>, Seq<usize>>(s, key);
    crate::sorted_map::lemma_lower_bound_parts::<Vec<String>, Seq<usize>>(mid, key);
    let b = crate::sorted_map::lower_bound::<Vec<String>, Seq<usize>>(s, key);
    assert(mid[b].0 == key);
    assert(spec_put::<Vec<String>, Seq<usize>>(mid, key, second) =~= spec_put::<Vec<String>, Seq<usize>>(
        s,
        key,
        second,
    ));
}

/// The keys by which `files` are grouped.
pub open spec fn file_keys(files: Seq<FileModel>, by: Seq<Seq<char>>) -> Seq<Seq<Seq<char>>> {
    Seq::new(files.len(), |i: int| group_key(files[i].partition_values, by))
}

/// The groups that `files` form by their values for the columns `by`.
pub open spec fn file_groups(files: Seq<FileModel>, by: Seq<Seq<char>>) -> Seq<(Seq<Seq<char>>, Seq<usize>)> {
    grouped(file_keys(files, by))
}

/// What the groups of `files` are: every group has a value for each column
/// of `by`, and holds positions of files, all of which have its key.
pub proof fn lemma_file_groups(files: Seq<FileModel>, by: Seq<Seq<char>>)
    requires
        files.len() <= usize::MAX,
    ensures
        keys_ascending::<Vec<String>, Seq<usize>>(file_groups(files, by)),
        forall|g: int|
            0 <= g < file_groups(files, by).len() ==> {
                let group = #[trigger] file_groups(files, by)[g];
                &&& group.0.len() == by.len()
                &&& group.1 == positions_of(file_keys(files, by), group.0, files.len())
                &&& group.1.len() > 0
                &&& forall|k: int| 0 <= k < group.1.len() ==> (#[trigger] group.1[k]) < files.len()
            },
{
    let keys = file_keys(files, by);
    let groups = file_groups(files, by);
    lemma_groups(keys);
    assert forall|g: int| 0 <= g < groups.len() implies {
        let group = #[trigger] groups[g];
        &&& group.0.len() == by.len()
        &&& group.1 == positions_of(keys, group.0, files.len())
        &&& group.1.len() > 0
        &&& forall|k: int| 0 <= k < group.1.len() ==> (#[trigger] group.1[k]) < files.len()
    } by {
        let group = groups[g];
        let p = group.1[0];
        assert(keys[p as int] == group.0);
    }
}

/// Groups `files` by their values for the columns `by`: the groups in
/// ascending order of those values, each with the positions of its files in
/// ascending order.
pub fn group_files(files: &Vec<AddFileLite>, by: &Vec<String>) -> (groups: Vec<(Vec<String>, Vec<usize>)>)
    ensures
        groups.deep_view() == file_groups(files.deep_view(), by.deep_view()),
        forall|g: int|
            0 <= g < groups@.len() ==> (#[trigger] groups@[g]).0@.len() == by@.len() && forall|k: int|
                0 <= k < groups@[g].1@.len() ==> (#[trigger] groups@[g].1@[k]) < files@.len(),
{
    let ghost fm = files.deep_view();
    let ghost bm = by.deep_view();
    let mut keys: Vec<Vec<String>> = Vec::new();
    let mut i: usize = 0;
    while i < files.len()
        invariant
            i <= files@.len(),
            fm == files.deep_view(),
            bm == by.deep_view(),
            keys@.len() == i,
            forall|j: int|
                0 <= j < i ==> models_of::<String>((#[trigger] keys@[j])@) == group_key(
                    fm[j].partition_values,
                    bm,
                ),
        decreases files.len() - i,
    {
        let key = group_key_of(&files[i].partition_values, by);
        assert(models_of::<String>(key@) =~= key.deep_view());
        assert(fm[i as int] == files@[i as int].deep_view());
        keys.push(key);
        i += 1;
    }
    assert(keys_model(keys@) =~= file_keys(fm, bm));
    let groups = group_positions(&keys);
    proof {
        lemma_file_groups(fm, bm);
        let gm = file_groups(fm, bm);
        assert forall|g: int| 0 <= g < groups@.len() implies (#[trigger] groups@[g]).0@.len() == by@.len()
            && forall|k: int| 0 <= k < groups@[g].1@.len() ==> (#[trigger] groups@[g].1@[k]) < files@.len() by {
            assert(groups.deep_view()[g] == gm[g]);
            assert(groups@[g].0.deep_view().len() == gm[g].0.len());
            assert(groups@[g].1.deep_view() =~= groups@[g].1@);
        }
    }
    groups
}

/// The partition of a group: each column with the group's value for it.
pub open spec fn partition_of(by: Seq<Seq<char>>, key: Seq<Seq<char>>) -> Seq<(Seq<char>, Seq<char>)> {
    Seq::new(by.len(), |i: int| (by[i], key[i]))
}

/// The partition of a group: each column with the group's value for it.
pub(crate) fn make_partition(by: &Vec<String>, key: &Vec<String>) -> (r: Vec<(String, String)>)
    requires
        key@.len() == by@.len(),
    ensures
        r.deep_view() == partition_of(by.deep_view(), key.deep_view()),
{
    let mut r: Vec<(String, String)> = Vec::new();
    let mut i: usize = 0;
    while i < by.len()
        invariant
            i <= by@.len(),
            key@.len() == by@.len(),
            r@.len() == i,
            forall|j: int| 0 <= j < i ==> (#[trigger] r@[j]).0@ == by@[j]@ && r@[j].1@ == key@[j]@,
        decreases by.len() - i,
    {
        r.push((by[i].clone(), key[i].clone()));
        i += 1;
    }
    assert(r.deep_view() =~= partition_of(by.deep_view(), key.deep_view()));
    r
}

} // verus!
