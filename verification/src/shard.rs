//! The shard planner: groups of files are spread over shards, each group
//! from a shard that its key names, each file to the least loaded shard.
use crate::compaction::{counted_size, saturate_u64};
use crate::digest::{spec_stable_hash, stable_hash};
use crate::grouping::{
    file_groups, file_keys, group_files, group_pool, lemma_group_pool, make_partition,
    members_of, partition_of,
};
use crate::model::{copy_partition_values, AddFileLite, DeltaError, FileModel, PartitionModel};
use crate::ranking::{arranged, lemma_arranged_multiset, listed, ranks_model, sort_positions, stable_order};
use crate::table::{list_active_files, TableSnapshot};
use crate::text::contains_text;
use vstd::multiset::Multiset;
use vstd::prelude::*;

verus! {

/// The measure by which shards are balanced.
#[derive(Debug, Clone, Copy, PartialEq, Eq, Structural)]
pub enum BalanceMode {
    Bytes,
    Rows,
}

impl Default for BalanceMode {
    fn default() -> (r: Self)
        ensures
            r == BalanceMode::Bytes,
    {
        BalanceMode::Bytes
    }
}

/// How files are spread over shards.
#[derive(Debug, Clone)]
pub struct ShardOptions {
    /// Files that agree on these partition columns form one group.
    pub by: Vec<String>,
    /// The columns of `by` that seed a group's first shard; all of `by`
    /// where this is empty.
    pub sticky_by: Vec<String>,
    /// Where set, a file whose shard already holds this many is left out.
    pub max_files_per_shard: Option<usize>,
    pub balance: BalanceMode,
    pub row_group_aware: bool,
}

pub struct ShardOptionsModel {
    pub by: Seq<Seq<char>>,
    pub sticky_by: Seq<Seq<char>>,
    pub max_files_per_shard: Option<int>,
    pub balance: BalanceMode,
    pub row_group_aware: bool,
}

impl DeepView for ShardOptions {
    type V = ShardOptionsModel;

    open spec fn deep_view(&self) -> ShardOptionsModel {
        ShardOptionsModel {
            by: self.by.deep_view(),
            sticky_by: self.sticky_by.deep_view(),
            max_files_per_shard: match self.max_files_per_shard {
                Some(m) => Some(m as int),
                None => None,
            },
            balance: self.balance,
            row_group_aware: self.row_group_aware,
        }
    }
}

impl Default for ShardOptions {
    fn default() -> (r: Self)
        ensures
            r.by@.len() == 0,
            r.sticky_by@.len() == 0,
            r.max_files_per_shard is None,
            r.balance == BalanceMode::Bytes,
            !r.row_group_aware,
    {
        ShardOptions {
            by: Vec::new(),
            sticky_by: Vec::new(),
            max_files_per_shard: None,
            balance: BalanceMode::Bytes,
            row_group_aware: false,
        }
    }
}

/// An active file as a shard holds it, with its approximate row count.
#[derive(Debug, Clone)]
pub struct ShardFile {
    pub path: String,
    pub bytes: i64,
    pub approx_rows: u64,
    pub partition: Vec<(String, Option<String>)>,
}

pub struct ShardFileModel {
    pub path: Seq<char>,
    pub bytes: int,
    pub approx_rows: int,
    pub partition: PartitionModel,
}

impl DeepView for ShardFile {
    type V = ShardFileModel;

    open spec fn deep_view(&self) -> ShardFileModel {
        ShardFileModel {
            path: self.path@,
            bytes: self.bytes as int,
            approx_rows: self.approx_rows as int,
            partition: self.partition.deep_view(),
        }
    }
}

/// One of the shards of a plan: its number, its load, and its files in the
/// order they were placed.
#[derive(Debug, Clone)]
pub struct Shard {
    pub id: u32,
    pub bytes: i64,
    pub rows: u64,
    pub files: Vec<ShardFile>,
}

pub struct ShardModel {
    pub id: int,
    pub bytes: int,
    pub rows: int,
    pub files: Seq<ShardFileModel>,
}

impl DeepView for Shard {
    type V = ShardModel;

    open spec fn deep_view(&self) -> ShardModel {
        ShardModel {
            id: self.id as int,
            bytes: self.bytes as int,
            rows: self.rows as int,
            files: self.files.deep_view(),
        }
    }
}

/// The file as a shard holds it. Its approximate row count is zero.
pub open spec fn item_of(f: FileModel) -> ShardFileModel {
    ShardFileModel { path: f.path, bytes: f.size, approx_rows: 0, partition: f.partition_values }
}

/// What a file weighs under `balance`.
pub open spec fn metric(item: ShardFileModel, balance: BalanceMode) -> int {
    match balance {
        BalanceMode::Bytes => item.bytes,
        BalanceMode::Rows => item.approx_rows,
    }
}

/// What a shard carries under `balance`.
pub open spec fn load(shard: ShardModel, balance: BalanceMode) -> int {
    match balance {
        BalanceMode::Bytes => shard.bytes,
        BalanceMode::Rows => shard.rows,
    }
}

/// `x`, or the greatest 64-bit signed number where `x` is above it.
pub open spec fn saturate_i64(x: int) -> int {
    if x > i64::MAX {
        i64::MAX as int
    } else {
        x
    }
}

/// The pairs that seed a group: all of them where `sticky_by` is empty, else
/// those whose column it names.
pub open spec fn sticky_pairs(pairs: Seq<(Seq<char>, Seq<char>)>, sticky_by: Seq<Seq<char>>) -> Seq<
    (Seq<char>, Seq<char>),
> {
    if sticky_by.len() == 0 {
        pairs
    } else {
        pairs.filter(|p: (Seq<char>, Seq<char>)| sticky_by.contains(p.0))
    }
}

/// The shard at which a group with key `key` begins: the hash of its sticky
/// pairs, modulo the number of shards.
pub open spec fn base_index(by: Seq<Seq<char>>, key: Seq<Seq<char>>, sticky_by: Seq<Seq<char>>, k: int) -> int {
    spec_stable_hash(sticky_pairs(partition_of(by, key), sticky_by)) % k
}

/// The shard that stands `off` places after `base`, going round.
pub open spec fn shard_at(shards: Seq<ShardModel>, base: int, off: int) -> ShardModel {
    shards[(base + off) % (shards.len() as int)]
}

/// Among the first `n` places from `base`, the one whose shard carries the
/// least; of several that carry the least, the first.
pub open spec fn pick_offset(shards: Seq<ShardModel>, base: int, balance: BalanceMode, n: nat) -> int
    decreases n,
{
    if n <= 1 {
        0
    } else {
        let best = pick_offset(shards, base, balance, (n - 1) as nat);
        if load(shard_at(shards, base, n - 1), balance) < load(shard_at(shards, base, best), balance) {
            n - 1
        } else {
            best
        }
    }
}

/// The shard that takes the next file of a group that begins at `base`.
pub open spec fn target_shard(shards: Seq<ShardModel>, base: int, balance: BalanceMode) -> int {
    (base + pick_offset(shards, base, balance, shards.len())) % (shards.len() as int)
}

/// `shard` with one more file.
pub open spec fn with_file(shard: ShardModel, item: ShardFileModel) -> ShardModel {
    ShardModel {
        id: shard.id,
        bytes: saturate_i64(shard.bytes + counted_size(item.bytes)),
        rows: saturate_u64(shard.rows + item.approx_rows),
        files: shard.files.push(item),
    }
}

/// The shards after one file of a group that begins at `base` was placed:
/// the least loaded shard takes it, unless that shard is full, in which case
/// the file is left out.
pub open spec fn spec_place(
    shards: Seq<ShardModel>,
    base: int,
    item: ShardFileModel,
    balance: BalanceMode,
    cap: Option<int>,
) -> Seq<ShardModel> {
    let t = target_shard(shards, base, balance);
    if cap is Some && shards[t].files.len() >= cap->Some_0 {
        shards
    } else {
        shards.update(t, with_file(shards[t], item))
    }
}

/// The shards after the first `n` of `items` were placed, in order.
pub open spec fn place_all(
    shards: Seq<ShardModel>,
    base: int,
    items: Seq<ShardFileModel>,
    balance: BalanceMode,
    cap: Option<int>,
    n: nat,
) -> Seq<ShardModel>
    decreases n,
{
    if n == 0 {
        shards
    } else {
        spec_place(place_all(shards, base, items, balance, cap, (n - 1) as nat), base, items[n - 1], balance, cap)
    }
}

/// The ranks by which the files at `members` are placed: heaviest first.
pub open spec fn member_ranks(files: Seq<FileModel>, members: Seq<usize>, balance: BalanceMode) -> Seq<int> {
    Seq::new(members.len(), |j: int| -metric(item_of(files[members[j] as int]), balance))
}

/// The files at `members` in the order they are placed: heaviest first,
/// files of one weight in the order of `members`.
pub open spec fn group_items(files: Seq<FileModel>, members: Seq<usize>, balance: BalanceMode) -> Seq<
    ShardFileModel,
> {
    Seq::new(
        members.len(),
        |j: int| item_of(files[members[stable_order(member_ranks(files, members, balance))[j]] as int]),
    )
}

/// `k` shards that hold nothing.
pub open spec fn empty_shards(k: int) -> Seq<ShardModel> {
    Seq::new(k as nat, |i: int| ShardModel { id: i, bytes: 0, rows: 0, files: Seq::empty() })
}

/// The shards after the first `g` groups of `files` were placed.
pub open spec fn shards_upto(files: Seq<FileModel>, k: int, opts: ShardOptionsModel, g: nat) -> Seq<ShardModel>
    decreases g,
{
    if g == 0 {
        empty_shards(k)
    } else {
        let group = file_groups(files, opts.by)[g - 1];
        let items = group_items(files, group.1, opts.balance);
        place_all(
            shards_upto(files, k, opts, (g - 1) as nat),
            base_index(opts.by, group.0, opts.sticky_by, k),
            items,
            opts.balance,
            opts.max_files_per_shard,
            items.len(),
        )
    }
}

/// The number of shards that a request for `shards` gives: at least one.
pub open spec fn shard_count(shards: int) -> int {
    if shards < 1 {
        1
    } else {
        shards
    }
}

/// The shard plan for `files`.
///
/// The files are grouped by their values for the columns `opts.by`, the
/// groups taken in ascending order of those values. Each group begins at
/// the shard that the hash of its sticky pairs names, and its files, heaviest
/// first, go each to the least loaded shard, counted from that one.
pub open spec fn spec_shard_files(files: Seq<FileModel>, shards: int, opts: ShardOptionsModel) -> Seq<
    ShardModel,
> {
    shards_upto(files, shard_count(shards), opts, file_groups(files, opts.by).len())
}

/// Placing a file keeps the number of shards.
pub proof fn lemma_place_len(
    shards: Seq<ShardModel>,
    base: int,
    items: Seq<ShardFileModel>,
    balance: BalanceMode,
    cap: Option<int>,
    n: nat,
)
    requires
        shards.len() > 0,
        base >= 0,
    ensures
        place_all(shards, base, items, balance, cap, n).len() == shards.len(),
    decreases n,
{
    if n > 0 {
        lemma_place_len(shards, base, items, balance, cap, (n - 1) as nat);
        let before = place_all(shards, base, items, balance, cap, (n - 1) as nat);
        lemma_pick_offset_range(before, base, balance, before.len());
    }
}

pub proof fn lemma_pick_offset_range(shards: Seq<ShardModel>, base: int, balance: BalanceMode, n: nat)
    ensures
        0 <= pick_offset(shards, base, balance, n),
        n >= 1 ==> pick_offset(shards, base, balance, n) < n,
    decreases n,
{
    if n > 1 {
        lemma_pick_offset_range(shards, base, balance, (n - 1) as nat);
    }
}

/// The place that is picked is that of a least loaded shard, and the first
/// such place.
pub proof fn lemma_pick_least(shards: Seq<ShardModel>, base: int, balance: BalanceMode, n: nat)
    requires
        n >= 1,
    ensures
        forall|off: int|
            0 <= off < n ==> load(shard_at(shards, base, pick_offset(shards, base, balance, n)), balance)
                <= load(#[trigger] shard_at(shards, base, off), balance),
        forall|off: int|
            0 <= off < pick_offset(shards, base, balance, n) ==> load(
                shard_at(shards, base, pick_offset(shards, base, balance, n)),
                balance,
            ) < load(#[trigger] shard_at(shards, base, off), balance),
    decreases n,
{
    if n > 1 {
        lemma_pick_least(shards, base, balance, (n - 1) as nat);
        lemma_pick_offset_range(shards, base, balance, (n - 1) as nat);
    }
}

/// Placing files leaves every shard its number.
pub proof fn lemma_place_all_ids(
    shards: Seq<ShardModel>,
    base: int,
    items: Seq<ShardFileModel>,
    balance: BalanceMode,
    cap: Option<int>,
    n: nat,
)
    requires
        shards.len() > 0,
        base >= 0,
    ensures
        place_all(shards, base, items, balance, cap, n).len() == shards.len(),
        forall|i: int|
            0 <= i < shards.len() ==> (#[trigger] place_all(shards, base, items, balance, cap, n)[i]).id
                == shards[i].id,
    decreases n,
{
    if n > 0 {
        lemma_place_all_ids(shards, base, items, balance, cap, (n - 1) as nat);
        let before = place_all(shards, base, items, balance, cap, (n - 1) as nat);
        lemma_target_in_range(before, base, balance);
    }
}

/// The shards of a plan are numbered from zero in their order.
pub proof fn lemma_shard_ids(files: Seq<FileModel>, k: int, opts: ShardOptionsModel, g: nat)
    requires
        k >= 1,
    ensures
        shards_upto(files, k, opts, g).len() == k,
        forall|i: int| 0 <= i < k ==> (#[trigger] shards_upto(files, k, opts, g)[i]).id == i,
    decreases g,
{
    if g > 0 {
        lemma_shard_ids(files, k, opts, (g - 1) as nat);
        let group = file_groups(files, opts.by)[g - 1];
        let items = group_items(files, group.1, opts.balance);
        lemma_base_index_range(opts.by, group.0, opts.sticky_by, k);
        lemma_place_all_ids(
            shards_upto(files, k, opts, (g - 1) as nat),
            base_index(opts.by, group.0, opts.sticky_by, k),
            items,
            opts.balance,
            opts.max_files_per_shard,
            items.len(),
        );
    }
}

/// The files of all of `shards`, each as often as a shard holds it.
pub open spec fn pooled_files(shards: Seq<ShardModel>) -> Multiset<ShardFileModel>
    decreases shards.len(),
{
    if shards.len() == 0 {
        Multiset::empty()
    } else {
        pooled_files(shards.drop_last()).add(shards.last().files.to_multiset())
    }
}

/// The files as shards hold them, in the order of `files`.
pub open spec fn items_of(files: Seq<FileModel>) -> Seq<ShardFileModel> {
    Seq::new(files.len(), |i: int| item_of(files[i]))
}

/// The file at a position, as a shard holds it.
pub open spec fn item_at(files: Seq<FileModel>) -> spec_fn(int) -> ShardFileModel {
    |i: int| item_of(files[i])
}

proof fn lemma_pooled_with_file(shards: Seq<ShardModel>, t: int, item: ShardFileModel)
    requires
        0 <= t < shards.len(),
    ensures
        pooled_files(shards.update(t, with_file(shards[t], item))) == pooled_files(shards).insert(item),
    decreases shards.len(),
{
    let r = shards.update(t, with_file(shards[t], item));
    if t == shards.len() - 1 {
        assert(r.drop_last() =~= shards.drop_last());
        vstd::seq_lib::to_multiset_build(shards[t].files, item);
        assert(pooled_files(r) =~= pooled_files(shards).insert(item));
    } else {
        assert(r.drop_last() =~= shards.drop_last().update(t, with_file(shards[t], item)));
        assert(r.last() == shards.last());
        lemma_pooled_with_file(shards.drop_last(), t, item);
        assert(pooled_files(r) =~= pooled_files(shards).insert(item));
    }
}

proof fn lemma_target_in_range(shards: Seq<ShardModel>, base: int, balance: BalanceMode)
    requires
        shards.len() > 0,
        base >= 0,
    ensures
        0 <= target_shard(shards, base, balance) < shards.len(),
{
    lemma_pick_offset_range(shards, base, balance, shards.len());
    vstd::arithmetic::div_mod::lemma_mod_pos_bound(
        base + pick_offset(shards, base, balance, shards.len()),
        shards.len() as int,
    );
}

proof fn lemma_place_all_pooled(
    shards: Seq<ShardModel>,
    base: int,
    items: Seq<ShardFileModel>,
    balance: BalanceMode,
    n: nat,
)
    requires
        shards.len() > 0,
        base >= 0,
        n <= items.len(),
    ensures
        pooled_files(place_all(shards, base, items, balance, None, n)) == pooled_files(shards).add(
            items.take(n as int).to_multiset(),
        ),
    decreases n,
{
    if n == 0 {
        assert(items.take(0) =~= Seq::<ShardFileModel>::empty());
        assert(items.take(0).to_multiset() =~= Multiset::<ShardFileModel>::empty()) by {
            broadcast use vstd::seq_lib::group_to_multiset_ensures;

        }
        assert(pooled_files(shards).add(Multiset::<ShardFileModel>::empty()) =~= pooled_files(shards));
    } else {
        let m = (n - 1) as nat;
        lemma_place_all_pooled(shards, base, items, balance, m);
        lemma_place_len(shards, base, items, balance, None, m);
        let before = place_all(shards, base, items, balance, None, m);
        lemma_target_in_range(before, base, balance);
        lemma_pooled_with_file(before, target_shard(before, base, balance), items[n - 1]);
        assert(items.take(n as int) =~= items.take(m as int).push(items[n - 1]));
        vstd::seq_lib::to_multiset_build(items.take(m as int), items[n - 1]);
        assert(pooled_files(place_all(shards, base, items, balance, None, n)) =~= pooled_files(shards).add(
            items.take(n as int).to_multiset(),
        ));
    }
}

proof fn lemma_empty_shards_pooled(shards: Seq<ShardModel>)
    requires
        forall|i: int| 0 <= i < shards.len() ==> (#[trigger] shards[i]).files.len() == 0,
    ensures
        pooled_files(shards) == Multiset::<ShardFileModel>::empty(),
    decreases shards.len(),
{
    if shards.len() > 0 {
        lemma_empty_shards_pooled(shards.drop_last());
        assert(shards.last().files =~= Seq::<ShardFileModel>::empty());
        assert(shards.last().files.to_multiset() =~= Multiset::<ShardFileModel>::empty()) by {
            broadcast use vstd::seq_lib::group_to_multiset_ensures;

        }
        assert(pooled_files(shards) =~= Multiset::<ShardFileModel>::empty());
    }
}

/// The shard at which a group begins is one of the shards.
pub proof fn lemma_base_index_range(by: Seq<Seq<char>>, key: Seq<Seq<char>>, sticky_by: Seq<Seq<char>>, k: int)
    requires
        k >= 1,
    ensures
        0 <= base_index(by, key, sticky_by, k) < k,
{
    vstd::arithmetic::div_mod::lemma_mod_pos_bound(
        spec_stable_hash(sticky_pairs(partition_of(by, key), sticky_by)),
        k,
    );
}

proof fn lemma_shards_upto_pooled(files: Seq<FileModel>, k: int, opts: ShardOptionsModel, g: nat)
    requires
        k >= 1,
        opts.max_files_per_shard is None,
        files.len() <= usize::MAX,
        g <= file_groups(files, opts.by).len(),
    ensures
        shards_upto(files, k, opts, g).len() == k,
        pooled_files(shards_upto(files, k, opts, g)) == group_pool(
            file_groups(files, opts.by).take(g as int),
            item_at(files),
        ),
    decreases g,
{
    let groups = file_groups(files, opts.by);
    if g == 0 {
        lemma_empty_shards_pooled(empty_shards(k));
        assert(groups.take(0) =~= Seq::<(Seq<Seq<char>>, Seq<usize>)>::empty());
    } else {
        let m = (g - 1) as nat;
        lemma_shards_upto_pooled(files, k, opts, m);
        let before = shards_upto(files, k, opts, m);
        let group = groups[g - 1];
        let items = group_items(files, group.1, opts.balance);
        let base = base_index(opts.by, group.0, opts.sticky_by, k);
        lemma_base_index_range(opts.by, group.0, opts.sticky_by, k);
        lemma_place_all_pooled(before, base, items, opts.balance, items.len());
        lemma_place_len(before, base, items, opts.balance, None, items.len());
        assert(items.take(items.len() as int) =~= items);
        // the group's files in placing order are its files, rearranged
        let ranks = member_ranks(files, group.1, opts.balance);
        let f = |i: int| item_of(files[group.1[i] as int]);
        lemma_arranged_multiset(ranks, f, ranks.len());
        assert(items =~= arranged(ranks, f, ranks.len()));
        assert(listed(f, ranks.len()) =~= members_of(group.1, item_at(files)));
        assert(groups.take(g as int).drop_last() =~= groups.take(m as int));
        assert(groups.take(g as int).last() == group);
    }
}

/// Without a limit on the files of a shard, the shards hold the files that
/// were given, each as often as it was given: none is lost, none is placed
/// twice.
pub proof fn lemma_shard_coverage(files: Seq<FileModel>, shards: int, opts: ShardOptionsModel)
    requires
        opts.max_files_per_shard is None,
        files.len() <= usize::MAX,
    ensures
        pooled_files(spec_shard_files(files, shards, opts)) == items_of(files).to_multiset(),
{
    let groups = file_groups(files, opts.by);
    lemma_shards_upto_pooled(files, shard_count(shards), opts, groups.len());
    assert(groups.take(groups.len() as int) =~= groups);
    lemma_group_pool(file_keys(files, opts.by), item_at(files), files.len());
    assert(listed(item_at(files), files.len()) =~= items_of(files));
}

/// The number of files that `shards` hold, all told.
pub open spec fn placed(shards: Seq<ShardModel>) -> int
    decreases shards.len(),
{
    if shards.len() == 0 {
        0
    } else {
        placed(shards.drop_last()) + shards.last().files.len()
    }
}

/// The files that shards hold are as many as their pool.
pub proof fn lemma_placed_is_pooled(shards: Seq<ShardModel>)
    ensures
        placed(shards) == pooled_files(shards).len(),
        placed(shards) >= 0,
    decreases shards.len(),
{
    broadcast use vstd::multiset::group_multiset_axioms;
    broadcast use vstd::seq_lib::group_to_multiset_ensures;

    if shards.len() > 0 {
        lemma_placed_is_pooled(shards.drop_last());
    }
}

/// Without a limit on the files of a shard, the shards hold as many files as
/// were given. With a limit they may hold fewer: a count below the number
/// given tells that files were left out.
pub proof fn lemma_all_placed(files: Seq<FileModel>, shards: int, opts: ShardOptionsModel)
    requires
        opts.max_files_per_shard is None,
        files.len() <= usize::MAX,
    ensures
        placed(spec_shard_files(files, shards, opts)) == files.len(),
{
    broadcast use vstd::seq_lib::group_to_multiset_ensures;

    lemma_shard_coverage(files, shards, opts);
    lemma_placed_is_pooled(spec_shard_files(files, shards, opts));
}

/// The shard at which a group begins depends on its sticky pairs and the
/// number of shards alone: groups that agree on them begin at the same
/// shard, whatever other files are planned with them.
pub proof fn lemma_base_stable(
    by: Seq<Seq<char>>,
    sticky_by: Seq<Seq<char>>,
    key1: Seq<Seq<char>>,
    key2: Seq<Seq<char>>,
    k: int,
)
    requires
        sticky_pairs(partition_of(by, key1), sticky_by) == sticky_pairs(partition_of(by, key2), sticky_by),
    ensures
        base_index(by, key1, sticky_by, k) == base_index(by, key2, sticky_by, k),
{
}

/// The pairs that seed a group.
pub fn sticky_pairs_of(pairs: Vec<(String, String)>, sticky_by: &Vec<String>) -> (r: Vec<(String, String)>)
    ensures
        r.deep_view() == sticky_pairs(pairs.deep_view(), sticky_by.deep_view()),
{
    if sticky_by.len() == 0 {
        return pairs;
    }
    let ghost pm = pairs.deep_view();
    let ghost sm = sticky_by.deep_view();
    let ghost pred = |p: (Seq<char>, Seq<char>)| sm.contains(p.0);
    let mut r: Vec<(String, String)> = Vec::new();
    let mut i: usize = 0;
    while i < pairs.len()
        invariant
            i <= pairs@.len(),
            pm == pairs.deep_view(),
            sm == sticky_by.deep_view(),
            pred == |p: (Seq<char>, Seq<char>)| sm.contains(p.0),
            r.deep_view() == pm.take(i as int).filter(pred),
        decreases pairs.len() - i,
    {
        let found = contains_text(sticky_by, pairs[i].0.as_str());
        proof {
            let e = (pairs@[i as int].0@, pairs@[i as int].1@);
            assert(pm[i as int] == e);
            assert(pm.take(i + 1) =~= pm.take(i as int).push(e));
            pm.take(i as int).lemma_filter_push(e, pred);
            assert(pred(e) == found);
        }
        if found {
            let ghost before = r.deep_view();
            r.push((pairs[i].0.clone(), pairs[i].1.clone()));
            assert(r.deep_view() =~= before.push((pairs@[i as int].0@, pairs@[i as int].1@)));
        }
        i += 1;
    }
    assert(pm.take(i as int) =~= pm);
    r
}

/// What `shard` carries under `balance`.
fn load_of(shard: &Shard, balance: BalanceMode) -> (r: i128)
    ensures
        r as int == load(shard.deep_view(), balance),
{
    match balance {
        BalanceMode::Bytes => shard.bytes as i128,
        BalanceMode::Rows => shard.rows as i128,
    }
}

/// Places one file of a group that begins at `base`.
pub(crate) fn place(out: &mut Vec<Shard>, base: usize, item: ShardFile, balance: BalanceMode, cap: Option<usize>)
    requires
        base < old(out)@.len(),
        old(out)@.len() <= u32::MAX,
    ensures
        final(out).deep_view() == spec_place(
            old(out).deep_view(),
            base as int,
            item.deep_view(),
            balance,
            match cap {
                Some(m) => Some(m as int),
                None => None,
            },
        ),
        final(out)@.len() == old(out)@.len(),
{
    let ghost shards = out.deep_view();
    let k = out.len();
    let mut best: usize = 0;
    let mut best_load = load_of(&out[base], balance);
    assert(shards[base as int] == out@[base as int].deep_view());
    assert(shards.len() == k);
    assert((base as int + 0) % (k as int) == base as int) by {
        vstd::arithmetic::div_mod::lemma_small_mod(base as nat, k as nat);
    }
    let mut off: usize = 1;
    while off < k
        invariant
            1 <= off <= k,
            k == out@.len(),
            k <= u32::MAX,
            base < k,
            shards == out.deep_view(),
            best < off,
            best as int == pick_offset(shards, base as int, balance, off as nat),
            best_load as int == load(shard_at(shards, base as int, best as int), balance),
        decreases k - off,
    {
        let idx = ((base as u64 + off as u64) % (k as u64)) as usize;
        assert(shards[idx as int] == out@[idx as int].deep_view());
        let l = load_of(&out[idx], balance);
        if l < best_load {
            best = off;
            best_load = l;
        }
        off += 1;
    }
    let t = ((base as u64 + best as u64) % (k as u64)) as usize;
    assert(t as int == target_shard(shards, base as int, balance));
    assert(shards[t as int] == out@[t as int].deep_view());
    match cap {
        Some(m) => {
            if out[t].files.len() >= m {
                return;
            }
        },
        None => {},
    }
    let add: i64 = if item.bytes > 0 {
        item.bytes
    } else {
        0
    };
    let bytes = match out[t].bytes.checked_add(add) {
        Some(b) => b,
        None => i64::MAX,
    };
    let rows = out[t].rows.saturating_add(item.approx_rows);
    let ghost im = item.deep_view();
    let ghost before = out@[t as int].files.deep_view();
    out[t].bytes = bytes;
    out[t].rows = rows;
    out[t].files.push(item);
    proof {
        assert(out@[t as int].files.deep_view() =~= before.push(im));
        assert(out.deep_view() =~= shards.update(t as int, with_file(shards[t as int], im)));
    }
}

/// The file as a shard holds it.
pub fn project(f: &AddFileLite) -> (r: ShardFile)
    ensures
        r.deep_view() == item_of(f@),
{
    ShardFile {
        path: f.path.clone(),
        bytes: f.size,
        approx_rows: 0,
        partition: copy_partition_values(&f.partition_values),
    }
}

/// Spreads `files` over `shards` shards; over one where `shards` is zero.
pub fn shard_files(files: &Vec<AddFileLite>, shards: u32, opts: &ShardOptions) -> (out: Vec<Shard>)
    ensures
        out.deep_view() == spec_shard_files(files.deep_view(), shards as int, opts.deep_view()),
        out@.len() == shard_count(shards as int),
        forall|i: int| 0 <= i < out@.len() ==> (#[trigger] out@[i]).id == i,
        opts.max_files_per_shard is None ==> pooled_files(out.deep_view()) == items_of(
            files.deep_view(),
        ).to_multiset() && placed(out.deep_view()) == files@.len(),
{
    proof {
        if opts.max_files_per_shard is None {
            assert(files.deep_view().len() == files.len());
            lemma_shard_coverage(files.deep_view(), shards as int, opts.deep_view());
            lemma_all_placed(files.deep_view(), shards as int, opts.deep_view());
        }
    }
    let k: u32 = if shards < 1 {
        1
    } else {
        shards
    };
    let ghost fm = files.deep_view();
    let ghost om = opts.deep_view();
    let ghost gm = file_groups(fm, om.by);
    let mut out: Vec<Shard> = Vec::new();
    let mut id: u32 = 0;
    while id < k
        invariant
            id <= k,
            out@.len() == id,
            forall|j: int|
                0 <= j < id ==> (#[trigger] out@[j]).deep_view() == (ShardModel {
                    id: j,
                    bytes: 0,
                    rows: 0,
                    files: Seq::empty(),
                }),
        decreases k - id,
    {
        let shard = Shard { id, bytes: 0, rows: 0, files: Vec::new() };
        assert(shard.files.deep_view() =~= Seq::<ShardFileModel>::empty());
        out.push(shard);
        id += 1;
    }
    assert(out.deep_view() =~= empty_shards(k as int));
    let groups = group_files(files, &opts.by);
    let mut g: usize = 0;
    while g < groups.len()
        invariant
            g <= groups@.len(),
            k >= 1,
            fm == files.deep_view(),
            om == opts.deep_view(),
            gm == file_groups(fm, om.by),
            groups.deep_view() == gm,
            forall|j: int|
                0 <= j < groups@.len() ==> (#[trigger] groups@[j]).0@.len() == opts.by@.len() && forall|m: int|
                    0 <= m < groups@[j].1@.len() ==> (#[trigger] groups@[j].1@[m]) < files@.len(),
            out@.len() == k,
            out.deep_view() == shards_upto(fm, k as int, om, g as nat),
        decreases groups.len() - g,
    {
        let members = &groups[g].1;
        proof {
            assert(groups.deep_view()[g as int] == gm[g as int]);
            assert(members.deep_view() =~= members@);
            assert(groups@[g as int].0@.len() == opts.by@.len());
        }
        let pairs = make_partition(&opts.by, &groups[g].0);
        let sticky = sticky_pairs_of(pairs, &opts.sticky_by);
        let base = (stable_hash(&sticky) % (k as u64)) as usize;
        assert(base as int == base_index(om.by, gm[g as int].0, om.sticky_by, k as int));
        let mut ranks: Vec<i128> = Vec::new();
        let mut i: usize = 0;
        while i < members.len()
            invariant
                i <= members@.len(),
                fm == files.deep_view(),
                forall|m: int| 0 <= m < members@.len() ==> (#[trigger] members@[m]) < files@.len(),
                ranks@.len() == i,
                forall|j: int|
                    0 <= j < i ==> ranks@[j] as int == -metric(
                        item_of(fm[members@[j] as int]),
                        opts.balance,
                    ),
            decreases members.len() - i,
        {
            assert(fm[members@[i as int] as int] == files@[members@[i as int] as int].deep_view());
            let weight: i128 = match opts.balance {
                BalanceMode::Bytes => files[members[i]].size as i128,
                BalanceMode::Rows => 0,
            };
            ranks.push(-weight);
            i += 1;
        }
        assert(ranks_model(ranks@) =~= member_ranks(fm, members@, om.balance));
        let order = sort_positions(&ranks);
        let ghost items = group_items(fm, members@, om.balance);
        let ghost start = out.deep_view();
        let mut n: usize = 0;
        while n < order.len()
            invariant
                n <= order@.len(),
                order@.len() == members@.len(),
                items == group_items(fm, members@, om.balance),
                items.len() == members@.len(),
                fm == files.deep_view(),
                om == opts.deep_view(),
                base < k,
                out@.len() == k,
                forall|m: int| 0 <= m < members@.len() ==> (#[trigger] members@[m]) < files@.len(),
                forall|j: int|
                    0 <= j < order@.len() ==> order@[j] as int == stable_order(
                        member_ranks(fm, members@, om.balance),
                    )[j],
                forall|j: int| 0 <= j < order@.len() ==> (#[trigger] order@[j]) < members@.len(),
                out.deep_view() == place_all(
                    start,
                    base as int,
                    items,
                    om.balance,
                    om.max_files_per_shard,
                    n as nat,
                ),
            decreases order.len() - n,
        {
            let idx = members[order[n]];
            let item = project(&files[idx]);
            assert(item.deep_view() == items[n as int]) by {
                assert(fm[idx as int] == files@[idx as int].deep_view());
            }
            place(&mut out, base, item, opts.balance, opts.max_files_per_shard);
            n += 1;
        }
        g += 1;
    }
    proof {
        lemma_shard_ids(fm, k as int, om, gm.len());
        assert forall|i: int| 0 <= i < out@.len() implies (#[trigger] out@[i]).id == i by {
            assert(out.deep_view()[i] == out@[i].deep_view());
        }
    }
    out
}

/// The number of files that `shards` hold, all told; the greatest number
/// that can be counted, where they hold more.
pub fn placed_files(shards: &Vec<Shard>) -> (n: usize)
    ensures
        n as int == if placed(shards.deep_view()) > usize::MAX {
            usize::MAX as int
        } else {
            placed(shards.deep_view())
        },
{
    let ghost sm = shards.deep_view();
    let mut n: usize = 0;
    let mut i: usize = 0;
    while i < shards.len()
        invariant
            i <= shards@.len(),
            sm == shards.deep_view(),
            placed(sm.take(i as int)) >= 0,
            n as int == if placed(sm.take(i as int)) > usize::MAX {
                usize::MAX as int
            } else {
                placed(sm.take(i as int))
            },
        decreases shards.len() - i,
    {
        proof {
            assert(sm.take(i + 1).drop_last() =~= sm.take(i as int));
            assert(sm.take(i + 1).last().files.len() == shards@[i as int].files@.len());
        }
        n = n.saturating_add(shards[i].files.len());
        i += 1;
    }
    assert(sm.take(i as int) =~= sm);
    n
}

/// Spreads the table's active files at `version` over `shards` shards.
pub fn plan_shards(t: &TableSnapshot, version: i64, shards: u32, opts: &ShardOptions) -> (r: Result<
    Vec<Shard>,
    DeltaError,
>)
    ensures
        match r {
            Ok(out) => t.replay_error(Some(version as int)) is None && out.deep_view() == spec_shard_files(
                t.files_at(Some(version as int)),
                shards as int,
                opts.deep_view(),
            ),
            Err(e) => t.replay_error(Some(version as int)) == Some(e),
        },
{
    match list_active_files(t, Some(version)) {
        Ok(files) => Ok(shard_files(&files, shards, opts)),
        Err(e) => Err(e),
    }
}

} // verus!
