//! The compaction planner: files of a partition are packed into groups
//! below a byte target.
use crate::grouping::{file_groups, group_files, make_partition, partition_of};
use crate::model::{AddFileLite, DeltaError, FileModel};
use crate::ranking::{
    arranged, lemma_arranged_multiset, lemma_stable_order, listed, ranks_model, sort_positions, stable_order,
};
use crate::table::{list_active_files, TableSnapshot};
use crate::text::copy_texts;
use vstd::prelude::*;

verus! {

/// Files of one partition that are worth rewriting as one.
#[derive(Debug, Clone)]
pub struct CompactionGroup {
    /// The partition columns that the plan groups by, each with the group's
    /// value.
    pub partition: Vec<(String, String)>,
    pub input_files: Vec<AddFileLite>,
    pub total_input_bytes: u64,
}

pub struct CompactionGroupModel {
    pub partition: Seq<(Seq<char>, Seq<char>)>,
    pub input_files: Seq<FileModel>,
    pub total_input_bytes: int,
}

impl DeepView for CompactionGroup {
    type V = CompactionGroupModel;

    open spec fn deep_view(&self) -> CompactionGroupModel {
        CompactionGroupModel {
            partition: self.partition.deep_view(),
            input_files: self.input_files.deep_view(),
            total_input_bytes: self.total_input_bytes as int,
        }
    }
}

/// A plan to compact a table: the groups to rewrite, and the bytes that
/// doing so reads.
#[derive(Debug, Clone)]
pub struct CompactionPlan {
    pub target_file_size_bytes: u64,
    pub partition_by: Vec<String>,
    pub groups: Vec<CompactionGroup>,
    pub estimated_io_bytes: u64,
}

pub struct CompactionPlanModel {
    pub target_file_size_bytes: int,
    pub partition_by: Seq<Seq<char>>,
    pub groups: Seq<CompactionGroupModel>,
    pub estimated_io_bytes: int,
}

impl DeepView for CompactionPlan {
    type V = CompactionPlanModel;

    open spec fn deep_view(&self) -> CompactionPlanModel {
        CompactionPlanModel {
            target_file_size_bytes: self.target_file_size_bytes as int,
            partition_by: self.partition_by.deep_view(),
            groups: self.groups.deep_view(),
            estimated_io_bytes: self.estimated_io_bytes as int,
        }
    }
}

/// `x`, or the greatest 64-bit unsigned number where `x` is above it.
pub open spec fn saturate_u64(x: int) -> int {
    if x > u64::MAX {
        u64::MAX as int
    } else {
        x
    }
}

/// The byte target that `target_mb` megabytes stand for.
pub open spec fn target_bytes(target_mb: int) -> int {
    saturate_u64(target_mb * 1048576)
}

/// The bytes that a file counts for: its size, a negative size as zero.
pub open spec fn counted_size(size: int) -> int {
    if size > 0 {
        size
    } else {
        0
    }
}

/// The bytes of a bucket of files.
pub open spec fn bucket_bytes(bucket: Seq<FileModel>) -> int
    decreases bucket.len(),
{
    if bucket.len() == 0 {
        0
    } else {
        bucket_bytes(bucket.drop_last()) + counted_size(bucket.last().size)
    }
}

/// Where packing stands: the buckets already emitted, and the open one.
pub struct PackState {
    pub emitted: Seq<Seq<FileModel>>,
    pub open: Seq<FileModel>,
}

/// The open bucket is closed: emitted where it holds two files or more,
/// dropped otherwise.
pub open spec fn close_bucket(st: PackState) -> Seq<Seq<FileModel>> {
    if st.open.len() >= 2 {
        st.emitted.push(st.open)
    } else {
        st.emitted
    }
}

/// One file is packed: where it would take a bucket that is not empty past
/// the target, that bucket is closed and the file opens a new one.
pub open spec fn pack_step(st: PackState, f: FileModel, target: int) -> PackState {
    if st.open.len() > 0 && bucket_bytes(st.open) + counted_size(f.size) > target {
        PackState { emitted: close_bucket(st), open: seq![f] }
    } else {
        PackState { emitted: st.emitted, open: st.open.push(f) }
    }
}

/// Where packing stands after the first `n` of `items`.
pub open spec fn pack_upto(items: Seq<FileModel>, target: int, n: nat) -> PackState
    decreases n,
{
    if n == 0 {
        PackState { emitted: Seq::empty(), open: Seq::empty() }
    } else {
        pack_step(pack_upto(items, target, (n - 1) as nat), items[n - 1], target)
    }
}

/// The buckets that packing `items` in their order emits.
pub open spec fn packed(items: Seq<FileModel>, target: int) -> Seq<Seq<FileModel>> {
    close_bucket(pack_upto(items, target, items.len()))
}

/// The sizes of the files at `members`.
pub open spec fn member_sizes(files: Seq<FileModel>, members: Seq<usize>) -> Seq<int> {
    Seq::new(members.len(), |k: int| files[members[k] as int].size)
}

/// The files at `members`, smallest first, files of one size in the order of
/// `members`.
pub open spec fn by_size(files: Seq<FileModel>, members: Seq<usize>) -> Seq<FileModel> {
    Seq::new(
        members.len(),
        |k: int| files[members[stable_order(member_sizes(files, members))[k]] as int],
    )
}

/// Ordering by size only rearranges the files, and puts no file before a
/// smaller one.
pub proof fn lemma_by_size(files: Seq<FileModel>, members: Seq<usize>)
    ensures
        by_size(files, members).len() == members.len(),
        forall|j: int, k: int|
            0 <= j < k < members.len() ==> (#[trigger] by_size(files, members)[j]).size <= (#[trigger] by_size(
                files,
                members,
            )[k]).size,
        by_size(files, members).to_multiset() == Seq::new(
            members.len(),
            |k: int| files[members[k] as int],
        ).to_multiset(),
{
    let ranks = member_sizes(files, members);
    let f = |k: int| files[members[k] as int];
    lemma_stable_order(ranks);
    lemma_arranged_multiset(ranks, f, ranks.len());
    assert(by_size(files, members) =~= arranged(ranks, f, ranks.len()));
    assert(listed(f, ranks.len()) =~= Seq::new(members.len(), |k: int| files[members[k] as int]));
}

pub open spec fn group_of_bucket(partition: Seq<(Seq<char>, Seq<char>)>, bucket: Seq<FileModel>) -> CompactionGroupModel {
    CompactionGroupModel {
        partition,
        input_files: bucket,
        total_input_bytes: bucket_bytes(bucket),
    }
}

/// The compaction groups of one partition, whose files stand at `members`.
pub open spec fn partition_plan(
    files: Seq<FileModel>,
    by: Seq<Seq<char>>,
    target: int,
    key: Seq<Seq<char>>,
    members: Seq<usize>,
) -> Seq<CompactionGroupModel> {
    let buckets = packed(by_size(files, members), target);
    Seq::new(buckets.len(), |k: int| group_of_bucket(partition_of(by, key), buckets[k]))
}

/// The compaction groups of the first `n` partitions, in their order.
pub open spec fn plan_groups_upto(files: Seq<FileModel>, by: Seq<Seq<char>>, target: int, n: nat) -> Seq<
    CompactionGroupModel,
>
    decreases n,
{
    if n == 0 {
        Seq::empty()
    } else {
        let g = file_groups(files, by)[n - 1];
        plan_groups_upto(files, by, target, (n - 1) as nat) + partition_plan(files, by, target, g.0, g.1)
    }
}

/// The bytes of all of `groups`.
pub open spec fn total_io(groups: Seq<CompactionGroupModel>) -> int
    decreases groups.len(),
{
    if groups.len() == 0 {
        0
    } else {
        total_io(groups.drop_last()) + groups.last().total_input_bytes
    }
}

/// The compaction plan for `files`.
///
/// The files are grouped by their values for the columns `by`, the groups
/// taken in ascending order of those values. Within a group the files are
/// packed smallest first into buckets; a bucket is closed when the next file
/// would take it past the target. Only buckets of two files or more are
/// emitted.
pub open spec fn spec_pack_files(files: Seq<FileModel>, target_mb: int, by: Seq<Seq<char>>) -> CompactionPlanModel {
    let target = target_bytes(target_mb);
    let groups = plan_groups_upto(files, by, target, file_groups(files, by).len());
    CompactionPlanModel {
        target_file_size_bytes: target,
        partition_by: by,
        groups,
        estimated_io_bytes: saturate_u64(total_io(groups)),
    }
}

/// While packing, an open bucket of two files or more is within the target,
/// and so is every bucket emitted, each of which holds two files or more.
pub proof fn lemma_pack_upto(items: Seq<FileModel>, target: int, n: nat)
    requires
        n <= items.len(),
    ensures
        ({
            let st = pack_upto(items, target, n);
            &&& st.open.len() >= 2 ==> bucket_bytes(st.open) <= target
            &&& st.open.len() <= n
            &&& n > 0 ==> st.open.len() > 0
            &&& forall|k: int|
                0 <= k < st.emitted.len() ==> (#[trigger] st.emitted[k]).len() >= 2 && bucket_bytes(
                    st.emitted[k],
                ) <= target
        }),
    decreases n,
{
    if n > 0 {
        lemma_pack_upto(items, target, (n - 1) as nat);
        let st = pack_upto(items, target, (n - 1) as nat);
        let f = items[n - 1];
        if st.open.len() > 0 && bucket_bytes(st.open) + counted_size(f.size) > target {
        } else {
            assert(st.open.push(f).drop_last() =~= st.open);
        }
    }
}

pub proof fn lemma_bucket_bytes_nonnegative(bucket: Seq<FileModel>)
    ensures
        0 <= bucket_bytes(bucket),
    decreases bucket.len(),
{
    if bucket.len() > 0 {
        lemma_bucket_bytes_nonnegative(bucket.drop_last());
    }
}

/// The bytes of a bucket are at least those of any file in it.
pub proof fn lemma_bucket_bytes_bound(bucket: Seq<FileModel>, i: int)
    requires
        0 <= i < bucket.len(),
    ensures
        0 <= counted_size(bucket[i].size) <= bucket_bytes(bucket),
    decreases bucket.len(),
{
    lemma_bucket_bytes_nonnegative(bucket.drop_last());
    if i < bucket.len() - 1 {
        lemma_bucket_bytes_bound(bucket.drop_last(), i);
    }
}

/// Every group of a plan holds two files or more, counts the bytes of its
/// files, and is within the target; so it stays within it when its largest
/// file is taken out.
pub open spec fn group_sound(g: CompactionGroupModel, target: int) -> bool {
    &&& g.input_files.len() >= 2
    &&& g.total_input_bytes == bucket_bytes(g.input_files)
    &&& g.total_input_bytes <= target
    &&& forall|i: int|
        0 <= i < g.input_files.len() ==> g.total_input_bytes - counted_size(
            (#[trigger] g.input_files[i]).size,
        ) <= target
}

pub proof fn lemma_partition_plan_sound(
    files: Seq<FileModel>,
    by: Seq<Seq<char>>,
    target: int,
    key: Seq<Seq<char>>,
    members: Seq<usize>,
)
    ensures
        forall|k: int|
            0 <= k < partition_plan(files, by, target, key, members).len() ==> group_sound(
                #[trigger] partition_plan(files, by, target, key, members)[k],
                target,
            ),
{
    let items = by_size(files, members);
    lemma_pack_upto(items, target, items.len());
    let plan = partition_plan(files, by, target, key, members);
    assert forall|k: int| 0 <= k < plan.len() implies group_sound(#[trigger] plan[k], target) by {
        let g = plan[k];
        assert forall|i: int| 0 <= i < g.input_files.len() implies g.total_input_bytes - counted_size(
            (#[trigger] g.input_files[i]).size,
        ) <= target by {
            lemma_bucket_bytes_bound(g.input_files, i);
        }
    }
}

/// Every group of a compaction plan is sound.
pub proof fn lemma_plan_groups_sound(files: Seq<FileModel>, by: Seq<Seq<char>>, target: int, n: nat)
    ensures
        forall|k: int|
            0 <= k < plan_groups_upto(files, by, target, n).len() ==> group_sound(
                #[trigger] plan_groups_upto(files, by, target, n)[k],
                target,
            ),
    decreases n,
{
    if n > 0 {
        lemma_plan_groups_sound(files, by, target, (n - 1) as nat);
        let g = file_groups(files, by)[n - 1];
        lemma_partition_plan_sound(files, by, target, g.0, g.1);
        let before = plan_groups_upto(files, by, target, (n - 1) as nat);
        let added = partition_plan(files, by, target, g.0, g.1);
        let all = plan_groups_upto(files, by, target, n);
        assert forall|k: int| 0 <= k < all.len() implies group_sound(#[trigger] all[k], target) by {
            if k < before.len() {
                assert(all[k] == before[k]);
            } else {
                assert(all[k] == added[k - before.len()]);
            }
        }
    }
}

/// The compaction groups of one partition, whose files stand at `members`.
pub(crate) fn pack_partition(
    files: &Vec<AddFileLite>,
    by: &Vec<String>,
    target: u64,
    key: &Vec<String>,
    members: &Vec<usize>,
) -> (plans: Vec<CompactionGroup>)
    requires
        key@.len() == by@.len(),
        forall|k: int| 0 <= k < members@.len() ==> (#[trigger] members@[k]) < files@.len(),
    ensures
        plans.deep_view() == partition_plan(
            files.deep_view(),
            by.deep_view(),
            target as int,
            key.deep_view(),
            members@,
        ),
{
    let ghost fm = files.deep_view();
    let ghost partition = partition_of(by.deep_view(), key.deep_view());
    let mut ranks: Vec<i128> = Vec::new();
    let mut i: usize = 0;
    while i < members.len()
        invariant
            i <= members@.len(),
            fm == files.deep_view(),
            forall|k: int| 0 <= k < members@.len() ==> (#[trigger] members@[k]) < files@.len(),
            ranks@.len() == i,
            forall|j: int| 0 <= j < i ==> ranks@[j] as int == fm[members@[j] as int].size,
        decreases members.len() - i,
    {
        assert(fm[members@[i as int] as int] == files@[members@[i as int] as int].deep_view());
        ranks.push(files[members[i]].size as i128);
        i += 1;
    }
    assert(ranks_model(ranks@) =~= member_sizes(fm, members@));
    let order = sort_positions(&ranks);
    let ghost items = by_size(fm, members@);
    let ghost emitted: Seq<Seq<FileModel>> = Seq::empty();
    let mut plans: Vec<CompactionGroup> = Vec::new();
    let mut bucket: Vec<AddFileLite> = Vec::new();
    let mut bytes: u64 = 0;
    let mut k: usize = 0;
    while k < order.len()
        invariant
            k <= order@.len(),
            order@.len() == members@.len(),
            key@.len() == by@.len(),
            fm == files.deep_view(),
            partition == partition_of(by.deep_view(), key.deep_view()),
            items == by_size(fm, members@),
            items.len() == members@.len(),
            forall|j: int| 0 <= j < members@.len() ==> (#[trigger] members@[j]) < files@.len(),
            forall|j: int|
                0 <= j < order@.len() ==> order@[j] as int == stable_order(member_sizes(fm, members@))[j],
            forall|j: int| 0 <= j < order@.len() ==> (#[trigger] order@[j]) < members@.len(),
            emitted == pack_upto(items, target as int, k as nat).emitted,
            bucket.deep_view() == pack_upto(items, target as int, k as nat).open,
            bytes as int == bucket_bytes(bucket.deep_view()),
            plans@.len() == emitted.len(),
            forall|j: int|
                0 <= j < plans@.len() ==> (#[trigger] plans@[j]).deep_view() == group_of_bucket(
                    partition,
                    emitted[j],
                ),
        decreases order.len() - k,
    {
        let ghost st = pack_upto(items, target as int, k as nat);
        proof {
            lemma_pack_upto(items, target as int, k as nat);
        }
        let idx = members[order[k]];
        let file = files[idx].duplicate();
        assert(file.deep_view() == items[k as int]) by {
            assert(fm[idx as int] == files@[idx as int].deep_view());
        }
        let size: u64 = if file.size > 0 {
            file.size as u64
        } else {
            0
        };
        assert(size as int == counted_size(file.deep_view().size));
        if bucket.len() > 0 && bytes as u128 + size as u128 > target as u128 {
            if bucket.len() >= 2 {
                let group = CompactionGroup {
                    partition: make_partition(by, key),
                    input_files: bucket,
                    total_input_bytes: bytes,
                };
                plans.push(group);
                proof {
                    emitted = emitted.push(st.open);
                }
            }
            bucket = Vec::new();
            bucket.push(file);
            bytes = size;
            proof {
                assert(bucket.deep_view() =~= seq![items[k as int]]);
                assert(bucket.deep_view().drop_last() =~= Seq::<FileModel>::empty());
                assert(bucket_bytes(Seq::<FileModel>::empty()) == 0);
            }
        } else {
            proof {
                if bucket@.len() == 1 {
                    assert(st.open.drop_last() =~= Seq::<FileModel>::empty());
                    assert(bucket_bytes(Seq::<FileModel>::empty()) == 0);
                }
                if bucket@.len() == 0 {
                    assert(st.open =~= Seq::<FileModel>::empty());
                }
            }
            bucket.push(file);
            bytes = bytes + size;
            proof {
                assert(bucket.deep_view() =~= st.open.push(items[k as int]));
                assert(st.open.push(items[k as int]).drop_last() =~= st.open);
            }
        }
        k += 1;
    }
    if bucket.len() >= 2 {
        let ghost last = bucket.deep_view();
        let group = CompactionGroup {
            partition: make_partition(by, key),
            input_files: bucket,
            total_input_bytes: bytes,
        };
        plans.push(group);
        proof {
            emitted = emitted.push(last);
        }
    }
    proof {
        assert(emitted == packed(items, target as int));
        assert(plans.deep_view() =~= partition_plan(
            fm,
            by.deep_view(),
            target as int,
            key.deep_view(),
            members@,
        ));
    }
    plans
}

/// The bytes of all of `groups`, up to the greatest 64-bit number.
pub fn sum_group_bytes(groups: &Vec<CompactionGroup>) -> (total: u64)
    ensures
        total as int == saturate_u64(total_io(groups.deep_view())),
{
    let ghost gm = groups.deep_view();
    let mut total: u64 = 0;
    let mut i: usize = 0;
    while i < groups.len()
        invariant
            i <= groups@.len(),
            gm == groups.deep_view(),
            total as int == saturate_u64(total_io(gm.take(i as int))),
            total_io(gm.take(i as int)) >= 0,
        decreases groups.len() - i,
    {
        proof {
            assert(gm.take(i + 1).drop_last() =~= gm.take(i as int));
            assert(gm.take(i + 1).last() == groups@[i as int].deep_view());
        }
        total = total.saturating_add(groups[i].total_input_bytes);
        i += 1;
    }
    assert(gm.take(i as int) =~= gm);
    total
}

/// Plans the compaction of `files` towards files of `target_mb` megabytes,
/// partition by partition of the columns `by`.
///
/// Every group of the plan holds two files or more and is within the byte
/// target.
pub fn pack_files(files: &Vec<AddFileLite>, target_mb: u64, by: &Vec<String>) -> (plan: CompactionPlan)
    ensures
        plan.deep_view() == spec_pack_files(files.deep_view(), target_mb as int, by.deep_view()),
        forall|k: int|
            0 <= k < plan.deep_view().groups.len() ==> group_sound(
                #[trigger] plan.deep_view().groups[k],
                plan.target_file_size_bytes as int,
            ),
{
    let target: u64 = match target_mb.checked_mul(1048576) {
        Some(t) => t,
        None => u64::MAX,
    };
    let ghost fm = files.deep_view();
    let ghost bm = by.deep_view();
    let ghost gm = file_groups(fm, bm);
    let groups = group_files(files, by);
    let mut out: Vec<CompactionGroup> = Vec::new();
    let mut g: usize = 0;
    while g < groups.len()
        invariant
            g <= groups@.len(),
            fm == files.deep_view(),
            bm == by.deep_view(),
            gm == file_groups(fm, bm),
            groups.deep_view() == gm,
            forall|j: int|
                0 <= j < groups@.len() ==> (#[trigger] groups@[j]).0@.len() == by@.len() && forall|k: int|
                    0 <= k < groups@[j].1@.len() ==> (#[trigger] groups@[j].1@[k]) < files@.len(),
            out.deep_view() == plan_groups_upto(fm, bm, target as int, g as nat),
        decreases groups.len() - g,
    {
        let ghost before = out.deep_view();
        assert(groups@[g as int].0@.len() == by@.len());
        let mut part = pack_partition(files, by, target, &groups[g].0, &groups[g].1);
        proof {
            assert(groups.deep_view()[g as int] == gm[g as int]);
            assert(groups@[g as int].1.deep_view() =~= groups@[g as int].1@);
        }
        let ghost added = part.deep_view();
        out.append(&mut part);
        assert(out.deep_view() =~= before + added);
        g += 1;
    }
    let estimated_io_bytes = sum_group_bytes(&out);
    proof {
        lemma_plan_groups_sound(fm, bm, target as int, gm.len());
    }
    CompactionPlan {
        target_file_size_bytes: target,
        partition_by: copy_texts(by),
        groups: out,
        estimated_io_bytes,
    }
}

/// Plans the compaction of the table as it stands at the end of its log.
pub fn plan_compaction(t: &TableSnapshot, target_mb: u64, by: &Vec<String>) -> (r: Result<
    CompactionPlan,
    DeltaError,
>)
    ensures
        match r {
            Ok(plan) => t.replay_error(None) is None && plan.deep_view() == spec_pack_files(
                t.files_at(None),
                target_mb as int,
                by.deep_view(),
            ) && forall|k: int|
                0 <= k < plan.deep_view().groups.len() ==> group_sound(
                    #[trigger] plan.deep_view().groups[k],
                    plan.target_file_size_bytes as int,
                ),
            Err(e) => t.replay_error(None) == Some(e),
        },
{
    match list_active_files(t, None) {
        Ok(files) => Ok(pack_files(&files, target_mb, by)),
        Err(e) => Err(e),
    }
}

} // verus!
