//! Row counts, partition health and manifests.
use crate::action::FileEntry;
use crate::compaction::saturate_u64;
use crate::diff::{clamp_i64, sizes_sum};
use crate::order::text_lt;
use crate::grouping::{
    column_value, column_value_of, group_key, group_key_of, group_positions, grouped, keys_model,
    make_partition, partition_of,
};
use crate::model::{AddFileLite, DeltaError, FileModel};
use crate::order::models_of;
use crate::replay::{replay, spec_replay, target_model, ActiveModel};
use crate::table::{list_active_files, TableSnapshot};
use crate::text::copy_texts;
use crate::text_set::TextSet;
use vstd::prelude::*;

verus! {

/// The rows of the files that agree on the columns of a grouping.
#[derive(Debug, Clone)]
pub struct RowCount {
    /// The columns of the grouping, each with the group's value.
    pub group: Vec<(String, String)>,
    pub rows: u64,
}

pub struct RowCountModel {
    pub group: Seq<(Seq<char>, Seq<char>)>,
    pub rows: int,
}

impl DeepView for RowCount {
    type V = RowCountModel;

    open spec fn deep_view(&self) -> RowCountModel {
        RowCountModel { group: self.group.deep_view(), rows: self.rows as int }
    }
}

/// The keys by which replayed entries are grouped.
pub open spec fn entry_keys(entries: ActiveModel, by: Seq<Seq<char>>) -> Seq<Seq<Seq<char>>> {
    Seq::new(entries.len(), |i: int| group_key(entries[i].1.partition_values, by))
}

/// The rows of the entries at `members`, all told.
pub open spec fn rows_sum(entries: ActiveModel, members: Seq<usize>) -> int
    decreases members.len(),
{
    if members.len() == 0 {
        0
    } else {
        rows_sum(entries, members.drop_last()) + entries[members.last() as int].1.rows
    }
}

/// The row counts of `entries` by their values for the columns `by`, in
/// ascending order of those values. A count stops at the greatest 64-bit
/// number.
pub open spec fn spec_row_counts(entries: ActiveModel, by: Seq<Seq<char>>) -> Seq<RowCountModel> {
    let groups = grouped(entry_keys(entries, by));
    Seq::new(
        groups.len(),
        |g: int|
            RowCountModel {
                group: partition_of(by, groups[g].0),
                rows: saturate_u64(rows_sum(entries, groups[g].1)),
            },
    )
}

/// The row counts of replayed entries by their values for the columns
/// `by`.
pub fn count_rows(entries: &Vec<(String, FileEntry)>, by: &Vec<String>) -> (r: Vec<RowCount>)
    ensures
        r.deep_view() == spec_row_counts(entries.deep_view(), by.deep_view()),
{
    let ghost em = entries.deep_view();
    let ghost bm = by.deep_view();
    let mut keys: Vec<Vec<String>> = Vec::new();
    let mut i: usize = 0;
    while i < entries.len()
        invariant
            i <= entries@.len(),
            em == entries.deep_view(),
            bm == by.deep_view(),
            keys@.len() == i,
            forall|j: int| 0 <= j < i ==> (#[trigger] keys@[j])@.len() == by@.len(),
            forall|j: int|
                0 <= j < i ==> models_of::<String>((#[trigger] keys@[j])@) == group_key(
                    em[j].1.partition_values,
                    bm,
                ),
        decreases entries.len() - i,
    {
        let key = group_key_of(&entries[i].1.partition_values, by);
        assert(models_of::<String>(key@) =~= key.deep_view());
        assert(key.deep_view().len() == key@.len());
        assert(em[i as int] == (entries@[i as int].0@, entries@[i as int].1.deep_view()));
        keys.push(key);
        i += 1;
    }
    assert(keys_model(keys@) =~= entry_keys(em, bm));
    let groups = group_positions(&keys);
    let ghost gm = grouped(entry_keys(em, bm));
    proof {
        assert(entry_keys(em, bm).len() == entries@.len());
        crate::grouping::lemma_groups(entry_keys(em, bm));
    }
    let mut r: Vec<RowCount> = Vec::new();
    let mut g: usize = 0;
    while g < groups.len()
        invariant
            g <= groups@.len(),
            em == entries.deep_view(),
            bm == by.deep_view(),
            gm == grouped(entry_keys(em, bm)),
            groups.deep_view() == gm,
            keys@.len() == entries@.len(),
            forall|a: int| 0 <= a < gm.len() ==> (#[trigger] gm[a]).1.len() > 0,
            forall|j: int| 0 <= j < keys@.len() ==> (#[trigger] keys@[j])@.len() == by@.len(),
            forall|a: int, b: int|
                0 <= a < groups@.len() && 0 <= b < groups@[a].1@.len() ==> (#[trigger] groups@[a].1@[b])
                    < keys@.len() && keys@[groups@[a].1@[b] as int]@.len() == groups@[a].0@.len(),
            r@.len() == g,
            forall|j: int|
                0 <= j < g ==> (#[trigger] r@[j]).deep_view() == (RowCountModel {
                    group: partition_of(bm, gm[j].0),
                    rows: saturate_u64(rows_sum(em, gm[j].1)),
                }),
        decreases groups.len() - g,
    {
        let members = &groups[g].1;
        proof {
            assert(groups.deep_view()[g as int] == gm[g as int]);
            assert(members.deep_view() =~= members@);
        }
        let mut rows: u64 = 0;
        let mut k: usize = 0;
        while k < members.len()
            invariant
                k <= members@.len(),
                em == entries.deep_view(),
                keys@.len() == entries@.len(),
                forall|b: int| 0 <= b < members@.len() ==> (#[trigger] members@[b]) < keys@.len(),
                rows as int == saturate_u64(rows_sum(em, members@.take(k as int))),
                rows_sum(em, members@.take(k as int)) >= 0,
            decreases members.len() - k,
        {
            proof {
                assert(members@.take(k + 1).drop_last() =~= members@.take(k as int));
                let m = members@[k as int];
                assert(em[m as int] == (entries@[m as int].0@, entries@[m as int].1.deep_view()));
            }
            rows = rows.saturating_add(entries[members[k]].1.rows);
            k += 1;
        }
        assert(members@.take(k as int) =~= members@);
        assert(gm[g as int].1.len() > 0);
        assert(groups@[g as int].1@[0] < keys@.len());
        assert(groups@[g as int].0@.len() == by@.len());
        let group = make_partition(by, &groups[g].0);
        r.push(RowCount { group, rows });
        g += 1;
    }
    assert(r.deep_view() =~= spec_row_counts(em, bm));
    r
}

/// The row counts of the table at `version`, or at the end of its log, by
/// the values of the columns `group_by`.
///
/// A file counts the rows that the `add` which introduced it records, zero
/// where it records none.
pub fn fast_rowcount(t: &TableSnapshot, group_by: &Vec<String>, version: Option<i64>) -> (r: Result<
    Vec<RowCount>,
    DeltaError,
>)
    ensures
        match r {
            Ok(counts) => t.replay_error(target_model(version)) is None && counts.deep_view()
                == spec_row_counts(spec_replay(t.log@, target_model(version)), group_by.deep_view()),
            Err(e) => t.replay_error(target_model(version)) == Some(e),
        },
{
    match replay(&t.log, version) {
        Ok(entries) => Ok(count_rows(&entries, group_by)),
        Err(e) => Err(e),
    }
}

/// How many values a partition column takes.
#[derive(Debug, Clone)]
pub struct PartitionCardinality {
    pub key: String,
    pub distinct: usize,
}

pub struct PartitionCardinalityModel {
    pub key: Seq<char>,
    pub distinct: int,
}

impl DeepView for PartitionCardinality {
    type V = PartitionCardinalityModel;

    open spec fn deep_view(&self) -> PartitionCardinalityModel {
        PartitionCardinalityModel { key: self.key@, distinct: self.distinct as int }
    }
}

/// How the files of a table spread over partition columns.
#[derive(Debug, Clone)]
pub struct PartitionReport {
    pub by: Vec<String>,
    pub cardinality: Vec<PartitionCardinality>,
    /// The number of files without content.
    pub empty_partitions: usize,
    pub total_files: usize,
}

pub struct PartitionReportModel {
    pub by: Seq<Seq<char>>,
    pub cardinality: Seq<PartitionCardinalityModel>,
    pub empty_partitions: int,
    pub total_files: int,
}

impl DeepView for PartitionReport {
    type V = PartitionReportModel;

    open spec fn deep_view(&self) -> PartitionReportModel {
        PartitionReportModel {
            by: self.by.deep_view(),
            cardinality: self.cardinality.deep_view(),
            empty_partitions: self.empty_partitions as int,
            total_files: self.total_files as int,
        }
    }
}

/// The values that the first `n` of `files` take for the column `name`.
pub open spec fn values_upto(files: Seq<FileModel>, name: Seq<char>, n: nat) -> Set<Seq<char>>
    decreases n,
{
    if n == 0 {
        Set::empty()
    } else {
        values_upto(files, name, (n - 1) as nat).insert(column_value(files[n - 1].partition_values, name))
    }
}

/// The values that `files` take for the column `name`.
pub open spec fn column_values(files: Seq<FileModel>, name: Seq<char>) -> Set<Seq<char>> {
    values_upto(files, name, files.len())
}

/// A file without content: its size is zero or less.
pub open spec fn is_empty_file() -> spec_fn(FileModel) -> bool {
    |f: FileModel| f.size <= 0
}

/// The partition report of `files` for the columns `by`.
pub open spec fn spec_partition_health(files: Seq<FileModel>, by: Seq<Seq<char>>) -> PartitionReportModel {
    PartitionReportModel {
        by,
        cardinality: Seq::new(
            by.len(),
            |i: int|
                PartitionCardinalityModel { key: by[i], distinct: column_values(files, by[i]).len() as int },
        ),
        empty_partitions: files.filter(is_empty_file()).len() as int,
        total_files: files.len() as int,
    }
}

/// A value is among those of a column exactly where a file takes it.
pub proof fn lemma_values_upto(files: Seq<FileModel>, name: Seq<char>, n: nat)
    requires
        n <= files.len(),
    ensures
        values_upto(files, name, n).finite(),
        forall|v: Seq<char>|
            values_upto(files, name, n).contains(v) <==> exists|i: int|
                0 <= i < n && #[trigger] column_value(files[i].partition_values, name) == v,
    decreases n,
{
    if n > 0 {
        lemma_values_upto(files, name, (n - 1) as nat);
        let before = values_upto(files, name, (n - 1) as nat);
        let x = column_value(files[n - 1].partition_values, name);
        assert forall|v: Seq<char>| values_upto(files, name, n).contains(v) implies exists|i: int|
            0 <= i < n && #[trigger] column_value(files[i].partition_values, name) == v by {
            if before.contains(v) {
                let i = choose|i: int|
                    0 <= i < n - 1 && #[trigger] column_value(files[i].partition_values, name) == v;
                assert(column_value(files[i].partition_values, name) == v);
            } else {
                assert(column_value(files[n - 1].partition_values, name) == v);
            }
        }
    }
}

/// The number of values that `files` take for the column `name`.
pub fn count_values(files: &Vec<AddFileLite>, name: &str) -> (n: usize)
    ensures
        n == column_values(files.deep_view(), name@).len(),
{
    let ghost fm = files.deep_view();
    let mut seen = TextSet::new();
    let mut i: usize = 0;
    while i < files.len()
        invariant
            i <= files@.len(),
            fm == files.deep_view(),
            seen.wf(),
            seen@ == values_upto(fm, name@, i as nat),
        decreases files.len() - i,
    {
        assert(fm[i as int] == files@[i as int].deep_view());
        seen.insert(column_value_of(&files[i].partition_values, name));
        i += 1;
    }
    seen.len()
}

/// The partition report of `files` for the columns `by`.
pub fn health_of_files(files: &Vec<AddFileLite>, by: &Vec<String>) -> (r: PartitionReport)
    ensures
        r.deep_view() == spec_partition_health(files.deep_view(), by.deep_view()),
{
    let ghost fm = files.deep_view();
    let ghost bm = by.deep_view();
    let mut empty: usize = 0;
    let mut i: usize = 0;
    while i < files.len()
        invariant
            i <= files@.len(),
            fm == files.deep_view(),
            empty <= i,
            empty == fm.take(i as int).filter(is_empty_file()).len(),
        decreases files.len() - i,
    {
        proof {
            assert(fm.take(i + 1) =~= fm.take(i as int).push(fm[i as int]));
            fm.take(i as int).lemma_filter_push(fm[i as int], is_empty_file());
            assert(fm[i as int] == files@[i as int].deep_view());
        }
        if files[i].size <= 0 {
            empty += 1;
        }
        i += 1;
    }
    assert(fm.take(i as int) =~= fm);
    let mut cardinality: Vec<PartitionCardinality> = Vec::new();
    let mut c: usize = 0;
    while c < by.len()
        invariant
            c <= by@.len(),
            fm == files.deep_view(),
            bm == by.deep_view(),
            cardinality@.len() == c,
            forall|j: int|
                0 <= j < c ==> (#[trigger] cardinality@[j]).deep_view() == (PartitionCardinalityModel {
                    key: bm[j],
                    distinct: column_values(fm, bm[j]).len() as int,
                }),
        decreases by.len() - c,
    {
        let distinct = count_values(files, by[c].as_str());
        cardinality.push(PartitionCardinality { key: by[c].clone(), distinct });
        c += 1;
    }
    let r = PartitionReport {
        by: copy_texts(by),
        cardinality,
        empty_partitions: empty,
        total_files: files.len(),
    };
    assert(r.deep_view().cardinality =~= spec_partition_health(fm, bm).cardinality);
    r
}

/// The partition report of the table as it stands at the end of its log.
pub fn partition_health(t: &TableSnapshot, by: &Vec<String>) -> (r: Result<PartitionReport, DeltaError>)
    ensures
        match r {
            Ok(report) => t.replay_error(None) is None && report.deep_view() == spec_partition_health(
                t.files_at(None),
                by.deep_view(),
            ),
            Err(e) => t.replay_error(None) == Some(e),
        },
{
    match list_active_files(t, None) {
        Ok(files) => Ok(health_of_files(&files, by)),
        Err(e) => Err(e),
    }
}

/// A table at a glance: how many files it has, their bytes, and the
/// partition columns that they declare.
#[derive(Debug, Clone)]
pub struct TableSummary {
    pub files: usize,
    pub bytes: i64,
    pub partitions: Vec<String>,
}

/// The partition columns that the first `n` entries of `pv` declare.
pub open spec fn names_upto(pv: Seq<(Seq<char>, Option<Seq<char>>)>, n: nat) -> Set<Seq<char>>
    decreases n,
{
    if n == 0 {
        Set::empty()
    } else {
        names_upto(pv, (n - 1) as nat).insert(pv[n - 1].0)
    }
}

/// The partition columns that the first `n` of `files` declare.
pub open spec fn columns_upto(files: Seq<FileModel>, n: nat) -> Set<Seq<char>>
    decreases n,
{
    if n == 0 {
        Set::empty()
    } else {
        columns_upto(files, (n - 1) as nat).union(
            names_upto(files[n - 1].partition_values, files[n - 1].partition_values.len()),
        )
    }
}

/// The partition columns that `files` declare.
pub open spec fn partition_columns(files: Seq<FileModel>) -> Set<Seq<char>> {
    columns_upto(files, files.len())
}

/// Sums up `files`: their number, their bytes held to the range of 64 bits,
/// and the partition columns that they declare, in ascending order.
pub fn summarize(files: &Vec<AddFileLite>) -> (r: TableSummary)
    ensures
        r.files == files@.len(),
        r.bytes as int == clamp_i64(sizes_sum(files.deep_view())),
        r.partitions.deep_view().to_set() == partition_columns(files.deep_view()),
        forall|i: int, j: int|
            0 <= i < j < r.partitions@.len() ==> text_lt(
                (#[trigger] r.partitions@[i])@,
                (#[trigger] r.partitions@[j])@,
            ),
{
    let ghost fm = files.deep_view();
    let mut bytes: i128 = 0;
    let mut names = TextSet::new();
    let mut i: usize = 0;
    while i < files.len()
        invariant
            i <= files@.len(),
            fm == files.deep_view(),
            names.wf(),
            names@ == columns_upto(fm, i as nat),
            bytes == sizes_sum(fm.take(i as int)),
            -(i as int) * 0x8000_0000_0000_0000 <= bytes <= (i as int) * 0x7fff_ffff_ffff_ffff,
        decreases files.len() - i,
    {
        proof {
            assert(fm.take(i + 1).drop_last() =~= fm.take(i as int));
            assert(fm[i as int] == files@[i as int].deep_view());
        }
        bytes = bytes + files[i].size as i128;
        let pv = &files[i].partition_values;
        let ghost pm = fm[i as int].partition_values;
        let ghost before = names@;
        let mut k: usize = 0;
        while k < pv.len()
            invariant
                k <= pv@.len(),
                pm == pv.deep_view(),
                names.wf(),
                names@ == before.union(names_upto(pm, k as nat)),
            decreases pv.len() - k,
        {
            assert(pm[k as int] == (pv@[k as int].0@, pv@[k as int].1.deep_view()));
            names.insert(pv[k].0.clone());
            assert(names@ =~= before.union(names_upto(pm, (k + 1) as nat)));
            k += 1;
        }
        i += 1;
    }
    assert(fm.take(i as int) =~= fm);
    let clamped: i64 = if bytes > 9223372036854775807 {
        9223372036854775807
    } else if bytes < -9223372036854775808 {
        -9223372036854775808
    } else {
        bytes as i64
    };
    TableSummary { files: files.len(), bytes: clamped, partitions: names.into_texts() }
}

/// A file of a manifest.
#[derive(Debug, Clone)]
pub struct ManifestEntry {
    pub path: String,
    pub size: i64,
}

/// The files of a table at one version.
#[derive(Debug, Clone)]
pub struct Manifest {
    pub version: i64,
    pub files: Vec<ManifestEntry>,
}

/// The engine that a manifest is meant for. It is carried along; the
/// entries of a manifest are the same for all.
#[derive(Debug, Clone, Copy, PartialEq, Eq, Structural)]
pub enum ManifestFormat {
    Trino,
    Hive,
    Presto,
    FileList,
}

impl DeepView for ManifestEntry {
    type V = (Seq<char>, int);

    open spec fn deep_view(&self) -> (Seq<char>, int) {
        (self.path@, self.size as int)
    }
}

/// The entries of a manifest of `files`: path and size of each, in order.
pub open spec fn manifest_entries(files: Seq<FileModel>) -> Seq<(Seq<char>, int)> {
    Seq::new(files.len(), |i: int| (files[i].path, files[i].size))
}

/// The manifest of `files` at `version`.
pub fn manifest_of_files(files: &Vec<AddFileLite>, version: i64) -> (m: Manifest)
    ensures
        m.version == version,
        m.files.deep_view() == manifest_entries(files.deep_view()),
{
    let mut entries: Vec<ManifestEntry> = Vec::new();
    let mut i: usize = 0;
    while i < files.len()
        invariant
            i <= files@.len(),
            entries@.len() == i,
            forall|j: int|
                0 <= j < i ==> (#[trigger] entries@[j]).deep_view() == (files@[j].path@, files@[j].size as int),
        decreases files.len() - i,
    {
        entries.push(ManifestEntry { path: files[i].path.clone(), size: files[i].size });
        i += 1;
    }
    assert(entries.deep_view() =~= manifest_entries(files.deep_view()));
    Manifest { version, files: entries }
}

/// The manifest of the table at `version`.
pub fn generate_manifest(t: &TableSnapshot, version: i64, format: ManifestFormat) -> (r: Result<
    Manifest,
    DeltaError,
>)
    ensures
        match r {
            Ok(m) => t.replay_error(Some(version as int)) is None && m.version == version
                && m.files.deep_view() == manifest_entries(t.files_at(Some(version as int))),
            Err(e) => t.replay_error(Some(version as int)) == Some(e),
        },
{
    match list_active_files(t, Some(version)) {
        Ok(files) => Ok(manifest_of_files(&files, version)),
        Err(e) => Err(e),
    }
}

} // verus!
