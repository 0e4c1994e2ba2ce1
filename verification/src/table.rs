//! A table as the blob store holds it, and its active files.
use crate::action::{EntryModel, FileEntry};
use crate::log::{commit_version, spec_commit_version, CommitFile};
use crate::model::{partition_sorted, AddFileLite, DeltaError, FileModel};
use crate::order::{text_lt, OrderedKey};
use crate::replay::{
    lemma_replay_ascending, log_gap, malformed_log, replay, spec_replay, target_model, ActiveModel,
};
use crate::text::{
    char_ranges, chars_of, first_bound, has_prefix, lemma_first_bound_at, relative_path,
    spec_relative_path, split_on, position_of_key, starts_with,
};
use vstd::prelude::*;

verus! {

/// One object of the blob store: where it is, and its size in bytes.
#[derive(Debug, Clone)]
pub struct ObjectMeta {
    pub location: String,
    pub size: i64,
}

/// What the blob store holds of a table, as plain values: the path of the
/// table's root, the files under `_delta_log/` with their contents, and the
/// recursive listing of the root.
#[derive(Debug, Clone)]
pub struct TableSnapshot {
    pub root: String,
    pub log: Vec<CommitFile>,
    pub objects: Vec<ObjectMeta>,
}

/// The last segment of a path: what follows its last slash.
pub open spec fn last_segment(path: Seq<char>) -> Seq<char> {
    split_on(path, '/').last()
}

/// The name under which an object at the relative path `rel` belongs to the
/// log: its last segment, where the object lies under `_delta_log/` and that
/// segment is the name of a commit file.
pub open spec fn spec_log_file_name(rel: Seq<char>) -> Option<Seq<char>> {
    if has_prefix(rel, "_delta_log/"@) && spec_commit_version(last_segment(rel)) is Some {
        Some(last_segment(rel))
    } else {
        None
    }
}

/// The name of the commit file at `location`, where the object there is a
/// commit file of the table at `root`.
pub fn log_file_name(root: &str, location: &str) -> (r: Option<String>)
    ensures
        r.deep_view() == spec_log_file_name(spec_relative_path(root@, location@)),
{
    let rel = relative_path(root, location);
    if !starts_with(rel.as_str(), "_delta_log/") {
        return None;
    }
    let cs = chars_of(rel.as_str());
    let ranges = char_ranges(&cs, '/');
    let last = ranges[ranges.len() - 1];
    let name = rel.as_str().substring_char(last.0, last.1);
    match commit_version(name) {
        Some(_) => Some(name.to_owned()),
        None => None,
    }
}

/// The listed objects, each as its path relative to `root` and its size.
pub open spec fn listing_model(root: Seq<char>, objects: Seq<ObjectMeta>) -> Seq<(Seq<char>, i64)> {
    Seq::new(
        objects.len(),
        |i: int| (spec_relative_path(root, objects[i].location@), objects[i].size),
    )
}

/// The size that the listing gives for `path`: that of the first object
/// listed under it, zero where none is.
pub open spec fn head_size(listing: Seq<(Seq<char>, i64)>, path: Seq<char>) -> int {
    match first_bound(listing, path) {
        Some(size) => size as int,
        None => 0,
    }
}

/// The active file that an entry of the replayed set stands for. Its size is
/// the one the log records; where the log records none, the one the listing
/// gives.
pub open spec fn active_file(e: (Seq<char>, EntryModel), listing: Seq<(Seq<char>, i64)>) -> FileModel {
    FileModel {
        path: e.0,
        size: match e.1.size {
            Some(z) => z,
            None => head_size(listing, e.0),
        },
        partition_values: e.1.partition_values,
    }
}

/// The active files that a replayed set stands for, in its order.
pub open spec fn active_files(entries: ActiveModel, listing: Seq<(Seq<char>, i64)>) -> Seq<FileModel> {
    Seq::new(entries.len(), |i: int| active_file(entries[i], listing))
}

impl TableSnapshot {
    pub open spec fn listing(&self) -> Seq<(Seq<char>, i64)> {
        listing_model(self.root@, self.objects@)
    }

    /// The active files of the table at `target`.
    pub open spec fn files_at(&self, target: Option<int>) -> Seq<FileModel> {
        active_files(spec_replay(self.log@, target), self.listing())
    }

    /// Whether the table can be replayed to `target`, and if not, why.
    pub open spec fn replay_error(&self, target: Option<int>) -> Option<DeltaError> {
        if log_gap(self.log@, target) {
            Some(DeltaError::LogGap)
        } else if malformed_log(self.log@, target) {
            Some(DeltaError::MalformedAction)
        } else {
            None
        }
    }

    /// The listed objects by their paths relative to the table's root.
    pub fn relative_listing(&self) -> (r: Vec<(String, i64)>)
        ensures
            r.deep_view() == self.listing(),
    {
        let mut r: Vec<(String, i64)> = Vec::new();
        let mut i: usize = 0;
        while i < self.objects.len()
            invariant
                i <= self.objects@.len(),
                r@.len() == i,
                forall|j: int|
                    0 <= j < i ==> (#[trigger] r@[j]).0@ == spec_relative_path(
                        self.root@,
                        self.objects@[j].location@,
                    ) && r@[j].1 == self.objects@[j].size,
            decreases self.objects.len() - i,
        {
            let rel = relative_path(self.root.as_str(), self.objects[i].location.as_str());
            r.push((rel, self.objects[i].size));
            i += 1;
        }
        assert(r.deep_view() =~= self.listing());
        r
    }
}

/// The size that `listing` gives for `path`.
pub fn lookup_size(listing: &Vec<(String, i64)>, path: &str) -> (size: i64)
    ensures
        size as int == head_size(listing.deep_view(), path@),
{
    let ghost m = listing.deep_view();
    match position_of_key(listing, path) {
        Some(i) => {
            proof {
                assert forall|j: int| 0 <= j < i implies (#[trigger] m[j]).0 != path@ by {
                    assert(m[j].0 == listing@[j].0@);
                }
                assert(m[i as int] == (listing@[i as int].0@, listing@[i as int].1));
                lemma_first_bound_at(m, path@, i as int);
            }
            listing[i].1
        },
        None => {
            proof {
                assert forall|j: int| 0 <= j < m.len() implies (#[trigger] m[j]).0 != path@ by {
                    assert(m[j].0 == listing@[j].0@);
                }
                lemma_first_bound_at(m, path@, m.len() as int);
            }
            0
        },
    }
}

/// The active files that replayed entries stand for.
pub fn resolve_sizes(entries: Vec<(String, FileEntry)>, t: &TableSnapshot) -> (files: Vec<AddFileLite>)
    ensures
        files.deep_view() == active_files(entries.deep_view(), t.listing()),
{
    let ghost all = entries@;
    let ghost m = entries.deep_view();
    let mut listing: Option<Vec<(String, i64)>> = None;
    let mut files: Vec<AddFileLite> = Vec::new();
    for e in it: entries
        invariant
            it.seq() == all,
            m.len() == all.len(),
            forall|j: int| 0 <= j < all.len() ==> m[j] == (all[j].0@, all[j].1.deep_view()),
            listing matches Some(l) ==> l.deep_view() == t.listing(),
            files@.len() == it.index(),
            forall|j: int| 0 <= j < it.index() ==> (#[trigger] files@[j])@ == active_file(m[j], t.listing()),
    {
        let size = match e.1.size {
            Some(z) => z,
            None => {
                if listing.is_none() {
                    listing = Some(t.relative_listing());
                }
                match &listing {
                    Some(l) => lookup_size(l, e.0.as_str()),
                    None => 0,
                }
            },
        };
        files.push(AddFileLite { path: e.0, size, partition_values: e.1.partition_values });
    }
    assert(files.deep_view() =~= active_files(m, t.listing()));
    files
}

/// The active files of the table at `version`, or at the end of its log, in
/// ascending order of path.
pub fn list_active_files(t: &TableSnapshot, version: Option<i64>) -> (r: Result<Vec<AddFileLite>, DeltaError>)
    ensures
        match r {
            Ok(files) => t.replay_error(target_model(version)) is None && files.deep_view()
                == t.files_at(target_model(version)) && (forall|i: int, j: int|
                0 <= i < j < files@.len() ==> text_lt(
                    (#[trigger] files@[i]).path@,
                    (#[trigger] files@[j]).path@,
                )) && (forall|i: int|
                0 <= i < files@.len() ==> partition_sorted((#[trigger] files@[i])@.partition_values)),
            Err(e) => t.replay_error(target_model(version)) == Some(e),
        },
{
    match replay(&t.log, version) {
        Ok(entries) => {
            let files = resolve_sizes(entries, t);
            proof {
                let m = spec_replay(t.log@, target_model(version));
                lemma_replay_ascending(t.log@, target_model(version), t.log@.len());
                assert forall|i: int, j: int| 0 <= i < j < files@.len() implies text_lt(
                    (#[trigger] files@[i]).path@,
                    (#[trigger] files@[j]).path@,
                ) by {
                    let fm = active_files(m, t.listing());
                    assert(files.deep_view() == fm);
                    assert(files.deep_view().len() == files@.len());
                    assert(fm[i] == active_file(m[i], t.listing()));
                    assert(fm[j] == active_file(m[j], t.listing()));
                    assert(files.deep_view()[i] == files@[i].deep_view());
                    assert(files.deep_view()[j] == files@[j].deep_view());
                    assert(String::precedes(m[i].0, m[j].0));
                }
                assert forall|i: int| 0 <= i < files@.len() implies partition_sorted(
                    (#[trigger] files@[i])@.partition_values,
                ) by {
                    let fm = active_files(m, t.listing());
                    assert(files.deep_view().len() == files@.len());
                    assert(fm[i] == active_file(m[i], t.listing()));
                    assert(files.deep_view()[i] == files@[i].deep_view());
                    assert(partition_sorted(m[i].1.partition_values));
                }
            }
            Ok(files)
        },
        Err(e) => Err(e),
    }
}

/// The greatest version that a commit file of `log` names, as far as a
/// 64-bit version can name it.
pub open spec fn is_current_version(log: Seq<CommitFile>, v: int) -> bool {
    &&& 0 <= v <= i64::MAX
    &&& exists|j: int| 0 <= j < log.len() && spec_commit_version((#[trigger] log[j]).name@) == Some(v as nat)
    &&& forall|j: int|
        0 <= j < log.len() ==> match spec_commit_version((#[trigger] log[j]).name@) {
            Some(u) => u <= i64::MAX ==> u <= v,
            None => true,
        }
}

/// The version of the table's last commit. Fails where the log holds no
/// commit.
pub fn current_version(t: &TableSnapshot) -> (r: Result<i64, DeltaError>)
    ensures
        match r {
            Ok(v) => is_current_version(t.log@, v as int),
            Err(e) => e == DeltaError::LogGap && forall|v: int| !is_current_version(t.log@, v),
        },
{
    let mut best: Option<i64> = None;
    let mut i: usize = 0;
    while i < t.log.len()
        invariant
            i <= t.log@.len(),
            best matches Some(b) ==> 0 <= b && exists|j: int|
                0 <= j < i && spec_commit_version((#[trigger] t.log@[j]).name@) == Some(b as nat),
            forall|j: int|
                0 <= j < i ==> match spec_commit_version((#[trigger] t.log@[j]).name@) {
                    Some(u) => u <= i64::MAX ==> best is Some && u <= best->Some_0,
                    None => true,
                },
        decreases t.log.len() - i,
    {
        match commit_version(t.log[i].name.as_str()) {
            Some(v) => {
                if v <= 9223372036854775807 {
                    let v64 = v as i64;
                    let better = match best {
                        Some(b) => v64 > b,
                        None => true,
                    };
                    if better {
                        best = Some(v64);
                    }
                }
            },
            None => {},
        }
        i += 1;
    }
    match best {
        Some(b) => Ok(b),
        None => Err(DeltaError::LogGap),
    }
}

} // verus!
