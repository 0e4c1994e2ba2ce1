//! The vacuum dry run: which files under a table's root it does not refer
//! to.
use crate::diff::{path_set, paths_of};
use crate::model::{AddFileLite, DeltaError, FileModel};
use crate::table::{list_active_files, TableSnapshot};
use crate::text::{has_prefix, starts_with};
use crate::text_set::TextSet;
use vstd::prelude::*;

verus! {

/// What a vacuum would find: the files that the table refers to, the files
/// that exist under its root, and how many of these it does not refer to.
#[derive(Debug, Clone, Copy, PartialEq, Eq, Structural)]
pub struct VacuumReport {
    pub referenced_files: usize,
    pub existing_files: usize,
    pub orphans: usize,
    pub safe: bool,
}

/// Whether an object at the relative path `rel` counts as a file of the
/// table: it has a path, and is not part of the log.
pub open spec fn is_data_path(rel: Seq<char>) -> bool {
    rel.len() > 0 && !has_prefix(rel, "_delta_log/"@)
}

/// The data paths among the first `n` objects listed.
pub open spec fn existing_upto(listing: Seq<(Seq<char>, i64)>, n: nat) -> Set<Seq<char>>
    decreases n,
{
    if n == 0 {
        Set::empty()
    } else if is_data_path(listing[n - 1].0) {
        existing_upto(listing, (n - 1) as nat).insert(listing[n - 1].0)
    } else {
        existing_upto(listing, (n - 1) as nat)
    }
}

/// The data paths that exist under the table's root.
pub open spec fn existing_paths(listing: Seq<(Seq<char>, i64)>) -> Set<Seq<char>> {
    existing_upto(listing, listing.len())
}

/// The paths that exist and that no active file has.
pub open spec fn orphan_paths(files: Seq<FileModel>, listing: Seq<(Seq<char>, i64)>) -> Set<Seq<char>> {
    existing_paths(listing).difference(path_set(files))
}

/// Whether `report` says of the active `files` and the objects `listing`
/// what holds of them: how many paths the files have, how many data paths
/// exist, how many of these no file has, and that the table is safe exactly
/// where there is none.
pub open spec fn vacuum_matches(report: VacuumReport, files: Seq<FileModel>, listing: Seq<(Seq<char>, i64)>) -> bool {
    &&& report.referenced_files == path_set(files).len()
    &&& report.existing_files == existing_paths(listing).len()
    &&& report.orphans == orphan_paths(files, listing).len()
    &&& report.safe == (report.orphans == 0)
}

/// The data paths that exist under the table's root.
pub fn existing_of(listing: &Vec<(String, i64)>) -> (r: TextSet)
    ensures
        r.wf(),
        r@ == existing_paths(listing.deep_view()),
{
    let ghost lm = listing.deep_view();
    let mut r = TextSet::new();
    let mut i: usize = 0;
    while i < listing.len()
        invariant
            i <= listing@.len(),
            lm == listing.deep_view(),
            r.wf(),
            r@ == existing_upto(lm, i as nat),
        decreases listing.len() - i,
    {
        assert(lm[i as int] == (listing@[i as int].0@, listing@[i as int].1));
        let rel = &listing[i].0;
        let empty = rel.as_str().unicode_len() == 0;
        if !empty && !starts_with(rel.as_str(), "_delta_log/") {
            r.insert(rel.clone());
        }
        i += 1;
    }
    r
}

/// What a vacuum would find, given the active `files` and the objects under
/// the table's root by their relative paths.
pub fn vacuum_files(files: &Vec<AddFileLite>, listing: &Vec<(String, i64)>) -> (r: VacuumReport)
    ensures
        vacuum_matches(r, files.deep_view(), listing.deep_view()),
{
    let referenced = paths_of(files);
    let existing = existing_of(listing);
    let orphans = existing.count_outside(&referenced);
    VacuumReport {
        referenced_files: referenced.len(),
        existing_files: existing.len(),
        orphans,
        safe: orphans == 0,
    }
}

/// What a vacuum of the table would find. Nothing is deleted, and the
/// retention window plays no part in it.
pub fn vacuum_dry_run(t: &TableSnapshot, retention_days: i64) -> (r: Result<VacuumReport, DeltaError>)
    ensures
        match r {
            Ok(report) => t.replay_error(None) is None && vacuum_matches(
                report,
                t.files_at(None),
                t.listing(),
            ),
            Err(e) => t.replay_error(None) == Some(e),
        },
{
    match list_active_files(t, None) {
        Ok(files) => {
            let listing = t.relative_listing();
            Ok(vacuum_files(&files, &listing))
        },
        Err(e) => Err(e),
    }
}

} // verus!
