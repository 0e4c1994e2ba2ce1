//! The difference between the active files of two versions.
use crate::model::{AddFileLite, DeltaError, FileModel};
use crate::table::{list_active_files, TableSnapshot};
use crate::text_set::TextSet;
use vstd::prelude::*;

verus! {

/// How the active files of a table differ between two versions.
#[derive(Debug, Clone, Copy, PartialEq, Eq, Structural)]
pub struct DiffReport {
    pub from: i64,
    pub to: i64,
    pub files_added: usize,
    pub files_removed: usize,
    pub bytes_added: i64,
    pub bytes_removed: i64,
}

pub struct DiffModel {
    pub from: int,
    pub to: int,
    pub files_added: int,
    pub files_removed: int,
    pub bytes_added: int,
    pub bytes_removed: int,
}

impl DeepView for DiffReport {
    type V = DiffModel;

    open spec fn deep_view(&self) -> DiffModel {
        DiffModel {
            from: self.from as int,
            to: self.to as int,
            files_added: self.files_added as int,
            files_removed: self.files_removed as int,
            bytes_added: self.bytes_added as int,
            bytes_removed: self.bytes_removed as int,
        }
    }
}

/// The paths of the first `n` of `files`.
pub open spec fn paths_upto(files: Seq<FileModel>, n: nat) -> Set<Seq<char>>
    decreases n,
{
    if n == 0 {
        Set::empty()
    } else {
        paths_upto(files, (n - 1) as nat).insert(files[n - 1].path)
    }
}

/// The paths of `files`.
pub open spec fn path_set(files: Seq<FileModel>) -> Set<Seq<char>> {
    paths_upto(files, files.len())
}

/// A path is in the set of paths exactly where a file has it.
pub proof fn lemma_paths_upto(files: Seq<FileModel>, n: nat)
    requires
        n <= files.len(),
    ensures
        paths_upto(files, n).finite(),
        forall|i: int| 0 <= i < n ==> paths_upto(files, n).contains(#[trigger] files[i].path),
        forall|p: Seq<char>|
            paths_upto(files, n).contains(p) ==> exists|i: int| 0 <= i < n && #[trigger] files[i].path == p,
    decreases n,
{
    if n > 0 {
        lemma_paths_upto(files, (n - 1) as nat);
        let before = paths_upto(files, (n - 1) as nat);
        assert forall|p: Seq<char>| paths_upto(files, n).contains(p) implies exists|i: int|
            0 <= i < n && #[trigger] files[i].path == p by {
            if before.contains(p) {
                let i = choose|i: int| 0 <= i < n - 1 && #[trigger] files[i].path == p;
                assert(files[i].path == p);
            } else {
                assert(files[n - 1].path == p);
            }
        }
    }
}

/// A file whose path is not among `paths`.
pub open spec fn not_among(paths: Set<Seq<char>>) -> spec_fn(FileModel) -> bool {
    |f: FileModel| !paths.contains(f.path)
}

/// The files of `b` whose path no file of `a` has, in the order of `b`.
pub open spec fn files_beyond(a: Seq<FileModel>, b: Seq<FileModel>) -> Seq<FileModel> {
    b.filter(not_among(path_set(a)))
}

/// The sizes of `files`, all told.
pub open spec fn sizes_sum(files: Seq<FileModel>) -> int
    decreases files.len(),
{
    if files.len() == 0 {
        0
    } else {
        sizes_sum(files.drop_last()) + files.last().size
    }
}

/// `x`, held to the range of a 64-bit signed number.
pub open spec fn clamp_i64(x: int) -> int {
    if x > i64::MAX {
        i64::MAX as int
    } else if x < i64::MIN {
        i64::MIN as int
    } else {
        x
    }
}

/// How the files `b` of version `to` differ from the files `a` of version
/// `from`: a file counts as added where `a` has no file of its path, as
/// removed where `b` has none. Bytes are held to the range of 64 bits.
pub open spec fn spec_diff(a: Seq<FileModel>, b: Seq<FileModel>, from: int, to: int) -> DiffModel {
    DiffModel {
        from,
        to,
        files_added: files_beyond(a, b).len() as int,
        files_removed: files_beyond(b, a).len() as int,
        bytes_added: clamp_i64(sizes_sum(files_beyond(a, b))),
        bytes_removed: clamp_i64(sizes_sum(files_beyond(b, a))),
    }
}

/// No file lies beyond the list it is in.
pub proof fn lemma_none_beyond_self(a: Seq<FileModel>)
    ensures
        files_beyond(a, a) == Seq::<FileModel>::empty(),
{
    lemma_paths_upto(a, a.len());
    let pred = not_among(path_set(a));
    assert(a.all(|x: FileModel| !pred(x))) by {
        assert forall|i: int| 0 <= i < a.len() implies !pred(#[trigger] a[i]) by {
            assert(path_set(a).contains(a[i].path));
        }
    }
    a.lemma_all_neg_filter_empty(pred);
    assert(a.filter(pred) =~= Seq::<FileModel>::empty());
}

/// A list of files does not differ from itself: nothing is added, nothing
/// removed, no bytes either way.
pub proof fn lemma_diff_self(a: Seq<FileModel>, v: int)
    ensures
        spec_diff(a, a, v, v) == (DiffModel {
            from: v,
            to: v,
            files_added: 0,
            files_removed: 0,
            bytes_added: 0,
            bytes_removed: 0,
        }),
{
    lemma_none_beyond_self(a);
}

/// The paths of `files`.
pub fn paths_of(files: &Vec<AddFileLite>) -> (r: TextSet)
    ensures
        r.wf(),
        r@ == path_set(files.deep_view()),
{
    let ghost fm = files.deep_view();
    let mut r = TextSet::new();
    let mut i: usize = 0;
    while i < files.len()
        invariant
            i <= files@.len(),
            fm == files.deep_view(),
            r.wf(),
            r@ == paths_upto(fm, i as nat),
        decreases files.len() - i,
    {
        assert(fm[i as int] == files@[i as int].deep_view());
        r.insert(files[i].path.clone());
        i += 1;
    }
    r
}

/// Counts the files of `b` whose path is not in `paths`, and their bytes.
pub fn count_beyond(paths: &TextSet, b: &Vec<AddFileLite>) -> (r: (usize, i64))
    requires
        paths.wf(),
    ensures
        r.0 == b.deep_view().filter(not_among(paths@)).len(),
        r.1 == clamp_i64(sizes_sum(b.deep_view().filter(not_among(paths@)))),
{
    let ghost bm = b.deep_view();
    let ghost pred = not_among(paths@);
    let mut count: usize = 0;
    let mut bytes: i128 = 0;
    let mut i: usize = 0;
    while i < b.len()
        invariant
            i <= b@.len(),
            bm == b.deep_view(),
            paths.wf(),
            pred == not_among(paths@),
            count <= i,
            count == bm.take(i as int).filter(pred).len(),
            bytes == sizes_sum(bm.take(i as int).filter(pred)),
            -(i as int) * 0x8000_0000_0000_0000 <= bytes <= (i as int) * 0x7fff_ffff_ffff_ffff,
        decreases b.len() - i,
    {
        proof {
            let before = bm.take(i as int);
            assert(bm.take(i + 1) =~= before.push(bm[i as int]));
            before.lemma_filter_push(bm[i as int], pred);
            assert(bm[i as int] == b@[i as int].deep_view());
            assert(before.filter(pred).push(bm[i as int]).drop_last() =~= before.filter(pred));
        }
        if !paths.contains(&b[i].path) {
            count += 1;
            bytes = bytes + b[i].size as i128;
        }
        i += 1;
    }
    assert(bm.take(i as int) =~= bm);
    let clamped: i64 = if bytes > 9223372036854775807 {
        9223372036854775807
    } else if bytes < -9223372036854775808 {
        -9223372036854775808
    } else {
        bytes as i64
    };
    (count, clamped)
}

/// How the files `b` of version `to` differ from the files `a` of version
/// `from`.
pub fn diff_files(a: &Vec<AddFileLite>, b: &Vec<AddFileLite>, from: i64, to: i64) -> (r: DiffReport)
    ensures
        r.deep_view() == spec_diff(a.deep_view(), b.deep_view(), from as int, to as int),
{
    let in_a = paths_of(a);
    let in_b = paths_of(b);
    let added = count_beyond(&in_a, b);
    let removed = count_beyond(&in_b, a);
    DiffReport {
        from,
        to,
        files_added: added.0,
        files_removed: removed.0,
        bytes_added: added.1,
        bytes_removed: removed.1,
    }
}

/// Whether the versions `from` and `to` of a table can be compared, and if
/// not, why: the range must not run backwards, and the table must replay to
/// both.
pub open spec fn diff_error(t: TableSnapshot, from: int, to: int) -> Option<DeltaError> {
    if to < from {
        Some(DeltaError::InvalidRange)
    } else if t.replay_error(Some(from)) is Some {
        t.replay_error(Some(from))
    } else {
        t.replay_error(Some(to))
    }
}

/// How the active files of the table differ between the versions `from` and
/// `to`. A version does not differ from itself.
pub fn diff_versions(t: &TableSnapshot, from: i64, to: i64) -> (r: Result<DiffReport, DeltaError>)
    ensures
        match r {
            Ok(report) => diff_error(*t, from as int, to as int) is None && report.deep_view() == spec_diff(
                t.files_at(Some(from as int)),
                t.files_at(Some(to as int)),
                from as int,
                to as int,
            ),
            Err(e) => diff_error(*t, from as int, to as int) == Some(e),
        },
        from == to ==> match r {
            Ok(report) => report.files_added == 0 && report.files_removed == 0 && report.bytes_added == 0
                && report.bytes_removed == 0,
            Err(_) => true,
        },
{
    if to < from {
        return Err(DeltaError::InvalidRange);
    }
    let files_from = match list_active_files(t, Some(from)) {
        Ok(files) => files,
        Err(e) => {
            return Err(e);
        },
    };
    let files_to = match list_active_files(t, Some(to)) {
        Ok(files) => files,
        Err(e) => {
            return Err(e);
        },
    };
    proof {
        if from == to {
            lemma_diff_self(t.files_at(Some(from as int)), from as int);
        }
    }
    Ok(diff_files(&files_from, &files_to, from, to))
}

} // verus!
