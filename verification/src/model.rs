//! The data that the library's operations share.
use crate::sorted_map::keys_ascending;
use crate::text::copy_opt_text;
use vstd::prelude::*;

verus! {

/// Partition values as mathematical data: column name and value, the value
/// absent where the table holds an explicit null.
pub type PartitionModel = Seq<(Seq<char>, Option<Seq<char>>)>;

/// The partition values name each column once, in ascending order of name.
pub open spec fn partition_sorted(pv: PartitionModel) -> bool {
    keys_ascending::<String, Option<Seq<char>>>(pv)
}

/// Mathematical model of an active data file.
pub struct FileModel {
    pub path: Seq<char>,
    pub size: int,
    pub partition_values: PartitionModel,
}

/// Why an operation on a table failed.
#[derive(Debug, Clone, Copy, PartialEq, Eq, Structural)]
pub enum DeltaError {
    /// The blob store could not be read.
    Store,
    /// The table's URI cannot be parsed.
    InvalidUri,
    /// The requested version is beyond the last commit, or a commit below it
    /// is missing.
    LogGap,
    /// An action lacks a field it must have.
    MalformedAction,
    /// A range of versions whose end is below its start.
    InvalidRange,
}

/// Identity of a table: where it lives and the version it is pinned to, if
/// any.
#[derive(Debug, Clone)]
pub struct DeltaTableHandle {
    pub uri: String,
    pub version: Option<i64>,
}

/// A data file that is live at some version of the table.
///
/// `path` is relative to the table root. `partition_values` lists the
/// partition columns the file declares, each with its value or an explicit
/// null.
#[derive(Debug, Clone)]
pub struct AddFileLite {
    pub path: String,
    pub size: i64,
    pub partition_values: Vec<(String, Option<String>)>,
}

impl DeepView for AddFileLite {
    type V = FileModel;

    open spec fn deep_view(&self) -> FileModel {
        FileModel {
            path: self.path@,
            size: self.size as int,
            partition_values: self.partition_values.deep_view(),
        }
    }
}

impl View for AddFileLite {
    type V = FileModel;

    open spec fn view(&self) -> FileModel {
        self.deep_view()
    }
}

/// A copy of a list of partition values.
pub fn copy_partition_values(pv: &Vec<(String, Option<String>)>) -> (r: Vec<(String, Option<String>)>)
    ensures
        r.deep_view() == pv.deep_view(),
{
    let mut r: Vec<(String, Option<String>)> = Vec::new();
    let mut i: usize = 0;
    while i < pv.len()
        invariant
            i <= pv.len(),
            r@.len() == i,
            forall|j: int| 0 <= j < i ==> (#[trigger] r@[j]).deep_view() == pv@[j].deep_view(),
        decreases pv.len() - i,
    {
        let k = pv[i].0.clone();
        let v = copy_opt_text(&pv[i].1);
        r.push((k, v));
        i += 1;
    }
    assert(r.deep_view() =~= pv.deep_view());
    r
}

impl AddFileLite {
    /// A copy of this file record.
    pub fn duplicate(&self) -> (r: AddFileLite)
        ensures
            r@ == self@,
    {
        AddFileLite {
            path: self.path.clone(),
            size: self.size,
            partition_values: copy_partition_values(&self.partition_values),
        }
    }
}

/// Load a table handle for `uri`, pinned to no version.
pub fn load_table(uri: &str) -> (h: DeltaTableHandle)
    ensures
        h.uri@ == uri@,
        h.version is None,
{
    DeltaTableHandle { uri: uri.to_owned(), version: None }
}

} // verus!
