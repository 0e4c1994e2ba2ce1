//! The actions of a commit, as far as replay reads them.
use crate::json::{find_member, json_document, lookup_member, members_model, parse_json, Json, JsonModel};
use crate::model::{partition_sorted, PartitionModel};
use crate::sorted_map::{lemma_put_ascending, spec_put, OrderedMap};
use vstd::prelude::*;

verus! {

/// What the log records of a file besides its path.
pub struct EntryModel {
    pub size: Option<int>,
    pub rows: nat,
    pub partition_values: PartitionModel,
}

/// Mathematical model of one line of a commit.
pub enum ActionModel {
    /// Introduces `path`.
    Add { path: Seq<char>, entry: EntryModel },
    /// Retires `path`.
    Remove { path: Seq<char> },
    /// An `add` or `remove` that names no path.
    Malformed,
    /// Anything else: it leaves the set of active files alone.
    Other,
}

/// What the log records of a file besides its path: its size where the log
/// gives one, its row count, and its partition values in ascending order of
/// column name.
#[derive(Debug, Clone)]
pub struct FileEntry {
    pub size: Option<i64>,
    pub rows: u64,
    pub partition_values: Vec<(String, Option<String>)>,
}

impl DeepView for FileEntry {
    type V = EntryModel;

    open spec fn deep_view(&self) -> EntryModel {
        EntryModel {
            size: match self.size {
                Some(z) => Some(z as int),
                None => None,
            },
            rows: self.rows as nat,
            partition_values: self.partition_values.deep_view(),
        }
    }
}

/// One line of a commit, as far as replay reads it.
#[derive(Debug, Clone)]
pub enum Action {
    Add { path: String, entry: FileEntry },
    Remove { path: String },
    Malformed,
    Other,
}

impl DeepView for Action {
    type V = ActionModel;

    open spec fn deep_view(&self) -> ActionModel {
        match self {
            Action::Add { path, entry } => ActionModel::Add { path: path@, entry: entry.deep_view() },
            Action::Remove { path } => ActionModel::Remove { path: path@ },
            Action::Malformed => ActionModel::Malformed,
            Action::Other => ActionModel::Other,
        }
    }
}

/// The partition values that the first `n` members of a `partitionValues`
/// object declare: one entry per column name, in ascending order of name, a
/// later member replacing an earlier one of the same name. A value that is
/// no string counts as null.
pub open spec fn partition_values_upto(members: Seq<(Seq<char>, JsonModel)>, n: nat) -> PartitionModel
    decreases n,
{
    if n == 0 {
        Seq::empty()
    } else {
        spec_put::<String, Option<Seq<char>>>(
            partition_values_upto(members, (n - 1) as nat),
            members[n - 1].0,
            members[n - 1].1.as_text(),
        )
    }
}

/// The partition values of an `add` object; none where it has no
/// `partitionValues` object.
pub open spec fn partition_values_of(obj: Seq<(Seq<char>, JsonModel)>) -> PartitionModel {
    match find_member(obj, "partitionValues"@) {
        Some(JsonModel::Object(m)) => partition_values_upto(m, m.len()),
        _ => Seq::empty(),
    }
}

/// The size of an `add` object, where it gives one as a 64-bit integer.
pub open spec fn size_of(obj: Seq<(Seq<char>, JsonModel)>) -> Option<int> {
    match find_member(obj, "size"@) {
        Some(v) => v.as_int(),
        None => None,
    }
}

/// The row count in a statistics document: its `numRecords`, where that is a
/// non-negative 64-bit integer, else zero.
pub open spec fn rows_in_stats(doc: JsonModel) -> nat {
    match doc.member("numRecords"@) {
        Some(v) => match v.as_int() {
            Some(n) => if n >= 0 {
                n as nat
            } else {
                0
            },
            None => 0,
        },
        None => 0,
    }
}

/// The row count of an `add` object: read from the JSON text in its `stats`
/// string; zero where there is none or it does not parse.
pub open spec fn rows_of(obj: Seq<(Seq<char>, JsonModel)>) -> nat {
    match find_member(obj, "stats"@) {
        Some(JsonModel::Text(t)) => match json_document(vstd::utf8::encode_utf8(t)) {
            Some(doc) => rows_in_stats(doc),
            None => 0,
        },
        _ => 0,
    }
}

/// The action that a JSON document stands for.
///
/// A document with an object under `add` is an add, else one with an object
/// under `remove` is a remove; either must name its `path` as a string.
pub open spec fn spec_action(j: JsonModel) -> ActionModel {
    match j.member("add"@) {
        Some(JsonModel::Object(obj)) => match find_member(obj, "path"@) {
            Some(JsonModel::Text(p)) => ActionModel::Add {
                path: p,
                entry: EntryModel {
                    size: size_of(obj),
                    rows: rows_of(obj),
                    partition_values: partition_values_of(obj),
                },
            },
            _ => ActionModel::Malformed,
        },
        _ => match j.member("remove"@) {
            Some(JsonModel::Object(obj)) => match find_member(obj, "path"@) {
                Some(JsonModel::Text(p)) => ActionModel::Remove { path: p },
                _ => ActionModel::Malformed,
            },
            _ => ActionModel::Other,
        },
    }
}

/// The action on one line of a commit. An empty line, and one that is no
/// JSON document, is skipped.
pub open spec fn line_action(line: Seq<u8>) -> ActionModel {
    if line.len() == 0 {
        ActionModel::Other
    } else {
        match json_document(line) {
            Some(j) => spec_action(j),
            None => ActionModel::Other,
        }
    }
}

/// The partition values read from an object name each column once, in
/// ascending order.
pub proof fn lemma_partition_values_sorted(members: Seq<(Seq<char>, JsonModel)>, n: nat)
    ensures
        partition_sorted(partition_values_upto(members, n)),
    decreases n,
{
    if n > 0 {
        lemma_partition_values_sorted(members, (n - 1) as nat);
        lemma_put_ascending::<String, Option<Seq<char>>>(
            partition_values_upto(members, (n - 1) as nat),
            members[n - 1].0,
            members[n - 1].1.as_text(),
        );
    }
}

/// Whether the partition values that an action carries are sorted.
pub open spec fn action_sorted(a: ActionModel) -> bool {
    match a {
        ActionModel::Add { entry, .. } => partition_sorted(entry.partition_values),
        _ => true,
    }
}

/// An add that is read from a line carries sorted partition values.
pub proof fn lemma_line_action_sorted(line: Seq<u8>)
    ensures
        action_sorted(line_action(line)),
{
    if line.len() > 0 && json_document(line) is Some {
        let j = json_document(line)->Some_0;
        match j.member("add"@) {
            Some(JsonModel::Object(obj)) => {
                match find_member(obj, "partitionValues"@) {
                    Some(JsonModel::Object(m)) => {
                        lemma_partition_values_sorted(m, m.len());
                    },
                    _ => {},
                }
            },
            _ => {},
        }
    }
}

/// The partition values that the members of a `partitionValues` object
/// declare.
pub fn partition_values_from(members: &Vec<(String, Json)>) -> (r: Vec<(String, Option<String>)>)
    ensures
        r.deep_view() == partition_values_upto(members_model(members@), members@.len()),
{
    let ghost m = members_model(members@);
    let mut map: OrderedMap<String, Option<String>> = OrderedMap::new();
    let mut i: usize = 0;
    while i < members.len()
        invariant
            i <= members.len(),
            m == members_model(members@),
            map.wf(),
            map.model() == partition_values_upto(m, i as nat),
        decreases members.len() - i,
    {
        let key = members[i].0.clone();
        let value = match members[i].1.as_text() {
            Some(s) => Some(s.clone()),
            None => None,
        };
        assert(m[i as int] == (members@[i as int].0@, members@[i as int].1@));
        map.put(key, value);
        i += 1;
    }
    let ghost model = map.model();
    let r = map.into_entries();
    assert(r.deep_view() =~= model);
    r
}

/// The row count that the text of a `stats` member gives.
pub fn rows_from_stats(stats: &str) -> (rows: u64)
    ensures
        rows as nat == match json_document(vstd::utf8::encode_utf8(stats@)) {
            Some(doc) => rows_in_stats(doc),
            None => 0,
        },
{
    match parse_json(stats.as_bytes()) {
        Some(doc) => match doc.member("numRecords") {
            Some(v) => match v.as_int() {
                Some(n) => if n >= 0 {
                    n as u64
                } else {
                    0
                },
                None => 0,
            },
            None => 0,
        },
        None => 0,
    }
}

/// Reads the fields of an `add` object other than its path.
pub fn entry_of_add(obj: &Vec<(String, Json)>) -> (e: FileEntry)
    ensures
        e.deep_view() == (EntryModel {
            size: size_of(members_model(obj@)),
            rows: rows_of(members_model(obj@)),
            partition_values: partition_values_of(members_model(obj@)),
        }),
{
    let size = match lookup_member(obj, "size") {
        Some(v) => v.as_int(),
        None => None,
    };
    let rows = match lookup_member(obj, "stats") {
        Some(v) => match v.as_text() {
            Some(t) => rows_from_stats(t.as_str()),
            None => 0,
        },
        None => 0,
    };
    let partition_values = match lookup_member(obj, "partitionValues") {
        Some(v) => match v.as_object() {
            Some(m) => partition_values_from(m),
            None => Vec::new(),
        },
        None => Vec::new(),
    };
    let e = FileEntry { size, rows, partition_values };
    assert(e.partition_values.deep_view() =~= partition_values_of(members_model(obj@)));
    e
}

/// The path that an `add` or `remove` object names.
pub fn path_of(obj: &Vec<(String, Json)>) -> (r: Option<String>)
    ensures
        r.deep_view() == match find_member(members_model(obj@), "path"@) {
            Some(v) => v.as_text(),
            None => None,
        },
{
    match lookup_member(obj, "path") {
        Some(v) => match v.as_text() {
            Some(p) => Some(p.clone()),
            None => None,
        },
        None => None,
    }
}

/// The action that a JSON document stands for.
pub fn action_of_json(j: &Json) -> (a: Action)
    ensures
        a.deep_view() == spec_action(j@),
{
    let add = match j.member("add") {
        Some(v) => v.as_object(),
        None => None,
    };
    match add {
        Some(obj) => {
            match path_of(obj) {
                Some(path) => Action::Add { path, entry: entry_of_add(obj) },
                None => Action::Malformed,
            }
        },
        None => {
            let remove = match j.member("remove") {
                Some(v) => v.as_object(),
                None => None,
            };
            match remove {
                Some(obj) => match path_of(obj) {
                    Some(path) => Action::Remove { path },
                    None => Action::Malformed,
                },
                None => Action::Other,
            }
        },
    }
}

/// The action on one line of a commit.
pub fn parse_action(line: &[u8]) -> (a: Action)
    ensures
        a.deep_view() == line_action(line@),
{
    if line.len() == 0 {
        return Action::Other;
    }
    match parse_json(line) {
        Some(j) => action_of_json(&j),
        None => Action::Other,
    }
}

} // verus!
