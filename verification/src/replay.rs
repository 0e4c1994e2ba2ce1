//! Replay of a transaction log to the set of active files.
use crate::action::{
    action_sorted, lemma_line_action_sorted, line_action, parse_action, Action, ActionModel, EntryModel,
    FileEntry,
};
use crate::log::{commit_version, line_ranges, spec_commit_version, split_lines, CommitFile};
use crate::model::{partition_sorted, DeltaError};
use crate::ranking::{lemma_stable_order, ranks_model, sort_positions, stable_order};
use crate::sorted_map::{keys_ascending, spec_get, spec_put, spec_remove, OrderedMap};
use vstd::prelude::*;
use vstd::slice::slice_subrange;

verus! {

/// The active files as mathematical data: each path with what the log
/// records of it, in ascending order of path.
pub type ActiveModel = Seq<(Seq<char>, EntryModel)>;

/// The entry that an add of `entry` leaves for a path that `old` was recorded
/// for: the new record, with the earlier size where the add gives none.
pub open spec fn merged_entry(old: Option<EntryModel>, entry: EntryModel) -> EntryModel {
    EntryModel {
        size: match entry.size {
            Some(z) => Some(z),
            None => match old {
                Some(o) => o.size,
                None => None,
            },
        },
        rows: entry.rows,
        partition_values: entry.partition_values,
    }
}

/// The active files after one action.
pub open spec fn apply_action(s: ActiveModel, a: ActionModel) -> ActiveModel {
    match a {
        ActionModel::Add { path, entry } => spec_put::<String, EntryModel>(
            s,
            path,
            merged_entry(spec_get::<String, EntryModel>(s, path), entry),
        ),
        ActionModel::Remove { path } => spec_remove::<String, EntryModel>(s, path),
        _ => s,
    }
}

/// The active files after a sequence of actions, applied in order.
pub open spec fn apply_actions(s: ActiveModel, actions: Seq<ActionModel>) -> ActiveModel
    decreases actions.len(),
{
    if actions.len() == 0 {
        s
    } else {
        apply_action(apply_actions(s, actions.drop_last()), actions.last())
    }
}

/// The actions of a commit, one per line, in file order.
pub open spec fn commit_actions(content: Seq<u8>) -> Seq<ActionModel> {
    split_lines(content).map_values(|line: Seq<u8>| line_action(line))
}

pub open spec fn has_malformed(actions: Seq<ActionModel>) -> bool {
    exists|i: int| 0 <= i < actions.len() && actions[i] is Malformed
}

/// The action at `k` is malformed, and none before it is.
pub open spec fn first_malformed(actions: Seq<ActionModel>, k: int) -> bool {
    &&& 0 <= k < actions.len()
    &&& actions[k] is Malformed
    &&& forall|j: int| 0 <= j < k ==> !(actions[j] is Malformed)
}

/// Any sequence of actions keeps the paths ascending.
pub proof fn lemma_apply_actions_ascending(s: ActiveModel, actions: Seq<ActionModel>)
    requires
        keys_ascending::<String, EntryModel>(s),
    ensures
        keys_ascending::<String, EntryModel>(apply_actions(s, actions)),
    decreases actions.len(),
{
    if actions.len() > 0 {
        lemma_apply_actions_ascending(s, actions.drop_last());
        let t = apply_actions(s, actions.drop_last());
        match actions.last() {
            ActionModel::Add { path, entry } => {
                crate::sorted_map::lemma_put_ascending::<String, EntryModel>(
                    t,
                    path,
                    merged_entry(spec_get::<String, EntryModel>(t, path), entry),
                );
            },
            ActionModel::Remove { path } => {
                crate::sorted_map::lemma_remove_ascending::<String, EntryModel>(t, path);
            },
            _ => {},
        }
    }
}

/// Every entry carries sorted partition values.
pub open spec fn entries_sorted(s: ActiveModel) -> bool {
    forall|i: int| 0 <= i < s.len() ==> partition_sorted((#[trigger] s[i]).1.partition_values)
}

/// Actions that carry sorted partition values leave entries that do.
pub proof fn lemma_apply_actions_sorted(s: ActiveModel, actions: Seq<ActionModel>)
    requires
        entries_sorted(s),
        forall|k: int| 0 <= k < actions.len() ==> action_sorted(#[trigger] actions[k]),
    ensures
        entries_sorted(apply_actions(s, actions)),
    decreases actions.len(),
{
    if actions.len() > 0 {
        lemma_apply_actions_sorted(s, actions.drop_last());
        let t = apply_actions(s, actions.drop_last());
        let r = apply_actions(s, actions);
        assert(action_sorted(actions[actions.len() - 1]));
        match actions.last() {
            ActionModel::Add { path, entry } => {
                crate::sorted_map::lemma_lower_bound_range::<String, EntryModel>(t, path);
                let b = crate::sorted_map::lower_bound::<String, EntryModel>(t, path);
                assert forall|i: int| 0 <= i < r.len() implies partition_sorted(
                    (#[trigger] r[i]).1.partition_values,
                ) by {
                    if b < t.len() && t[b].0 == path {
                        if i != b {
                            assert(r[i] == t[i]);
                        }
                    } else {
                        if i < b {
                            assert(r[i] == t[i]);
                        } else if i > b {
                            assert(r[i] == t[i - 1]);
                        }
                    }
                }
            },
            ActionModel::Remove { path } => {
                crate::sorted_map::lemma_lower_bound_range::<String, EntryModel>(t, path);
                let b = crate::sorted_map::lower_bound::<String, EntryModel>(t, path);
                assert forall|i: int| 0 <= i < r.len() implies partition_sorted(
                    (#[trigger] r[i]).1.partition_values,
                ) by {
                    if b < t.len() && t[b].0 == path {
                        if i < b {
                            assert(r[i] == t[i]);
                        } else {
                            assert(r[i] == t[i + 1]);
                        }
                    }
                }
            },
            _ => {},
        }
    }
}

/// The set of active files while a log is replayed.
pub struct ActiveSet {
    files: OrderedMap<String, FileEntry>,
}

impl ActiveSet {
    pub closed spec fn model(&self) -> ActiveModel {
        self.files.model()
    }

    pub closed spec fn wf(&self) -> bool {
        self.files.wf()
    }

    /// The empty set.
    pub fn new() -> (r: Self)
        ensures
            r.wf(),
            r.model() == Seq::<(Seq<char>, EntryModel)>::empty(),
    {
        ActiveSet { files: OrderedMap::new() }
    }

    /// Applies one action.
    pub fn apply(&mut self, action: Action)
        requires
            old(self).wf(),
        ensures
            final(self).wf(),
            final(self).model() == apply_action(old(self).model(), action.deep_view()),
    {
        match action {
            Action::Add { path, entry } => {
                let size = match entry.size {
                    Some(z) => Some(z),
                    None => match self.files.get(&path) {
                        Some(old) => old.size,
                        None => None,
                    },
                };
                let merged = FileEntry {
                    size,
                    rows: entry.rows,
                    partition_values: entry.partition_values,
                };
                assert(merged.deep_view() == merged_entry(
                    spec_get::<String, EntryModel>(self.files.model(), path@),
                    entry.deep_view(),
                ));
                self.files.put(path, merged);
            },
            Action::Remove { path } => {
                self.files.remove(&path);
            },
            _ => {},
        }
    }

    /// Applies the actions of one commit, line by line. Stops at the first
    /// malformed action and returns `false`; the set then holds what was
    /// applied before it.
    pub fn apply_commit(&mut self, content: &[u8]) -> (ok: bool)
        requires
            old(self).wf(),
        ensures
            final(self).wf(),
            ok == !has_malformed(commit_actions(content@)),
            ok ==> final(self).model() == apply_actions(old(self).model(), commit_actions(content@)),
            !ok ==> exists|k: int|
                0 <= k < commit_actions(content@).len() && #[trigger] first_malformed(
                    commit_actions(content@),
                    k,
                ) && final(self).model() == apply_actions(
                    old(self).model(),
                    commit_actions(content@).take(k),
                ),
    {
        let ghost start = self.model();
        let ghost actions = commit_actions(content@);
        let ranges = line_ranges(content);
        let mut k: usize = 0;
        while k < ranges.len()
            invariant
                k <= ranges@.len(),
                self.wf(),
                start == old(self).model(),
                actions == commit_actions(content@),
                ranges@.len() == split_lines(content@).len(),
                forall|j: int|
                    0 <= j < ranges@.len() ==> (#[trigger] ranges@[j]).0 <= ranges@[j].1 <= content@.len()
                        && content@.subrange(ranges@[j].0 as int, ranges@[j].1 as int) == split_lines(
                        content@,
                    )[j],
                self.model() == apply_actions(start, actions.take(k as int)),
                forall|j: int| 0 <= j < k ==> !(actions[j] is Malformed),
            decreases ranges.len() - k,
        {
            let range = ranges[k];
            let line = slice_subrange(content, range.0, range.1);
            let action = parse_action(line);
            assert(action.deep_view() == actions[k as int]);
            let bad = match &action {
                Action::Malformed => true,
                _ => false,
            };
            if bad {
                assert(actions.len() == ranges@.len());
                assert(first_malformed(actions, k as int));
                assert(self.model() == apply_actions(start, actions.take(k as int)));
                return false;
            }
            self.apply(action);
            proof {
                assert(actions.take(k + 1).drop_last() =~= actions.take(k as int));
            }
            k += 1;
        }
        assert(actions.take(k as int) =~= actions);
        true
    }

    /// The active files, in ascending order of path.
    pub fn into_entries(self) -> (r: Vec<(String, FileEntry)>)
        ensures
            r.deep_view() == self.model(),
    {
        let ghost m = self.files.model();
        let r = self.files.into_entries();
        assert(r.deep_view() =~= m);
        r
    }
}

/// The requested version as a mathematical integer.
pub open spec fn target_model(version: Option<i64>) -> Option<int> {
    match version {
        Some(v) => Some(v as int),
        None => None,
    }
}

/// Whether replay to `target` reads the file called `name`: it is a commit
/// file, and its version is not above the target.
pub open spec fn selected(name: Seq<char>, target: Option<int>) -> bool {
    match spec_commit_version(name) {
        Some(v) => match target {
            Some(t) => v <= t,
            None => true,
        },
        None => false,
    }
}

/// The rank by which the files of a log are ordered: the version of a commit
/// file, zero for any other file.
pub open spec fn sort_keys(log: Seq<CommitFile>) -> Seq<int> {
    Seq::new(
        log.len(),
        |i: int|
            match spec_commit_version(log[i].name@) {
                Some(v) => v as int,
                None => 0,
            },
    )
}

/// The positions of the log's files in ascending order of version.
pub open spec fn replay_order(log: Seq<CommitFile>) -> Seq<int> {
    stable_order(sort_keys(log))
}

/// The active files after the first `n` files of the log, in version order,
/// have been read up to `target`.
pub open spec fn replay_upto(log: Seq<CommitFile>, target: Option<int>, n: nat) -> ActiveModel
    decreases n,
{
    if n == 0 {
        Seq::empty()
    } else {
        let before = replay_upto(log, target, (n - 1) as nat);
        let i = replay_order(log)[n - 1];
        if selected(log[i].name@, target) {
            apply_actions(before, commit_actions(log[i].content@))
        } else {
            before
        }
    }
}

/// The active files at `target`: the commits at or below it, applied in
/// ascending order of version, each line by line.
pub open spec fn spec_replay(log: Seq<CommitFile>, target: Option<int>) -> ActiveModel {
    replay_upto(log, target, log.len())
}

/// Some commit that replay to `target` reads holds a malformed action.
pub open spec fn malformed_log(log: Seq<CommitFile>, target: Option<int>) -> bool {
    exists|i: int|
        0 <= i < log.len() && selected((#[trigger] log[i]).name@, target) && has_malformed(
            commit_actions(log[i].content@),
        )
}

/// The log holds a commit of version `v`.
pub open spec fn has_version(log: Seq<CommitFile>, v: int) -> bool {
    exists|j: int| 0 <= j < log.len() && spec_commit_version((#[trigger] log[j]).name@) == Some(v as nat)
        && v >= 0
}

/// The log reaches `target` without a gap: the commit of that version is
/// there, and so is the successor of every commit below it.
pub open spec fn log_complete(log: Seq<CommitFile>, target: int) -> bool {
    &&& has_version(log, target)
    &&& forall|j: int|
        0 <= j < log.len() ==> match spec_commit_version((#[trigger] log[j]).name@) {
            Some(v) => v < target ==> has_version(log, (v + 1) as int),
            None => true,
        }
}

/// A log that reaches `target` without a gap holds every version from any
/// of its commits up to `target`.
pub proof fn lemma_complete_covers(log: Seq<CommitFile>, target: int, u: int, v: int)
    requires
        log_complete(log, target),
        has_version(log, u),
        u <= v <= target,
    ensures
        has_version(log, v),
    decreases v - u,
{
    if u < v {
        lemma_complete_covers(log, target, u, v - 1);
        let j = choose|j: int|
            0 <= j < log.len() && spec_commit_version((#[trigger] log[j]).name@) == Some((v - 1) as nat) && v
                - 1 >= 0;
        assert(spec_commit_version(log[j].name@) is Some);
    }
}

/// Replay to `target` fails for want of a commit.
pub open spec fn log_gap(log: Seq<CommitFile>, target: Option<int>) -> bool {
    match target {
        Some(t) => !log_complete(log, t),
        None => false,
    }
}

/// Replay gives each path once, the paths in ascending order, and with each
/// its partition values sorted.
pub proof fn lemma_replay_ascending(log: Seq<CommitFile>, target: Option<int>, n: nat)
    ensures
        keys_ascending::<String, EntryModel>(replay_upto(log, target, n)),
        entries_sorted(replay_upto(log, target, n)),
    decreases n,
{
    if n > 0 {
        lemma_replay_ascending(log, target, (n - 1) as nat);
        let i = replay_order(log)[n - 1];
        let actions = commit_actions(log[i].content@);
        lemma_apply_actions_ascending(replay_upto(log, target, (n - 1) as nat), actions);
        assert forall|k: int| 0 <= k < actions.len() implies action_sorted(#[trigger] actions[k]) by {
            lemma_line_action_sorted(split_lines(log[i].content@)[k]);
        }
        lemma_apply_actions_sorted(replay_upto(log, target, (n - 1) as nat), actions);
    }
}

/// What an action does to `path`: `Some(true)` where it adds it,
/// `Some(false)` where it removes it, `None` where it leaves it alone.
pub open spec fn touches(a: ActionModel, path: Seq<char>) -> Option<bool> {
    match a {
        ActionModel::Add { path: p, .. } => if p == path {
            Some(true)
        } else {
            None
        },
        ActionModel::Remove { path: p } => if p == path {
            Some(false)
        } else {
            None
        },
        _ => None,
    }
}

/// What the last of `actions` that touches `path` does to it.
pub open spec fn last_touch(actions: Seq<ActionModel>, path: Seq<char>) -> Option<bool>
    decreases actions.len(),
{
    if actions.len() == 0 {
        None
    } else {
        match touches(actions.last(), path) {
            Some(added) => Some(added),
            None => last_touch(actions.drop_last(), path),
        }
    }
}

/// Whether `path` is among the active files `s`.
pub open spec fn is_active(s: ActiveModel, path: Seq<char>) -> bool {
    spec_get::<String, EntryModel>(s, path) is Some
}

/// After a sequence of actions a path is active exactly where the last
/// action that touches it adds it; where none touches it, it is as before.
pub proof fn lemma_last_touch_decides(s: ActiveModel, actions: Seq<ActionModel>, path: Seq<char>)
    requires
        keys_ascending::<String, EntryModel>(s),
    ensures
        is_active(apply_actions(s, actions), path) == match last_touch(actions, path) {
            Some(added) => added,
            None => is_active(s, path),
        },
    decreases actions.len(),
{
    if actions.len() > 0 {
        let t = apply_actions(s, actions.drop_last());
        lemma_last_touch_decides(s, actions.drop_last(), path);
        lemma_apply_actions_ascending(s, actions.drop_last());
        match actions.last() {
            ActionModel::Add { path: p, entry } => {
                crate::sorted_map::lemma_get_after_put::<String, EntryModel>(
                    t,
                    p,
                    merged_entry(spec_get::<String, EntryModel>(t, p), entry),
                    path,
                );
            },
            ActionModel::Remove { path: p } => {
                crate::sorted_map::lemma_get_after_remove::<String, EntryModel>(t, p, path);
            },
            _ => {},
        }
    }
}

/// Applying two sequences of actions one after the other is applying them
/// joined.
pub proof fn lemma_apply_joined(s: ActiveModel, a: Seq<ActionModel>, b: Seq<ActionModel>)
    ensures
        apply_actions(s, a + b) == apply_actions(apply_actions(s, a), b),
    decreases b.len(),
{
    if b.len() == 0 {
        assert(a + b =~= a);
    } else {
        lemma_apply_joined(s, a, b.drop_last());
        assert((a + b).drop_last() =~= a + b.drop_last());
        assert((a + b).last() == b.last());
    }
}

/// The actions that replay to `target` applies from the first `n` files of
/// the log in version order, in the order it applies them.
pub open spec fn log_actions_upto(log: Seq<CommitFile>, target: Option<int>, n: nat) -> Seq<ActionModel>
    decreases n,
{
    if n == 0 {
        Seq::empty()
    } else {
        let before = log_actions_upto(log, target, (n - 1) as nat);
        let i = replay_order(log)[n - 1];
        if selected(log[i].name@, target) {
            before + commit_actions(log[i].content@)
        } else {
            before
        }
    }
}

/// The actions that replay to `target` applies, in the order it applies
/// them.
pub open spec fn log_actions(log: Seq<CommitFile>, target: Option<int>) -> Seq<ActionModel> {
    log_actions_upto(log, target, log.len())
}

/// Replay is the application of the log's actions in order, starting from
/// nothing.
pub proof fn lemma_replay_applies(log: Seq<CommitFile>, target: Option<int>, n: nat)
    ensures
        replay_upto(log, target, n) == apply_actions(Seq::empty(), log_actions_upto(log, target, n)),
    decreases n,
{
    if n > 0 {
        lemma_replay_applies(log, target, (n - 1) as nat);
        let i = replay_order(log)[n - 1];
        if selected(log[i].name@, target) {
            lemma_apply_joined(
                Seq::empty(),
                log_actions_upto(log, target, (n - 1) as nat),
                commit_actions(log[i].content@),
            );
        }
    }
}

/// A path is among the active files at `target` exactly where the last
/// action on it, in the commits up to `target`, adds it. So a path that was
/// added and later removed is gone, and one that was added again after that
/// is back.
pub proof fn lemma_active_iff_last_add(log: Seq<CommitFile>, target: Option<int>, path: Seq<char>)
    ensures
        is_active(spec_replay(log, target), path) <==> last_touch(log_actions(log, target), path) == Some(
            true,
        ),
        is_active(spec_replay(log, target), path) <==> exists|i: int|
            0 <= i < spec_replay(log, target).len() && (#[trigger] spec_replay(log, target)[i]).0 == path,
{
    lemma_replay_applies(log, target, log.len());
    lemma_last_touch_decides(Seq::empty(), log_actions(log, target), path);
    lemma_replay_ascending(log, target, log.len());
    crate::sorted_map::lemma_get_is_entry::<String, EntryModel>(spec_replay(log, target), path);
    crate::sorted_map::lemma_lower_bound_range::<String, EntryModel>(Seq::empty(), path);
}

/// A commit of version `v` that replay reads stands among the first `k`
/// files in version order.
spec fn seen(log: Seq<CommitFile>, target: Option<int>, k: int, v: int) -> bool {
    exists|b: int|
        0 <= b < k && b < log.len() && selected(log[replay_order(log)[b]].name@, target)
            && #[trigger] sort_keys(log)[replay_order(log)[b]] == v
}

/// Ranks, and for each file whether replay reads it.
fn rank_files(log: &Vec<CommitFile>, version: Option<i64>) -> (r: (Vec<i128>, Vec<bool>))
    ensures
        ranks_model(r.0@) == sort_keys(log@),
        r.0@.len() == log@.len(),
        r.1@.len() == log@.len(),
        forall|j: int|
            0 <= j < log@.len() ==> r.1@[j] == selected((#[trigger] log@[j]).name@, target_model(version)),
{
    let mut ranks: Vec<i128> = Vec::new();
    let mut chosen: Vec<bool> = Vec::new();
    let mut i: usize = 0;
    while i < log.len()
        invariant
            i <= log@.len(),
            ranks@.len() == i,
            chosen@.len() == i,
            forall|j: int| 0 <= j < i ==> ranks@[j] as int == sort_keys(log@)[j],
            forall|j: int|
                0 <= j < i ==> chosen@[j] == selected((#[trigger] log@[j]).name@, target_model(version)),
        decreases log.len() - i,
    {
        match commit_version(log[i].name.as_str()) {
            Some(v) => {
                ranks.push(v as i128);
                let take = match version {
                    Some(t) => t >= 0 && v <= t as u128,
                    None => true,
                };
                chosen.push(take);
            },
            None => {
                ranks.push(0);
                chosen.push(false);
            },
        }
        i += 1;
    }
    assert(ranks_model(ranks@) =~= sort_keys(log@));
    (ranks, chosen)
}

/// Whether the log reaches version `t` without a gap.
fn reaches(log: &Vec<CommitFile>, t: i64, ranks: &Vec<i128>, chosen: &Vec<bool>, order: &Vec<usize>) -> (r:
    bool)
    requires
        ranks_model(ranks@) == sort_keys(log@),
        ranks@.len() == log@.len(),
        chosen@.len() == log@.len(),
        order@.len() == log@.len(),
        forall|j: int|
            0 <= j < log@.len() ==> chosen@[j] == selected((#[trigger] log@[j]).name@, Some(t as int)),
        forall|k: int| 0 <= k < order@.len() ==> order@[k] as int == replay_order(log@)[k],
        forall|k: int| 0 <= k < order@.len() ==> (#[trigger] order@[k]) < log@.len(),
    ensures
        r == log_complete(log@, t as int),
{
    let ghost lg = log@;
    let ghost target = Some(t as int);
    let ghost keys = sort_keys(lg);
    let ghost o = replay_order(lg);
    proof {
        lemma_stable_order(keys);
    }
    let mut last: Option<i128> = None;
    let mut k: usize = 0;
    while k < order.len()
        invariant
            k <= order@.len(),
            lg == log@,
            target == Some(t as int),
            keys == sort_keys(lg),
            o == replay_order(lg),
            ranks_model(ranks@) == keys,
            ranks@.len() == lg.len(),
            chosen@.len() == lg.len(),
            order@.len() == lg.len(),
            o.len() == lg.len(),
            forall|j: int| 0 <= j < lg.len() ==> chosen@[j] == selected((#[trigger] lg[j]).name@, target),
            forall|j: int| 0 <= j < order@.len() ==> order@[j] as int == o[j],
            forall|j: int| 0 <= j < order@.len() ==> (#[trigger] order@[j]) < lg.len(),
            forall|a: int, b: int|
                0 <= a < b < lg.len() ==> keys[#[trigger] o[a]] <= keys[#[trigger] o[b]],
            forall|i: int| 0 <= i < lg.len() ==> #[trigger] o.contains(i),
            last matches Some(l) ==> seen(lg, target, k as int, l as int) && l <= t,
            forall|a: int|
                0 <= a < k && selected(lg[#[trigger] o[a]].name@, target) ==> last is Some && keys[o[a]]
                    <= last->Some_0 && (keys[o[a]] < last->Some_0 ==> seen(
                    lg,
                    target,
                    k as int,
                    keys[o[a]] + 1,
                )),
        decreases order.len() - k,
    {
        let i = order[k];
        assert(i as int == o[k as int]);
        if chosen[i] {
            let v = ranks[i];
            assert(v as int == keys[i as int]);
            assert(selected(lg[i as int].name@, target));
            assert(spec_commit_version(lg[i as int].name@) == Some(v as nat));
            match last {
                Some(l) => {
                    if v > l + 1 {
                        proof {
                            // the commit of version `l` has no successor in the log
                            let b = choose|b: int|
                                0 <= b < k && b < lg.len() && selected(lg[o[b]].name@, target)
                                    && #[trigger] keys[o[b]] == l as int;
                            let w = o[b];
                            assert(0 <= w < lg.len());
                            assert(spec_commit_version(lg[w].name@) == Some(l as nat));
                            if has_version(lg, l + 1) {
                                let j = choose|j: int|
                                    0 <= j < lg.len() && spec_commit_version((#[trigger] lg[j]).name@)
                                        == Some((l + 1) as nat) && l + 1 >= 0;
                                assert(o.contains(j));
                                let p = choose|p: int| 0 <= p < o.len() && o[p] == j;
                                assert(keys[j] == l + 1);
                                assert(selected(lg[j].name@, target));
                                if p < k {
                                    assert(keys[o[p]] <= l);
                                } else if p > k {
                                    assert(keys[o[k as int]] <= keys[o[p]]);
                                }
                                assert(false);
                            }
                            assert(!log_complete(lg, t as int));
                        }
                        return false;
                    }
                    proof {
                        if k > 0 {
                            let b = choose|b: int|
                                0 <= b < k && b < lg.len() && selected(lg[o[b]].name@, target)
                                    && #[trigger] keys[o[b]] == l as int;
                            assert(keys[o[b]] <= keys[o[k as int]]);
                        }
                    }
                },
                None => {},
            }
            proof {
                assert(seen(lg, target, k + 1, v as int)) by {
                    assert(keys[o[k as int]] == v);
                }
                assert forall|a: int|
                    0 <= a < k + 1 && selected(lg[#[trigger] o[a]].name@, target) implies keys[o[a]]
                    <= v && (keys[o[a]] < v ==> seen(lg, target, k + 1, keys[o[a]] + 1)) by {
                    if a < k {
                        assert(keys[o[a]] <= keys[o[k as int]]);
                        let l = last->Some_0;
                        if keys[o[a]] < v {
                            if keys[o[a]] < l {
                                let b = choose|b: int|
                                    0 <= b < k && b < lg.len() && selected(lg[o[b]].name@, target)
                                        && #[trigger] keys[o[b]] == keys[o[a]] + 1;
                                assert(keys[o[b]] == keys[o[a]] + 1);
                            } else {
                                assert(keys[o[k as int]] == keys[o[a]] + 1);
                            }
                        }
                    }
                }
            }
            last = Some(v);
        } else {
            proof {
                assert forall|a: int|
                    0 <= a < k + 1 && selected(lg[#[trigger] o[a]].name@, target) implies last is Some
                    && keys[o[a]] <= last->Some_0 && (keys[o[a]] < last->Some_0 ==> seen(
                    lg,
                    target,
                    k + 1,
                    keys[o[a]] + 1,
                )) by {
                    if keys[o[a]] < last->Some_0 {
                        let b = choose|b: int|
                            0 <= b < k && b < lg.len() && selected(lg[o[b]].name@, target)
                                && #[trigger] keys[o[b]] == keys[o[a]] + 1;
                        assert(keys[o[b]] == keys[o[a]] + 1);
                    }
                }
                if last is Some {
                    let l = last->Some_0;
                    let b = choose|b: int|
                        0 <= b < k && b < lg.len() && selected(lg[o[b]].name@, target)
                            && #[trigger] keys[o[b]] == l as int;
                    assert(keys[o[b]] == l);
                }
            }
        }
        k += 1;
    }
    let r = match last {
        Some(l) => l == t as i128,
        None => false,
    };
    proof {
        if r {
            let l = last->Some_0;
            let b = choose|b: int|
                0 <= b < k && b < lg.len() && selected(lg[o[b]].name@, target) && #[trigger] keys[o[b]]
                    == l as int;
            assert(spec_commit_version(lg[o[b]].name@) == Some(t as nat));
            assert(has_version(lg, t as int));
            assert forall|j: int| 0 <= j < lg.len() implies match spec_commit_version(
                (#[trigger] lg[j]).name@,
            ) {
                Some(v) => v < t ==> has_version(lg, (v + 1) as int),
                None => true,
            } by {
                match spec_commit_version(lg[j].name@) {
                    Some(v) => {
                        if v < t {
                            assert(o.contains(j));
                            let a = choose|a: int| 0 <= a < o.len() && o[a] == j;
                            assert(selected(lg[o[a]].name@, target));
                            assert(keys[j] == v);
                            let c = choose|c: int|
                                0 <= c < k && c < lg.len() && selected(lg[o[c]].name@, target)
                                    && #[trigger] keys[o[c]] == v + 1;
                            assert(spec_commit_version(lg[o[c]].name@) == Some((v + 1) as nat));
                        }
                    },
                    None => {},
                }
            }
        } else {
            if has_version(lg, t as int) {
                let j = choose|j: int|
                    0 <= j < lg.len() && spec_commit_version((#[trigger] lg[j]).name@) == Some(
                        t as nat,
                    ) && t >= 0;
                assert(o.contains(j));
                let a = choose|a: int| 0 <= a < o.len() && o[a] == j;
                assert(selected(lg[o[a]].name@, target));
                assert(keys[j] == t);
                assert(false);
            }
        }
    }
    r
}

/// Replays the log up to `version`, or all of it.
///
/// Only files named as commits count, in ascending order of version
/// whatever order `log` lists them in. With a target version the commits
/// above it are left out and the log must reach it without a gap.
pub fn replay(log: &Vec<CommitFile>, version: Option<i64>) -> (r: Result<
    Vec<(String, FileEntry)>,
    DeltaError,
>)
    ensures
        match r {
            Ok(entries) => !log_gap(log@, target_model(version)) && !malformed_log(
                log@,
                target_model(version),
            ) && entries.deep_view() == spec_replay(log@, target_model(version)),
            Err(DeltaError::LogGap) => log_gap(log@, target_model(version)),
            Err(DeltaError::MalformedAction) => !log_gap(log@, target_model(version))
                && malformed_log(log@, target_model(version)),
            Err(_) => false,
        },
{
    let ghost lg = log@;
    let ghost target = target_model(version);
    let (ranks, chosen) = rank_files(log, version);
    let order = sort_positions(&ranks);
    proof {
        lemma_stable_order(sort_keys(lg));
    }
    match version {
        Some(t) => {
            if !reaches(log, t, &ranks, &chosen, &order) {
                return Err(DeltaError::LogGap);
            }
        },
        None => {},
    }
    let ghost o = replay_order(lg);
    let mut set = ActiveSet::new();
    let mut k: usize = 0;
    while k < order.len()
        invariant
            k <= order@.len(),
            lg == log@,
            target == target_model(version),
            o == replay_order(lg),
            o.len() == lg.len(),
            order@.len() == lg.len(),
            chosen@.len() == lg.len(),
            !log_gap(lg, target),
            forall|j: int| 0 <= j < lg.len() ==> chosen@[j] == selected((#[trigger] lg[j]).name@, target),
            forall|j: int| 0 <= j < order@.len() ==> order@[j] as int == o[j],
            forall|j: int| 0 <= j < order@.len() ==> (#[trigger] order@[j]) < lg.len(),
            forall|i: int| 0 <= i < lg.len() ==> #[trigger] o.contains(i),
            set.wf(),
            set.model() == replay_upto(lg, target, k as nat),
            forall|a: int|
                0 <= a < k && selected(lg[#[trigger] o[a]].name@, target) ==> !has_malformed(
                    commit_actions(lg[o[a]].content@),
                ),
        decreases order.len() - k,
    {
        let i = order[k];
        assert(i as int == o[k as int]);
        if chosen[i] {
            let ok = set.apply_commit(log[i].content.as_slice());
            if !ok {
                assert(malformed_log(lg, target)) by {
                    assert(selected(lg[i as int].name@, target));
                }
                return Err(DeltaError::MalformedAction);
            }
        }
        k += 1;
    }
    proof {
        if malformed_log(lg, target) {
            let i = choose|i: int|
                0 <= i < lg.len() && selected((#[trigger] lg[i]).name@, target) && has_malformed(
                    commit_actions(lg[i].content@),
                );
            assert(o.contains(i));
            let a = choose|a: int| 0 <= a < o.len() && o[a] == i;
            assert(selected(lg[o[a]].name@, target));
            assert(false);
        }
    }
    Ok(set.into_entries())
}

} // verus!
