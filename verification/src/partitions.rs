//! Partition values as a path encodes them.
use crate::model::{partition_sorted, PartitionModel};
use crate::sorted_map::{lemma_put_ascending, spec_put, OrderedMap};
use crate::text::{char_ranges, chars_of, first_index, lemma_first_index_is, split_on};
use vstd::prelude::*;

verus! {

/// The column and value that a path segment of the form `name=value`
/// declares, both of them non-empty.
pub open spec fn segment_pair(seg: Seq<char>) -> Option<(Seq<char>, Seq<char>)> {
    let i = first_index(seg, '=');
    if 0 < i && i + 1 < seg.len() {
        Some((seg.take(i), seg.skip(i + 1)))
    } else {
        None
    }
}

/// The partition values that the first `n` of `segments` declare, in
/// ascending order of column, a later segment replacing an earlier one of
/// the same column.
pub open spec fn partitions_upto(segments: Seq<Seq<char>>, n: nat) -> PartitionModel
    decreases n,
{
    if n == 0 {
        Seq::empty()
    } else {
        let before = partitions_upto(segments, (n - 1) as nat);
        match segment_pair(segments[n - 1]) {
            Some(pair) => spec_put::<String, Option<Seq<char>>>(before, pair.0, Some(pair.1)),
            None => before,
        }
    }
}

/// The partition values that a path declares in its segments.
pub open spec fn spec_extract_partitions(path: Seq<char>) -> PartitionModel {
    partitions_upto(split_on(path, '/'), split_on(path, '/').len())
}

/// The partition values read from segments name each column once, in
/// ascending order.
pub proof fn lemma_partitions_sorted(segments: Seq<Seq<char>>, n: nat)
    ensures
        partition_sorted(partitions_upto(segments, n)),
    decreases n,
{
    if n > 0 {
        lemma_partitions_sorted(segments, (n - 1) as nat);
        match segment_pair(segments[n - 1]) {
            Some(pair) => {
                lemma_put_ascending::<String, Option<Seq<char>>>(
                    partitions_upto(segments, (n - 1) as nat),
                    pair.0,
                    Some(pair.1),
                );
            },
            None => {},
        }
    }
}

/// The partition values that `path` declares: one for each of its segments
/// of the form `name=value`, sorted by name.
pub fn extract_partitions_from_path(path: &str) -> (r: Vec<(String, Option<String>)>)
    ensures
        r.deep_view() == spec_extract_partitions(path@),
        partition_sorted(r.deep_view()),
{
    proof {
        lemma_partitions_sorted(split_on(path@, '/'), split_on(path@, '/').len());
    }
    let cs = chars_of(path);
    let ranges = char_ranges(&cs, '/');
    let ghost segments = split_on(path@, '/');
    let mut map: OrderedMap<String, Option<String>> = OrderedMap::new();
    let mut k: usize = 0;
    while k < ranges.len()
        invariant
            k <= ranges@.len(),
            cs@ == path@,
            segments == split_on(path@, '/'),
            ranges@.len() == segments.len(),
            forall|j: int|
                0 <= j < ranges@.len() ==> (#[trigger] ranges@[j]).0 <= ranges@[j].1 <= cs@.len() && cs@.subrange(
                    ranges@[j].0 as int,
                    ranges@[j].1 as int,
                ) == segments[j],
            map.wf(),
            map.model() == partitions_upto(segments, k as nat),
        decreases ranges.len() - k,
    {
        let a = ranges[k].0;
        let b = ranges[k].1;
        let ghost seg = segments[k as int];
        assert(seg == cs@.subrange(a as int, b as int));
        let mut i: usize = a;
        while i < b && cs[i] != '='
            invariant
                a <= i <= b <= cs@.len(),
                seg == cs@.subrange(a as int, b as int),
                forall|j: int| a <= j < i ==> cs@[j] != '=',
            decreases b - i,
        {
            i += 1;
        }
        proof {
            assert forall|j: int| 0 <= j < i - a implies seg[j] != '=' by {
                assert(seg[j] == cs@[a + j]);
            }
            lemma_first_index_is(seg, '=', i - a);
        }
        if a < i && i < b && b - i > 1 {
            let key = path.substring_char(a, i).to_owned();
            let value = path.substring_char(i + 1, b).to_owned();
            proof {
                assert(seg.take(i - a) =~= path@.subrange(a as int, i as int));
                assert(seg.skip(i - a + 1) =~= path@.subrange(i + 1, b as int));
            }
            map.put(key, Some(value));
        }
        k += 1;
    }
    let ghost model = map.model();
    let r = map.into_entries();
    assert(r.deep_view() =~= model);
    r
}

} // verus!
