use deltakit::compaction::{pack_files, CompactionPlan};
use deltakit::model::AddFileLite;

const MB: i64 = 1024 * 1024;

fn file(path: &str, size: i64, dt: Option<&str>) -> AddFileLite {
    let partition_values = match dt {
        Some(v) => vec![("dt".to_string(), Some(v.to_string()))],
        None => Vec::new(),
    };
    AddFileLite { path: path.to_string(), size, partition_values }
}

fn sizes(plan: &CompactionPlan) -> Vec<Vec<i64>> {
    plan.groups.iter().map(|g| g.input_files.iter().map(|f| f.size).collect()).collect()
}

fn by_dt() -> Vec<String> {
    vec!["dt".to_string()]
}

#[test]
fn compaction_pack_nine_files() {
    let files: Vec<AddFileLite> = [90, 10, 50, 20, 70, 30, 60, 40, 80]
        .iter()
        .map(|s| file(&format!("dt=1/{}.parquet", s), s * MB, Some("1")))
        .collect();
    let plan = pack_files(&files, 100, &by_dt());
    assert_eq!(plan.target_file_size_bytes, 104857600);
    // 10+20+30+40 fill a bucket to the target; every later file overflows
    // the bucket before it and ends up alone
    assert_eq!(sizes(&plan), vec![vec![10 * MB, 20 * MB, 30 * MB, 40 * MB]]);
    assert_eq!(plan.groups[0].total_input_bytes, 104857600);
    assert_eq!(plan.estimated_io_bytes, 104857600);
    assert_eq!(plan.groups[0].partition, vec![("dt".to_string(), "1".to_string())]);
    for g in &plan.groups {
        assert!(g.input_files.len() >= 2);
    }
}

#[test]
fn several_buckets_in_one_partition() {
    let files: Vec<AddFileLite> =
        [30, 30, 30, 30, 30, 30, 30].iter().enumerate().map(|(i, s)| file(&format!("f{}", i), s * MB, Some("1"))).collect();
    let plan = pack_files(&files, 100, &by_dt());
    assert_eq!(sizes(&plan), vec![vec![30 * MB; 3], vec![30 * MB; 3]]);
    assert_eq!(plan.estimated_io_bytes, 180 * MB as u64);
    let names: Vec<&str> = plan.groups[0].input_files.iter().map(|f| f.path.as_str()).collect();
    assert_eq!(names, vec!["f0", "f1", "f2"]);
}

#[test]
fn no_group_has_a_single_file_and_none_exceeds_the_target() {
    let files: Vec<AddFileLite> = (0..40)
        .map(|i| file(&format!("f{:02}", i), ((i * 37) % 23 + 1) * MB, Some(if i % 3 == 0 { "a" } else { "b" })))
        .collect();
    let plan = pack_files(&files, 32, &by_dt());
    assert!(!plan.groups.is_empty());
    let mut io: u64 = 0;
    for g in &plan.groups {
        assert!(g.input_files.len() >= 2);
        let total: u64 = g.input_files.iter().map(|f| f.size as u64).sum();
        assert_eq!(g.total_input_bytes, total);
        assert!(total <= plan.target_file_size_bytes);
        let largest = g.input_files.iter().map(|f| f.size as u64).max().unwrap();
        assert!(total - largest <= plan.target_file_size_bytes);
        let mut sorted: Vec<i64> = g.input_files.iter().map(|f| f.size).collect();
        sorted.sort();
        assert_eq!(sorted, g.input_files.iter().map(|f| f.size).collect::<Vec<i64>>());
        io += total;
    }
    assert_eq!(plan.estimated_io_bytes, io);
}

#[test]
fn partitions_are_packed_apart_in_order_of_their_values() {
    let files = vec![
        file("dt=b/1", 1, Some("b")),
        file("dt=a/1", 2, Some("a")),
        file("x/1", 3, None),
        file("dt=b/2", 4, Some("b")),
        file("dt=a/2", 5, Some("a")),
        file("x/2", 6, None),
    ];
    let plan = pack_files(&files, 1, &by_dt());
    let partitions: Vec<String> = plan.groups.iter().map(|g| g.partition[0].1.clone()).collect();
    assert_eq!(partitions, vec!["__UNKNOWN__", "a", "b"]);
    assert_eq!(sizes(&plan), vec![vec![3, 6], vec![2, 5], vec![1, 4]]);
    assert_eq!(plan.partition_by, by_dt());
}

#[test]
fn null_partition_value_counts_as_unknown() {
    let mut a = file("a", 1, None);
    a.partition_values = vec![("dt".to_string(), None)];
    let b = file("b", 1, None);
    let plan = pack_files(&vec![a, b], 1, &by_dt());
    assert_eq!(plan.groups.len(), 1);
    assert_eq!(plan.groups[0].partition, vec![("dt".to_string(), "__UNKNOWN__".to_string())]);
}

#[test]
fn without_columns_all_files_are_one_partition() {
    let files = vec![file("a", 1, Some("1")), file("b", 1, Some("2")), file("c", 1, None)];
    let plan = pack_files(&files, 1, &Vec::new());
    assert_eq!(plan.groups.len(), 1);
    assert_eq!(plan.groups[0].input_files.len(), 3);
    assert!(plan.groups[0].partition.is_empty());
}

#[test]
fn negative_sizes_count_for_nothing() {
    let files = vec![file("a", -5, Some("1")), file("b", -7, Some("1")), file("c", 4, Some("1"))];
    let plan = pack_files(&files, 1, &by_dt());
    assert_eq!(sizes(&plan), vec![vec![-7, -5, 4]]);
    assert_eq!(plan.groups[0].total_input_bytes, 4);
}

#[test]
fn zero_target_pairs_only_empty_files() {
    let files = vec![file("a", 0, Some("1")), file("b", 0, Some("1")), file("c", 1, Some("1")), file("d", 1, Some("1"))];
    let plan = pack_files(&files, 0, &by_dt());
    assert_eq!(plan.target_file_size_bytes, 0);
    assert_eq!(sizes(&plan), vec![vec![0, 0]]);
}

#[test]
fn huge_target_stops_at_the_greatest_number() {
    let files = vec![file("a", i64::MAX, Some("1")), file("b", i64::MAX, Some("1")), file("c", i64::MAX, Some("1"))];
    let plan = pack_files(&files, u64::MAX, &by_dt());
    assert_eq!(plan.target_file_size_bytes, u64::MAX);
    assert_eq!(sizes(&plan), vec![vec![i64::MAX, i64::MAX]]);
    assert_eq!(plan.groups[0].total_input_bytes, 2 * (i64::MAX as u64));
}

#[test]
fn no_files_no_groups() {
    let plan = pack_files(&Vec::new(), 10, &by_dt());
    assert!(plan.groups.is_empty());
    assert_eq!(plan.estimated_io_bytes, 0);
}
