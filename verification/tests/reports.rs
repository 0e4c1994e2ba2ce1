use deltakit::diff::{diff_files, diff_versions, DiffReport};
use deltakit::log::CommitFile;
use deltakit::model::{load_table, AddFileLite, DeltaError};
use deltakit::reports::{
    count_values, fast_rowcount, generate_manifest, health_of_files, manifest_of_files, partition_health,
    summarize, ManifestFormat,
};
use deltakit::table::TableSnapshot;

fn commit(version: u64, lines: &[&str]) -> CommitFile {
    let mut content: Vec<u8> = Vec::new();
    for l in lines {
        content.extend_from_slice(l.as_bytes());
        content.push(b'\n');
    }
    CommitFile { name: format!("{:020}.json", version), content }
}

fn sample_table() -> TableSnapshot {
    TableSnapshot {
        root: "tbl".to_string(),
        log: vec![
            commit(0, &[
                "{\"add\":{\"path\":\"dt=2024-01-01/a.parquet\",\"size\":100,\"partitionValues\":{\"dt\":\"2024-01-01\"},\"stats\":\"{\\\"numRecords\\\":10}\"}}",
            ]),
            commit(1, &[
                "{\"remove\":{\"path\":\"dt=2024-01-01/a.parquet\"}}",
                "{\"add\":{\"path\":\"dt=2024-01-02/b.parquet\",\"size\":200,\"partitionValues\":{\"dt\":\"2024-01-02\"},\"stats\":\"{\\\"numRecords\\\":20}\"}}",
                "{\"add\":{\"path\":\"dt=2024-01-02/c.parquet\",\"size\":50,\"partitionValues\":{\"dt\":\"2024-01-02\"},\"stats\":\"{\\\"numRecords\\\":5}\"}}",
            ]),
        ],
        objects: Vec::new(),
    }
}

fn file(path: &str, size: i64, pv: &[(&str, Option<&str>)]) -> AddFileLite {
    AddFileLite {
        path: path.to_string(),
        size,
        partition_values: pv.iter().map(|(k, v)| (k.to_string(), v.map(|s| s.to_string()))).collect(),
    }
}

fn dt() -> Vec<String> {
    vec!["dt".to_string()]
}

#[test]
fn basic_cancel_diff() {
    let d = diff_versions(&sample_table(), 0, 1).unwrap();
    assert_eq!(
        d,
        DiffReport { from: 0, to: 1, files_added: 2, files_removed: 1, bytes_added: 250, bytes_removed: 100 }
    );
}

#[test]
fn basic_cancel_partition_health() {
    let h = partition_health(&sample_table(), &dt()).unwrap();
    assert_eq!(h.by, dt());
    assert_eq!(h.cardinality.len(), 1);
    assert_eq!(h.cardinality[0].key, "dt");
    assert_eq!(h.cardinality[0].distinct, 1);
    assert_eq!(h.total_files, 2);
    assert_eq!(h.empty_partitions, 0);
}

#[test]
fn diff_error_on_a_backward_range() {
    assert_eq!(diff_versions(&sample_table(), 5, 3), Err(DeltaError::InvalidRange));
    assert_eq!(diff_versions(&sample_table(), 1, 0), Err(DeltaError::InvalidRange));
}

#[test]
fn diff_of_a_version_with_itself_is_nothing() {
    for v in [0, 1] {
        let d = diff_versions(&sample_table(), v, v).unwrap();
        assert_eq!(
            d,
            DiffReport { from: v, to: v, files_added: 0, files_removed: 0, bytes_added: 0, bytes_removed: 0 }
        );
    }
}

#[test]
fn diff_beyond_the_log_is_a_gap() {
    assert_eq!(diff_versions(&sample_table(), 0, 2), Err(DeltaError::LogGap));
    assert_eq!(diff_versions(&sample_table(), 2, 3), Err(DeltaError::LogGap));
}

#[test]
fn diff_goes_by_path_not_by_size() {
    let a = vec![file("x", 1, &[]), file("y", 2, &[])];
    let b = vec![file("y", 20, &[]), file("z", 30, &[])];
    let d = diff_files(&a, &b, 3, 4);
    assert_eq!(
        d,
        DiffReport { from: 3, to: 4, files_added: 1, files_removed: 1, bytes_added: 30, bytes_removed: 1 }
    );
}

#[test]
fn diff_bytes_stay_within_sixty_four_bits() {
    let a = vec![file("a", i64::MIN, &[]), file("b", i64::MIN, &[])];
    let b = vec![file("c", i64::MAX, &[]), file("d", i64::MAX, &[])];
    let d = diff_files(&a, &b, 0, 1);
    assert_eq!(d.bytes_added, i64::MAX);
    assert_eq!(d.bytes_removed, i64::MIN);
    assert_eq!(d.files_added, 2);
    assert_eq!(d.files_removed, 2);
}

#[test]
fn rowcount_by_partition() {
    let counts = fast_rowcount(&sample_table(), &dt(), Some(1)).unwrap();
    assert_eq!(counts.len(), 1);
    assert_eq!(counts[0].group, vec![("dt".to_string(), "2024-01-02".to_string())]);
    assert_eq!(counts[0].rows, 25);
    let counts = fast_rowcount(&sample_table(), &dt(), Some(0)).unwrap();
    assert_eq!(counts[0].group, vec![("dt".to_string(), "2024-01-01".to_string())]);
    assert_eq!(counts[0].rows, 10);
}

#[test]
fn rowcount_without_columns_is_one_row() {
    let counts = fast_rowcount(&sample_table(), &Vec::new(), None).unwrap();
    assert_eq!(counts.len(), 1);
    assert!(counts[0].group.is_empty());
    assert_eq!(counts[0].rows, 25);
}

#[test]
fn rowcount_is_sorted_by_group_and_names_the_unknown() {
    let t = TableSnapshot {
        root: String::new(),
        log: vec![commit(0, &[
            "{\"add\":{\"path\":\"1\",\"size\":1,\"partitionValues\":{\"c\":\"z\",\"d\":\"1\"},\"stats\":\"{\\\"numRecords\\\":1}\"}}",
            "{\"add\":{\"path\":\"2\",\"size\":1,\"partitionValues\":{\"c\":\"a\",\"d\":\"2\"},\"stats\":\"{\\\"numRecords\\\":2}\"}}",
            "{\"add\":{\"path\":\"3\",\"size\":1,\"partitionValues\":{\"d\":\"2\"},\"stats\":\"{\\\"numRecords\\\":4}\"}}",
            "{\"add\":{\"path\":\"4\",\"size\":1,\"partitionValues\":{\"c\":null,\"d\":\"2\"},\"stats\":\"{\\\"numRecords\\\":8}\"}}",
            "{\"add\":{\"path\":\"5\",\"size\":1,\"partitionValues\":{\"c\":\"a\",\"d\":\"1\"},\"stats\":\"{\\\"numRecords\\\":16}\"}}",
            "{\"add\":{\"path\":\"6\",\"size\":1,\"partitionValues\":{\"c\":\"a\",\"d\":\"2\"},\"stats\":\"{\\\"numRecords\\\":32}\"}}",
        ])],
        objects: Vec::new(),
    };
    let by = vec!["c".to_string(), "d".to_string()];
    let counts = fast_rowcount(&t, &by, None).unwrap();
    let seen: Vec<(String, String, u64)> =
        counts.iter().map(|r| (r.group[0].1.clone(), r.group[1].1.clone(), r.rows)).collect();
    assert_eq!(
        seen,
        vec![
            ("__UNKNOWN__".to_string(), "2".to_string(), 12),
            ("a".to_string(), "1".to_string(), 16),
            ("a".to_string(), "2".to_string(), 34),
            ("z".to_string(), "1".to_string(), 1),
        ]
    );
    assert_eq!(counts[0].group[0].0, "c");
    assert_eq!(counts[0].group[1].0, "d");
}

#[test]
fn rowcount_fails_as_replay_does() {
    assert_eq!(fast_rowcount(&sample_table(), &dt(), Some(9)).err(), Some(DeltaError::LogGap));
}

#[test]
fn health_counts_values_and_empty_files() {
    let files = vec![
        file("1", 0, &[("dt", Some("a")), ("hr", Some("1"))]),
        file("2", -3, &[("dt", Some("a")), ("hr", Some("2"))]),
        file("3", 5, &[("dt", Some("b")), ("hr", None)]),
        file("4", 5, &[("dt", Some("b"))]),
        file("5", 5, &[("dt", Some("__UNKNOWN__")), ("hr", Some("1"))]),
    ];
    let by = vec!["dt".to_string(), "hr".to_string(), "nope".to_string()];
    let h = health_of_files(&files, &by);
    let seen: Vec<(String, usize)> = h.cardinality.iter().map(|c| (c.key.clone(), c.distinct)).collect();
    assert_eq!(seen, vec![("dt".to_string(), 3), ("hr".to_string(), 3), ("nope".to_string(), 1)]);
    assert_eq!(h.empty_partitions, 2);
    assert_eq!(h.total_files, 5);
    assert_eq!(count_values(&files, "dt"), 3);
    assert_eq!(count_values(&Vec::new(), "dt"), 0);
}

#[test]
fn manifest_lists_path_and_size() {
    let m = generate_manifest(&sample_table(), 1, ManifestFormat::Trino).unwrap();
    assert_eq!(m.version, 1);
    let seen: Vec<(String, i64)> = m.files.iter().map(|e| (e.path.clone(), e.size)).collect();
    assert_eq!(
        seen,
        vec![("dt=2024-01-02/b.parquet".to_string(), 200), ("dt=2024-01-02/c.parquet".to_string(), 50)]
    );
    for format in [ManifestFormat::Hive, ManifestFormat::Presto, ManifestFormat::FileList] {
        let other = generate_manifest(&sample_table(), 1, format).unwrap();
        assert_eq!(other.files.len(), 2);
        assert_eq!(other.files[0].path, m.files[0].path);
    }
    assert_eq!(generate_manifest(&sample_table(), 4, ManifestFormat::Hive).err(), Some(DeltaError::LogGap));
    assert!(manifest_of_files(&Vec::new(), 3).files.is_empty());
}

#[test]
fn a_loaded_table_is_pinned_to_no_version() {
    let h = load_table("s3://bucket/tbl");
    assert_eq!(h.uri, "s3://bucket/tbl");
    assert_eq!(h.version, None);
}

#[test]
fn summary_counts_files_bytes_and_columns() {
    let files = vec![
        file("1", 10, &[("dt", Some("a")), ("hr", Some("1"))]),
        file("2", -3, &[("dt", None)]),
        file("3", 5, &[("region", Some("eu")), ("az", Some("1"))]),
        file("4", 0, &[]),
    ];
    let s = summarize(&files);
    assert_eq!(s.files, 4);
    assert_eq!(s.bytes, 12);
    assert_eq!(s.partitions, vec!["az", "dt", "hr", "region"]);
    let s = summarize(&Vec::new());
    assert_eq!((s.files, s.bytes, s.partitions.len()), (0, 0, 0));
    let s = summarize(&vec![file("a", i64::MAX, &[]), file("b", i64::MAX, &[])]);
    assert_eq!(s.bytes, i64::MAX);
}
