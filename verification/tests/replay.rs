use deltakit::log::{commit_version, line_ranges, CommitFile};
use deltakit::model::DeltaError;
use deltakit::replay::{replay, ActiveSet};
use deltakit::table::{current_version, list_active_files, ObjectMeta, TableSnapshot};

fn commit(version: u64, lines: &[String]) -> CommitFile {
    let mut content: Vec<u8> = Vec::new();
    for l in lines {
        content.extend_from_slice(l.as_bytes());
        content.push(b'\n');
    }
    CommitFile { name: format!("{:020}.json", version), content }
}

fn protocol_action() -> String {
    "{\"protocol\":{\"minReaderVersion\":1,\"minWriterVersion\":2}}".to_string()
}

fn metadata_action() -> String {
    "{\"metaData\":{\"id\":\"00000000-0000-0000-0000-000000000000\",\"format\":{\"provider\":\"parquet\",\"options\":{}},\"partitionColumns\":[\"dt\"],\"configuration\":{},\"createdTime\":0}}".to_string()
}

fn add_action(path: &str, size: i64, part_key: &str, part_val: &str, num_records: u64) -> String {
    let stats = format!("{{\\\"numRecords\\\":{}}}", num_records);
    format!(
        "{{\"add\":{{\"path\":\"{}\",\"size\":{},\"partitionValues\":{{\"{}\":\"{}\"}},\"modificationTime\":0,\"dataChange\":true,\"stats\":\"{}\"}}}}",
        path, size, part_key, part_val, stats
    )
}

fn remove_action(path: &str) -> String {
    format!("{{\"remove\":{{\"path\":\"{}\",\"deletionTimestamp\":0,\"dataChange\":true}}}}", path)
}

fn table(log: Vec<CommitFile>) -> TableSnapshot {
    TableSnapshot { root: String::from("tbl"), log, objects: Vec::new() }
}

fn two_commits() -> TableSnapshot {
    table(vec![
        commit(0, &[
            protocol_action(),
            metadata_action(),
            add_action("dt=2024-01-01/a.parquet", 100, "dt", "2024-01-01", 10),
        ]),
        commit(1, &[
            remove_action("dt=2024-01-01/a.parquet"),
            add_action("dt=2024-01-02/b.parquet", 200, "dt", "2024-01-02", 20),
            add_action("dt=2024-01-02/c.parquet", 50, "dt", "2024-01-02", 5),
        ]),
    ])
}

fn paths(t: &TableSnapshot, version: Option<i64>) -> Vec<String> {
    list_active_files(t, version).unwrap().into_iter().map(|f| f.path).collect()
}

#[test]
fn basic_cancel_leaves_b_and_c() {
    let t = two_commits();
    let files = list_active_files(&t, Some(1)).unwrap();
    assert_eq!(files.len(), 2);
    assert_eq!(files[0].path, "dt=2024-01-02/b.parquet");
    assert_eq!(files[0].size, 200);
    assert_eq!(files[0].partition_values, vec![("dt".to_string(), Some("2024-01-02".to_string()))]);
    assert_eq!(files[1].path, "dt=2024-01-02/c.parquet");
    assert_eq!(files[1].size, 50);
}

#[test]
fn version_zero_holds_only_a() {
    let t = two_commits();
    let files = list_active_files(&t, Some(0)).unwrap();
    assert_eq!(files.len(), 1);
    assert_eq!(files[0].path, "dt=2024-01-01/a.parquet");
    assert_eq!(files[0].size, 100);
}

#[test]
fn head_of_log_is_replayed_without_a_version() {
    let t = two_commits();
    assert_eq!(paths(&t, None), paths(&t, Some(1)));
}

#[test]
fn replay_twice_gives_the_same_files() {
    let t = two_commits();
    let a = list_active_files(&t, Some(1)).unwrap();
    let b = list_active_files(&t, Some(1)).unwrap();
    assert_eq!(format!("{:?}", a), format!("{:?}", b));
}

#[test]
fn removed_path_is_absent_and_readded_path_is_back() {
    let t = table(vec![
        commit(0, &[add_action("p/a.parquet", 1, "p", "x", 1)]),
        commit(1, &[remove_action("p/a.parquet")]),
        commit(2, &[add_action("p/a.parquet", 7, "p", "y", 1)]),
    ]);
    assert_eq!(paths(&t, Some(0)), vec!["p/a.parquet".to_string()]);
    assert!(paths(&t, Some(1)).is_empty());
    let back = list_active_files(&t, Some(2)).unwrap();
    assert_eq!(back.len(), 1);
    assert_eq!(back[0].size, 7);
    assert_eq!(back[0].partition_values, vec![("p".to_string(), Some("y".to_string()))]);
}

#[test]
fn commits_are_applied_in_version_order_whatever_the_listing_order() {
    let forward = two_commits();
    let mut log = forward.log.clone();
    log.reverse();
    let backward = table(log);
    assert_eq!(paths(&forward, Some(1)), paths(&backward, Some(1)));
}

#[test]
fn actions_within_a_commit_apply_in_file_order() {
    let t = table(vec![commit(0, &[
        add_action("a", 1, "k", "v", 0),
        remove_action("a"),
        add_action("b", 2, "k", "v", 0),
        remove_action("b"),
        add_action("b", 3, "k", "v", 0),
    ])]);
    let files = list_active_files(&t, Some(0)).unwrap();
    assert_eq!(files.len(), 1);
    assert_eq!(files[0].path, "b");
    assert_eq!(files[0].size, 3);
}

#[test]
fn output_is_sorted_by_path() {
    let t = table(vec![commit(0, &[
        add_action("z", 1, "k", "v", 0),
        add_action("b/2", 1, "k", "v", 0),
        add_action("a", 1, "k", "v", 0),
        add_action("b", 1, "k", "v", 0),
        add_action("B", 1, "k", "v", 0),
    ])]);
    assert_eq!(paths(&t, None), vec!["B", "a", "b", "b/2", "z"]);
}

#[test]
fn removing_an_absent_path_is_ignored() {
    let t = table(vec![commit(0, &[remove_action("nowhere"), add_action("a", 1, "k", "v", 0)])]);
    assert_eq!(paths(&t, Some(0)), vec!["a".to_string()]);
}

#[test]
fn requested_version_beyond_the_log_is_a_gap() {
    let t = two_commits();
    assert_eq!(list_active_files(&t, Some(2)).err(), Some(DeltaError::LogGap));
    assert_eq!(list_active_files(&t, Some(-1)).err(), Some(DeltaError::LogGap));
}

#[test]
fn missing_commit_below_the_version_is_a_gap() {
    let t = table(vec![
        commit(0, &[add_action("a", 1, "k", "v", 0)]),
        commit(2, &[add_action("b", 1, "k", "v", 0)]),
    ]);
    assert_eq!(list_active_files(&t, Some(2)).err(), Some(DeltaError::LogGap));
    assert_eq!(paths(&t, Some(0)), vec!["a".to_string()]);
    assert_eq!(paths(&t, None), vec!["a".to_string(), "b".to_string()]);
}

#[test]
fn truncated_log_replays_from_its_first_commit() {
    let t = table(vec![
        commit(5, &[add_action("a", 1, "k", "v", 0)]),
        commit(6, &[add_action("b", 1, "k", "v", 0)]),
    ]);
    assert_eq!(paths(&t, Some(6)), vec!["a".to_string(), "b".to_string()]);
    assert_eq!(list_active_files(&t, Some(4)).err(), Some(DeltaError::LogGap));
}

#[test]
fn empty_log_has_no_files_and_no_version() {
    let t = table(Vec::new());
    assert!(paths(&t, None).is_empty());
    assert_eq!(list_active_files(&t, Some(0)).err(), Some(DeltaError::LogGap));
    assert_eq!(current_version(&t), Err(DeltaError::LogGap));
}

#[test]
fn add_without_path_is_malformed() {
    let t = table(vec![commit(0, &["{\"add\":{\"size\":3}}".to_string()])]);
    assert_eq!(list_active_files(&t, Some(0)).err(), Some(DeltaError::MalformedAction));
    let t = table(vec![commit(0, &["{\"remove\":{\"dataChange\":true}}".to_string()])]);
    assert_eq!(list_active_files(&t, None).err(), Some(DeltaError::MalformedAction));
}

#[test]
fn malformed_action_above_the_version_does_no_harm() {
    let t = table(vec![
        commit(0, &[add_action("a", 1, "k", "v", 0)]),
        commit(1, &["{\"add\":{\"size\":3}}".to_string()]),
    ]);
    assert_eq!(paths(&t, Some(0)), vec!["a".to_string()]);
    assert_eq!(list_active_files(&t, Some(1)).err(), Some(DeltaError::MalformedAction));
}

#[test]
fn gap_is_reported_before_a_malformed_action() {
    let t = table(vec![commit(0, &["{\"add\":{\"size\":3}}".to_string()])]);
    assert_eq!(list_active_files(&t, Some(3)).err(), Some(DeltaError::LogGap));
}

#[test]
fn lines_that_are_not_json_and_empty_lines_are_skipped() {
    let t = table(vec![CommitFile {
        name: format!("{:020}.json", 0),
        content: format!("\n\nnot json at all\n{}\n\n{{\"add\":\n", add_action("a", 1, "k", "v", 0)).into_bytes(),
    }]);
    assert_eq!(paths(&t, Some(0)), vec!["a".to_string()]);
}

#[test]
fn last_line_without_newline_is_read() {
    let t = table(vec![CommitFile {
        name: format!("{:020}.json", 0),
        content: add_action("a", 1, "k", "v", 0).into_bytes(),
    }]);
    assert_eq!(paths(&t, Some(0)), vec!["a".to_string()]);
}

#[test]
fn other_actions_are_recognised_and_ignored() {
    let t = table(vec![commit(0, &[
        protocol_action(),
        metadata_action(),
        "{\"commitInfo\":{\"timestamp\":0}}".to_string(),
        "{\"txn\":{\"appId\":\"x\",\"version\":1}}".to_string(),
        "{\"cdc\":{\"path\":\"_change_data/c\",\"size\":1}}".to_string(),
        "[1,2,3]".to_string(),
        "{\"add\":\"not an object\"}".to_string(),
    ])]);
    assert!(paths(&t, Some(0)).is_empty());
}

#[test]
fn files_that_are_not_commits_are_not_replayed() {
    let mut t = two_commits();
    let line = add_action("intruder", 1, "k", "v", 0);
    for name in [
        "_last_checkpoint",
        "00000000000000000001.checkpoint.parquet",
        "00000000000000000001.crc",
        "1.json",
        "0000000000000000000a.json",
        "000000000000000000001.json",
        "00000000000000000001.JSON",
    ] {
        t.log.push(CommitFile { name: name.to_string(), content: format!("{}\n", line).into_bytes() });
    }
    assert_eq!(paths(&t, Some(1)).len(), 2);
    assert_eq!(paths(&t, None).len(), 2);
    assert_eq!(current_version(&t), Ok(1));
}

#[test]
fn commit_file_names_are_twenty_digits_and_json() {
    assert_eq!(commit_version("00000000000000000000.json"), Some(0));
    assert_eq!(commit_version("00000000000000000042.json"), Some(42));
    assert_eq!(commit_version("12345678901234567890.json"), Some(12345678901234567890));
    assert_eq!(commit_version("99999999999999999999.json"), Some(99999999999999999999));
    assert_eq!(commit_version("0000000000000000042.json"), None);
    assert_eq!(commit_version("00000000000000000042.jsonl"), None);
    assert_eq!(commit_version("00000000000000000042"), None);
    assert_eq!(commit_version("0000000000000000004２.json"), None);
    assert_eq!(commit_version(""), None);
}

#[test]
fn current_version_is_the_greatest_commit() {
    assert_eq!(current_version(&two_commits()), Ok(1));
    let t = table(vec![
        commit(7, &[]),
        commit(9223372036854775807, &[]),
        commit(3, &[]),
        CommitFile { name: "99999999999999999999.json".to_string(), content: Vec::new() },
    ]);
    assert_eq!(current_version(&t), Ok(9223372036854775807));
}

#[test]
fn size_missing_from_the_log_comes_from_the_listing() {
    let mut t = table(vec![commit(0, &[
        "{\"add\":{\"path\":\"a.parquet\",\"partitionValues\":{}}}".to_string(),
        "{\"add\":{\"path\":\"b.parquet\",\"partitionValues\":{}}}".to_string(),
        "{\"add\":{\"path\":\"c.parquet\",\"size\":9,\"partitionValues\":{}}}".to_string(),
    ])]);
    t.objects = vec![
        ObjectMeta { location: "tbl/_delta_log/00000000000000000000.json".to_string(), size: 1 },
        ObjectMeta { location: "tbl/a.parquet".to_string(), size: 1234 },
        ObjectMeta { location: "tbl/c.parquet".to_string(), size: 77 },
    ];
    let files = list_active_files(&t, Some(0)).unwrap();
    assert_eq!(files[0].size, 1234);
    assert_eq!(files[1].size, 0);
    assert_eq!(files[2].size, 9);
}

#[test]
fn size_is_kept_when_a_path_is_added_again_without_one() {
    let t = table(vec![
        commit(0, &["{\"add\":{\"path\":\"a\",\"size\":5,\"partitionValues\":{\"k\":\"1\"}}}".to_string()]),
        commit(1, &["{\"add\":{\"path\":\"a\",\"partitionValues\":{\"k\":\"2\"}}}".to_string()]),
    ]);
    let files = list_active_files(&t, Some(1)).unwrap();
    assert_eq!(files.len(), 1);
    assert_eq!(files[0].size, 5);
    assert_eq!(files[0].partition_values, vec![("k".to_string(), Some("2".to_string()))]);
}

#[test]
fn partition_values_keep_null_apart_from_absent_and_are_sorted() {
    let t = table(vec![commit(0, &[
        "{\"add\":{\"path\":\"a\",\"size\":1,\"partitionValues\":{\"z\":\"1\",\"a\":null,\"m\":\"x\"}}}".to_string(),
        "{\"add\":{\"path\":\"b\",\"size\":1}}".to_string(),
    ])]);
    let files = list_active_files(&t, None).unwrap();
    assert_eq!(
        files[0].partition_values,
        vec![
            ("a".to_string(), None),
            ("m".to_string(), Some("x".to_string())),
            ("z".to_string(), Some("1".to_string())),
        ]
    );
    assert!(files[1].partition_values.is_empty());
}

#[test]
fn row_counts_are_read_from_stats() {
    let entries = replay(&two_commits().log, Some(1)).unwrap();
    assert_eq!(entries.len(), 2);
    assert_eq!(entries[0].0, "dt=2024-01-02/b.parquet");
    assert_eq!(entries[0].1.rows, 20);
    assert_eq!(entries[0].1.size, Some(200));
    assert_eq!(entries[1].1.rows, 5);
}

#[test]
fn row_count_is_zero_without_usable_stats() {
    let t = table(vec![commit(0, &[
        "{\"add\":{\"path\":\"a\",\"size\":1}}".to_string(),
        "{\"add\":{\"path\":\"b\",\"size\":1,\"stats\":\"not json\"}}".to_string(),
        "{\"add\":{\"path\":\"c\",\"size\":1,\"stats\":\"{\\\"numRecords\\\":-4}\"}}".to_string(),
        "{\"add\":{\"path\":\"d\",\"size\":1,\"stats\":\"{\\\"minValues\\\":{}}\"}}".to_string(),
        "{\"add\":{\"path\":\"e\",\"size\":1,\"stats\":{\"numRecords\":3}}}".to_string(),
    ])]);
    let entries = replay(&t.log, None).unwrap();
    assert_eq!(entries.len(), 5);
    for e in &entries {
        assert_eq!(e.1.rows, 0);
    }
}

#[test]
fn commits_can_be_applied_one_by_one() {
    let t = two_commits();
    let mut set = ActiveSet::new();
    assert!(set.apply_commit(&t.log[0].content));
    assert!(set.apply_commit(&t.log[1].content));
    let entries = set.into_entries();
    assert_eq!(entries.len(), 2);
    assert_eq!(entries[1].0, "dt=2024-01-02/c.parquet");
    let mut set = ActiveSet::new();
    assert!(!set.apply_commit(b"{\"add\":{}}\n"));
}

#[test]
fn lines_are_what_stands_between_newlines() {
    assert_eq!(line_ranges(b""), vec![(0, 0)]);
    assert_eq!(line_ranges(b"ab"), vec![(0, 2)]);
    assert_eq!(line_ranges(b"ab\n"), vec![(0, 2), (3, 3)]);
    assert_eq!(line_ranges(b"\nab\n\ncd"), vec![(0, 0), (1, 3), (4, 4), (5, 7)]);
}

#[test]
fn test_mvp_end_to_end_local() {
    let mut t = two_commits();
    t.objects = vec![
        ObjectMeta { location: "tbl/_delta_log/00000000000000000000.json".to_string(), size: 10 },
        ObjectMeta { location: "tbl/_delta_log/00000000000000000001.json".to_string(), size: 10 },
        ObjectMeta { location: "tbl/dt=2024-01-02/b.parquet".to_string(), size: 0 },
        ObjectMeta { location: "tbl/dt=2024-01-02/c.parquet".to_string(), size: 0 },
        ObjectMeta { location: "tbl/orphan/x.parquet".to_string(), size: 0 },
    ];
    let ver = current_version(&t).unwrap();
    assert_eq!(ver, 1);

    let files = list_active_files(&t, Some(ver)).unwrap();
    assert!(!files.is_empty());

    let by = vec!["dt".to_string()];
    let counts = deltakit::reports::fast_rowcount(&t, &by, Some(ver)).unwrap();
    let total_rows: u64 = counts.iter().map(|r| r.rows).sum();
    assert!(total_rows <= 25);

    let plan = deltakit::compaction::plan_compaction(&t, 1, &by).unwrap();
    assert_eq!(plan.partition_by, vec!["dt".to_string()]);

    let health = deltakit::reports::partition_health(&t, &by).unwrap();
    assert!(health.total_files >= 1);

    let diff = deltakit::diff::diff_versions(&t, 0, 1).unwrap();
    assert!(diff.files_added >= 1);

    let manifest =
        deltakit::reports::generate_manifest(&t, 1, deltakit::reports::ManifestFormat::Trino).unwrap();
    assert!(!manifest.files.is_empty());

    let vac = deltakit::vacuum::vacuum_dry_run(&t, 7).unwrap();
    assert!(vac.existing_files >= 1);
}
