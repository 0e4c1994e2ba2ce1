use deltakit::log::CommitFile;
use deltakit::model::{AddFileLite, DeltaError};
use deltakit::table::{ObjectMeta, TableSnapshot};
use deltakit::vacuum::{vacuum_dry_run, vacuum_files, VacuumReport};

fn commit(version: u64, lines: &[&str]) -> CommitFile {
    let mut content: Vec<u8> = Vec::new();
    for l in lines {
        content.extend_from_slice(l.as_bytes());
        content.push(b'\n');
    }
    CommitFile { name: format!("{:020}.json", version), content }
}

fn object(location: &str) -> ObjectMeta {
    ObjectMeta { location: location.to_string(), size: 0 }
}

fn sample_table(root: &str, objects: &[&str]) -> TableSnapshot {
    TableSnapshot {
        root: root.to_string(),
        log: vec![
            commit(0, &["{\"add\":{\"path\":\"dt=2024-01-01/a.parquet\",\"size\":100,\"partitionValues\":{\"dt\":\"2024-01-01\"}}}"]),
            commit(1, &[
                "{\"remove\":{\"path\":\"dt=2024-01-01/a.parquet\"}}",
                "{\"add\":{\"path\":\"dt=2024-01-02/b.parquet\",\"size\":200,\"partitionValues\":{\"dt\":\"2024-01-02\"}}}",
                "{\"add\":{\"path\":\"dt=2024-01-02/c.parquet\",\"size\":50,\"partitionValues\":{\"dt\":\"2024-01-02\"}}}",
            ]),
        ],
        objects: objects.iter().map(|l| object(l)).collect(),
    }
}

fn file(path: &str) -> AddFileLite {
    AddFileLite { path: path.to_string(), size: 1, partition_values: Vec::new() }
}

#[test]
fn vacuum_finds_the_orphan() {
    let t = sample_table(
        "data/tbl",
        &[
            "data/tbl/_delta_log/00000000000000000000.json",
            "data/tbl/_delta_log/00000000000000000001.json",
            "data/tbl/dt=2024-01-02/b.parquet",
            "data/tbl/dt=2024-01-02/c.parquet",
            "data/tbl/orphan/x.parquet",
        ],
    );
    assert_eq!(
        vacuum_dry_run(&t, 7),
        Ok(VacuumReport { referenced_files: 2, existing_files: 3, orphans: 1, safe: false })
    );
}

#[test]
fn vacuum_is_safe_without_orphans() {
    let t = sample_table(
        "data/tbl",
        &[
            "data/tbl/_delta_log/00000000000000000000.json",
            "data/tbl/dt=2024-01-02/b.parquet",
            "data/tbl/dt=2024-01-02/c.parquet",
        ],
    );
    assert_eq!(
        vacuum_dry_run(&t, 0),
        Ok(VacuumReport { referenced_files: 2, existing_files: 2, orphans: 0, safe: true })
    );
}

#[test]
fn a_referenced_file_that_is_missing_is_no_orphan() {
    let t = sample_table("data/tbl", &["data/tbl/dt=2024-01-02/b.parquet"]);
    assert_eq!(
        vacuum_dry_run(&t, 7),
        Ok(VacuumReport { referenced_files: 2, existing_files: 1, orphans: 0, safe: true })
    );
}

#[test]
fn the_root_itself_and_the_log_do_not_count() {
    let t = sample_table(
        "data/tbl",
        &[
            "data/tbl",
            "data/tbl/",
            "data/tbl//",
            "data/tbl/_delta_log/_last_checkpoint",
            "data/tbl/_delta_log/00000000000000000001.checkpoint.parquet",
            "data/tbl/_delta_logs/keep",
            "data/tbl/dt=2024-01-02/b.parquet",
        ],
    );
    assert_eq!(
        vacuum_dry_run(&t, 7),
        Ok(VacuumReport { referenced_files: 2, existing_files: 2, orphans: 1, safe: false })
    );
}

#[test]
fn locations_outside_the_root_are_taken_whole() {
    let t = sample_table("data/tbl", &["/elsewhere/x", "dt=2024-01-02/b.parquet"]);
    assert_eq!(
        vacuum_dry_run(&t, 7),
        Ok(VacuumReport { referenced_files: 2, existing_files: 2, orphans: 1, safe: false })
    );
}

#[test]
fn objects_listed_twice_count_once() {
    let listing = vec![
        ("a".to_string(), 1),
        ("stray".to_string(), 1),
        ("a".to_string(), 1),
        ("stray".to_string(), 2),
        ("other".to_string(), 1),
    ];
    let files = vec![file("a"), file("b"), file("a")];
    assert_eq!(
        vacuum_files(&files, &listing),
        VacuumReport { referenced_files: 2, existing_files: 3, orphans: 2, safe: false }
    );
}

#[test]
fn orphans_are_the_existing_less_the_referenced() {
    let names: Vec<String> = (0..30).map(|i| format!("f{:02}", i)).collect();
    let files: Vec<AddFileLite> = names.iter().filter(|n| n.as_bytes()[2] % 2 == 0).map(|n| file(n)).collect();
    let listing: Vec<(String, i64)> = names.iter().filter(|n| n.as_bytes()[2] % 3 != 0).map(|n| (n.clone(), 1)).collect();
    let r = vacuum_files(&files, &listing);
    let expected = listing.iter().filter(|(n, _)| !files.iter().any(|f| &f.path == n)).count();
    assert_eq!(r.referenced_files, files.len());
    assert_eq!(r.existing_files, listing.len());
    assert_eq!(r.orphans, expected);
    assert_eq!(r.safe, expected == 0);
}

#[test]
fn vacuum_fails_as_replay_does() {
    let mut t = sample_table("data/tbl", &[]);
    t.log.push(commit(2, &["{\"add\":{}}"]));
    assert_eq!(vacuum_dry_run(&t, 7), Err(DeltaError::MalformedAction));
}
