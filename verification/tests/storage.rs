use deltakit::model::DeltaError;
use deltakit::partitions::extract_partitions_from_path;
use deltakit::storage::{object_path_from_url, parse_uri, parsed_from, retain_files, UrlParts};
use deltakit::table::{log_file_name, ObjectMeta};
use deltakit::text::{relative_path, starts_with, trim_slashes_of};

fn pairs(path: &str) -> Vec<(String, String)> {
    extract_partitions_from_path(path).into_iter().map(|(k, v)| (k, v.unwrap())).collect()
}

fn pair(k: &str, v: &str) -> (String, String) {
    (k.to_string(), v.to_string())
}

#[test]
fn test_parse_file_uri() {
    let p = parse_uri("/tmp/table").unwrap();
    assert_eq!(p.scheme, "file");
    assert_eq!(p.root, "tmp/table");
}

#[test]
fn test_parse_s3_uri() {
    let p = parse_uri("s3://bucket/path/to/table").unwrap();
    assert_eq!(p.scheme, "s3");
    assert_eq!(p.root, "path/to/table");
}

#[test]
fn parsed_uri_keeps_the_url() {
    let p = parse_uri("s3://bucket/path/to/table").unwrap();
    assert_eq!(p.url, "s3://bucket/path/to/table");
    let p = parse_uri("/tmp/table").unwrap();
    assert_eq!(p.url, "file:///tmp/table");
    let p = parse_uri("file:///var/data/t").unwrap();
    assert_eq!(p.scheme, "file");
    assert_eq!(p.root, "var/data/t");
    for (uri, scheme) in [("gs://b/x", "gs"), ("az://c/x", "az"), ("abfs://c/x", "abfs")] {
        let p = parse_uri(uri).unwrap();
        assert_eq!(p.scheme, scheme);
        assert_eq!(p.root, "x");
    }
}

#[test]
fn a_path_that_is_not_absolute_is_no_uri() {
    assert_eq!(parse_uri("relative/table").err(), Some(DeltaError::InvalidUri));
    assert_eq!(parse_uri("").err(), Some(DeltaError::InvalidUri));
    assert_eq!(parse_uri("http://example.com/t").err(), Some(DeltaError::InvalidUri));
}

#[test]
fn a_url_that_does_not_parse_is_no_uri() {
    assert_eq!(parse_uri("s3://bucket:notaport/x").err(), Some(DeltaError::InvalidUri));
    assert_eq!(parsed_from(None).err(), Some(DeltaError::InvalidUri));
}

#[test]
fn the_root_is_the_url_path_without_leading_slashes() {
    let parts = UrlParts { text: "x://h///a/b/".to_string(), scheme: "x".to_string(), path: "///a/b/".to_string() };
    let p = parsed_from(Some(parts)).unwrap();
    assert_eq!(p.url, "x://h///a/b/");
    assert_eq!(p.scheme, "x");
    assert_eq!(p.root, "a/b/");
    assert_eq!(object_path_from_url("/a"), "a");
    assert_eq!(object_path_from_url("a/"), "a/");
    assert_eq!(object_path_from_url("//"), "");
    assert_eq!(object_path_from_url(""), "");
}

#[test]
fn directory_entries_are_dropped_from_a_listing() {
    let listing = vec![
        ObjectMeta { location: "t/a".to_string(), size: 1 },
        ObjectMeta { location: "t/dir/".to_string(), size: 0 },
        ObjectMeta { location: "".to_string(), size: 0 },
        ObjectMeta { location: "/".to_string(), size: 0 },
        ObjectMeta { location: "t/dir/b".to_string(), size: 2 },
    ];
    let kept: Vec<(String, i64)> = retain_files(listing).into_iter().map(|m| (m.location, m.size)).collect();
    assert_eq!(kept, vec![("t/a".to_string(), 1), ("".to_string(), 0), ("t/dir/b".to_string(), 2)]);
}

#[test]
fn partitions_are_read_from_path_segments() {
    assert_eq!(pairs("dt=2024-01-01/part-0.parquet"), vec![pair("dt", "2024-01-01")]);
    assert_eq!(pairs("b=2/a=1/f.parquet"), vec![pair("a", "1"), pair("b", "2")]);
    assert_eq!(pairs("a=1/a=2/f"), vec![pair("a", "2")]);
    assert_eq!(pairs("k=v=w/f"), vec![pair("k", "v=w")]);
    assert_eq!(pairs("/x/=v/k=/=/k/é=ü"), vec![pair("é", "ü")]);
    assert_eq!(pairs("k=v"), vec![pair("k", "v")]);
    assert!(pairs("").is_empty());
    assert!(pairs("plain/file.parquet").is_empty());
}

#[test]
fn relative_paths_lose_the_root_and_the_slashes_after_it() {
    assert_eq!(relative_path("data/tbl", "data/tbl/dt=1/a"), "dt=1/a");
    assert_eq!(relative_path("data/tbl", "data/tbl//a"), "a");
    assert_eq!(relative_path("data/tbl", "data/tbl"), "");
    assert_eq!(relative_path("data/tbl", "other/a"), "other/a");
    assert_eq!(relative_path("data/tbl", "/other/a"), "other/a");
    assert_eq!(relative_path("", "/a/b"), "a/b");
    assert_eq!(relative_path("tbl", "tblx/a"), "x/a");
    assert_eq!(relative_path("α", "α/β"), "β");
    assert_eq!(trim_slashes_of("///"), "");
    assert!(starts_with("_delta_log/x", "_delta_log/"));
    assert!(!starts_with("_delta_log", "_delta_log/"));
    assert!(starts_with("abc", ""));
}

#[test]
fn commit_files_are_recognised_under_the_log_directory() {
    let root = "data/tbl";
    let name = "00000000000000000007.json";
    assert_eq!(log_file_name(root, "data/tbl/_delta_log/00000000000000000007.json"), Some(name.to_string()));
    assert_eq!(log_file_name(root, "data/tbl/_delta_log/sub/00000000000000000007.json"), Some(name.to_string()));
    assert_eq!(log_file_name("", "_delta_log/00000000000000000007.json"), Some(name.to_string()));
    assert_eq!(log_file_name(root, "data/tbl/00000000000000000007.json"), None);
    assert_eq!(log_file_name(root, "data/tbl/dt=1/_delta_log/00000000000000000007.json"), None);
    assert_eq!(log_file_name(root, "data/tbl/_delta_log/_last_checkpoint"), None);
    assert_eq!(log_file_name(root, "data/tbl/_delta_log/00000000000000000007.checkpoint.parquet"), None);
    assert_eq!(log_file_name(root, "data/tbl/_delta_log/"), None);
    assert_eq!(log_file_name(root, "data/tbl/_delta_log"), None);
}
