use deltakit::digest::{compute_integrity_hash, hash_files, to_hex};
use deltakit::log::CommitFile;
use deltakit::model::{AddFileLite, DeltaError};
use deltakit::table::TableSnapshot;

fn file(path: &str, size: i64, pv: &[(&str, Option<&str>)]) -> AddFileLite {
    AddFileLite {
        path: path.to_string(),
        size,
        partition_values: pv.iter().map(|(k, v)| (k.to_string(), v.map(|s| s.to_string()))).collect(),
    }
}

fn reference(files: &[AddFileLite]) -> String {
    let mut hasher = blake3::Hasher::new();
    for f in files {
        hasher.update(f.path.as_bytes());
        hasher.update(&f.size.to_le_bytes());
        for (k, v) in &f.partition_values {
            hasher.update(k.as_bytes());
            if let Some(vs) = v {
                hasher.update(vs.as_bytes());
            }
        }
    }
    hasher.finalize().to_hex().to_string()
}

#[test]
fn hash_of_no_files_is_the_hash_of_nothing() {
    assert_eq!(hash_files(&Vec::new()), "af1349b9f5f9a1a6a0404dea36dcc9499bcb25c9adc112b7cc9a93cae41f3262");
}

#[test]
fn hash_feeds_path_size_and_partition_values() {
    let files = vec![
        file("dt=2024-01-02/b.parquet", 200, &[("dt", Some("2024-01-02"))]),
        file("dt=2024-01-02/c.parquet", 50, &[("dt", Some("2024-01-02")), ("hr", None)]),
        file("ü/π.parquet", -1, &[("k", Some("värde"))]),
        file("", i64::MIN, &[]),
        file("z", i64::MAX, &[]),
        file("y", 0x0102030405060708, &[]),
    ];
    let h = hash_files(&files);
    assert_eq!(h, reference(&files));
    assert_eq!(h.len(), 64);
    assert!(h.chars().all(|c| c.is_ascii_digit() || ('a'..='f').contains(&c)));
}

#[test]
fn hash_is_stable_and_sees_every_change() {
    let base = vec![file("a", 1, &[("k", Some("v"))])];
    let h = hash_files(&base);
    assert_eq!(h, hash_files(&base.clone()));
    assert_ne!(h, hash_files(&vec![file("b", 1, &[("k", Some("v"))])]));
    assert_ne!(h, hash_files(&vec![file("a", 2, &[("k", Some("v"))])]));
    assert_ne!(h, hash_files(&vec![file("a", 1, &[("k", Some("w"))])]));
    assert_ne!(h, hash_files(&vec![file("a", 1, &[("k", None)])]));
}

#[test]
fn hash_of_a_table_is_the_hash_of_its_files() {
    let content = b"{\"add\":{\"path\":\"a\",\"size\":3,\"partitionValues\":{\"k\":\"v\"}}}\n".to_vec();
    let t = TableSnapshot {
        root: String::new(),
        log: vec![CommitFile { name: format!("{:020}.json", 0), content }],
        objects: Vec::new(),
    };
    let expected = reference(&[file("a", 3, &[("k", Some("v"))])]);
    assert_eq!(compute_integrity_hash(&t, Some(0)), Ok(expected.clone()));
    assert_eq!(compute_integrity_hash(&t, None), Ok(expected));
    assert_eq!(compute_integrity_hash(&t, Some(1)), Err(DeltaError::LogGap));
}

#[test]
fn hex_is_lowercase_two_digits_a_byte() {
    assert_eq!(to_hex(&[]), "");
    assert_eq!(to_hex(&[0x00, 0x0f, 0xa0, 0xff, 0x5c]), "000fa0ff5c");
    let all: Vec<u8> = (0..=255).collect();
    let expected: String = all.iter().map(|b| format!("{:02x}", b)).collect();
    assert_eq!(to_hex(&all), expected);
}
