use deltakit::digest::stable_hash;
use deltakit::log::CommitFile;
use deltakit::model::AddFileLite;
use deltakit::shard::{placed_files, plan_shards, shard_files, BalanceMode, Shard, ShardOptions};
use deltakit::table::{current_version, TableSnapshot};

fn file(path: &str, size: i64, dt: &str) -> AddFileLite {
    AddFileLite {
        path: path.to_string(),
        size,
        partition_values: vec![("dt".to_string(), Some(dt.to_string()))],
    }
}

fn opts() -> ShardOptions {
    ShardOptions {
        by: vec!["dt".to_string()],
        sticky_by: vec!["dt".to_string()],
        max_files_per_shard: None,
        balance: BalanceMode::Bytes,
        row_group_aware: false,
    }
}

fn low_u64(data: &[u8]) -> u64 {
    let h = blake3::hash(data);
    let mut first = [0u8; 8];
    first.copy_from_slice(&h.as_bytes()[0..8]);
    u64::from_le_bytes(first)
}

fn a_and_b() -> Vec<AddFileLite> {
    vec![
        file("dt=A/1", 100, "A"),
        file("dt=A/2", 100, "A"),
        file("dt=A/3", 100, "A"),
        file("dt=A/4", 100, "A"),
        file("dt=B/1", 10, "B"),
        file("dt=B/2", 10, "B"),
    ]
}

fn shard_of<'a>(shards: &'a [Shard], path: &str) -> Option<&'a Shard> {
    shards.iter().find(|s| s.files.iter().any(|f| f.path == path))
}

fn layout(shards: &[Shard]) -> Vec<(u32, i64, u64, Vec<String>)> {
    shards.iter().map(|s| (s.id, s.bytes, s.rows, s.files.iter().map(|f| f.path.clone()).collect())).collect()
}

#[test]
fn stable_hash_is_the_low_half_of_blake3() {
    let parts = vec![("dt".to_string(), "A".to_string())];
    assert_eq!(stable_hash(&parts), low_u64(b"dt=A;"));
    let parts = vec![("dt".to_string(), "2024-01-01".to_string()), ("hr".to_string(), "07".to_string())];
    assert_eq!(stable_hash(&parts), low_u64(b"dt=2024-01-01;hr=07;"));
    assert_eq!(stable_hash(&Vec::new()), low_u64(b""));
    assert_eq!(stable_hash(&Vec::new()), 0xa6a1f9f5b94913af);
}

#[test]
fn shard_sticky_spreads_a_group_from_its_base() {
    let shards = shard_files(&a_and_b(), 2, &opts());
    assert_eq!(shards.len(), 2);
    assert_eq!(shards[0].id, 0);
    assert_eq!(shards[1].id, 1);
    let base_a = (low_u64(b"dt=A;") % 2) as usize;
    let base_b = (low_u64(b"dt=B;") % 2) as usize;
    // A is placed first, on empty shards: its files alternate from its base
    assert_eq!(shard_of(&shards, "dt=A/1").unwrap().id as usize, base_a);
    assert_eq!(shard_of(&shards, "dt=A/2").unwrap().id as usize, 1 - base_a);
    assert_eq!(shard_of(&shards, "dt=A/3").unwrap().id as usize, base_a);
    assert_eq!(shard_of(&shards, "dt=A/4").unwrap().id as usize, 1 - base_a);
    // B finds both shards at 200 and begins at its own base
    assert_eq!(shard_of(&shards, "dt=B/1").unwrap().id as usize, base_b);
    assert_eq!(shard_of(&shards, "dt=B/2").unwrap().id as usize, 1 - base_b);
    for s in &shards {
        assert!(!s.files.is_empty());
        let a_bytes: i64 = s.files.iter().filter(|f| f.path.starts_with("dt=A/")).map(|f| f.bytes).sum();
        assert_eq!(a_bytes, 200);
        assert_eq!(s.bytes, 210);
        assert_eq!(s.rows, 0);
    }
}

#[test]
fn shard_cap_drops_what_does_not_fit() {
    let files = vec![file("a", 3, "x"), file("b", 2, "x"), file("c", 1, "x")];
    let mut o = opts();
    o.max_files_per_shard = Some(2);
    let shards = shard_files(&files, 1, &o);
    assert_eq!(shards.len(), 1);
    let held: Vec<&str> = shards[0].files.iter().map(|f| f.path.as_str()).collect();
    assert_eq!(held, vec!["a", "b"]);
    assert_eq!(shards[0].bytes, 5);
    assert!(shard_of(&shards, "c").is_none());
    assert_eq!(placed_files(&shards), 2);
    assert!(placed_files(&shards) < files.len());
}

#[test]
fn without_a_cap_every_file_is_in_exactly_one_shard() {
    let files: Vec<AddFileLite> = (0..50)
        .map(|i| file(&format!("f{:02}", i), (i * 31) % 17, &format!("{}", i % 7)))
        .collect();
    for k in [1u32, 2, 3, 8] {
        let shards = shard_files(&files, k, &opts());
        assert_eq!(shards.len(), k as usize);
        assert_eq!(placed_files(&shards), files.len());
        let mut held: Vec<String> = shards.iter().flat_map(|s| s.files.iter().map(|f| f.path.clone())).collect();
        held.sort();
        let mut given: Vec<String> = files.iter().map(|f| f.path.clone()).collect();
        given.sort();
        assert_eq!(held, given);
        for s in &shards {
            let bytes: i64 = s.files.iter().map(|f| f.bytes).sum();
            assert_eq!(s.bytes, bytes);
        }
    }
}

#[test]
fn planning_twice_gives_the_same_shards() {
    let a = shard_files(&a_and_b(), 3, &opts());
    let b = shard_files(&a_and_b(), 3, &opts());
    assert_eq!(layout(&a), layout(&b));
}

#[test]
fn a_group_keeps_its_base_when_other_groups_join() {
    let first = vec![file("dt=A/1", 100, "A")];
    let mut second = first.clone();
    second.push(file("dt=Z/1", 500, "Z"));
    second.push(file("dt=Q/1", 500, "Q"));
    for k in [2u32, 5, 16] {
        let alone = shard_files(&first, k, &opts());
        let joined = shard_files(&second, k, &opts());
        let base = (low_u64(b"dt=A;") % k as u64) as u32;
        assert_eq!(shard_of(&alone, "dt=A/1").unwrap().id, base);
        assert_eq!(shard_of(&joined, "dt=A/1").unwrap().id, base);
    }
}

#[test]
fn sticky_columns_are_a_subset_of_the_grouping() {
    let files = vec![
        AddFileLite {
            path: "a".to_string(),
            size: 1,
            partition_values: vec![("dt".to_string(), Some("A".to_string())), ("hr".to_string(), Some("1".to_string()))],
        },
        AddFileLite {
            path: "b".to_string(),
            size: 1,
            partition_values: vec![("dt".to_string(), Some("A".to_string())), ("hr".to_string(), Some("2".to_string()))],
        },
    ];
    let o = ShardOptions {
        by: vec!["dt".to_string(), "hr".to_string()],
        sticky_by: vec!["dt".to_string()],
        max_files_per_shard: None,
        balance: BalanceMode::Bytes,
        row_group_aware: false,
    };
    let k = 64u32;
    let shards = shard_files(&files, k, &o);
    let base = (low_u64(b"dt=A;") % k as u64) as u32;
    // both groups begin at the shard of dt=A; the second finds it loaded and moves on
    assert_eq!(shard_of(&shards, "a").unwrap().id, base);
    assert_eq!(shard_of(&shards, "b").unwrap().id, (base + 1) % k);
    let all = ShardOptions { sticky_by: Vec::new(), ..o };
    let shards = shard_files(&files, k, &all);
    assert_eq!(shard_of(&shards, "a").unwrap().id, (low_u64(b"dt=A;hr=1;") % k as u64) as u32);
}

#[test]
fn heaviest_files_are_placed_first() {
    let files = vec![file("s", 1, "x"), file("m", 5, "x"), file("l", 9, "x"), file("m2", 5, "x")];
    let shards = shard_files(&files, 1, &opts());
    let held: Vec<&str> = shards[0].files.iter().map(|f| f.path.as_str()).collect();
    assert_eq!(held, vec!["l", "m", "m2", "s"]);
}

#[test]
fn zero_shards_means_one() {
    let shards = shard_files(&a_and_b(), 0, &opts());
    assert_eq!(shards.len(), 1);
    assert_eq!(shards[0].files.len(), 6);
    assert_eq!(shards[0].bytes, 420);
}

#[test]
fn negative_sizes_do_not_lower_a_load() {
    let files = vec![file("a", -50, "x"), file("b", 10, "x")];
    let shards = shard_files(&files, 1, &opts());
    assert_eq!(shards[0].bytes, 10);
    assert_eq!(shards[0].files.len(), 2);
}

#[test]
fn balancing_by_rows_keeps_a_group_on_its_base() {
    let mut o = opts();
    o.balance = BalanceMode::Rows;
    let shards = shard_files(&a_and_b(), 4, &o);
    let base_a = low_u64(b"dt=A;") % 4;
    for p in ["dt=A/1", "dt=A/2", "dt=A/3", "dt=A/4"] {
        assert_eq!(shard_of(&shards, p).unwrap().id as u64, base_a);
    }
}

#[test]
fn defaults_balance_by_bytes_without_a_cap() {
    let o = ShardOptions::default();
    assert!(o.by.is_empty());
    assert!(o.sticky_by.is_empty());
    assert_eq!(o.max_files_per_shard, None);
    assert_eq!(o.balance, BalanceMode::Bytes);
    assert!(!o.row_group_aware);
    assert_eq!(BalanceMode::default(), BalanceMode::Bytes);
}

#[test]
fn test_shard_plan_local() {
    let line = |s: &str| format!("{}\n", s).into_bytes();
    let mut v0 = line("{\"protocol\":{\"minReaderVersion\":1,\"minWriterVersion\":2}}");
    v0.extend(line("{\"add\":{\"path\":\"dt=2024-01-01/a.parquet\",\"size\":100,\"partitionValues\":{\"dt\":\"2024-01-01\"},\"modificationTime\":0,\"dataChange\":true,\"stats\":\"{\\\"numRecords\\\":10}\"}}"));
    let mut v1 = line("{\"remove\":{\"path\":\"dt=2024-01-01/a.parquet\",\"deletionTimestamp\":0,\"dataChange\":true}}");
    v1.extend(line("{\"add\":{\"path\":\"dt=2024-01-02/b.parquet\",\"size\":200,\"partitionValues\":{\"dt\":\"2024-01-02\"},\"modificationTime\":0,\"dataChange\":true,\"stats\":\"{\\\"numRecords\\\":20}\"}}"));
    v1.extend(line("{\"add\":{\"path\":\"dt=2024-01-02/c.parquet\",\"size\":50,\"partitionValues\":{\"dt\":\"2024-01-02\"},\"modificationTime\":0,\"dataChange\":true,\"stats\":\"{\\\"numRecords\\\":5}\"}}"));
    let t = TableSnapshot {
        root: "tbl".to_string(),
        log: vec![
            CommitFile { name: format!("{:020}.json", 0), content: v0 },
            CommitFile { name: format!("{:020}.json", 1), content: v1 },
        ],
        objects: Vec::new(),
    };
    let ver = current_version(&t).unwrap();
    assert_eq!(ver, 1);
    let shards = plan_shards(&t, ver, 2, &opts()).unwrap();
    assert_eq!(shards.len(), 2);
    let total_files: usize = shards.iter().map(|s| s.files.len()).sum();
    assert!(total_files >= 2);
    assert_eq!(total_files, 2);
    assert_eq!(shards[0].bytes + shards[1].bytes, 250);
}
