use deltakit::grouping::{column_value_of, group_files, group_key_of, group_positions};
use deltakit::model::AddFileLite;
use deltakit::order::{bytes_lt, OrderedKey};
use deltakit::ranking::sort_positions;
use deltakit::sorted_map::OrderedMap;
use deltakit::text::{bytes_eq, chars_of, contains_text, str_eq};
use deltakit::text_set::TextSet;

fn samples() -> Vec<&'static str> {
    vec!["", "a", "A", "ab", "b", "a/b", "a=b", "é", "e", "z", "\u{10348}", "\u{ffff}", "aa", "a\0", "Z", "0", "10", "9"]
}

#[test]
fn text_order_is_that_of_rust_strings() {
    for a in samples() {
        for b in samples() {
            assert_eq!(bytes_lt(a.as_bytes(), b.as_bytes()), a < b, "{:?} < {:?}", a, b);
            assert_eq!(a.to_string().key_lt(&b.to_string()), a < b);
            assert_eq!(a.to_string().key_eq(&b.to_string()), a == b);
            assert_eq!(str_eq(a, b), a == b);
            assert_eq!(bytes_eq(a.as_bytes(), b.as_bytes()), a == b);
        }
    }
}

#[test]
fn list_order_is_that_of_rust_vectors() {
    let lists: Vec<Vec<String>> = vec![
        vec![],
        vec!["a".to_string()],
        vec!["a".to_string(), "".to_string()],
        vec!["a".to_string(), "b".to_string()],
        vec!["ab".to_string()],
        vec!["b".to_string()],
    ];
    for a in &lists {
        for b in &lists {
            assert_eq!(a.key_lt(b), a < b);
            assert_eq!(a.key_eq(b), a == b);
        }
    }
}

#[test]
fn characters_are_read_in_order() {
    assert_eq!(chars_of("aé\u{10348}z"), vec!['a', 'é', '\u{10348}', 'z']);
    assert!(chars_of("").is_empty());
    let list = vec!["x".to_string(), "y".to_string()];
    assert!(contains_text(&list, "y"));
    assert!(!contains_text(&list, "z"));
}

#[test]
fn ordered_map_keeps_one_value_a_key_in_order() {
    let mut m: OrderedMap<String, u64> = OrderedMap::new();
    for (k, v) in [("m", 1), ("a", 2), ("z", 3), ("m", 4), ("b", 5)] {
        m.put(k.to_string(), v);
    }
    assert_eq!(m.len(), 4);
    assert_eq!(m.get(&"m".to_string()), Some(&4));
    assert_eq!(m.get(&"q".to_string()), None);
    m.remove(&"a".to_string());
    m.remove(&"nope".to_string());
    let mut v = 9;
    assert!(m.swap_value(&"z".to_string(), &mut v));
    assert_eq!(v, 3);
    assert!(!m.swap_value(&"a".to_string(), &mut v));
    assert_eq!(m.key_at(0), "b");
    assert_eq!(
        m.into_entries(),
        vec![("b".to_string(), 5), ("m".to_string(), 4), ("z".to_string(), 9)]
    );
}

#[test]
fn text_set_counts_distinct_texts() {
    let mut a = TextSet::new();
    let mut b = TextSet::new();
    for s in ["x", "y", "x", "z"] {
        a.insert(s.to_string());
    }
    for s in ["y", "w"] {
        b.insert(s.to_string());
    }
    assert_eq!(a.len(), 3);
    assert!(a.contains(&"x".to_string()));
    assert!(!a.contains(&"w".to_string()));
    assert_eq!(a.count_outside(&b), 2);
    assert_eq!(b.count_outside(&a), 1);
    assert_eq!(a.count_outside(&a), 0);
    assert_eq!(a.into_texts(), vec!["x", "y", "z"]);
}

#[test]
fn positions_are_sorted_by_rank_and_ties_keep_their_order() {
    assert_eq!(sort_positions(&vec![3, 1, 2, 1, 3, 0]), vec![5, 1, 3, 2, 0, 4]);
    assert_eq!(sort_positions(&vec![i128::MAX, i128::MIN, 0]), vec![1, 2, 0]);
    assert!(sort_positions(&Vec::new()).is_empty());
    assert_eq!(sort_positions(&vec![7, 7, 7]), vec![0, 1, 2]);
}

#[test]
fn grouping_orders_keys_and_keeps_positions_ascending() {
    let keys: Vec<Vec<String>> =
        ["b", "a", "b", "c", "a", "b"].iter().map(|k| vec![k.to_string()]).collect();
    let groups = group_positions(&keys);
    assert_eq!(
        groups,
        vec![
            (vec!["a".to_string()], vec![1, 4]),
            (vec!["b".to_string()], vec![0, 2, 5]),
            (vec!["c".to_string()], vec![3]),
        ]
    );
    assert!(group_positions(&Vec::new()).is_empty());
}

#[test]
fn group_key_takes_the_first_value_of_a_column() {
    let pv = vec![
        ("dt".to_string(), Some("1".to_string())),
        ("hr".to_string(), None),
        ("dt".to_string(), Some("2".to_string())),
    ];
    assert_eq!(column_value_of(&pv, "dt"), "1");
    assert_eq!(column_value_of(&pv, "hr"), "__UNKNOWN__");
    assert_eq!(column_value_of(&pv, "x"), "__UNKNOWN__");
    let by = vec!["hr".to_string(), "dt".to_string(), "dt".to_string()];
    assert_eq!(group_key_of(&pv, &by), vec!["__UNKNOWN__", "1", "1"]);
    let files = vec![
        AddFileLite { path: "a".to_string(), size: 1, partition_values: pv.clone() },
        AddFileLite { path: "b".to_string(), size: 1, partition_values: Vec::new() },
        AddFileLite { path: "c".to_string(), size: 1, partition_values: pv },
    ];
    let groups = group_files(&files, &vec!["dt".to_string()]);
    assert_eq!(
        groups,
        vec![(vec!["1".to_string()], vec![0, 2]), (vec!["__UNKNOWN__".to_string()], vec![1])]
    );
}
