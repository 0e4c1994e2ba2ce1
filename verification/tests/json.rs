use deltakit::action::{action_of_json, parse_action, partition_values_from, rows_from_stats, Action};
use deltakit::json::{parse_json, Json};

fn text(s: &str) -> Json {
    Json::Text(s.to_string())
}

fn object(members: Vec<(&str, Json)>) -> Json {
    Json::Object(members.into_iter().map(|(k, v)| (k.to_string(), v)).collect())
}

fn describe(a: &Action) -> String {
    format!("{:?}", a)
}

#[test]
fn parsing_builds_the_document() {
    let j = parse_json(b" {\"s\":\"a\\u00e9\\n\",\"n\":-12,\"big\":18446744073709551615,\"f\":1.5,\"t\":true,\"z\":null,\"l\":[1,\"x\",[]],\"o\":{\"k\":{}}} ").unwrap();
    assert_eq!(j.member("s").unwrap().as_text().unwrap(), "a\u{e9}\n");
    assert_eq!(j.member("n").unwrap().as_int(), Some(-12));
    assert_eq!(j.member("big").unwrap().as_int(), None);
    assert!(matches!(j.member("big").unwrap(), Json::Number(None)));
    assert!(matches!(j.member("f").unwrap(), Json::Number(None)));
    assert!(matches!(j.member("t").unwrap(), Json::Bool(true)));
    assert!(matches!(j.member("z").unwrap(), Json::Null));
    match j.member("l").unwrap() {
        Json::Array(items) => {
            assert_eq!(items.len(), 3);
            assert_eq!(items[0].as_int(), Some(1));
            assert_eq!(items[1].as_text().unwrap(), "x");
            assert!(matches!(&items[2], Json::Array(inner) if inner.is_empty()));
        },
        other => panic!("not an array: {:?}", other),
    }
    assert!(j.member("o").unwrap().member("k").unwrap().as_object().unwrap().is_empty());
    assert!(j.member("missing").is_none());
    assert!(j.member("s").unwrap().member("x").is_none());
    assert_eq!(j.as_object().unwrap().len(), 8);
}

#[test]
fn text_that_is_no_document_is_rejected() {
    assert!(parse_json(b"").is_none());
    assert!(parse_json(b"{").is_none());
    assert!(parse_json(b"{} {}").is_none());
    assert!(parse_json(b"{\"a\":1,}").is_none());
    assert!(parse_json(&[0xff, 0xfe]).is_none());
    assert!(matches!(parse_json(b"7"), Some(Json::Number(Some(7)))));
}

#[test]
fn an_add_is_read_from_a_document() {
    let j = object(vec![(
        "add",
        object(vec![
            ("path", text("p/a")),
            ("size", Json::Number(Some(12))),
            ("stats", text("{\"numRecords\":3}")),
            ("partitionValues", object(vec![("b", text("2")), ("a", Json::Null), ("b", text("3"))])),
        ]),
    )]);
    match action_of_json(&j) {
        Action::Add { path, entry } => {
            assert_eq!(path, "p/a");
            assert_eq!(entry.size, Some(12));
            assert_eq!(entry.rows, 3);
            assert_eq!(
                entry.partition_values,
                vec![("a".to_string(), None), ("b".to_string(), Some("3".to_string()))]
            );
        },
        other => panic!("not an add: {:?}", other),
    }
}

#[test]
fn add_comes_before_remove_and_needs_a_path() {
    let both =
        object(vec![("remove", object(vec![("path", text("r"))])), ("add", object(vec![("path", text("a"))]))]);
    assert!(matches!(action_of_json(&both), Action::Add { .. }));
    let remove = object(vec![("add", Json::Null), ("remove", object(vec![("path", text("r"))]))]);
    assert!(matches!(action_of_json(&remove), Action::Remove { path } if path == "r"));
    let no_path = object(vec![("add", object(vec![("path", Json::Number(Some(1)))]))]);
    assert!(matches!(action_of_json(&no_path), Action::Malformed));
    let no_path = object(vec![("remove", object(vec![]))]);
    assert!(matches!(action_of_json(&no_path), Action::Malformed));
    for other in [Json::Null, text("add"), Json::Array(vec![]), object(vec![("metaData", object(vec![]))])] {
        assert!(matches!(action_of_json(&other), Action::Other));
    }
}

#[test]
fn a_line_is_an_action() {
    assert_eq!(describe(&parse_action(b"")), describe(&Action::Other));
    assert_eq!(describe(&parse_action(b"garbage")), describe(&Action::Other));
    assert_eq!(
        describe(&parse_action(b"{\"remove\":{\"path\":\"x\"}}")),
        describe(&Action::Remove { path: "x".to_string() })
    );
    assert_eq!(describe(&parse_action(b"{\"add\":{\"size\":1}}")), describe(&Action::Malformed));
}

#[test]
fn stats_give_the_row_count() {
    assert_eq!(rows_from_stats("{\"numRecords\":42,\"minValues\":{}}"), 42);
    assert_eq!(rows_from_stats("{\"numRecords\":9223372036854775807}"), 9223372036854775807);
    assert_eq!(rows_from_stats("{\"numRecords\":9223372036854775808}"), 0);
    assert_eq!(rows_from_stats("{\"numRecords\":\"7\"}"), 0);
    assert_eq!(rows_from_stats("{\"numRecords\":1.0}"), 0);
    assert_eq!(rows_from_stats("[]"), 0);
    assert_eq!(rows_from_stats(""), 0);
}

#[test]
fn partition_values_are_sorted_and_unique() {
    let members = vec![
        ("z".to_string(), text("1")),
        ("a".to_string(), Json::Number(Some(3))),
        ("m".to_string(), text("x")),
        ("a".to_string(), text("last")),
        ("Z".to_string(), Json::Null),
    ];
    assert_eq!(
        partition_values_from(&members),
        vec![
            ("Z".to_string(), None),
            ("a".to_string(), Some("last".to_string())),
            ("m".to_string(), Some("x".to_string())),
            ("z".to_string(), Some("1".to_string())),
        ]
    );
}
