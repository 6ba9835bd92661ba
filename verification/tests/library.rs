use json_objects_to_csv::config::{ArrayFormatting, Flattener};
use json_objects_to_csv::convert::Json2Csv;
use json_objects_to_csv::record::build_record;
use json_objects_to_csv::error::Error;
use json_objects_to_csv::flat::{Entry, Leaf};
use json_objects_to_csv::headers::HeaderCollection;
use json_objects_to_csv::text::{replace_all, text_chars, text_less};
use serde_json::Value;

fn names(collection: &HeaderCollection) -> Vec<String> {
    collection.iter().to_vec()
}

#[test]
fn sorted_collection_sorts_and_deduplicates() {
    let mut headers = HeaderCollection::new(false);
    assert!(headers.is_empty());
    for key in ["price", "fruit", "b", "fruit", "a.x", "", "price"] {
        headers.insert(key.to_string());
    }
    assert_eq!(names(&headers), vec!["", "a.x", "b", "fruit", "price"]);
    assert_eq!(headers.len(), 5);
    assert!(!headers.is_empty());
}

#[test]
fn ordered_collection_keeps_first_occurrence_order() {
    let mut headers = HeaderCollection::new(true);
    for key in ["price", "fruit", "b", "fruit", "a.x", "price"] {
        headers.insert(key.to_string());
    }
    assert_eq!(names(&headers), vec!["price", "fruit", "b", "a.x"]);
    assert_eq!(headers.len(), 4);
}

#[test]
fn sorted_collection_orders_by_code_point() {
    let mut headers = HeaderCollection::new(false);
    for key in ["é", "z", "Z", "ab", "a", "\u{241D}"] {
        headers.insert(key.to_string());
    }
    let mut expected: Vec<String> = ["é", "z", "Z", "ab", "a", "\u{241D}"]
        .iter()
        .map(|s| s.to_string())
        .collect();
    expected.sort();
    assert_eq!(names(&headers), expected);
}

#[test]
fn text_order_is_lexicographic() {
    assert!(text_less("a", "b"));
    assert!(text_less("a", "ab"));
    assert!(text_less("", "a"));
    assert!(!text_less("ab", "a"));
    assert!(!text_less("a", "a"));
    assert!(text_less("Z", "a"));
    assert!(text_less("z", "é"));
}

#[test]
fn text_chars_splits_into_characters() {
    assert_eq!(text_chars("a\u{241D}é"), vec!['a', '\u{241D}', 'é']);
    assert_eq!(text_chars(""), Vec::<char>::new());
}

#[test]
fn replace_all_replaces_every_occurrence() {
    assert_eq!(replace_all("a.b.c", ".", "::"), "a::b::c");
    assert_eq!(replace_all("aaa", "aa", "b"), "ba");
    assert_eq!(replace_all("abc", "x", "y"), "abc");
    assert_eq!(replace_all("a\u{241D}b", "\u{241D}", ""), "ab");
    assert_eq!(replace_all("", "a", "b"), "");
    for (s, from, to) in [("xyxyx", "xy", "-"), ("\u{241E}0\u{241F}", "\u{241F}", "]"), ("aaaa", "a", "aa")] {
        assert_eq!(replace_all(s, from, to), s.replace(from, to));
    }
}

#[test]
fn flattener_builder_sets_each_setting() {
    let flattener = Flattener::new();
    assert_eq!(flattener.key_separator(), ".");
    assert_eq!(flattener.array_formatting(), &ArrayFormatting::Plain);
    assert!(!flattener.preserve_empty_arrays());
    assert!(!flattener.preserve_empty_objects());
    let flattener = flattener
        .set_key_separator("/")
        .set_array_formatting(ArrayFormatting::Surrounded {
            start: "(".to_string(),
            end: ")".to_string(),
        })
        .set_preserve_empty_arrays(true)
        .set_preserve_empty_objects(true);
    assert_eq!(flattener.key_separator(), "/");
    assert_eq!(
        flattener.array_formatting(),
        &ArrayFormatting::Surrounded {
            start: "(".to_string(),
            end: ")".to_string()
        }
    );
    assert!(flattener.preserve_empty_arrays());
    assert!(flattener.preserve_empty_objects());
    assert_eq!(flattener.duplicate(), flattener);
}

#[test]
fn transform_key_puts_the_separators_back() {
    let plain = Json2Csv::new(Flattener::new().set_key_separator("::"));
    assert_eq!(plain.transform_key("a\u{241D}b\u{241D}0"), "a::b::0");
    assert_eq!(plain.transform_key("ab"), "ab");
    let surrounded = Json2Csv::new(Flattener::new().set_array_formatting(ArrayFormatting::Surrounded {
        start: "[".to_string(),
        end: "]".to_string(),
    }));
    assert_eq!(surrounded.transform_key("a\u{241D}b\u{241E}0\u{241F}\u{241D}c"), "a.b[0].c");
}

#[test]
fn transform_map_restores_every_key() {
    let json2csv = Json2Csv::new(Flattener::new().set_key_separator("_"));
    let map = json2csv.transform_map(vec![
        Entry { key: "a\u{241D}b".to_string(), value: Leaf::Scalar("1".to_string()) },
        Entry { key: "c".to_string(), value: Leaf::Null },
    ]);
    assert_eq!(
        map,
        vec![
            Entry { key: "a_b".to_string(), value: Leaf::Scalar("1".to_string()) },
            Entry { key: "c".to_string(), value: Leaf::Null },
        ]
    );
}

#[test]
fn build_record_takes_the_last_value_of_each_header() {
    let mut headers = HeaderCollection::new(true);
    for key in ["s", "n", "missing", "e", "o", "x"] {
        headers.insert(key.to_string());
    }
    let map = vec![
        Entry { key: "x".to_string(), value: Leaf::Text("first".to_string()) },
        Entry { key: "s".to_string(), value: Leaf::Text("str".to_string()) },
        Entry { key: "n".to_string(), value: Leaf::Scalar("2.5".to_string()) },
        Entry { key: "e".to_string(), value: Leaf::Array },
        Entry { key: "o".to_string(), value: Leaf::Object },
        Entry { key: "x".to_string(), value: Leaf::Null },
    ];
    assert_eq!(build_record(&headers, &map), vec!["str", "2.5", "", "", "", ""]);
}

#[test]
fn header_state_reports_collisions_and_empty_headers() {
    let json2csv = Json2Csv::new(Flattener::new());
    let state = json2csv.start_headers();
    assert!(matches!(state.finish(), Ok(None)));

    let mut state = json2csv.start_headers();
    let first: Value = serde_json::from_str(r#"{"a": {"b": 1}}"#).unwrap();
    let second: Value = serde_json::from_str(r#"{"a.b": 2, "c": null}"#).unwrap();
    let row = json2csv.add_object(&mut state, &first).unwrap();
    assert_eq!(row, vec![Entry { key: "a.b".to_string(), value: Leaf::Scalar("1".to_string()) }]);
    let row = json2csv.add_object(&mut state, &second).unwrap();
    assert_eq!(
        row,
        vec![
            Entry { key: "a.b".to_string(), value: Leaf::Scalar("2".to_string()) },
            Entry { key: "c".to_string(), value: Leaf::Null },
        ]
    );
    assert!(matches!(state.finish(), Err(Error::FlattenedKeysCollision)));

    let mut state = json2csv.start_headers();
    json2csv.add_object(&mut state, &second).unwrap();
    let headers = state.finish().unwrap().unwrap();
    assert_eq!(names(&headers), vec!["a.b", "c"]);
}

#[test]
fn header_state_is_unchanged_by_a_failing_object() {
    let json2csv = Json2Csv::new(Flattener::new()).preserve_key_order(true);
    let mut state = json2csv.start_headers();
    let good: Value = serde_json::from_str(r#"{"z": 1, "a": 2}"#).unwrap();
    let bad: Value = serde_json::from_str("[1]").unwrap();
    json2csv.add_object(&mut state, &good).unwrap();
    assert!(json2csv.add_object(&mut state, &bad).is_err());
    let headers = state.finish().unwrap().unwrap();
    assert_eq!(names(&headers), vec!["z", "a"]);
}

#[test]
fn collision_law_example() {
    // "a" then "b" under "." and a key already holding "a.b" look the same.
    let input: Vec<Value> = vec![
        serde_json::from_str(r#"{"a": {"b": 1}}"#).unwrap(),
        serde_json::from_str(r#"{"a_b": 1}"#).unwrap(),
    ];
    let dotted = Json2Csv::new(Flattener::new());
    assert!(dotted.convert_from_array(&input).is_ok());
    let underscored = Json2Csv::new(Flattener::new().set_key_separator("_"));
    assert_eq!(
        underscored.convert_from_array(&input).err(),
        Some(Error::FlattenedKeysCollision)
    );
}

#[test]
fn one_record_per_object_each_as_wide_as_the_headers() {
    let input: Vec<Value> = vec![
        serde_json::from_str(r#"{"a": 1}"#).unwrap(),
        serde_json::from_str(r#"{}"#).unwrap(),
        serde_json::from_str(r#"{"b": [1, 2]}"#).unwrap(),
    ];
    let rows = Json2Csv::new(Flattener::new()).convert_from_array(&input).unwrap();
    assert_eq!(rows.len(), input.len() + 1);
    assert_eq!(rows[0], vec!["a", "b.0", "b.1"]);
    for row in &rows {
        assert_eq!(row.len(), rows[0].len());
    }
    assert_eq!(rows[2], vec!["", "", ""]);
    assert_eq!(rows[3], vec!["", "1", "2"]);
}

#[test]
fn cloned_converter_converts_alike_and_root_paths_work() {
    let json2csv: json_objects_to_csv::Json2Csv =
        Json2Csv::new(Flattener::new().set_key_separator("/")).preserve_key_order(true);
    let copy = json2csv.clone();
    assert_eq!(copy, json2csv);
    let input: Vec<Value> = vec![serde_json::from_str(r#"{"z": {"y": 1}, "a": 2}"#).unwrap()];
    let rows = copy.convert_from_array(&input).unwrap();
    assert_eq!(rows, json2csv.convert_from_array(&input).unwrap());
    assert_eq!(rows[0], vec!["z/y", "a"]);
    let err: json_objects_to_csv::Error = Error::FlattenedKeysCollision;
    assert_eq!(err, Error::FlattenedKeysCollision);
}
