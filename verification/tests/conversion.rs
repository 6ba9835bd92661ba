use json_objects_to_csv::config::{ArrayFormatting, Flattener};
use json_objects_to_csv::convert::Json2Csv;
use json_objects_to_csv::record::build_record;
use json_objects_to_csv::error::Error;
use json_objects_to_csv::flat::FlattenError;
use serde_json::{Deserializer, Value};

struct ExecutionResult {
    input: Vec<Value>,
    output: String,
}

fn parse_objects(input: &str) -> Vec<Value> {
    let parsed: Result<Vec<Value>, serde_json::Error> =
        Deserializer::from_str(input).into_iter::<Value>().collect();
    parsed.unwrap()
}

fn write_csv(rows: &[Vec<String>], delimiter: u8) -> String {
    let mut output = Vec::<u8>::new();
    {
        let mut writer = csv::WriterBuilder::new()
            .delimiter(delimiter)
            .from_writer(&mut output);
        for row in rows {
            writer.write_record(row).unwrap();
        }
        writer.flush().unwrap();
    }
    String::from_utf8(output).unwrap()
}

/// The rows of the conversion of a stream of objects, made with the steps
/// that reading from a stream takes: meet each object, then build each
/// record from the stored flattened object.
fn rows_streamed(json2csv: &Json2Csv, input: &str) -> Result<Vec<Vec<String>>, Error> {
    let mut state = json2csv.start_headers();
    let mut stored = Vec::new();
    for object in Deserializer::from_str(input).into_iter::<Value>() {
        let object = object.unwrap();
        stored.push(json2csv.add_object(&mut state, &object)?);
    }
    match state.finish()? {
        None => Ok(vec![]),
        Some(headers) => {
            let mut rows = vec![headers.iter().to_vec()];
            for map in &stored {
                rows.push(build_record(&headers, map));
            }
            Ok(rows)
        }
    }
}

fn execute_with(input: &str, json2csv_array: Json2Csv, json2csv_stream: Json2Csv) -> ExecutionResult {
    let from_stream = rows_streamed(&json2csv_stream, input).unwrap();
    let input_from_array = parse_objects(input);
    let from_array = json2csv_array.convert_from_array(&input_from_array).unwrap();
    let output_from_stream = write_csv(&from_stream, b',');
    let output_from_array = write_csv(&from_array, b',');
    assert_eq!(output_from_stream, output_from_array);
    ExecutionResult {
        input: input_from_array,
        output: output_from_array,
    }
}

fn execute(input: &str, flattener: &Flattener) -> ExecutionResult {
    execute_with(
        input,
        Json2Csv::new(flattener.clone()),
        Json2Csv::new(flattener.clone()),
    )
}

fn execute_expect_err(input: &str, flattener: &Flattener) -> Vec<Error> {
    let error_from_stream = rows_streamed(&Json2Csv::new(flattener.clone()), input)
        .err()
        .unwrap();
    let input_from_array = parse_objects(input);
    let error_from_array = Json2Csv::new(flattener.clone())
        .convert_from_array(&input_from_array)
        .err()
        .unwrap();
    vec![error_from_stream, error_from_array]
}

fn plain_flattener(preserve_empty_arrays: bool, preserve_empty_objects: bool) -> Flattener {
    Flattener::new()
        .set_key_separator(".")
        .set_array_formatting(ArrayFormatting::Plain)
        .set_preserve_empty_arrays(preserve_empty_arrays)
        .set_preserve_empty_objects(preserve_empty_objects)
}

fn check_simple_input(input: &str, expected: &[&str]) {
    for preserve_empty_arrays in [true, false] {
        for preserve_empty_objects in [true, false] {
            let flattener = plain_flattener(preserve_empty_arrays, preserve_empty_objects);
            let result = execute(input, &flattener);
            assert_eq!(result.output, expected.join("\n") + "\n");
        }
    }
}

#[test]
fn simple_input_nesting_and_array() {
    check_simple_input(r#"{"a": {"b": 1}}{"c": [2]}"#, &["a.b,c.0", "1,", ",2"]);
}

#[test]
fn simple_input_spaces_end() {
    check_simple_input(r#"{"a": {"b": 1}}{"c": [2]}   "#, &["a.b,c.0", "1,", ",2"]);
}

#[test]
fn simple_input_spaces_begin() {
    check_simple_input(r#"      {"a": {"b": 1}}{"c": [2]}"#, &["a.b,c.0", "1,", ",2"]);
}

#[test]
fn simple_input_key_repeats_consistently() {
    check_simple_input(r#"{"a": 3}{"a": 4}{"a": 5}"#, &["a", "3", "4", "5"]);
}

#[test]
fn simple_input_reordering() {
    check_simple_input(r#"{"b": 3, "a": 1}{"a": 4, "b": 2}"#, &["a,b", "1,3", "4,2"]);
}

#[test]
fn simple_input_reordering_with_empty_array() {
    check_simple_input(
        r#"{"b": 3, "a": 1, "c": 0}{"c": [], "a": 4, "b": 2}"#,
        &["a,b,c", "1,3,0", "4,2,"],
    );
}

#[test]
fn simple_input_reordering_with_empty_object() {
    check_simple_input(
        r#"{"b": 3, "a": 1, "c": 0}{"c": {}, "a": 4, "b": 2}"#,
        &["a,b,c", "1,3,0", "4,2,"],
    );
}

#[test]
fn simple_input_reordering_with_missing() {
    check_simple_input(
        r#"{"b": 3, "a": 1, "c": 0}{"a": 4, "b": 2}"#,
        &["a,b,c", "1,3,0", "4,2,"],
    );
}

#[test]
fn duplicated_keys_last_wins() {
    let flattener = Flattener::new()
        .set_key_separator(".")
        .set_array_formatting(ArrayFormatting::Plain)
        .set_preserve_empty_arrays(true)
        .set_preserve_empty_objects(true);
    let result = execute(
        r#"{"a": [1,2,3], "a": {"b": 2}, "c": 1, "c": 2}"#,
        &flattener,
    );
    let expected = &["a.b,c", "2,2"];
    assert_eq!(result.output, expected.join("\n") + "\n");
}

#[test]
fn no_reordering_on_non_default_separators() {
    let flattener = Flattener::new()
        .set_key_separator("]")
        .set_array_formatting(ArrayFormatting::Surrounded {
            start: ".".to_string(),
            end: "".to_string(),
        })
        .set_preserve_empty_arrays(true)
        .set_preserve_empty_objects(true);
    let result = execute(r#"{"a": [1,2,3]} {"a": {"b": 2}}"#, &flattener);
    let expected = &["a.0,a.1,a.2,a]b", "1,2,3,", ",,,2"];
    assert_eq!(result.output, expected.join("\n") + "\n");
}

fn check_collision(input: &str, flattener: &Flattener) {
    for err in execute_expect_err(input, flattener) {
        assert!(
            matches!(err, Error::FlattenedKeysCollision),
            "Unexpected error: {:?}",
            err
        );
    }
}

#[test]
fn error_on_collision_in_one_object() {
    check_collision(r#"{"a": {"b": 1}, "a.b": 2}"#, &plain_flattener(false, false));
}

#[test]
fn error_on_collision_in_different_objects() {
    check_collision(r#"{"a": {"b": 1}}{"a.b": 2}"#, &plain_flattener(false, false));
}

fn bracket_flattener() -> Flattener {
    Flattener::new()
        .set_key_separator(".")
        .set_array_formatting(ArrayFormatting::Surrounded {
            start: "[".to_string(),
            end: "]".to_string(),
        })
        .set_preserve_empty_arrays(false)
        .set_preserve_empty_objects(false)
}

#[test]
fn error_on_collision_array_formatting_in_one_object() {
    check_collision(r#"{"a[0]": 1, "a": [2]}"#, &bracket_flattener());
}

#[test]
fn error_on_collision_array_formatting_in_different_objects() {
    check_collision(r#"{"a[0]": 1} {"a": [2]}"#, &bracket_flattener());
}

fn check_empty_csv(input: &str) {
    let result = execute(input, &plain_flattener(false, false));
    assert_eq!(result.output, "");
}

#[test]
fn empty_csv_when_no_headers_empty_string() {
    check_empty_csv("");
}

#[test]
fn empty_csv_when_no_headers_empty_json_doc() {
    check_empty_csv("{}");
}

#[test]
fn empty_csv_when_no_headers_multiple_empty_json_docs() {
    check_empty_csv("{}{}{}{}");
}

#[test]
fn empty_csv_when_no_headers_empty_array() {
    check_empty_csv(r#"{"a": []}"#);
}

#[test]
fn empty_csv_when_no_headers_empty_obj() {
    check_empty_csv(r#"{"b": {}}"#);
}

#[test]
fn empty_csv_when_no_headers_empty_array_obj_and_json_doc() {
    check_empty_csv(r#"{"a": []} {"b": {}} {}"#);
}

fn check_preserved_empty(input: &str) {
    let result = execute(input, &plain_flattener(true, true));
    let mut expected = vec!["a"];
    expected.extend(vec![r#""""#; result.input.len()]);
    assert_eq!(result.output, expected.join("\n") + "\n");
}

#[test]
fn preserved_empty_empty_array() {
    check_preserved_empty(r#"{"a": []}"#);
}

#[test]
fn preserved_empty_empty_array_extra_obj() {
    check_preserved_empty(r#"{"a": []} {} {}"#);
}

#[test]
fn preserved_empty_empty_obj() {
    check_preserved_empty(r#"{"a": {}}"#);
}

#[test]
fn preserved_empty_empty_obj_extra_obj() {
    check_preserved_empty(r#"{"a": {}} {}"#);
}

fn check_not_preserved_empty(input: &str, expected: &[&str]) {
    let result = execute(input, &plain_flattener(false, false));
    assert_eq!(result.output, expected.join("\n") + "\n");
}

#[test]
fn not_preserved_empty_empty_array() {
    check_not_preserved_empty(r#"{"a": [], "b": 3}"#, &["b", "3"]);
}

#[test]
fn not_preserved_empty_empty_array_extra_obj() {
    check_not_preserved_empty(r#"{"a": [], "b": 3} {} {}"#, &["b", "3", r#""""#, r#""""#]);
}

#[test]
fn not_preserved_empty_empty_obj() {
    check_not_preserved_empty(r#"{"a": {}, "b": 3}"#, &["b", "3"]);
}

#[test]
fn not_preserved_empty_empty_obj_extra_obj() {
    check_not_preserved_empty(
        r#"{"a": {}} {} {"b": 3} {}"#,
        &["b", r#""""#, r#""""#, "3", r#""""#],
    );
}

#[test]
fn not_preserved_empty_empty_obj_extra_obj_two_keys() {
    check_not_preserved_empty(
        r#"{"a": {}} {} {"b": 3} {"c": 4}"#,
        &["b,c", ",", ",", "3,", ",4"],
    );
}

#[test]
fn preserve_key_order_default_is_sorted() {
    let input = r#"{"price": 2.50, "fruit": "apple"}{"price": 3.00, "fruit": "banana"}"#;
    let flattener = plain_flattener(false, false);
    let result = execute(input, &flattener);
    let expected = &["fruit,price", "apple,2.5", "banana,3.0"];
    assert_eq!(result.output, expected.join("\n") + "\n");
}

#[test]
fn preserve_key_order_when_enabled() {
    let input = r#"{"price": 2.50, "fruit": "apple"}{"price": 3.00, "fruit": "banana"}"#;
    let flattener = plain_flattener(false, false);
    let input_from_array = parse_objects(input);
    let rows = Json2Csv::new(flattener.clone())
        .preserve_key_order(true)
        .convert_from_array(&input_from_array)
        .unwrap();
    let output_from_array = write_csv(&rows, b',');
    let expected = &["price,fruit", "2.5,apple", "3.0,banana"];
    assert_eq!(output_from_array, expected.join("\n") + "\n");
}

#[test]
fn preserve_key_order_with_reader() {
    let input = r#"{"price": 2.50, "fruit": "apple"}{"price": 3.00, "fruit": "banana"}"#;
    let flattener = plain_flattener(false, false);
    let rows = rows_streamed(&Json2Csv::new(flattener).preserve_key_order(true), input).unwrap();
    let output = write_csv(&rows, b',');
    let expected = &["price,fruit", "2.5,apple", "3.0,banana"];
    assert_eq!(output, expected.join("\n") + "\n");
}

#[test]
fn preserve_key_order_with_complex_nesting() {
    let input = r#"{"z": {"y": 1}, "a": {"x": 2}}{"z": {"y": 3}, "a": {"x": 4}}"#;
    let flattener = plain_flattener(false, false);
    let input_array = parse_objects(input);

    let rows_ordered = Json2Csv::new(flattener.clone())
        .preserve_key_order(true)
        .convert_from_array(&input_array)
        .unwrap();
    let output_ordered = write_csv(&rows_ordered, b',');
    let expected_ordered = &["z.y,a.x", "1,2", "3,4"];
    assert_eq!(output_ordered, expected_ordered.join("\n") + "\n");

    let rows_sorted = Json2Csv::new(flattener)
        .preserve_key_order(false)
        .convert_from_array(&input_array)
        .unwrap();
    let output_sorted = write_csv(&rows_sorted, b',');
    let expected_sorted = &["a.x,z.y", "2,1", "4,3"];
    assert_eq!(output_sorted, expected_sorted.join("\n") + "\n");
}

#[test]
fn readme_reading_from_a_stream() {
    let flattener = Flattener::new()
        .set_key_separator(".")
        .set_array_formatting(ArrayFormatting::Surrounded {
            start: "[".to_string(),
            end: "]".to_string(),
        })
        .set_preserve_empty_arrays(false)
        .set_preserve_empty_objects(false);
    let input = r#"{"a": {"b": 1}} {"c": [2]} {"d": []} {"e": {}}"#;
    let expected = ["a.b,c[0]", "1,", ",2", ",", ","];
    let rows = rows_streamed(&Json2Csv::new(flattener), input).unwrap();
    assert_eq!(write_csv(&rows, b','), expected.join("\n") + "\n");
}

#[test]
fn readme_converting_a_slice() {
    let flattener = Flattener::new()
        .set_key_separator(".")
        .set_array_formatting(ArrayFormatting::Plain)
        .set_preserve_empty_arrays(true)
        .set_preserve_empty_objects(true);
    let input = parse_objects(r#"{"a": {"b": 1}} {"c": [2]} {"d": []} {"e": {}}"#);
    let expected = ["a.b;c.0;d;e", "1;;;", ";2;;", ";;;", ";;;"];
    let rows = Json2Csv::new(flattener).convert_from_array(&input).unwrap();
    assert_eq!(write_csv(&rows, b';'), expected.join("\n") + "\n");
}

#[test]
fn readme_preserving_key_order() {
    let input = parse_objects(r#"{"price": 2.50, "fruit": "apple"} {"price": 3.00, "fruit": "banana"}"#);
    let rows = Json2Csv::new(Flattener::new())
        .preserve_key_order(true)
        .convert_from_array(&input)
        .unwrap();
    let expected = ["price,fruit", "2.5,apple", "3.0,banana"];
    assert_eq!(write_csv(&rows, b','), expected.join("\n") + "\n");
}

#[test]
fn readme_collision_of_keys_is_an_error() {
    check_collision(r#"{"a": {"b": 1}} {"a.b": 2}"#, &Flattener::new());
}

#[test]
fn not_an_object_is_an_error() {
    for err in execute_expect_err(r#"{"a": 1} [1, 2]"#, &Flattener::new()) {
        assert!(matches!(
            err,
            Error::Flattening(FlattenError::FirstLevelMustBeAnObject)
        ));
    }
}

#[test]
fn first_failing_object_decides_the_error() {
    let overwritten = "{\"a\u{241D}b\": 1, \"a\": {\"b\": 2}}";
    let input = parse_objects(&format!("{{\"a\": 1}} {} 7", overwritten));
    let err = Json2Csv::new(Flattener::new())
        .convert_from_array(&input)
        .err()
        .unwrap();
    assert_eq!(
        err,
        Error::Flattening(FlattenError::KeyWillBeOverwritten("a\u{241D}b".to_string()))
    );
    let input = parse_objects(&format!("{{\"a\": 1}} 7 {}", overwritten));
    let err = Json2Csv::new(Flattener::new())
        .convert_from_array(&input)
        .err()
        .unwrap();
    assert_eq!(err, Error::Flattening(FlattenError::FirstLevelMustBeAnObject));
}

#[test]
fn key_overwritten_while_flattening_is_an_error() {
    let input = parse_objects("{\"a\u{241D}b\": 1, \"a\": {\"b\": 2}}");
    let err = Json2Csv::new(Flattener::new())
        .convert_from_array(&input)
        .err()
        .unwrap();
    assert_eq!(
        err,
        Error::Flattening(FlattenError::KeyWillBeOverwritten("a\u{241D}b".to_string()))
    );
}

#[test]
fn empty_input_gives_no_rows() {
    let rows = Json2Csv::new(Flattener::new()).convert_from_array(&[]).unwrap();
    assert!(rows.is_empty());
}

#[test]
fn values_are_rendered_as_fields() {
    let flattener = plain_flattener(true, true);
    let input = parse_objects(
        r#"{"s": "text, with comma", "t": true, "f": false, "n": null, "i": -12, "x": 1e3, "e": [], "o": {}}"#,
    );
    let rows = Json2Csv::new(flattener).convert_from_array(&input).unwrap();
    assert_eq!(rows[0], vec!["e", "f", "i", "n", "o", "s", "t", "x"]);
    assert_eq!(
        rows[1],
        vec!["", "false", "-12", "", "", "text, with comma", "true", "1000.0"]
    );
}
