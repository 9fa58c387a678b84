//! The text interface: reading a batch of named expressions and writing JSON.

use espresso_logic::batch::{
    answer_json, cover_type_of_code, error_json, escape_json, escape_json_string,
    read_expression_lines, serde_json, serde_json_cubes, serde_json_labels, value_codes,
};
use espresso_logic::cover::PLAType;

#[test]
fn escape_json_string_escapes_controls_as_unicode() {
    assert_eq!(escape_json_string("plain"), "plain");
    assert_eq!(
        escape_json_string("a\"b\\c\nd\re\tf\u{1}g\u{7f}h\u{9f}"),
        "a\\\"b\\\\c\\nd\\re\\tf\\u0001g\\u007fh\\u009f"
    );
    assert_eq!(escape_json_string("é ok"), "é ok");
}

#[test]
fn escape_json_escapes_only_the_short_forms() {
    assert_eq!(escape_json("a\"b\\c\nd\re\tf"), "a\\\"b\\\\c\\nd\\re\\tf");
    assert_eq!(escape_json("\u{1}"), "\u{1}");
}

#[test]
fn error_objects_carry_the_escaped_message() {
    assert_eq!(error_json("bad \"x\""), "{\"error\":\"bad \\\"x\\\"\"}");
    assert_eq!(error_json(""), "{\"error\":\"\"}");
}

#[test]
fn json_lists_are_comma_separated() {
    let exprs = vec![
        ("f".to_string(), "a & b".to_string()),
        ("g\"".to_string(), "!c".to_string()),
    ];
    assert_eq!(
        serde_json(&exprs),
        "[{\"name\":\"f\",\"expression\":\"a & b\"},{\"name\":\"g\\\"\",\"expression\":\"!c\"}]"
    );
    assert_eq!(serde_json(&[]), "[]");

    let cubes = vec![(vec![1, 0, 2], vec![1]), (vec![-3, 40], vec![])];
    assert_eq!(
        serde_json_cubes(&cubes),
        "[{\"inputs\":[1,0,2],\"outputs\":[1]},{\"inputs\":[-3,40],\"outputs\":[]}]"
    );
    assert_eq!(serde_json_cubes(&[(vec![i32::MIN], vec![i32::MAX])]),
        "[{\"inputs\":[-2147483648],\"outputs\":[2147483647]}]");

    assert_eq!(serde_json_labels(&["a", "b\"c"]), "[\"a\",\"b\\\"c\"]");
    assert_eq!(serde_json_labels(&[]), "[]");
}

#[test]
fn the_answer_object_has_every_part() {
    let exprs = vec![("out".to_string(), "a".to_string())];
    let cubes = vec![(vec![1, 2], vec![1])];
    let json = answer_json(&exprs, &cubes, &["a", "b"], &["out"], 2, 1, 1);
    assert_eq!(
        json,
        "{\"expressions\":[{\"name\":\"out\",\"expression\":\"a\"}],\
\"cubes\":[{\"inputs\":[1,2],\"outputs\":[1]}],\
\"inputLabels\":[\"a\",\"b\"],\"outputLabels\":[\"out\"],\
\"stats\":{\"numInputs\":2,\"numOutputs\":1,\"numCubes\":1}}"
    );
}

#[test]
fn values_and_cover_types_have_codes() {
    assert_eq!(value_codes(&[Some(true), Some(false), None]), vec![1, 0, 2]);
    assert_eq!(cover_type_of_code(0), Some(PLAType::F));
    assert_eq!(cover_type_of_code(1), Some(PLAType::FD));
    assert_eq!(cover_type_of_code(2), Some(PLAType::FR));
    assert_eq!(cover_type_of_code(3), Some(PLAType::FDR));
    assert_eq!(cover_type_of_code(4), None);
}

#[test]
fn a_batch_reads_named_expressions_in_order() {
    let batch = read_expression_lines("# outputs\nf = a & b\n\n  g=!a  \r\n").unwrap();
    let names: Vec<&str> = batch.iter().map(|(n, _)| n.as_str()).collect();
    assert_eq!(names, vec!["f", "g"]);
    assert_eq!(batch[0].1.to_string(), "a & b");
    assert_eq!(read_expression_lines("").unwrap_err(), "No valid expressions found");
    assert_eq!(read_expression_lines("# only a comment\n\n   \n").unwrap_err(), "No valid expressions found");
}

#[test]
fn a_batch_reports_the_first_bad_line() {
    assert_eq!(
        read_expression_lines("f = a\n  nothing here  \n").unwrap_err(),
        "Line 2: Invalid format 'nothing here' - expected: name = expression"
    );
    assert_eq!(
        read_expression_lines("  = a | b").unwrap_err(),
        "Line 1: Missing output name in '= a | b'"
    );
    let msg = read_expression_lines("\n\nf = a &").unwrap_err();
    assert!(msg.starts_with("Line 3: "), "{msg}");
    assert!(msg.ends_with(" in expression 'a &'"), "{msg}");
    // The line splits at its first `=`.
    let msg = read_expression_lines("h = a = b").unwrap_err();
    assert!(msg.ends_with(" in expression 'a = b'"), "{msg}");
}
