use adaptive_filter_search::decimal::{parse_usize, push_decimal};
use adaptive_filter_search::predicates::{
    eq_ids_of_line, extract_eq_ids_from_line, generate_bitmaps_from_eq_predicates,
    is_line_storable, scan_eq_ids, PredicateFileError,
};
use bit_set::BitSet;

fn ids(bitmap: &BitSet) -> Vec<usize> {
    bitmap.iter().collect()
}

#[test]
fn predicate_without_and_with_a_space() {
    let line = r#"{"query_id": 0, "filter": {"vector_id": {"$eq":"17"}}}"#;
    assert_eq!(ids(&extract_eq_ids_from_line(line)), vec![17]);
    let line = r#"{"query_id": 0, "filter": {"vector_id": {"$eq": "17"}}}"#;
    assert_eq!(ids(&extract_eq_ids_from_line(line)), vec![17]);
    let line = r#"{"vector_id": {"$eq":     "17"}}"#;
    assert_eq!(ids(&extract_eq_ids_from_line(line)), vec![17]);
}

#[test]
fn all_predicates_of_a_disjunction() {
    let line = r#"{"$or":[{"vector_id":{"$eq":"30"}},{"vector_id":{"$eq": "4"}},{"vector_id":{"$eq":"30"}}]}"#;
    assert_eq!(eq_ids_of_line(line), vec![30, 4, 30]);
    assert_eq!(ids(&extract_eq_ids_from_line(line)), vec![4, 30]);
}

#[test]
fn lines_without_ids() {
    for line in [
        "",
        "\"$eq\":",
        "\"$eq\": ",
        "\"$eq\":\"",
        "\"$eq\":5",
        "\"$eq\":\"\"",
        "\"$eq\":\"x5\"",
        "\"$eq\":\"5 \"",
        "\"$eq\":\"-5\"",
        "\"$eq\":\"+\"",
        "\"$eq\":\"++5\"",
        "\"$eq\" :\"5\"",
        "\"$eq\":\t\"5\"",
        "\"$ne\":\"5\"",
        "$eq\":\"5\"",
        "\"$eq\":\"18446744073709551616\"",
        "\"$eq\":\"\u{665}\"",
    ] {
        assert!(extract_eq_ids_from_line(line).is_empty(), "{line}");
    }
}

#[test]
fn numbers_as_they_are_parsed() {
    assert_eq!(eq_ids_of_line("\"$eq\":\"+5\""), vec![5]);
    assert_eq!(eq_ids_of_line("\"$eq\":\"0007\""), vec![7]);
    assert_eq!(eq_ids_of_line("\"$eq\":\"0\""), vec![0]);
    // Text that is not ASCII may stand anywhere else.
    assert_eq!(eq_ids_of_line("\u{e9}\u{1f600}\"$eq\":\"12\"\u{e9}"), vec![12]);
}

#[test]
fn number_without_a_closing_quotation_mark_is_no_id() {
    assert_eq!(eq_ids_of_line("\"$eq\":\"12"), Vec::<usize>::new());
    assert!(extract_eq_ids_from_line("{\"vector_id\":{\"$eq\":\"12").is_empty());
    // The predicates before it count.
    assert_eq!(eq_ids_of_line("{\"$eq\":\"3\"},{\"$eq\":\"12"), vec![3]);
    assert_eq!(eq_ids_of_line("{\"$eq\":\"3\"},{\"$eq\":\"12\""), vec![3, 12]);
}

#[test]
fn every_key_is_looked_at() {
    // The quotation mark that closes a value, or opens it, may begin the next key.
    assert_eq!(eq_ids_of_line("\"$eq\":\"5\"$eq\":\"6\""), vec![5, 6]);
    assert_eq!(eq_ids_of_line("\"$eq\":\"$eq\":\"7\""), vec![7]);
    assert_eq!(eq_ids_of_line("\"$eq\": \"$eq\":\"5\""), vec![5]);
    assert_eq!(eq_ids_of_line("\"$eq\":\"$eq\":\"5\" \"$eq\":\"8\""), vec![5, 8]);
    // A value that is not quoted is passed over.
    assert_eq!(eq_ids_of_line("\"$eq\": 5, \"$eq\":\"6\""), vec![6]);
}

#[test]
fn ids_of_two_objects_are_those_of_each() {
    let objects = [
        "{\"vector_id\": {\"$eq\": \"1\"}}",
        "{\"$or\":[{\"a\":{\"$eq\":\"30\"}},{\"a\":{\"$eq\":4}}]}",
        "{\"name\": \"caf\u{e9}\", \"a\": {\"$eq\":\"x\"}}",
        "{}",
    ];
    for first in objects {
        for second in objects {
            let mut both = eq_ids_of_line(first);
            both.extend(eq_ids_of_line(second));
            for separator in ["", ","] {
                assert_eq!(eq_ids_of_line(&format!("{first}{separator}{second}")), both);
            }
        }
    }
}

#[test]
fn largest_id_is_found_and_not_stored() {
    let line = format!("\"$eq\":\"{}\"", usize::MAX);
    assert_eq!(eq_ids_of_line(&line), vec![usize::MAX]);
    assert!(!is_line_storable(&line));
    assert!(is_line_storable("\"$eq\":\"18446744073709551616\""));
    assert!(is_line_storable("\"$eq\":\"5\""));
    assert!(is_line_storable(""));
}

#[test]
fn written_predicates_are_read_back() {
    for n in [0usize, 1, 9, 10, 11, 99, 100, 12345, 4294967296] {
        let mut text = String::new();
        push_decimal(&mut text, n);
        assert_eq!(text, n.to_string());
        assert_eq!(parse_usize(text.as_bytes(), 0, text.len()), Some(n));
        let line = format!("{{\"a\": {{\"$eq\": \"{text}\"}}, \"b\": {{\"$eq\":\"7\"}}}}");
        assert_eq!(eq_ids_of_line(&line), vec![n, 7]);
        assert_eq!(scan_eq_ids(line.as_bytes()), vec![n, 7]);
    }
}

#[test]
fn one_bitmap_for_each_line() {
    let lines: Vec<Result<String, String>> = vec![
        Ok(String::from("{\"vector_id\": {\"$eq\": \"3\"}}")),
        Ok(String::new()),
        Ok(String::from("{\"vector_id\": {\"$eq\": \"1\"}}, {\"vector_id\": {\"$eq\": \"2\"}}")),
    ];
    let bitmaps = generate_bitmaps_from_eq_predicates(&lines).unwrap();
    let found: Vec<Vec<usize>> = bitmaps.iter().map(ids).collect();
    assert_eq!(found, vec![vec![3], vec![], vec![1, 2]]);
    assert!(generate_bitmaps_from_eq_predicates(&Vec::new()).unwrap().is_empty());
}

#[test]
fn first_unreadable_line_is_named() {
    let lines: Vec<Result<String, String>> = vec![
        Ok(String::from("\"$eq\":\"3\"")),
        Err(String::from("bad bytes")),
        Err(String::from("worse bytes")),
    ];
    match generate_bitmaps_from_eq_predicates(&lines) {
        Ok(_) => panic!("the second line cannot be read"),
        Err(error) => {
            assert!(matches!(&error, PredicateFileError::Line { line: 1, cause } if cause == "bad bytes"));
            assert_eq!(error.message(), "line 1: bad bytes");
        }
    }
}

#[test]
fn error_for_a_file_that_cannot_be_opened() {
    let error = PredicateFileError::Open {
        path: String::from("/no/such/file"),
        cause: String::from("not found"),
    };
    assert_eq!(error.message(), "cannot open /no/such/file: not found");
}
