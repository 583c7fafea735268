use dropandsum::config::{Config, Delimiter};
use dropandsum::engine::{collapse, collapse_framed, collapse_input, sum_records, write_rows};
use dropandsum::error::RunError;

fn record(fields: &[&str]) -> Vec<Vec<u8>> {
    fields.iter().map(|f| f.as_bytes().to_vec()).collect()
}

fn lines(rows: &[&str]) -> Vec<Vec<u8>> {
    rows.iter().map(|r| r.as_bytes().to_vec()).collect()
}

fn config(column: usize) -> Config {
    Config { column, delimiter: Delimiter(b'\t'), sorted: false, sum_first: false, has_headers: false }
}

#[test]
fn distinct_keys_leave_rows_unchanged() {
    let records = vec![record(&["a", "1", "x"]), record(&["a", "2", "y"]), record(&["b", "5", "z"])];
    let out = collapse(&records, &config(2)).unwrap();
    assert_eq!(out, lines(&["a\t1\tx", "a\t2\ty", "b\t5\tz"]));
}

#[test]
fn duplicate_keys_are_summed() {
    let records = vec![record(&["a", "1", "x"]), record(&["a", "2", "x"]), record(&["b", "5", "z"])];
    let out = collapse(&records, &config(2)).unwrap();
    assert_eq!(out, lines(&["a\t3\tx", "b\t5\tz"]));
}

#[test]
fn sum_first_puts_sum_in_front() {
    let records = vec![record(&["a", "1", "x"]), record(&["a", "2", "x"]), record(&["b", "5", "z"])];
    let mut cfg = config(2);
    cfg.sum_first = true;
    let out = collapse(&records, &cfg).unwrap();
    assert_eq!(out, lines(&["3\ta\tx", "5\tb\tz"]));
}

#[test]
fn malformed_value_fails_with_text_and_line() {
    let records = vec![record(&["a", "XYZ", "z"])];
    let err = collapse(&records, &config(2)).unwrap_err();
    assert_eq!(err, RunError::InvalidValue { text: b"XYZ".to_vec(), line: 1 });
}

#[test]
fn malformed_value_on_later_line() {
    let records = vec![record(&["a", "1", "z"]), record(&["a", "2", "z"]), record(&["a", "-3", "z"])];
    let err = collapse(&records, &config(2)).unwrap_err();
    assert_eq!(err, RunError::InvalidValue { text: b"-3".to_vec(), line: 3 });
}

#[test]
fn short_record_fails_with_missing_column() {
    let records = vec![record(&["a", "1", "z"]), record(&["a"])];
    let err = collapse(&records, &config(2)).unwrap_err();
    assert_eq!(err, RunError::MissingColumn { column: 2, line: 2 });
}

#[test]
fn column_zero_is_missing_on_first_line() {
    let records = vec![record(&["a", "1"])];
    let err = collapse(&records, &config(0)).unwrap_err();
    assert_eq!(err, RunError::MissingColumn { column: 0, line: 1 });
}

#[test]
fn sum_past_u64_fails_with_overflow() {
    let records = vec![
        record(&["a", "18446744073709551615"]),
        record(&["b", "1"]),
        record(&["a", "1"]),
    ];
    let err = collapse(&records, &config(2)).unwrap_err();
    assert_eq!(err, RunError::Overflow { line: 3 });
}

#[test]
fn sum_up_to_u64_max_is_kept() {
    let records = vec![record(&["a", "18446744073709551614"]), record(&["a", "1"])];
    let out = collapse(&records, &config(2)).unwrap();
    assert_eq!(out, lines(&["a\t18446744073709551615"]));
}

#[test]
fn sorted_lists_by_descending_sum() {
    let records = vec![
        record(&["a", "1", "x"]),
        record(&["b", "5", "z"]),
        record(&["a", "2", "x"]),
        record(&["c", "9", "w"]),
        record(&["d", "3", "v"]),
    ];
    let mut cfg = config(2);
    cfg.sorted = true;
    let out = collapse(&records, &cfg).unwrap();
    assert_eq!(out, lines(&["c\t9\tw", "b\t5\tz", "a\t3\tx", "d\t3\tv"]));
}

#[test]
fn unsorted_lists_in_first_seen_order() {
    let records = vec![record(&["b", "5"]), record(&["a", "1"]), record(&["b", "2"])];
    let out = collapse(&records, &config(2)).unwrap();
    assert_eq!(out, lines(&["b\t7", "a\t1"]));
}

#[test]
fn sum_does_not_depend_on_record_order() {
    let one = vec![record(&["a", "1"]), record(&["b", "5"]), record(&["a", "2"]), record(&["a", "4"])];
    let two = vec![record(&["a", "4"]), record(&["a", "2"]), record(&["b", "5"]), record(&["a", "1"])];
    let mut cfg = config(2);
    cfg.sorted = true;
    assert_eq!(collapse(&one, &cfg).unwrap(), lines(&["a\t7", "b\t5"]));
    assert_eq!(collapse(&two, &cfg).unwrap(), lines(&["a\t7", "b\t5"]));
}

#[test]
fn header_is_first_line_and_is_not_summed() {
    let records = vec![
        record(&["name", "count", "tag"]),
        record(&["a", "1", "x"]),
        record(&["a", "2", "x"]),
    ];
    let mut cfg = config(2);
    cfg.has_headers = true;
    let out = collapse(&records, &cfg).unwrap();
    assert_eq!(out, lines(&["name\ttag", "a\t3\tx"]));
    cfg.sum_first = true;
    cfg.sorted = true;
    let out = collapse(&records, &cfg).unwrap();
    assert_eq!(out, lines(&["name\ttag", "3\ta\tx"]));
}

#[test]
fn header_lines_are_counted_from_first_data_record() {
    let records = vec![record(&["name", "count"]), record(&["a", "one"])];
    let mut cfg = config(2);
    cfg.has_headers = true;
    let err = collapse(&records, &cfg).unwrap_err();
    assert_eq!(err, RunError::InvalidValue { text: b"one".to_vec(), line: 1 });
}

#[test]
fn header_of_empty_input_is_an_empty_line() {
    let records: Vec<Vec<Vec<u8>>> = Vec::new();
    let mut cfg = config(2);
    cfg.has_headers = true;
    assert_eq!(collapse(&records, &cfg).unwrap(), lines(&[""]));
    cfg.has_headers = false;
    assert_eq!(collapse(&records, &cfg).unwrap(), Vec::<Vec<u8>>::new());
}

#[test]
fn single_field_record_gains_an_empty_field() {
    let records = vec![record(&["5"]), record(&["6"])];
    let out = collapse(&records, &config(1)).unwrap();
    assert_eq!(out, lines(&["11\t"]));
}

#[test]
fn field_count_is_preserved() {
    let records = vec![record(&["a", "b", "7", "c"])];
    let out = collapse(&records, &config(3)).unwrap();
    assert_eq!(out, lines(&["a\tb\t7\tc"]));
    let out = collapse(&records, &Config { delimiter: Delimiter(b','), ..config(3) }).unwrap();
    assert_eq!(out, lines(&["a,b,7,c"]));
}

#[test]
fn value_in_first_and_last_column() {
    let records = vec![record(&["4", "k"]), record(&["6", "k"])];
    assert_eq!(collapse(&records, &config(1)).unwrap(), lines(&["10\tk"]));
    let records = vec![record(&["k", "4"]), record(&["k", "6"])];
    assert_eq!(collapse(&records, &config(2)).unwrap(), lines(&["k\t10"]));
}

#[test]
fn plus_sign_and_leading_zeros_are_read() {
    let records = vec![record(&["k", "+4"]), record(&["k", "006"])];
    assert_eq!(collapse(&records, &config(2)).unwrap(), lines(&["k\t10"]));
}

#[test]
fn text_input_is_framed_and_collapsed() {
    let input = b"a\t1\tx\na\t2\tx\nb\t5\tz\n";
    let out = collapse_input(input, &config(2)).unwrap();
    assert_eq!(out, lines(&["a\t3\tx", "b\t5\tz"]));
}

#[test]
fn text_input_with_distinct_keys() {
    let input = b"a\t1\tx\na\t2\ty\nb\t5\tz";
    let out = collapse_input(input, &config(2)).unwrap();
    assert_eq!(out, lines(&["a\t1\tx", "a\t2\ty", "b\t5\tz"]));
}

#[test]
fn text_input_with_sum_first() {
    let input = b"a\t1\tx\na\t2\tx\nb\t5\tz\n";
    let mut cfg = config(2);
    cfg.sum_first = true;
    let out = collapse_input(input, &cfg).unwrap();
    assert_eq!(out, lines(&["3\ta\tx", "5\tb\tz"]));
}

#[test]
fn text_input_with_malformed_value() {
    let err = collapse_input(b"a\tXYZ\tz\n", &config(2)).unwrap_err();
    assert_eq!(err, RunError::InvalidValue { text: b"XYZ".to_vec(), line: 1 });
}

#[test]
fn text_input_with_header_and_comma() {
    let input = b"name,count\na,1\nb,2\na,3\n";
    let cfg = Config {
        column: 2,
        delimiter: Delimiter(b','),
        sorted: true,
        sum_first: false,
        has_headers: true,
    };
    let out = collapse_input(input, &cfg).unwrap();
    assert_eq!(out, lines(&["name", "a,4", "b,2"]));
}

#[test]
fn text_input_may_vary_in_field_count() {
    let input = b"a\t1\na\t1\tx\n";
    let out = collapse_input(input, &config(2)).unwrap();
    assert_eq!(out, lines(&["a\t1", "a\t1\tx"]));
}

#[test]
fn text_input_that_is_not_utf8_is_unreadable() {
    let err = collapse_input(b"a\t\xff\n", &config(2)).unwrap_err();
    assert!(matches!(err, RunError::Unreadable { .. }));
}

#[test]
fn sum_records_skips_the_records_before_start() {
    let records = vec![record(&["h", "n"]), record(&["a", "1"]), record(&["a", "2"])];
    let acc = sum_records(&records, 1, 2, b'\t').unwrap();
    assert_eq!(acc.len(), 1);
    let entries = acc.into_entries();
    assert_eq!(entries[0].key, b"a".to_vec());
    assert_eq!(entries[0].sum, 3);
    let rows = write_rows(&entries, 2, b'\t', false);
    assert_eq!(rows, lines(&["a\t3"]));
}

#[test]
fn text_input_with_other_line_ends_and_empty_lines() {
    let input = b"a\t1\r\n\r\nb\t2\r\na\t4";
    let out = collapse_input(input, &config(2)).unwrap();
    assert_eq!(out, lines(&["a\t5", "b\t2"]));
}

#[test]
fn quote_characters_are_plain_bytes() {
    let input = b"\"a\"\t1\tx\n";
    let out = collapse_input(input, &config(2)).unwrap();
    assert_eq!(out, lines(&["\"a\"\t1\tx"]));
}

#[test]
fn separator_between_quotes_still_separates() {
    let input = b"\"a\tb\"\t1\n\"a\tb\"\t2\n";
    let out = collapse_input(input, &config(3)).unwrap();
    assert_eq!(out, lines(&["\"a\tb\"\t3"]));
    let err = collapse_input(input, &config(2)).unwrap_err();
    assert_eq!(err, RunError::InvalidValue { text: b"b\"".to_vec(), line: 1 });
}

#[test]
fn unclosed_quote_does_not_swallow_lines() {
    let input = b"\"a\t1\nb\t2\n\"a\t4\n";
    let out = collapse_input(input, &config(2)).unwrap();
    assert_eq!(out, lines(&["\"a\t5", "b\t2"]));
}

#[test]
fn quoted_comma_field_is_cut_at_the_comma() {
    let cfg = Config { delimiter: Delimiter(b','), ..config(1) };
    let out = collapse_input(b"7,\"x,y\"\n", &cfg).unwrap();
    assert_eq!(out, lines(&["7,\"x,y\""]));
}

#[test]
fn record_error_comes_before_later_framing_error() {
    let err = collapse_input(b"a\tx\nb\t\xff\n", &config(2)).unwrap_err();
    assert_eq!(err, RunError::InvalidValue { text: b"x".to_vec(), line: 1 });
    let err = collapse_input(b"a\nb\t\xff\n", &config(2)).unwrap_err();
    assert_eq!(err, RunError::MissingColumn { column: 2, line: 1 });
    let err = collapse_input(b"a\t1\nb\t\xff\n", &config(2)).unwrap_err();
    assert!(matches!(err, RunError::Unreadable { .. }));
}

#[test]
fn framed_records_with_and_without_failure() {
    let records = vec![record(&["a", "1"]), record(&["a", "2"])];
    assert_eq!(collapse_framed(&records, None, &config(2)).unwrap(), lines(&["a\t3"]));
    assert_eq!(
        collapse_framed(&records, Some("broken".to_string()), &config(2)).unwrap_err(),
        RunError::Unreadable { reason: "broken".to_string() }
    );
    let records = vec![record(&["a", "1"]), record(&["a", "z"])];
    assert_eq!(
        collapse_framed(&records, Some("broken".to_string()), &config(2)).unwrap_err(),
        RunError::InvalidValue { text: b"z".to_vec(), line: 2 }
    );
    let mut cfg = config(2);
    cfg.has_headers = true;
    assert_eq!(
        collapse_framed(&records, Some("broken".to_string()), &cfg).unwrap_err(),
        RunError::InvalidValue { text: b"z".to_vec(), line: 1 }
    );
}

#[test]
fn distinct_keys_come_back_byte_for_byte() {
    let input = b"a\t1\tx\nb\t20\ty\nc\t0\tz\n";
    let out = collapse_input(input, &config(2)).unwrap();
    assert_eq!(out, lines(&["a\t1\tx", "b\t20\ty", "c\t0\tz"]));
}
