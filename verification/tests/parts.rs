use dropandsum::accumulator::{Accumulator, Entry};
use dropandsum::config::{parse_column, Delimiter};
use dropandsum::emit::{rank, render_row};
use dropandsum::error::RunError;
use dropandsum::extract::extract;
use dropandsum::number::{format_number, parse_number};
use dropandsum::record::{
    append_bytes, bytes_equal, copy_bytes, drop_column, join_fields, split_line,
};

fn record(fields: &[&str]) -> Vec<Vec<u8>> {
    fields.iter().map(|f| f.as_bytes().to_vec()).collect()
}

#[test]
fn delimiter_tab_escape() {
    let d = Delimiter::from_str("\\t").unwrap();
    assert_eq!(d.as_byte(), b'\t');
    assert_eq!(d.as_string(), "\t");
}

#[test]
fn delimiter_single_ascii_character() {
    assert_eq!(Delimiter::from_str(",").unwrap(), Delimiter(b','));
    assert_eq!(Delimiter::from_str("\t").unwrap(), Delimiter(9));
    assert_eq!(Delimiter::from_str("\\").unwrap(), Delimiter(b'\\'));
    assert_eq!(Delimiter(b';').as_string(), ";");
    assert_eq!(Delimiter(b';').as_byte(), 59);
}

#[test]
fn delimiter_rejects_other_tokens() {
    for token in ["", "ab", "\\n", "\u{e9}", "\\tt", ",,"] {
        assert_eq!(
            Delimiter::from_str(token).unwrap_err(),
            RunError::InvalidDelimiter { token: token.to_string() }
        );
    }
}

#[test]
fn column_argument() {
    assert_eq!(parse_column("2").unwrap(), 2);
    assert_eq!(parse_column("+12").unwrap(), 12);
    assert_eq!(parse_column("0").unwrap(), 0);
    for token in ["", "x", "-1", "1.5", " 1", "99999999999999999999999"] {
        assert_eq!(
            parse_column(token).unwrap_err(),
            RunError::InvalidColumnIndex { token: token.to_string() }
        );
    }
}

#[test]
fn numbers_are_read() {
    assert_eq!(parse_number(b"0"), Some(0));
    assert_eq!(parse_number(b"42"), Some(42));
    assert_eq!(parse_number(b"+5"), Some(5));
    assert_eq!(parse_number(b"007"), Some(7));
    assert_eq!(parse_number(b"18446744073709551615"), Some(u64::MAX));
    assert_eq!(parse_number(b"18446744073709551616"), None);
    assert_eq!(parse_number(b"99999999999999999999999"), None);
    assert_eq!(parse_number(b""), None);
    assert_eq!(parse_number(b"+"), None);
    assert_eq!(parse_number(b"++1"), None);
    assert_eq!(parse_number(b"-1"), None);
    assert_eq!(parse_number(b"1 "), None);
    assert_eq!(parse_number(b"1x"), None);
    assert_eq!(parse_number(b"XYZ"), None);
}

#[test]
fn numbers_are_written() {
    assert_eq!(format_number(0), b"0".to_vec());
    assert_eq!(format_number(9), b"9".to_vec());
    assert_eq!(format_number(10), b"10".to_vec());
    assert_eq!(format_number(12345), b"12345".to_vec());
    assert_eq!(format_number(u64::MAX), b"18446744073709551615".to_vec());
}

#[test]
fn written_numbers_read_back() {
    for n in [0u64, 1, 9, 10, 99, 100, 1234567890, u64::MAX - 1, u64::MAX] {
        assert_eq!(parse_number(&format_number(n)), Some(n));
        assert_eq!(format_number(n), n.to_string().into_bytes());
    }
}

#[test]
fn lines_are_split() {
    assert_eq!(split_line(b"a\t1\tx", b'\t'), record(&["a", "1", "x"]));
    assert_eq!(split_line(b"", b'\t'), record(&[""]));
    assert_eq!(split_line(b"\t", b'\t'), record(&["", ""]));
    assert_eq!(split_line(b"a,,b,", b','), record(&["a", "", "b", ""]));
    assert_eq!(split_line(b"\"a,b\"", b','), record(&["\"a", "b\""]));
    assert_eq!(split_line(b"abc", b','), record(&["abc"]));
}

#[test]
fn fields_are_joined() {
    assert_eq!(join_fields(&record(&["a", "1", "x"]), b'\t'), b"a\t1\tx".to_vec());
    assert_eq!(join_fields(&record(&[]), b'\t'), b"".to_vec());
    assert_eq!(join_fields(&record(&["a"]), b'\t'), b"a".to_vec());
    assert_eq!(join_fields(&record(&["", ""]), b','), b",".to_vec());
}

#[test]
fn split_undoes_join() {
    for fields in [record(&["a", "b", "c"]), record(&[""]), record(&["", "x", ""]), record(&["one"])] {
        assert_eq!(split_line(&join_fields(&fields, b','), b','), fields);
    }
    assert_eq!(split_line(&join_fields(&record(&[]), b','), b','), record(&[""]));
    assert_eq!(split_line(&join_fields(&record(&["a,b"]), b','), b','), record(&["a", "b"]));
}

#[test]
fn column_is_dropped() {
    assert_eq!(drop_column(&record(&["a", "b", "c"]), 1), record(&["b", "c"]));
    assert_eq!(drop_column(&record(&["a", "b", "c"]), 2), record(&["a", "c"]));
    assert_eq!(drop_column(&record(&["a", "b", "c"]), 3), record(&["a", "b"]));
    assert_eq!(drop_column(&record(&["a", "b", "c"]), 0), record(&["a", "b", "c"]));
    assert_eq!(drop_column(&record(&["a", "b", "c"]), 4), record(&["a", "b", "c"]));
}

#[test]
fn bytes_helpers() {
    let mut v = b"ab".to_vec();
    append_bytes(&mut v, b"cd");
    assert_eq!(v, b"abcd".to_vec());
    assert_eq!(copy_bytes(b"xyz"), b"xyz".to_vec());
    assert!(bytes_equal(b"abc", b"abc"));
    assert!(!bytes_equal(b"abc", b"abd"));
    assert!(!bytes_equal(b"abc", b"ab"));
    assert!(bytes_equal(b"", b""));
}

#[test]
fn value_and_key_are_extracted() {
    let r = record(&["a", "12", "x"]);
    assert_eq!(extract(&r, 2, b'\t', 1), Ok((12, b"a\tx".to_vec())));
    assert_eq!(extract(&record(&["7"]), 1, b'\t', 1), Ok((7, b"".to_vec())));
    assert_eq!(extract(&r, 4, b'\t', 9), Err(RunError::MissingColumn { column: 4, line: 9 }));
    assert_eq!(extract(&r, 0, b'\t', 9), Err(RunError::MissingColumn { column: 0, line: 9 }));
    assert_eq!(
        extract(&r, 1, b'\t', 3),
        Err(RunError::InvalidValue { text: b"a".to_vec(), line: 3 })
    );
}

#[test]
fn accumulator_adds_by_key() {
    let mut acc = Accumulator::new();
    assert_eq!(acc.len(), 0);
    assert!(acc.accumulate(b"a".to_vec(), 1));
    assert!(acc.accumulate(b"b".to_vec(), 5));
    assert!(acc.accumulate(b"a".to_vec(), 2));
    assert_eq!(acc.len(), 2);
    let entries = acc.into_entries();
    assert_eq!(
        entries,
        vec![Entry { key: b"a".to_vec(), sum: 3 }, Entry { key: b"b".to_vec(), sum: 5 }]
    );
}

#[test]
fn accumulator_refuses_overflow_and_stays() {
    let mut acc = Accumulator::new();
    assert!(acc.accumulate(b"a".to_vec(), u64::MAX - 1));
    assert!(!acc.accumulate(b"a".to_vec(), 2));
    assert!(acc.accumulate(b"a".to_vec(), 1));
    assert!(acc.accumulate(b"b".to_vec(), u64::MAX));
    let entries = acc.into_entries();
    assert_eq!(entries[0].sum, u64::MAX);
    assert_eq!(entries[1].sum, u64::MAX);
}

#[test]
fn rank_is_descending_and_keeps_ties_in_order() {
    let entries = vec![
        Entry { key: b"a".to_vec(), sum: 3 },
        Entry { key: b"b".to_vec(), sum: 9 },
        Entry { key: b"c".to_vec(), sum: 3 },
        Entry { key: b"d".to_vec(), sum: 0 },
        Entry { key: b"e".to_vec(), sum: 9 },
    ];
    let sorted = rank(entries);
    let keys: Vec<Vec<u8>> = sorted.iter().map(|e| e.key.clone()).collect();
    assert_eq!(keys, record(&["b", "e", "a", "c", "d"]));
    let sums: Vec<u64> = sorted.iter().map(|e| e.sum).collect();
    assert_eq!(sums, vec![9, 9, 3, 3, 0]);
    assert_eq!(rank(Vec::new()), Vec::<Entry>::new());
}

#[test]
fn rows_are_rendered() {
    assert_eq!(render_row(b"a\tx", 3, 2, b'\t', false), b"a\t3\tx".to_vec());
    assert_eq!(render_row(b"a\tx", 3, 1, b'\t', false), b"3\ta\tx".to_vec());
    assert_eq!(render_row(b"a\tx", 3, 3, b'\t', false), b"a\tx\t3".to_vec());
    assert_eq!(render_row(b"a\tx", 3, 2, b'\t', true), b"3\ta\tx".to_vec());
    assert_eq!(render_row(b"", 3, 1, b'\t', false), b"3\t".to_vec());
    assert_eq!(render_row(b"", 0, 1, b',', true), b"0,".to_vec());
}

#[test]
fn join_undoes_split() {
    for line in ["a,b,c", "", ",", ",,a,", "abc", "\"a,b\""] {
        assert_eq!(join_fields(&split_line(line.as_bytes(), b','), b','), line.as_bytes().to_vec());
    }
}
