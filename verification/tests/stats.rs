use csv_to_duckdb::stats::{
    collect_file_stats, expected_rows, parse_open_time_bytes, scan_file_stats, should_skip_file,
    trim_csv_line, FileStats, OpenTimeError,
};

fn stats(row_count: usize, first: Option<i64>, last: Option<i64>, increasing: bool) -> FileStats {
    FileStats {
        row_count,
        last_open_time: last,
        first_open_time: first,
        increasing,
        described: true,
    }
}

#[test]
fn lines_lose_their_ends() {
    assert_eq!(trim_csv_line(b"1,2\r\n"), b"1,2");
    assert_eq!(trim_csv_line(b"1,2\n\r\n"), b"1,2");
    assert_eq!(trim_csv_line(b" 1 \n"), b" 1 ");
    assert_eq!(trim_csv_line(b" \t\x0c \r\n"), b"");
    assert_eq!(trim_csv_line(b"\x0b\n"), b"\x0b");
    assert_eq!(trim_csv_line(b""), b"");
}

#[test]
fn open_times_are_read() {
    assert_eq!(parse_open_time_bytes(b"1704067200000,1,2").ok(), Some(1704067200000));
    assert_eq!(parse_open_time_bytes(b" -5 ,x").ok(), Some(-5));
    assert_eq!(parse_open_time_bytes(b"+7").ok(), Some(7));
    assert_eq!(parse_open_time_bytes("\u{3000}8\u{a0},".as_bytes()).ok(), Some(8));
}

#[test]
fn open_times_that_cannot_be_read() {
    let e = parse_open_time_bytes(b"\xff,1").err().unwrap();
    assert!(matches!(e, OpenTimeError::NotUtf8(_)));
    assert_eq!(
        e.messages(),
        vec!["open_time is not valid UTF-8", "invalid utf-8 sequence of 1 bytes from index 0"]
    );
    let e = parse_open_time_bytes(b" open_time ,open").err().unwrap();
    assert!(matches!(e, OpenTimeError::Invalid(_)));
    assert_eq!(
        e.messages(),
        vec!["invalid open_time: open_time", "invalid digit found in string"]
    );
    assert_eq!(
        parse_open_time_bytes(b"").err().unwrap().messages(),
        vec!["invalid open_time: ", "cannot parse integer from empty string"]
    );
    assert_eq!(
        parse_open_time_bytes(b"1\xe2\x82").err().unwrap().messages(),
        vec!["open_time is not valid UTF-8", "incomplete utf-8 byte sequence from index 1"]
    );
}

#[test]
fn counts_rows_and_looks_at_open_times() {
    let found = scan_file_stats(b"h,i\n1,a\n\n2,b\r\n", true).ok().unwrap();
    assert_eq!(found, stats(2, Some(1), Some(2), true));
    let found = scan_file_stats(b"5,a\n3,b", false).ok().unwrap();
    assert_eq!(found, stats(2, Some(5), Some(3), false));
    let found = scan_file_stats(b"1\n5\n5\n7\n", false).ok().unwrap();
    assert_eq!(found, stats(4, Some(1), Some(7), false));
    let found = scan_file_stats(b"9\n", false).ok().unwrap();
    assert_eq!(found, stats(1, Some(9), Some(9), true));
}

#[test]
fn lines_that_are_not_records_are_told() {
    let mut expected = stats(2, Some(10), Some(13), true);
    expected.described = false;
    let found = scan_file_stats(b"10,\"0\n13,\"\n", false).ok().unwrap();
    assert_eq!(found, expected);
    let spaced = scan_file_stats(b"1,a\n 2 ,b\n", false).ok().unwrap();
    assert_eq!((spaced.last_open_time, spaced.described), (Some(2), false));
    let uneven = scan_file_stats(b"1,a\n2\n", false).ok().unwrap();
    assert_eq!((uneven.row_count, uneven.described), (2, false));
}

#[test]
fn files_without_rows_have_no_open_time() {
    let nothing = stats(0, None, None, true);
    assert_eq!(scan_file_stats(b"", false).ok().unwrap(), nothing);
    assert_eq!(scan_file_stats(b"\n\r\n", true).ok().unwrap(), nothing);
    assert_eq!(scan_file_stats(b"\nheader\n", true).ok().unwrap(), nothing);
}

#[test]
fn a_header_that_is_not_announced_is_an_error() {
    let e = scan_file_stats(b"open_time,open\n1,2\n", false).err().unwrap();
    assert_eq!(e.messages()[0], "invalid open_time: open_time");
}

#[test]
fn stats_of_several_files() {
    let mut found = Vec::new();
    assert!(collect_file_stats(&mut found, b"1,a\n2,b\n", false).is_ok());
    assert!(collect_file_stats(&mut found, b"", false).is_ok());
    assert!(collect_file_stats(&mut found, b"9,c\n", false).is_ok());
    assert_eq!(
        found,
        vec![
            stats(2, Some(1), Some(2), true),
            stats(0, None, None, true),
            stats(1, Some(9), Some(9), true),
        ]
    );
    assert_eq!(expected_rows(&found), Some(3));
    assert!(collect_file_stats(&mut found, b"x\n", false).is_err());
    assert_eq!(found.len(), 3);
}

#[test]
fn row_counts_that_are_too_large_have_no_sum() {
    let found =
        vec![stats(usize::MAX, Some(1), Some(1), true), stats(1, Some(2), Some(2), true)];
    assert_eq!(expected_rows(&found), None);
    assert_eq!(expected_rows(&Vec::new()), Some(0));
}

#[test]
fn files_whose_last_row_is_stored() {
    let found = stats(2, Some(10), Some(20), true);
    assert!(should_skip_file(&found, Some(20)));
    assert!(should_skip_file(&found, Some(21)));
    assert!(!should_skip_file(&found, Some(19)));
    assert!(!should_skip_file(&found, None));
    assert!(!should_skip_file(&stats(0, None, None, true), Some(20)));
}
