use csv_to_duckdb::records::{
    infer_max_rsi_columns, records_open_at, too_few_columns_message, widen_rsi_columns,
    RecordReader, WidthError,
};

fn read_all(data: &[u8], has_header: bool) -> (Vec<Vec<String>>, bool) {
    let mut records = RecordReader::new(data, has_header);
    let mut rows = Vec::new();
    loop {
        match records.next_record() {
            Ok(Some(fields)) => rows.push(fields),
            Ok(None) => return (rows, true),
            Err(_) => return (rows, false),
        }
    }
}

#[test]
fn records_are_read() {
    let (rows, complete) = read_all(b"1,a\n\n2,\"b,\"\"c\"\r\n3, \n", false);
    assert!(complete);
    assert_eq!(rows, vec![vec!["1", "a"], vec!["2", "b,\"c"], vec!["3", " "]]);
}

#[test]
fn a_header_is_left_out() {
    let (rows, complete) = read_all(b"x,y\n1,a\n", true);
    assert!(complete);
    assert_eq!(rows, vec![vec!["1", "a"]]);
    assert_eq!(read_all(b"x,y\n", true), (Vec::new(), true));
    assert_eq!(read_all(b"", true), (Vec::new(), true));
}

#[test]
fn the_end_stays_the_end() {
    let mut records = RecordReader::new(b"1\n", false);
    assert_eq!(records.next_record().ok().unwrap(), Some(vec!["1".to_string()]));
    assert_eq!(records.next_record().ok().unwrap(), None);
    assert_eq!(records.next_record().ok().unwrap(), None);
}

#[test]
fn records_that_cannot_be_read() {
    let (rows, complete) = read_all(b"1,a\n2\n3,c\n", false);
    assert!(!complete);
    assert_eq!(rows, vec![vec!["1", "a"]]);
    let mut records = RecordReader::new(b"\xff,1\n", false);
    let e = records.next_record().err().unwrap();
    assert!(matches!(e.error.kind(), csv::ErrorKind::Utf8 { .. }));
}

#[test]
fn open_times_of_records() {
    assert!(records_open_at(b"1,a\n\n2,b\n", false, &vec![1, 2]));
    assert!(records_open_at(b"1,a\n2,b\n", true, &vec![2]));
    assert!(records_open_at(b"", false, &Vec::new()));
    assert!(records_open_at(b"10,\"0\n13,\"\n", false, &vec![10]));
    assert!(!records_open_at(b"10,\"0\n13,\"\n", false, &vec![10, 13]));
    assert!(!records_open_at(b"1,a\n2,b\n", false, &vec![1]));
    assert!(!records_open_at(b"1,a\n2,b\n", false, &vec![1, 3]));
    assert!(!records_open_at(b"1,a\nx,b\n", false, &vec![1, 2]));
    assert!(!records_open_at(b"1,a\n2\n", false, &vec![1, 2]));
}

#[test]
fn rsi_columns_are_inferred() {
    let kline = b"1,2,3,4,5,6,7,8,9,10,11,12\n";
    let wide = b"1,2,3,4,5,6,7,8,9,10,11,12,13,14\n1,2,3,4,5,6,7,8,9,10,11,12,13,14\n";
    assert_eq!(infer_max_rsi_columns(0, kline, false).ok(), Some(0));
    assert_eq!(infer_max_rsi_columns(0, wide, false).ok(), Some(2));
    assert_eq!(infer_max_rsi_columns(2, kline, false).ok(), Some(2));
    assert_eq!(infer_max_rsi_columns(5, wide, false).ok(), Some(5));
    assert_eq!(infer_max_rsi_columns(1, b"", false).ok(), Some(1));
    assert_eq!(infer_max_rsi_columns(1, b"open_time,open\n", true).ok(), Some(1));
}

#[test]
fn too_few_columns() {
    let e = infer_max_rsi_columns(0, b"1,2,3\n", false).err().unwrap();
    assert!(matches!(e, WidthError::TooFewColumns(3)));
    assert_eq!(
        too_few_columns_message("a.csv", 3),
        "a.csv has 3 columns, expected at least 12"
    );
    let e = infer_max_rsi_columns(0, b"\xff\n", false).err().unwrap();
    assert!(matches!(e, WidthError::Unreadable(_)));
}

#[test]
fn the_widest_record_counts() {
    assert_eq!(widen_rsi_columns(0, 11), None);
    assert_eq!(widen_rsi_columns(0, 12), Some(0));
    assert_eq!(widen_rsi_columns(1, 15), Some(3));
    assert_eq!(widen_rsi_columns(4, 15), Some(4));
    let mut max_rsi = 0;
    for columns in [12, 14, 13] {
        max_rsi = widen_rsi_columns(max_rsi, columns).unwrap();
    }
    assert_eq!(max_rsi, 2);
}
