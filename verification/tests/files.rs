use csv_to_duckdb::files::{
    apply_auto_file_limit, arrange_files, no_files_message, warn_missing_months, CsvFile,
};

fn file(name: &str, year: i32, month: u32) -> CsvFile {
    CsvFile { file_name: name.to_string(), year, month }
}

fn shown(files: &[CsvFile]) -> Vec<String> {
    files.iter().map(|f| f.file_name.clone()).collect()
}

#[test]
fn the_limit_keeps_the_last_files() {
    let all = || vec![file("a", 2024, 1), file("b", 2024, 2), file("c", 2024, 3)];
    let mut files = all();
    apply_auto_file_limit(&mut files, Some(2));
    assert_eq!(shown(&files), vec!["b", "c"]);
    for auto in [None, Some(3), Some(4)] {
        let mut files = all();
        apply_auto_file_limit(&mut files, auto);
        assert_eq!(shown(&files), vec!["a", "b", "c"]);
    }
    let mut files = all();
    apply_auto_file_limit(&mut files, Some(0));
    assert!(files.is_empty());
}

#[test]
fn files_go_by_their_months() {
    let mut files = vec![
        file("d", 2024, 2), file("b", 2023, 12), file("e", 2024, 11), file("a", -5, 7),
        file("c", 2024, 1), file("d2", 2024, 2),
    ];
    assert!(arrange_files(&mut files, None));
    assert_eq!(shown(&files), vec!["a", "b", "c", "d", "d2", "e"]);
}

#[test]
fn the_newest_files_are_kept() {
    let mut files = vec![file("new", 2024, 3), file("old", 2023, 12), file("mid", 2024, 1)];
    assert!(arrange_files(&mut files, Some(2)));
    assert_eq!(shown(&files), vec!["mid", "new"]);
}

#[test]
fn a_limit_of_one_keeps_a_file() {
    let mut files = vec![file("new", 2024, 3), file("old", 2023, 12)];
    assert!(arrange_files(&mut files, Some(1)));
    assert_eq!(shown(&files), vec!["new"]);
}

#[test]
fn there_may_be_no_file() {
    let mut files: Vec<CsvFile> = Vec::new();
    assert!(!arrange_files(&mut files, Some(2)));
    assert_eq!(
        no_files_message("BTCUSDT", "1s", "../data"),
        "No files found matching BTCUSDT-1s-YYYY-MM.csv in ../data"
    );
}

#[test]
fn missing_months_are_told() {
    let files = vec![
        file("a", 2023, 11), file("b", 2023, 12), file("c", 2024, 1), file("d", 2024, 3),
        file("e", 2024, 3), file("f", 2026, 4),
    ];
    assert_eq!(
        warn_missing_months(&files),
        vec![
            "Warning: missing month(s) between 2024-01 and 2024-03",
            "Warning: missing month(s) between 2024-03 and 2024-03",
            "Warning: missing month(s) between 2024-03 and 2026-04",
        ]
    );
}

#[test]
fn no_month_is_missing_in_a_row_of_months() {
    assert!(warn_missing_months(&vec![file("a", 2023, 12), file("b", 2024, 1)]).is_empty());
    assert!(warn_missing_months(&vec![file("a", 2023, 12)]).is_empty());
    assert!(warn_missing_months(&Vec::new()).is_empty());
    assert_eq!(
        warn_missing_months(&vec![file("a", 7, 12), file("b", 7, 1)]),
        vec!["Warning: missing month(s) between 0007-12 and 0007-01"]
    );
}
