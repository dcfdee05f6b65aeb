use csv_to_duckdb::progress::{
    count_row, file_progress_template, file_report, files_report, job_report, jobs_report,
    total_progress_template, truncate_progress_name, truncate_progress_prefix,
    PROGRESS_FLUSH_ROWS,
};

#[test]
fn long_names_are_cut() {
    let fits = "x".repeat(34);
    assert_eq!(truncate_progress_name(&fits), fits);
    let long = "\u{e9}".repeat(35);
    assert_eq!(truncate_progress_name(&long), format!("{}~", "\u{e9}".repeat(33)));
    assert_eq!(truncate_progress_name(""), "");
}

#[test]
fn long_symbols_are_cut() {
    assert_eq!(truncate_progress_prefix("BTCUSDT"), "BTCUSDT");
    assert_eq!(truncate_progress_prefix("1000PEPEUSDT"), "1000PEP");
    assert_eq!(truncate_progress_prefix("\u{e9}\u{e9}\u{e9}\u{e9}\u{e9}\u{e9}\u{e9}\u{e9}"), "\u{e9}\u{e9}\u{e9}\u{e9}\u{e9}\u{e9}\u{e9}");
}

#[test]
fn bar_layouts() {
    assert_eq!(
        total_progress_template(true),
        "{prefix:<10} [{elapsed_precise}] [{bar:40.cyan/blue}] {percent:>3}% {pos}/{len} rows ({per_sec}, ETA {eta}) {msg}"
    );
    assert_eq!(
        total_progress_template(false),
        "{prefix:<10} [{elapsed_precise}] {spinner:.green} {pos} rows ({per_sec}) {msg}"
    );
    assert_eq!(
        file_progress_template(true),
        "  {msg:<34} [{bar:28.green/black}] {percent:>3}% {pos}/{len}"
    );
    assert_eq!(file_progress_template(false), "  {msg:<34} {spinner:.green} {pos} rows");
}

#[test]
fn rows_are_shown_in_batches() {
    let mut pending = 0u64;
    for _ in 1..PROGRESS_FLUSH_ROWS {
        assert_eq!(count_row(&mut pending), None);
    }
    assert_eq!(pending, 8191);
    assert_eq!(count_row(&mut pending), Some(8192));
    assert_eq!(pending, 0);
}

#[test]
fn reports() {
    assert_eq!(file_report(42, "a.csv"), format!("Imported {:>12} rows from a.csv", 42));
    assert_eq!(
        files_report(3, 2, 2_592_000),
        "Found 3 file(s). Max RSI columns: 2. Expected rows: 2592000"
    );
    assert_eq!(
        job_report("BTCUSDT", "1s", "../data/BTCUSDT/", "../db/BTCUSDT/BTCUSDT.duckdb"),
        "Importing BTCUSDT 1s from ../data/BTCUSDT/ into ../db/BTCUSDT/BTCUSDT.duckdb"
    );
    assert_eq!(
        jobs_report(5, 4),
        "Found 5 import job(s). Processing up to 4 folder(s) in parallel."
    );
}
