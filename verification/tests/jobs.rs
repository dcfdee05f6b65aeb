use csv_to_duckdb::args::{Args, ImportMode};
use csv_to_duckdb::discover::{gather_files, DirectoryError, Entry, Listing};
use csv_to_duckdb::jobs::{
    build_import_jobs, first_directory, ignored_message, BuildError, IgnoredFile, ImportJob,
};
use csv_to_duckdb::paths::Location;

fn args(all: bool) -> Args {
    Args {
        dir: b"in".to_vec(),
        db: "out".to_string(),
        interval: "1s".to_string(),
        table: "klines".to_string(),
        batch_size: 1,
        progress_every: 1,
        has_header: false,
        recreate: false,
        recreate_pragmatic: false,
        import_mode: ImportMode::Balanced,
        replace_existing: false,
        skip_order_check: false,
        auto: None,
        all,
        jobs: 1,
    }
}

fn csv(name: &str) -> Entry {
    Entry::File(Some(name.to_string()))
}

fn dir(name: &str, entries: Vec<Entry>) -> Entry {
    Entry::Dir(name.as_bytes().to_vec(), Listing::Entries(entries))
}

fn place(location: &Location) -> String {
    let mut text = String::from_utf8(location.root.clone()).unwrap();
    for part in &location.parts {
        text.push('|');
        text.push_str(std::str::from_utf8(part).unwrap());
    }
    text
}

fn summary(job: &ImportJob) -> String {
    let files: Vec<String> =
        job.files.iter().map(|f| format!("{}@{}/{}", f.file_name, f.year, f.month)).collect();
    format!(
        "{} -> {}: {} {} [{}]",
        place(&job.dir),
        place(&job.db_path),
        job.symbol,
        job.interval,
        files.join(" ")
    )
}

fn names(ignored: &[IgnoredFile]) -> Vec<String> {
    ignored
        .iter()
        .map(|f| {
            let parts: Vec<&str> =
                f.dir.iter().map(|p| std::str::from_utf8(p).unwrap()).collect();
            format!("{}:{}", parts.join("|"), f.file_name)
        })
        .collect()
}

#[test]
fn a_single_directory_makes_one_job() {
    let listing = Listing::Entries(vec![
        csv("BTCUSDT-1s-2024-02.csv"),
        csv("notes.txt"),
        csv("odd.csv"),
        csv("ETHUSDT-1m-2024-01.csv"),
        Entry::File(None),
        Entry::Other,
        dir("sub", vec![csv("X-1s-2024-01.csv")]),
        csv("BTCUSDT-1s-2024-01.csv"),
    ]);
    let mut ignored = Vec::new();
    let jobs = build_import_jobs(&args(false), true, true, &listing, &mut ignored).ok().unwrap();
    let shown: Vec<String> = jobs.iter().map(summary).collect();
    assert_eq!(
        shown,
        vec![
            "in -> out: BTCUSDT 1s [BTCUSDT-1s-2024-02.csv@2024/2 BTCUSDT-1s-2024-01.csv@2024/1]"
        ]
    );
    assert_eq!(names(&ignored), vec![":odd.csv"]);
}

#[test]
fn a_single_directory_without_matching_files() {
    let listing = Listing::Entries(vec![csv("BTCUSDT-1m-2024-02.csv")]);
    let mut ignored = Vec::new();
    let e = build_import_jobs(&args(false), true, true, &listing, &mut ignored).err().unwrap();
    assert!(matches!(e, BuildError::NoMatch));
    assert_eq!(
        e.message(&args(false), "in"),
        Some("No files found matching *-1s-YYYY-MM.csv in in".to_string())
    );
}

#[test]
fn mixed_symbols_are_refused_in_a_single_directory() {
    let listing = Listing::Entries(vec![
        csv("BTCUSDT-1s-2024-02.csv"), csv("odd.csv"), csv("ETHUSDT-1s-2024-01.csv"), csv("odd2.csv"),
    ]);
    let mut ignored = Vec::new();
    let e = build_import_jobs(&args(false), true, true, &listing, &mut ignored).err().unwrap();
    assert_eq!(
        e.message(&args(false), "in"),
        Some("Mixed symbols for interval 1s in in: found both BTCUSDT and ETHUSDT".to_string())
    );
    assert_eq!(names(&ignored), vec![":odd.csv"]);
}

#[test]
fn a_tree_is_mirrored() {
    let listing = Listing::Entries(vec![
        dir("spot", vec![dir("SOLUSDT", vec![csv("SOLUSDT-1s-2024-01.csv")])]),
        dir("ETHUSDT", vec![csv("ETHUSDT-5m-2023-12.csv"), csv("README.md")]),
        csv("x.csv"),
        dir("BTCUSDT", vec![
            csv("BTCUSDT-1s-2024-01.csv"),
            dir("old", vec![csv("BTCUSDT-1m-2020-01.csv"), csv("y.csv")]),
        ]),
        dir("empty", Vec::new()),
    ]);
    let mut ignored = Vec::new();
    let jobs = build_import_jobs(&args(true), false, false, &listing, &mut ignored).ok().unwrap();
    let shown: Vec<String> = jobs.iter().map(summary).collect();
    assert_eq!(
        shown,
        vec![
            "../data/|BTCUSDT -> ../db/|BTCUSDT|BTCUSDT.duckdb: BTCUSDT 1s [BTCUSDT-1s-2024-01.csv@2024/1]",
            "../data/|BTCUSDT|old -> ../db/|BTCUSDT|old|BTCUSDT.duckdb: BTCUSDT 1m [BTCUSDT-1m-2020-01.csv@2020/1]",
            "../data/|ETHUSDT -> ../db/|ETHUSDT|ETHUSDT.duckdb: ETHUSDT 5m [ETHUSDT-5m-2023-12.csv@2023/12]",
            "../data/|spot|SOLUSDT -> ../db/|spot|SOLUSDT|SOLUSDT.duckdb: SOLUSDT 1s [SOLUSDT-1s-2024-01.csv@2024/1]",
        ]
    );
    assert_eq!(names(&ignored), vec![":x.csv", "BTCUSDT|old:y.csv"]);
}

#[test]
fn directories_do_not_share_databases() {
    let listing = Listing::Entries(vec![
        csv("S-1s-2024-01.csv"),
        dir("a", vec![csv("S-1s-2024-01.csv"), dir("b", vec![csv("S-1m-2024-01.csv")])]),
        dir("b", vec![csv("S-1s-2024-01.csv")]),
    ]);
    let mut ignored = Vec::new();
    let jobs = build_import_jobs(&args(true), true, true, &listing, &mut ignored).ok().unwrap();
    let places: Vec<String> = jobs.iter().map(|job| place(&job.db_path)).collect();
    assert_eq!(
        places,
        vec!["out|S.duckdb", "out|a|S.duckdb", "out|a|b|S.duckdb", "out|b|S.duckdb"]
    );
}

#[test]
fn the_root_itself_may_hold_files() {
    let listing = Listing::Entries(vec![csv("BTCUSDT-1s-2024-01.csv")]);
    let mut ignored = Vec::new();
    let jobs = build_import_jobs(&args(true), true, true, &listing, &mut ignored).ok().unwrap();
    assert_eq!(
        summary(&jobs[0]),
        "in -> out|BTCUSDT.duckdb: BTCUSDT 1s [BTCUSDT-1s-2024-01.csv@2024/1]"
    );
    assert_eq!(jobs.len(), 1);
}

#[test]
fn mixed_directories_of_a_tree_are_refused() {
    let symbols = Listing::Entries(vec![dir("d", vec![
        csv("BTCUSDT-1s-2024-01.csv"), csv("ETHUSDT-1m-2024-01.csv"),
    ])]);
    let intervals = Listing::Entries(vec![dir("d", vec![
        csv("BTCUSDT-1s-2024-01.csv"), csv("BTCUSDT-1m-2024-01.csv"),
    ])]);
    let mut ignored = Vec::new();
    let e = build_import_jobs(&args(true), true, true, &symbols, &mut ignored).err().unwrap();
    assert_eq!(
        e.message(&args(true), "in/d"),
        Some("Mixed symbols in in/d: found both BTCUSDT and ETHUSDT".to_string())
    );
    match build_import_jobs(&args(true), true, true, &intervals, &mut ignored).err().unwrap() {
        BuildError::Directory(e) => {
            assert_eq!(e.dir, vec![b"d".to_vec()]);
            assert_eq!(
                e.error.message(None, "in/d"),
                Some("Mixed intervals in in/d: found both 1s and 1m".to_string())
            );
        }
        _ => panic!("another error"),
    }
}

#[test]
fn a_tree_without_csv_files() {
    let listing = Listing::Entries(vec![dir("d", vec![csv("odd.csv"), Entry::Other])]);
    let mut ignored = Vec::new();
    let e = build_import_jobs(&args(true), true, true, &listing, &mut ignored).err().unwrap();
    assert!(matches!(e, BuildError::NoDirectories));
    assert_eq!(e.message(&args(true), "in"), Some("No CSV directories found in in".to_string()));
    assert_eq!(names(&ignored), vec!["d:odd.csv"]);
}

#[test]
fn directories_that_cannot_be_read() {
    let mut ignored = Vec::new();
    for all in [false, true] {
        let e = build_import_jobs(&args(all), true, true, &Listing::Unreadable(3), &mut ignored)
            .err()
            .unwrap();
        assert_eq!(e.message(&args(all), "in"), Some("Cannot read in".to_string()));
        match e {
            BuildError::Directory(e) => assert!(matches!(e.error, DirectoryError::Unreadable(3))),
            _ => panic!("another error"),
        }
    }
    let listing = Listing::Entries(vec![
        dir("a", vec![csv("BTCUSDT-1s-2024-01.csv")]),
        Entry::Dir(b"b".to_vec(), Listing::Unreadable(7)),
    ]);
    match build_import_jobs(&args(true), true, true, &listing, &mut ignored).err().unwrap() {
        BuildError::Directory(e) => {
            assert_eq!(e.dir, vec![b"b".to_vec()]);
            assert!(matches!(e.error, DirectoryError::Unreadable(7)));
        }
        _ => panic!("another error"),
    }
}

#[test]
fn entries_that_cannot_be_read() {
    let entries = vec![csv("BTCUSDT-1s-2024-01.csv"), Entry::Failed(5), csv("odd.csv")];
    let mut ignored = Vec::new();
    let e = gather_files(&entries, None, &mut ignored).err().unwrap();
    assert!(matches!(e, DirectoryError::BadEntry(5)));
    assert_eq!(e.message(None, "in"), None);
    assert!(ignored.is_empty());
}

#[test]
fn files_of_one_symbol_and_interval_are_gathered() {
    let entries =
        vec![csv("BTCUSDT-1s-2024-02.csv"), csv("a.csv"), csv("BTCUSDT-1s-2024-01.csv")];
    let mut ignored = vec!["before".to_string()];
    let group = gather_files(&entries, None, &mut ignored).ok().unwrap().unwrap();
    assert_eq!(group.symbol, "BTCUSDT");
    assert_eq!(group.interval, "1s");
    assert_eq!(group.files.len(), 2);
    assert_eq!(group.files[0].file_name, "BTCUSDT-1s-2024-02.csv");
    assert_eq!(ignored, vec!["before", "a.csv"]);
    assert!(gather_files(&entries, Some("1m"), &mut ignored).ok().unwrap().is_none());
}

#[test]
fn the_first_directory() {
    assert_eq!(first_directory(&args(true), false), b"../data/".to_vec());
    assert_eq!(first_directory(&args(true), true), b"in".to_vec());
    assert_eq!(first_directory(&args(false), false), b"in".to_vec());
}

#[test]
fn warning_about_an_ignored_file() {
    assert_eq!(
        ignored_message("in/d", "odd.csv"),
        "Warning: ignoring CSV with unexpected name in in/d: odd.csv"
    );
}
