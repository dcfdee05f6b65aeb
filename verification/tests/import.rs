use csv_to_duckdb::args::{Args, ImportMode};
use csv_to_duckdb::import::{
    at_milestone, import_settings, needs_max_open_time, Bracket, FileStep, ImportRun, InsertPath,
    Milestone, MilestoneStep, RowFault, RowStep, Settings, APPENDER_FLUSH_ROWS,
};
use csv_to_duckdb::records::RecordReader;
use csv_to_duckdb::row::{Field, RowError};
use csv_to_duckdb::stats::{scan_file_stats, FileStats};

fn args(import_mode: ImportMode, replace_existing: bool) -> Args {
    Args {
        dir: Vec::new(),
        db: String::new(),
        interval: "1s".to_string(),
        table: "klines".to_string(),
        batch_size: 2,
        progress_every: 3,
        has_header: false,
        recreate: false,
        recreate_pragmatic: false,
        import_mode,
        replace_existing,
        skip_order_check: false,
        auto: None,
        all: false,
        jobs: 1,
    }
}

fn settings(path: InsertPath, resume_open_time: Option<i64>) -> Settings {
    Settings {
        path,
        import_mode: match path {
            InsertPath::Appender => ImportMode::Balanced,
            InsertPath::Prepared => ImportMode::Safe,
        },
        batch_size: 2,
        progress_every: 3,
        skip_order_check: false,
        rsi_count: 0,
        resume_open_time,
    }
}

fn field(text: &str) -> Field {
    Field { text: text.to_string(), double: text.parse::<f64>().ok().map(f64::to_bits) }
}

fn record(open_time: &str, rest: &str) -> Vec<Field> {
    let mut fields = vec![field(open_time)];
    for _ in 1..12 {
        fields.push(field(rest));
    }
    fields
}

/// The outcome of an import in memory: the open times that were written, the fault, and the
/// progress that was shown.
struct Outcome {
    written: Vec<i64>,
    fault: Option<RowFault>,
    progress: u64,
    file_rows: Vec<usize>,
    checkpoints: Vec<usize>,
    reports: Vec<usize>,
}

fn import(settings: Settings, files: &[Vec<i64>]) -> Outcome {
    let mut run = ImportRun::new(settings);
    let mut out = Outcome {
        written: Vec::new(),
        fault: None,
        progress: 0,
        file_rows: Vec::new(),
        checkpoints: Vec::new(),
        reports: Vec::new(),
    };
    for times in files {
        let text: String = times.iter().map(|t| format!("{},x\n", t)).collect();
        let stats = scan_file_stats(text.as_bytes(), false).ok().unwrap();
        match run.begin_file(&stats) {
            Err(fault) => {
                out.fault = Some(fault);
                return out;
            }
            Ok(FileStep::Skip { progress }) => {
                out.progress += progress;
                out.file_rows.push(0);
                continue;
            }
            Ok(FileStep::Import) => {}
        }
        for time in times {
            match run.next_record(&record(&format!("{}", time), "1")) {
                Err(fault) => {
                    out.fault = Some(fault);
                    return out;
                }
                Ok(RowStep::Ignore) => panic!("nothing to ignore"),
                Ok(RowStep::Skip { progress }) => out.progress += progress.unwrap_or(0),
                Ok(RowStep::Insert(row)) => {
                    out.written.push(row.open_time);
                    let after = run.row_stored(row.open_time);
                    out.progress += after.progress.unwrap_or(0);
                    if after.checkpoint {
                        out.checkpoints.push(run.total_rows);
                    }
                    if after.report {
                        out.reports.push(run.total_rows);
                    }
                }
            }
        }
        let end = run.end_file();
        out.file_rows.push(end.rows);
        out.progress += end.progress.unwrap_or(0);
    }
    assert_eq!(run.total_rows, out.written.len());
    out
}

/// An import of the bytes of files: the open times that were written, and the fault.
fn import_bytes(settings: Settings, files: &[&[u8]]) -> (Vec<i64>, Option<RowFault>) {
    let mut run = ImportRun::new(settings);
    let mut written = Vec::new();
    for data in files {
        let stats = scan_file_stats(data, false).ok().unwrap();
        match run.begin_file(&stats) {
            Err(fault) => return (written, Some(fault)),
            Ok(FileStep::Skip { .. }) => continue,
            Ok(FileStep::Import) => {}
        }
        let mut records = RecordReader::new(data, false);
        while let Some(texts) = records.next_record().ok().unwrap() {
            let fields: Vec<Field> = texts.iter().map(|text| field(text)).collect();
            match run.next_record(&fields) {
                Err(fault) => return (written, Some(fault)),
                Ok(RowStep::Insert(row)) => {
                    written.push(row.open_time);
                    run.row_stored(row.open_time);
                }
                Ok(_) => {}
            }
        }
        run.end_file();
    }
    (written, None)
}

#[test]
fn a_second_import_of_records_over_several_lines() {
    let files: [&[u8]; 2] = [
        b"10,1,1,1,1,1,9,1,1,1,1,\"0\n13,\"\n",
        b"12,1,1,1,1,1,9,1,1,1,1,0\n14,1,1,1,1,1,9,1,1,1,1,0\n",
    ];
    for path in [InsertPath::Appender, InsertPath::Prepared] {
        assert_eq!(import_bytes(settings(path, None), &files), (vec![10, 12, 14], None));
        assert_eq!(import_bytes(settings(path, Some(14)), &files), (Vec::new(), None));
        assert_eq!(import_bytes(settings(path, Some(10)), &files), (vec![12, 14], None));
    }
}

#[test]
fn settings_follow_the_options() {
    let s = import_settings(&args(ImportMode::Balanced, false), 3, Some(9));
    assert_eq!(s.path, InsertPath::Appender);
    assert_eq!((s.batch_size, s.progress_every, s.rsi_count), (2, 3, 3));
    assert_eq!(s.resume_open_time, Some(9));
    assert_eq!(
        import_settings(&args(ImportMode::Unsafe, false), 0, None).path,
        InsertPath::Appender
    );
    assert_eq!(import_settings(&args(ImportMode::Safe, false), 0, None).path, InsertPath::Prepared);
    let s = import_settings(&args(ImportMode::Unsafe, true), 0, Some(9));
    assert_eq!(s.path, InsertPath::Prepared);
    assert_eq!(s.resume_open_time, None);
    assert!(needs_max_open_time(&args(ImportMode::Safe, false)));
    assert!(!needs_max_open_time(&args(ImportMode::Safe, true)));
}

#[test]
fn rows_are_written_in_order() {
    for path in [InsertPath::Appender, InsertPath::Prepared] {
        let out = import(settings(path, None), &[vec![1, 2, 3], vec![4], vec![5, 7]]);
        assert_eq!(out.written, vec![1, 2, 3, 4, 5, 7]);
        assert!(out.fault.is_none());
        assert_eq!(out.file_rows, vec![3, 1, 2]);
        assert_eq!(out.progress, 6);
        assert_eq!(out.reports, vec![3, 6]);
    }
}

#[test]
fn rows_one_by_one_are_committed_in_batches() {
    let out = import(settings(InsertPath::Prepared, None), &[vec![1, 2, 3], vec![4], vec![5, 7]]);
    assert_eq!(out.checkpoints, vec![2, 4, 6]);
}

#[test]
fn the_appender_is_flushed_whatever_the_batch_size() {
    assert_eq!(APPENDER_FLUSH_ROWS, 250_000);
    for batch_size in [1, 2, 300_000] {
        let mut s = settings(InsertPath::Appender, None);
        s.batch_size = batch_size;
        let mut run = ImportRun::new(s);
        let mut flushed = Vec::new();
        for time in 1..=500_001 {
            if run.row_stored(time).checkpoint {
                flushed.push(time);
            }
        }
        assert_eq!(flushed, vec![250_000, 500_000]);
    }
}

#[test]
fn the_fastest_mode_has_no_checkpoints() {
    let mut s = settings(InsertPath::Appender, None);
    s.import_mode = ImportMode::Unsafe;
    let mut run = ImportRun::new(s);
    for time in 1..=250_000 {
        assert!(!run.row_stored(time).checkpoint);
    }
    s.path = InsertPath::Prepared;
    assert_eq!(import(s, &[vec![1, 2, 3, 4]]).checkpoints, vec![2, 4]);
}

#[test]
fn rows_out_of_order_stop_the_import() {
    for path in [InsertPath::Appender, InsertPath::Prepared] {
        let out = import(settings(path, None), &[vec![1, 5], vec![5, 6]]);
        assert_eq!(out.written, vec![1, 5]);
        assert_eq!(out.fault, Some(RowFault::NotIncreasing { previous: 5, current: 5 }));
        let mut loose = settings(path, None);
        loose.skip_order_check = true;
        assert_eq!(import(loose, &[vec![1, 5], vec![5, 2]]).written, vec![1, 5, 5, 2]);
    }
}

#[test]
fn a_resumed_import_writes_what_is_new() {
    let files = [vec![1, 2, 3], vec![4, 5, 6], vec![7, 8]];
    for path in [InsertPath::Appender, InsertPath::Prepared] {
        let out = import(settings(path, Some(4)), &files);
        assert_eq!(out.written, vec![5, 6, 7, 8]);
        assert_eq!(out.file_rows, vec![0, 2, 2]);
        assert_eq!(out.progress, 8);
        assert!(import(settings(path, Some(8)), &files).written.is_empty());
        assert_eq!(import(settings(path, Some(8)), &files).progress, 8);
    }
}

#[test]
fn an_interrupted_import_can_be_completed() {
    let files = [vec![1, 2, 3], vec![4, 5, 6], vec![7, 8]];
    let whole = import(settings(InsertPath::Appender, None), &files).written;
    for stored in 1..=whole.len() {
        let mut table = whole[..stored].to_vec();
        let resume = table.iter().copied().max();
        table.extend(import(settings(InsertPath::Appender, resume), &files).written);
        assert_eq!(table, whole);
    }
}

#[test]
fn the_order_counts_for_stored_rows_too() {
    for path in [InsertPath::Appender, InsertPath::Prepared] {
        let out = import(settings(path, Some(10)), &[vec![12, 5, 11]]);
        assert_eq!(out.written, vec![12]);
        assert_eq!(out.fault, Some(RowFault::NotIncreasing { previous: 12, current: 5 }));
        let out = import(settings(path, Some(10)), &[vec![4, 3, 12]]);
        assert!(out.written.is_empty());
        assert_eq!(out.fault, Some(RowFault::NotIncreasing { previous: 4, current: 3 }));
        let out = import(settings(path, Some(10)), &[vec![1, 5], vec![5, 6], vec![12]]);
        assert!(out.written.is_empty());
        assert_eq!(out.fault, Some(RowFault::NotIncreasing { previous: 5, current: 5 }));
    }
}

#[test]
fn only_stored_rows_are_passed_over() {
    for path in [InsertPath::Appender, InsertPath::Prepared] {
        let mut loose = settings(path, Some(10));
        loose.skip_order_check = true;
        let out = import(loose, &[vec![12, 5]]);
        assert_eq!(out.written, vec![12]);
        assert!(out.fault.is_none());
        assert_eq!(out.file_rows, vec![1]);
        assert_eq!(out.progress, 2);
        let out = import(settings(path, Some(10)), &[vec![12, 5]]);
        assert_eq!(out.written, vec![12]);
        assert_eq!(out.fault, Some(RowFault::NotIncreasing { previous: 12, current: 5 }));
    }
}

#[test]
fn a_second_import_adds_nothing() {
    let files = [vec![3, 1, 9], vec![9, 2], vec![4]];
    let mut loose = settings(InsertPath::Appender, None);
    loose.skip_order_check = true;
    assert_eq!(import(loose, &files).written, vec![3, 1, 9, 9, 2, 4]);
    loose.resume_open_time = Some(9);
    assert!(import(loose, &files).written.is_empty());
    let strict = settings(InsertPath::Appender, None);
    assert_eq!(import(strict, &files).written, vec![3]);
    let again = import(settings(InsertPath::Appender, Some(3)), &files);
    assert!(again.written.is_empty());
    assert_eq!(again.fault, Some(RowFault::NotIncreasing { previous: 3, current: 1 }));
}

#[test]
fn both_ways_stop_at_the_same_record() {
    for files in [
        vec![vec![1, 2], vec![3]],
        vec![vec![1, 2, 2, 5]],
        vec![vec![1, 2], vec![2, 3]],
        vec![vec![5, 1]],
    ] {
        for resume in [None, Some(1), Some(2), Some(9)] {
            let one = import(settings(InsertPath::Appender, resume), &files);
            let other = import(settings(InsertPath::Prepared, resume), &files);
            assert_eq!(one.written, other.written);
            assert_eq!(one.fault, other.fault);
            assert_eq!(one.progress, other.progress);
        }
    }
}

#[test]
fn progress_is_shown_in_full_batches() {
    let times: Vec<i64> = (1..=8200).collect();
    let mut s = settings(InsertPath::Appender, Some(100));
    s.progress_every = 1_000_000;
    let mut run = ImportRun::new(s);
    let stats = FileStats {
        row_count: 8200,
        last_open_time: Some(8200),
        first_open_time: Some(1),
        increasing: true,
        described: true,
    };
    assert_eq!(run.begin_file(&stats), Ok(FileStep::Import));
    let mut shown = Vec::new();
    for time in times {
        match run.next_record(&record(&format!("{}", time), "1")).ok().unwrap() {
            RowStep::Ignore => panic!("nothing to ignore"),
            RowStep::Skip { progress } => shown.extend(progress),
            RowStep::Insert(row) => shown.extend(run.row_stored(row.open_time).progress),
        }
    }
    assert_eq!(shown, vec![8192]);
    let end = run.end_file();
    assert_eq!((end.rows, end.progress), (8100, Some(8)));
    assert_eq!(run.end_file().progress, None);
}

#[test]
fn what_becomes_of_odd_records() {
    let mut run = ImportRun::new(settings(InsertPath::Appender, None));
    assert!(matches!(run.next_record(&Vec::new()), Ok(RowStep::Ignore)));
    let fault = run.next_record(&record("x", "1")).err().unwrap();
    assert_eq!(fault, RowFault::OpenTime(RowError::Invalid(0)));
    assert_eq!(
        fault.messages(&record("x", "1"), "a.csv"),
        vec!["invalid open_time: x", "invalid digit found in string"]
    );
    let fault = run.next_record(&record("5", "?")).err().unwrap();
    assert_eq!(
        fault.messages(&record("5", "?"), "a.csv"),
        vec!["Bad row in a.csv", "invalid open: ?", "invalid float literal"]
    );
    let fault = run.next_record(&vec![field("5")]).err().unwrap();
    assert_eq!(fault, RowFault::BadRow(RowError::TooFewColumns));
    assert_eq!(
        fault.messages(&vec![field("5")], "a.csv"),
        vec!["Bad row in a.csv", "row has 1 columns, expected at least 12"]
    );
    assert_eq!(
        RowFault::NotIncreasing { previous: 7, current: -7 }.messages(&Vec::new(), "a.csv"),
        vec!["open_time is not strictly increasing: previous=7, current=-7 in a.csv"]
    );
}

#[test]
fn the_ways_differ_in_what_they_look_at_first() {
    let bad = record("5", "?");
    let mut run = ImportRun::new(settings(InsertPath::Appender, None));
    run.row_stored(9);
    let fault = run.next_record(&bad).err().unwrap();
    assert_eq!(fault, RowFault::NotIncreasing { previous: 9, current: 5 });
    let mut run = ImportRun::new(settings(InsertPath::Prepared, None));
    run.row_stored(9);
    assert_eq!(run.next_record(&bad).err().unwrap(), RowFault::BadRow(RowError::Invalid(1)));
}

#[test]
fn stored_rows_are_not_looked_at() {
    let mut run = ImportRun::new(settings(InsertPath::Prepared, Some(5)));
    assert!(matches!(
        run.next_record(&record("5", "?")),
        Ok(RowStep::Skip { progress: None })
    ));
    assert_eq!(run.last_open_time, Some(5));
}

#[test]
fn transactions_are_committed() {
    let brackets = |milestone| match at_milestone(InsertPath::Prepared, milestone) {
        MilestoneStep::Execute(list) => list,
        _ => panic!("no statements"),
    };
    let mut all = brackets(Milestone::Start);
    for _ in 0..2 {
        all.extend(brackets(Milestone::Checkpoint));
    }
    all.extend(brackets(Milestone::End));
    let sql: Vec<&str> = all.iter().map(Bracket::sql).collect();
    assert_eq!(sql, vec!["BEGIN", "COMMIT", "BEGIN", "COMMIT", "BEGIN", "COMMIT"]);
}

#[test]
fn the_appender_is_flushed() {
    let step = |milestone| at_milestone(InsertPath::Appender, milestone);
    assert!(matches!(step(Milestone::Start), MilestoneStep::Nothing));
    assert!(matches!(step(Milestone::Checkpoint), MilestoneStep::Flush));
    assert!(matches!(step(Milestone::End), MilestoneStep::Flush));
}
