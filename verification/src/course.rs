//! What an import does as a whole, when every write succeeds: which rows reach the table, that it
//! can be interrupted and taken up again, and that the progress display misses nothing.

use crate::args::Args;
use crate::import::{
    at_file, behind_file, file_order_fault, fresh_run, is_stored_file, order_fault, passed_over,
    settings_for, verdict, with_row, ImportRun, RowFault, Settings, Verdict,
};
use crate::progress::{passed_on, PROGRESS_FLUSH_ROWS};
use crate::records::{csv_rows, record_times};
use crate::row::{column_error, first_column_error, integer_at, row_of, Field, RowError, RowView};
use crate::stats::{already_stored, is_scan_of, summarises, times_increase, FileStats};
use vstd::prelude::*;

verus! {

/// A file as an import meets it: what the first pass found, and the records.
pub struct FileInput {
    pub stats: FileStats,
    pub records: Seq<Seq<Field>>,
}

/// How far an import has come.
pub struct Course {
    /// The run itself.
    pub run: ImportRun,
    /// The rows that were written.
    pub inserted: Seq<RowView>,
    /// Why the import stopped, if it did.
    pub fault: Option<RowFault>,
    /// The progress that was passed on to the display.
    pub progress: int,
}

/// An import that has not begun.
pub open spec fn at_start(settings: Settings) -> Course {
    Course { run: fresh_run(settings), inserted: Seq::empty(), fault: None, progress: 0 }
}

/// The progress once one more row was counted.
pub open spec fn progress_with_row(course: Course) -> int {
    course.progress + match passed_on(course.run.pending_progress as int) {
        Some(n) => n,
        None => 0,
    }
}

/// What one record changes.
pub open spec fn after_record(course: Course, record: Seq<Field>) -> Course {
    if course.fault is Some {
        course
    } else {
        match verdict(course.run.settings, course.run.last_open_time, record) {
            Verdict::Ignore => course,
            Verdict::Skip(open_time) => Course {
                run: passed_over(course.run, open_time),
                progress: progress_with_row(course),
                ..course
            },
            Verdict::Insert(row) => Course {
                run: with_row(course.run, row.open_time),
                inserted: course.inserted.push(row),
                progress: progress_with_row(course),
                ..course
            },
            Verdict::Refuse(fault) => Course { fault: Some(fault), ..course },
        }
    }
}

/// What a list of records changes.
pub open spec fn after_records(course: Course, records: Seq<Seq<Field>>) -> Course
    decreases records.len(),
{
    if records.len() == 0 {
        course
    } else {
        after_record(after_records(course, records.drop_last()), records.last())
    }
}

/// The course at the beginning of a file that is read.
pub open spec fn at_first_record(course: Course) -> Course {
    Course { run: ImportRun { file_rows: 0, pending_progress: 0, ..course.run }, ..course }
}

/// What one file changes that is read record by record.
pub open spec fn read_file(course: Course, records: Seq<Seq<Field>>) -> Course {
    let end = after_records(at_first_record(course), records);
    if end.fault is Some {
        end
    } else {
        Course {
            run: behind_file(end.run),
            progress: end.progress + end.run.pending_progress,
            ..end
        }
    }
}

/// What one file changes.
pub open spec fn after_file(course: Course, file: FileInput) -> Course {
    if course.fault is Some {
        course
    } else if file_order_fault(course.run, file.stats) is Some {
        Course { fault: file_order_fault(course.run, file.stats), ..course }
    } else if is_stored_file(file.stats, course.run.settings.resume_open_time) {
        Course {
            run: at_file(course.run, file.stats),
            progress: course.progress + file.stats.row_count,
            ..course
        }
    } else {
        read_file(course, file.records)
    }
}

/// What an import of a list of files does.
pub open spec fn after_files(settings: Settings, files: Seq<FileInput>) -> Course
    decreases files.len(),
{
    if files.len() == 0 {
        at_start(settings)
    } else {
        after_file(after_files(settings, files.drop_last()), files.last())
    }
}

/// The settings stay what they are.
proof fn lemma_settings_stay(course: Course, records: Seq<Seq<Field>>)
    ensures
        after_records(course, records).run.settings == course.run.settings,
    decreases records.len(),
{
    if records.len() > 0 {
        lemma_settings_stay(course, records.drop_last());
    }
}

/// The settings stay what they are.
proof fn lemma_settings_stay_in_files(settings: Settings, files: Seq<FileInput>)
    ensures
        after_files(settings, files).run.settings == settings,
    decreases files.len(),
{
    if files.len() > 0 {
        lemma_settings_stay_in_files(settings, files.drop_last());
        let before = after_files(settings, files.drop_last());
        lemma_settings_stay(at_first_record(before), files.last().records);
    }
}

/// Do the open times of the rows increase strictly?
pub open spec fn increasing(rows: Seq<RowView>) -> bool {
    forall|i: int, j: int|
        0 <= i < j < rows.len() ==> (#[trigger] rows[i]).open_time < (#[trigger] rows[j]).open_time
}

// ---------------------------------------------------------------------------------------------
// Order
// ---------------------------------------------------------------------------------------------
/// A row that a record makes opens when the record says.
proof fn lemma_row_open_time(record: Seq<Field>, rsi_count: nat)
    requires
        row_of(record, rsi_count) is Ok,
    ensures
        integer_at(record, 0) == Ok::<i64, RowError>(row_of(record, rsi_count)->Ok_0.open_time),
        record.len() > 0,
{
    lemma_first_column(record, 11);
}

/// Where no column is faulty, the first one is not.
proof fn lemma_first_column(record: Seq<Field>, n: nat)
    requires
        n > 0,
        first_column_error(record, n) is None,
    ensures
        column_error(record, 0) is None,
    decreases n,
{
    if n > 1 {
        lemma_first_column(record, (n - 1) as nat);
    }
}

/// The rows so far increase, and what was looked at last does not open before the last of them.
spec fn in_order(course: Course) -> bool {
    &&& increasing(course.inserted)
    &&& course.inserted.len() > 0 ==> {
        &&& course.run.last_open_time is Some
        &&& course.inserted.last().open_time <= course.run.last_open_time->0
    }
}

proof fn lemma_records_in_order(course: Course, records: Seq<Seq<Field>>)
    requires
        !course.run.settings.skip_order_check,
        in_order(course),
    ensures
        in_order(after_records(course, records)),
    decreases records.len(),
{
    if records.len() > 0 {
        let settings = course.run.settings;
        let before = after_records(course, records.drop_last());
        lemma_settings_stay(course, records.drop_last());
        lemma_records_in_order(course, records.drop_last());
        let record = records.last();
        if before.fault is None {
            if let Verdict::Insert(row) = verdict(settings, before.run.last_open_time, record) {
                lemma_row_open_time(record, settings.rsi_count as nat);
                let after = after_record(before, record);
                assert(after.inserted.last() == row);
                assert forall|i: int, j: int| 0 <= i < j < after.inserted.len() implies (
                #[trigger] after.inserted[i]).open_time < (
                #[trigger] after.inserted[j]).open_time by {
                    if j == after.inserted.len() - 1 {
                        assert(before.inserted[i].open_time <= before.inserted.last().open_time);
                        assert(order_fault(settings, before.run.last_open_time, row.open_time) is None);
                    }
                }
            }
        }
    }
}

/// With the order check on, the rows that an import writes open at strictly increasing times,
/// across all files.
pub proof fn imported_rows_increase(settings: Settings, files: Seq<FileInput>)
    requires
        !settings.skip_order_check,
        forall|k: int| 0 <= k < files.len() ==> (#[trigger] files[k]).stats.wf(),
    ensures
        increasing(after_files(settings, files).inserted),
{
    lemma_files_in_order(settings, files);
}

proof fn lemma_files_in_order(settings: Settings, files: Seq<FileInput>)
    requires
        !settings.skip_order_check,
        forall|k: int| 0 <= k < files.len() ==> (#[trigger] files[k]).stats.wf(),
    ensures
        in_order(after_files(settings, files)),
    decreases files.len(),
{
    if files.len() > 0 {
        assert forall|k: int| 0 <= k < files.drop_last().len() implies (
        #[trigger] files.drop_last()[k]).stats.wf() by {
            assert(files.drop_last()[k] == files[k]);
        }
        assert(files[files.len() - 1].stats.wf());
        lemma_files_in_order(settings, files.drop_last());
        lemma_settings_stay_in_files(settings, files.drop_last());
        let before = after_files(settings, files.drop_last());
        lemma_records_in_order(at_first_record(before), files.last().records);
    }
}

/// None of the rows is already stored.
spec fn all_new(settings: Settings, rows: Seq<RowView>) -> bool {
    forall|i: int|
        0 <= i < rows.len() ==> !already_stored(
            (#[trigger] rows[i]).open_time,
            settings.resume_open_time,
        )
}

proof fn lemma_records_new(course: Course, records: Seq<Seq<Field>>)
    requires
        all_new(course.run.settings, course.inserted),
    ensures
        all_new(course.run.settings, after_records(course, records).inserted),
    decreases records.len(),
{
    if records.len() > 0 {
        let settings = course.run.settings;
        lemma_settings_stay(course, records.drop_last());
        lemma_records_new(course, records.drop_last());
        let before = after_records(course, records.drop_last());
        let record = records.last();
        if before.fault is None {
            if let Verdict::Insert(row) = verdict(settings, before.run.last_open_time, record) {
                lemma_row_open_time(record, settings.rsi_count as nat);
            }
        }
    }
}

proof fn lemma_files_new(settings: Settings, files: Seq<FileInput>)
    ensures
        all_new(settings, after_files(settings, files).inserted),
    decreases files.len(),
{
    if files.len() > 0 {
        lemma_files_new(settings, files.drop_last());
        let before = after_files(settings, files.drop_last());
        lemma_settings_stay_in_files(settings, files.drop_last());
        lemma_records_new(at_first_record(before), files.last().records);
    }
}

/// An import that takes up behind the table's last row writes only rows that open after it,
/// whatever the files hold.
pub proof fn resumed_rows_are_new(settings: Settings, files: Seq<FileInput>)
    ensures
        forall|i: int|
            0 <= i < after_files(settings, files).inserted.len() ==> !already_stored(
                (#[trigger] after_files(settings, files).inserted[i]).open_time,
                settings.resume_open_time,
            ),
{
    lemma_files_new(settings, files);
}

// ---------------------------------------------------------------------------------------------
// Files that are passed over
// ---------------------------------------------------------------------------------------------
/// Does every record with anything in it have a readable open time?
pub open spec fn are_timed(records: Seq<Seq<Field>>) -> bool {
    forall|i: int|
        0 <= i < records.len() ==> (#[trigger] records[i]).len() == 0 || integer_at(records[i], 0)
            is Ok
}

/// The open times of the records with anything in them.
pub open spec fn open_times(records: Seq<Seq<Field>>) -> Seq<i64>
    decreases records.len(),
{
    if records.len() == 0 {
        Seq::empty()
    } else if records.last().len() == 0 {
        open_times(records.drop_last())
    } else {
        open_times(records.drop_last()).push(integer_at(records.last(), 0)->Ok_0)
    }
}

/// Did the first pass find what the records of the file say?
pub open spec fn is_described(file: FileInput) -> bool {
    are_timed(file.records) && summarises(file.stats, open_times(file.records))
}

/// If the first pass says that it found what the records say, did it?
pub open spec fn is_scanned(file: FileInput) -> bool {
    file.stats.described ==> is_described(file)
}

/// If the first pass says of a file that it found what the records say, did it?
pub open spec fn are_scanned(files: Seq<FileInput>) -> bool {
    forall|k: int| 0 <= k < files.len() ==> is_scanned(#[trigger] files[k])
}

/// Are these the records that the `csv` crate gives, all of which it could read?
pub open spec fn are_records_of(
    records: Seq<Seq<Field>>,
    rows: Seq<Option<Seq<Seq<char>>>>,
) -> bool {
    &&& records.len() == rows.len()
    &&& forall|i: int|
        0 <= i < records.len() ==> {
            &&& #[trigger] rows[i] matches Some(fields)
            &&& fields.len() == records[i].len()
            &&& forall|j: int|
                0 <= j < fields.len() ==> #[trigger] fields[j] == records[i][j].text@
        }
}

/// The open times of records are those that their first fields denote.
proof fn lemma_times_of_records(
    records: Seq<Seq<Field>>,
    rows: Seq<Option<Seq<Seq<char>>>>,
    n: int,
)
    requires
        are_records_of(records, rows),
        record_times(rows) is Some,
        0 <= n <= records.len(),
    ensures
        record_times(rows.skip(n)) is Some,
        are_timed(records.take(n)),
        open_times(records.take(n)) + record_times(rows.skip(n))->0 == record_times(rows)->0,
    decreases n,
{
    if n == 0 {
        assert(rows.skip(0) =~= rows);
        assert(open_times(records.take(0)) + record_times(rows)->0 =~= record_times(rows)->0);
    } else {
        lemma_times_of_records(records, rows, n - 1);
        let before = records.take(n - 1);
        let here = records.take(n);
        let rest = rows.skip(n - 1);
        let record = records[n - 1];
        assert(here.drop_last() =~= before);
        assert(here.last() == record);
        assert(rest[0] == rows[n - 1]);
        assert(rest.drop_first() =~= rows.skip(n));
        assert(rows[n - 1] is Some);
        let fields = rows[n - 1]->0;
        if record.len() > 0 {
            assert(fields[0] == record[0].text@);
            assert(open_times(here) + record_times(rows.skip(n))->0 =~= open_times(before)
                + record_times(rest)->0);
        }
        assert forall|i: int| 0 <= i < here.len() implies (#[trigger] here[i]).len() == 0
            || integer_at(here[i], 0) is Ok by {
            if i < n - 1 {
                assert(before[i] == here[i]);
            }
        }
    }
}

/// A file whose first pass and whose records come from the same bytes is what the first pass says
/// of it.
pub proof fn scans_describe_records(data: Seq<u8>, has_header: bool, file: FileInput)
    requires
        is_scan_of(Ok(file.stats), data, has_header),
        are_records_of(file.records, csv_rows(data, has_header)),
    ensures
        is_scanned(file),
{
    if file.stats.described {
        let rows = csv_rows(data, has_header);
        let n = file.records.len() as int;
        lemma_times_of_records(file.records, rows, n);
        assert(file.records.take(n) =~= file.records);
        assert(rows.skip(n) =~= Seq::empty());
        assert(open_times(file.records) + Seq::<i64>::empty() =~= open_times(file.records));
    }
}

/// What records change whose rows are all stored and open one after the other.
proof fn lemma_stored_records(course: Course, records: Seq<Seq<Field>>)
    requires
        course.fault is None,
        course.run.pending_progress < PROGRESS_FLUSH_ROWS,
        are_timed(records),
        times_increase(open_times(records)),
        forall|i: int|
            0 <= i < open_times(records).len() ==> already_stored(
                #[trigger] open_times(records)[i],
                course.run.settings.resume_open_time,
            ),
    ensures
        ({
            let end = after_records(course, records);
            let times = open_times(records);
            let order = order_fault(course.run.settings, course.run.last_open_time, times[0]);
            if times.len() == 0 {
                end == course
            } else if order is Some {
                end == (Course { fault: order, ..course })
            } else {
                &&& end.run.pending_progress < PROGRESS_FLUSH_ROWS
                &&& end.progress + end.run.pending_progress == course.progress
                    + course.run.pending_progress + times.len()
                &&& end == (Course {
                    run: ImportRun {
                        last_open_time: Some(times.last()),
                        pending_progress: end.run.pending_progress,
                        ..course.run
                    },
                    progress: end.progress,
                    ..course
                })
            }
        }),
    decreases records.len(),
{
    if records.len() > 0 {
        let fewer = records.drop_last();
        let record = records.last();
        let times = open_times(records);
        let before_times = open_times(fewer);
        assert forall|i: int| 0 <= i < fewer.len() implies (#[trigger] fewer[i]).len() == 0
            || integer_at(fewer[i], 0) is Ok by {
            assert(fewer[i] == records[i]);
        }
        assert forall|i: int| 0 <= i < before_times.len() implies #[trigger] before_times[i]
            == times[i] by {}
        assert(times_increase(before_times)) by {
            assert forall|i: int, j: int| 0 <= i < j < before_times.len() implies
                #[trigger] before_times[i] < #[trigger] before_times[j] by {
                assert(times[i] < times[j]);
            }
        }
        assert forall|i: int| 0 <= i < before_times.len() implies already_stored(
            #[trigger] before_times[i],
            course.run.settings.resume_open_time,
        ) by {
            assert(before_times[i] == times[i]);
        }
        lemma_stored_records(course, fewer);
        assert(record == records[records.len() - 1]);
        if record.len() > 0 {
            let t = times.last();
            assert(t == times[times.len() - 1]);
            if before_times.len() > 0 {
                assert(before_times[0] == times[0]);
                assert(before_times.last() == times[times.len() - 2]);
                assert(times[times.len() - 2] < times[times.len() - 1]);
            }
        }
    }
}

/// Passing over a file comes to the same as reading it: the same rows, the same progress, and a
/// stop for the same reason.
pub proof fn passing_over_comes_to_reading(course: Course, file: FileInput)
    requires
        course.fault is None,
        is_scanned(file),
        is_stored_file(file.stats, course.run.settings.resume_open_time),
    ensures
        ({
            let read = read_file(course, file.records);
            let passed = after_file(course, file);
            &&& passed.fault == read.fault
            &&& passed.inserted == course.inserted
            &&& read.inserted == course.inserted
            &&& passed.progress == read.progress
            &&& passed.fault is None ==> passed == read
        }),
{
    let times = open_times(file.records);
    let begun = at_first_record(course);
    assert forall|i: int| 0 <= i < times.len() implies already_stored(
        #[trigger] times[i],
        course.run.settings.resume_open_time,
    ) by {
        if i < times.len() - 1 {
            assert(times[i] < times[times.len() - 1]);
        }
    }
    lemma_stored_records(begun, file.records);
}

// ---------------------------------------------------------------------------------------------
// Resuming
// ---------------------------------------------------------------------------------------------
/// The rows that the records of a file make. A record with nothing in it makes none.
pub open spec fn file_rows(settings: Settings, records: Seq<Seq<Field>>) -> Seq<RowView>
    decreases records.len(),
{
    if records.len() == 0 {
        Seq::empty()
    } else if records.last().len() == 0 {
        file_rows(settings, records.drop_last())
    } else {
        file_rows(settings, records.drop_last()).push(
            row_of(records.last(), settings.rsi_count as nat)->Ok_0,
        )
    }
}

/// The rows that the records of all files make.
pub open spec fn all_rows(settings: Settings, files: Seq<FileInput>) -> Seq<RowView>
    decreases files.len(),
{
    if files.len() == 0 {
        Seq::empty()
    } else {
        all_rows(settings, files.drop_last()) + file_rows(settings, files.last().records)
    }
}

/// Is every record with anything in it a row?
pub open spec fn are_rows(settings: Settings, records: Seq<Seq<Field>>) -> bool {
    forall|i: int|
        0 <= i < records.len() ==> (#[trigger] records[i]).len() == 0 || row_of(
            records[i],
            settings.rsi_count as nat,
        ) is Ok
}

/// Every record with anything in it is a row, and the first pass says nothing else of them.
pub open spec fn is_clean_file(settings: Settings, file: FileInput) -> bool {
    are_rows(settings, file.records) && is_scanned(file)
}

/// The rows that records make open when the records say.
proof fn lemma_times_of_rows(settings: Settings, records: Seq<Seq<Field>>)
    requires
        are_rows(settings, records),
    ensures
        open_times(records).len() == file_rows(settings, records).len(),
        forall|i: int|
            0 <= i < open_times(records).len() ==> #[trigger] open_times(records)[i] == file_rows(
                settings,
                records,
            )[i].open_time,
    decreases records.len(),
{
    if records.len() > 0 {
        lemma_fewer_are_rows(settings, records);
        lemma_times_of_rows(settings, records.drop_last());
        assert(records.last() == records[records.len() - 1]);
        if records.last().len() > 0 {
            lemma_row_open_time(records.last(), settings.rsi_count as nat);
        }
    }
}

/// The open time of the last one of a list of rows.
pub open spec fn latest(rows: Seq<RowView>) -> Option<i64> {
    if rows.len() == 0 {
        None
    } else {
        Some(rows.last().open_time)
    }
}

/// Every file is in order, and the open times increase strictly from the first row to the last.
pub open spec fn is_clean(settings: Settings, files: Seq<FileInput>) -> bool {
    &&& forall|k: int| 0 <= k < files.len() ==> is_clean_file(settings, #[trigger] files[k])
    &&& increasing(all_rows(settings, files))
}

/// The rows that a table does not hold yet.
pub open spec fn new_rows(rows: Seq<RowView>, resume_open_time: Option<i64>) -> Seq<RowView> {
    rows.filter(|row: RowView| !already_stored(row.open_time, resume_open_time))
}

/// Rows that are all stored leave nothing new.
proof fn lemma_nothing_new(rows: Seq<RowView>, resume: Option<i64>)
    requires
        forall|i: int|
            0 <= i < rows.len() ==> already_stored((#[trigger] rows[i]).open_time, resume),
    ensures
        new_rows(rows, resume) == Seq::<RowView>::empty(),
    decreases rows.len(),
{
    reveal(Seq::filter);
    if rows.len() > 0 {
        lemma_nothing_new(rows.drop_last(), resume);
        assert(already_stored(rows[rows.len() - 1].open_time, resume));
    } else {
        assert(new_rows(rows, resume) =~= Seq::empty());
    }
}

/// Rows of which none is stored are all new.
proof fn lemma_all_are_new(rows: Seq<RowView>, resume: Option<i64>)
    requires
        forall|i: int|
            0 <= i < rows.len() ==> !already_stored((#[trigger] rows[i]).open_time, resume),
    ensures
        new_rows(rows, resume) == rows,
    decreases rows.len(),
{
    reveal(Seq::filter);
    if rows.len() > 0 {
        lemma_all_are_new(rows.drop_last(), resume);
        assert(!already_stored(rows[rows.len() - 1].open_time, resume));
        assert(rows.drop_last().push(rows.last()) =~= rows);
    }
}

/// What the records of a clean file change, if they open after all rows before them.
proof fn lemma_clean_records(
    settings: Settings,
    course: Course,
    rows: Seq<RowView>,
    records: Seq<Seq<Field>>,
)
    requires
        course.run.settings == settings,
        course.fault is None,
        course.run.last_open_time == latest(rows),
        increasing(rows + file_rows(settings, records)),
        are_rows(settings, records),
    ensures
        ({
            let end = after_records(course, records);
            &&& end.fault is None
            &&& end.run.last_open_time == latest(rows + file_rows(settings, records))
            &&& end.inserted == course.inserted + new_rows(
                file_rows(settings, records),
                settings.resume_open_time,
            )
        }),
    decreases records.len(),
{
    reveal(Seq::filter);
    let made = file_rows(settings, records);
    let resume = settings.resume_open_time;
    if records.len() == 0 {
        assert(made =~= Seq::empty());
        assert(rows + made =~= rows);
        assert(course.inserted + new_rows(made, resume) =~= course.inserted);
    } else {
        let fewer = file_rows(settings, records.drop_last());
        assert(increasing(rows + fewer)) by {
            assert forall|i: int, j: int| 0 <= i < j < (rows + fewer).len() implies (
            #[trigger] (rows + fewer)[i]).open_time < (
            #[trigger] (rows + fewer)[j]).open_time by {
                assert((rows + made)[i].open_time < (rows + made)[j].open_time);
            }
        }
        lemma_fewer_are_rows(settings, records);
        lemma_settings_stay(course, records.drop_last());
        lemma_clean_records(settings, course, rows, records.drop_last());
        let before = after_records(course, records.drop_last());
        let record = records.last();
        assert(record == records[records.len() - 1]);
        if record.len() > 0 {
            lemma_row_open_time(record, settings.rsi_count as nat);
            let row = made.last();
            let all = rows + made;
            assert(made.drop_last() =~= fewer);
            assert(all.last() == row);
            if before.run.last_open_time is Some {
                let n = all.len();
                assert((rows + fewer).last() == all[n - 2]);
                assert(all[n - 2].open_time < all[n - 1].open_time);
            }
            assert(order_fault(settings, before.run.last_open_time, row.open_time) is None);
            if already_stored(row.open_time, resume) {
                assert(new_rows(made, resume) =~= new_rows(fewer, resume));
            } else {
                assert(new_rows(made, resume) =~= new_rows(fewer, resume).push(row));
                assert(course.inserted + new_rows(made, resume) =~= before.inserted.push(row));
            }
        }
    }
}

/// If records are rows, so are all but the last one.
proof fn lemma_fewer_are_rows(settings: Settings, records: Seq<Seq<Field>>)
    requires
        records.len() > 0,
        are_rows(settings, records),
    ensures
        are_rows(settings, records.drop_last()),
{
    let fewer = records.drop_last();
    assert forall|i: int| 0 <= i < fewer.len() implies (#[trigger] fewer[i]).len() == 0 || row_of(
        fewer[i],
        settings.rsi_count as nat,
    ) is Ok by {
        assert(fewer[i] == records[i]);
    }
}

/// What a clean file changes, if it opens after all rows before it.
proof fn lemma_clean_file(settings: Settings, course: Course, rows: Seq<RowView>, file: FileInput)
    requires
        course.run.settings == settings,
        course.fault is None,
        course.run.last_open_time == latest(rows),
        increasing(rows + file_rows(settings, file.records)),
        is_clean_file(settings, file),
    ensures
        ({
            let end = after_file(course, file);
            &&& end.fault is None
            &&& end.run.last_open_time == latest(rows + file_rows(settings, file.records))
            &&& end.inserted == course.inserted + new_rows(
                file_rows(settings, file.records),
                settings.resume_open_time,
            )
        }),
{
    let made = file_rows(settings, file.records);
    let resume = settings.resume_open_time;
    lemma_times_of_rows(settings, file.records);
    if is_stored_file(file.stats, resume) {
        let all = rows + made;
        assert(made.len() > 0);
        assert(all.last() == made.last());
        assert forall|i: int| 0 <= i < made.len() implies already_stored(
            (#[trigger] made[i]).open_time,
            resume,
        ) by {
            assert(all[rows.len() + i] == made[i]);
            if i < made.len() - 1 {
                assert(all[rows.len() + i].open_time < all[all.len() - 1].open_time);
            }
        }
        if rows.len() > 0 {
            assert(all[rows.len() - 1].open_time < all[rows.len() as int].open_time);
        }
        assert(file_order_fault(course.run, file.stats) is None);
        lemma_nothing_new(made, resume);
        assert(course.inserted + new_rows(made, resume) =~= course.inserted);
    } else {
        lemma_clean_records(settings, at_first_record(course), rows, file.records);
    }
}

proof fn lemma_clean_files(settings: Settings, files: Seq<FileInput>)
    requires
        is_clean(settings, files),
    ensures
        ({
            let end = after_files(settings, files);
            &&& end.fault is None
            &&& end.run.last_open_time == latest(all_rows(settings, files))
            &&& end.inserted == new_rows(all_rows(settings, files), settings.resume_open_time)
        }),
    decreases files.len(),
{
    let resume = settings.resume_open_time;
    if files.len() == 0 {
        lemma_nothing_new(all_rows(settings, files), resume);
    } else {
        let rows = all_rows(settings, files.drop_last());
        let made = file_rows(settings, files.last().records);
        assert(increasing(rows)) by {
            assert forall|i: int, j: int| 0 <= i < j < rows.len() implies (
            #[trigger] rows[i]).open_time < (#[trigger] rows[j]).open_time by {
                assert((rows + made)[i].open_time < (rows + made)[j].open_time);
            }
        }
        assert forall|k: int| 0 <= k < files.drop_last().len() implies is_clean_file(
            settings,
            #[trigger] files.drop_last()[k],
        ) by {
            assert(files.drop_last()[k] == files[k]);
        }
        lemma_settings_stay_in_files(settings, files.drop_last());
        lemma_clean_files(settings, files.drop_last());
        assert(is_clean_file(settings, files[files.len() - 1]));
        lemma_clean_file(
            settings,
            after_files(settings, files.drop_last()),
            rows,
            files.last(),
        );
        Seq::filter_distributes_over_add(
            rows,
            made,
            |row: RowView| !already_stored(row.open_time, resume),
        );
    }
}

/// An import of files in order never stops, and writes exactly the rows that open after the
/// table's last row, in their order; without such a row, it writes all of them.
pub proof fn import_writes_the_new_rows(settings: Settings, files: Seq<FileInput>)
    requires
        is_clean(settings, files),
    ensures
        after_files(settings, files).fault is None,
        after_files(settings, files).inserted == new_rows(
            all_rows(settings, files),
            settings.resume_open_time,
        ),
        settings.resume_open_time is None ==> after_files(settings, files).inserted == all_rows(
            settings,
            files,
        ),
{
    lemma_clean_files(settings, files);
    if settings.resume_open_time is None {
        lemma_all_are_new(all_rows(settings, files), settings.resume_open_time);
    }
}

/// The greatest open time of a list of rows, which is what the table answers when asked.
pub open spec fn max_open_time(rows: Seq<RowView>) -> Option<i64>
    decreases rows.len(),
{
    if rows.len() == 0 {
        None
    } else {
        match max_open_time(rows.drop_last()) {
            Some(max) => if rows.last().open_time > max {
                Some(rows.last().open_time)
            } else {
                Some(max)
            },
            None => Some(rows.last().open_time),
        }
    }
}

proof fn lemma_max_is_latest(rows: Seq<RowView>)
    requires
        increasing(rows),
    ensures
        max_open_time(rows) == latest(rows),
    decreases rows.len(),
{
    if rows.len() > 1 {
        let fewer = rows.drop_last();
        assert(increasing(fewer)) by {
            assert forall|i: int, j: int| 0 <= i < j < fewer.len() implies (
            #[trigger] fewer[i]).open_time < (#[trigger] fewer[j]).open_time by {
                assert(rows[i].open_time < rows[j].open_time);
            }
        }
        lemma_max_is_latest(fewer);
        assert(fewer.last() == rows[rows.len() - 2]);
        assert(rows[rows.len() - 2].open_time < rows[rows.len() - 1].open_time);
    } else if rows.len() == 1 {
        assert(max_open_time(rows.drop_last()) is None);
    }
}

/// An import that was interrupted after any number of rows and is taken up again behind the last
/// row of the table writes exactly the rows that are missing.
pub proof fn resumed_import_completes_an_interrupted_one(
    settings: Settings,
    files: Seq<FileInput>,
    stored: int,
)
    requires
        is_clean(settings, files),
        settings.resume_open_time is None,
        0 <= stored <= all_rows(settings, files).len(),
    ensures
        ({
            let whole = after_files(settings, files);
            let table = whole.inserted.take(stored);
            let resumed = after_files(
                Settings { resume_open_time: max_open_time(table), ..settings },
                files,
            );
            &&& resumed.fault is None
            &&& table + resumed.inserted == whole.inserted
            &&& resumed.inserted == whole.inserted.skip(stored)
        }),
{
    let rows = all_rows(settings, files);
    let again = Settings { resume_open_time: max_open_time(rows.take(stored)), ..settings };
    assert(after_files(settings, files).inserted == rows) by {
        import_writes_the_new_rows(settings, files);
    }
    assert(after_files(again, files).fault is None && after_files(again, files).inserted
        == rows.skip(stored)) by {
        lemma_same_rows(settings, again, files);
        lemma_still_clean(settings, again, files);
        import_writes_the_new_rows(again, files);
        lemma_rows_behind_the_last(rows, stored);
    }
    assert(rows.take(stored) + rows.skip(stored) == rows) by {
        lemma_take_and_skip(rows, stored);
    }
}

/// The first ones of a list and the others are all of it.
proof fn lemma_take_and_skip(rows: Seq<RowView>, n: int)
    requires
        0 <= n <= rows.len(),
    ensures
        rows.take(n) + rows.skip(n) == rows,
{
    assert(rows.take(n) + rows.skip(n) =~= rows);
}

/// The rows that a table with the first ones of them does not hold are the others.
proof fn lemma_rows_behind_the_last(rows: Seq<RowView>, stored: int)
    requires
        increasing(rows),
        0 <= stored <= rows.len(),
    ensures
        new_rows(rows, max_open_time(rows.take(stored))) == rows.skip(stored),
{
    let table = rows.take(stored);
    let rest = rows.skip(stored);
    assert(increasing(table)) by {
        assert forall|i: int, j: int| 0 <= i < j < table.len() implies (
        #[trigger] table[i]).open_time < (#[trigger] table[j]).open_time by {
            assert(rows[i].open_time < rows[j].open_time);
        }
    }
    lemma_max_is_latest(table);
    let resume = max_open_time(table);
    assert forall|i: int| 0 <= i < table.len() implies already_stored(
        (#[trigger] table[i]).open_time,
        resume,
    ) by {
        assert(table[i].open_time <= table[table.len() - 1].open_time);
    }
    lemma_nothing_new(table, resume);
    assert forall|i: int| 0 <= i < rest.len() implies !already_stored(
        (#[trigger] rest[i]).open_time,
        resume,
    ) by {
        if stored > 0 {
            assert(table.last() == rows[stored - 1]);
            assert(rest[i] == rows[stored + i]);
            assert(rows[stored - 1].open_time < rows[stored + i].open_time);
        }
    }
    lemma_all_are_new(rest, resume);
    assert(table + rest =~= rows);
    Seq::filter_distributes_over_add(
        table,
        rest,
        |row: RowView| !already_stored(row.open_time, resume),
    );
    assert(new_rows(table, resume) + new_rows(rest, resume) =~= rest);
}

/// Where an import takes up does not change the rows that the files make.
proof fn lemma_same_rows(settings: Settings, other: Settings, files: Seq<FileInput>)
    requires
        settings.rsi_count == other.rsi_count,
    ensures
        all_rows(settings, files) == all_rows(other, files),
    decreases files.len(),
{
    if files.len() > 0 {
        lemma_same_rows(settings, other, files.drop_last());
        lemma_same_file_rows(settings, other, files.last().records);
    }
}

/// Where an import takes up does not change the rows that the records of a file make.
proof fn lemma_same_file_rows(settings: Settings, other: Settings, records: Seq<Seq<Field>>)
    requires
        settings.rsi_count == other.rsi_count,
    ensures
        file_rows(settings, records) == file_rows(other, records),
    decreases records.len(),
{
    if records.len() > 0 {
        lemma_same_file_rows(settings, other, records.drop_last());
    }
}

/// Where an import takes up does not change whether the files are in order.
proof fn lemma_still_clean(settings: Settings, other: Settings, files: Seq<FileInput>)
    requires
        settings.rsi_count == other.rsi_count,
        is_clean(settings, files),
    ensures
        is_clean(other, files),
{
    lemma_same_rows(settings, other, files);
    assert forall|k: int| 0 <= k < files.len() implies is_clean_file(other, #[trigger] files[k]) by {
        assert(is_clean_file(settings, files[k]));
        lemma_same_file_rows(settings, other, files[k].records);
    }
}

/// One more row is new or not.
proof fn lemma_one_more_row(rows: Seq<RowView>, row: RowView, resume: Option<i64>)
    ensures
        new_rows(rows.push(row), resume) == (if already_stored(row.open_time, resume) {
            new_rows(rows, resume)
        } else {
            new_rows(rows, resume).push(row)
        }),
{
    reveal(Seq::filter);
    assert(rows.push(row).drop_last() =~= rows);
}

/// What an import of a list of files does if it reads all of them record by record.
spec fn reading_all(settings: Settings, files: Seq<FileInput>) -> Course
    decreases files.len(),
{
    if files.len() == 0 {
        at_start(settings)
    } else {
        let before = reading_all(settings, files.drop_last());
        if before.fault is Some {
            before
        } else {
            read_file(before, files.last().records)
        }
    }
}

proof fn lemma_reading_all(settings: Settings, files: Seq<FileInput>)
    requires
        are_scanned(files),
    ensures
        after_files(settings, files).fault == reading_all(settings, files).fault,
        after_files(settings, files).inserted == reading_all(settings, files).inserted,
        after_files(settings, files).fault is None ==> after_files(settings, files) == reading_all(
            settings,
            files,
        ),
        reading_all(settings, files).run.settings == settings,
    decreases files.len(),
{
    if files.len() > 0 {
        lemma_fewer_scanned(files);
        lemma_reading_all(settings, files.drop_last());
        let before = after_files(settings, files.drop_last());
        let file = files.last();
        assert(file == files[files.len() - 1]);
        lemma_settings_stay(at_first_record(reading_all(settings, files.drop_last())), file.records);
        if before.fault is None && is_stored_file(file.stats, settings.resume_open_time) {
            passing_over_comes_to_reading(before, file);
        }
    }
}

/// If all files are scanned, so are all but the last one.
proof fn lemma_fewer_scanned(files: Seq<FileInput>)
    requires
        files.len() > 0,
        are_scanned(files),
    ensures
        are_scanned(files.drop_last()),
{
    assert forall|k: int| 0 <= k < files.drop_last().len() implies is_scanned(
        #[trigger] files.drop_last()[k],
    ) by {
        assert(files.drop_last()[k] == files[k]);
    }
}

proof fn lemma_reading_in_order(settings: Settings, files: Seq<FileInput>)
    requires
        !settings.skip_order_check,
    ensures
        reading_all(settings, files).run.settings == settings,
        in_order(reading_all(settings, files)),
    decreases files.len(),
{
    if files.len() > 0 {
        lemma_reading_in_order(settings, files.drop_last());
        let before = at_first_record(reading_all(settings, files.drop_last()));
        lemma_settings_stay(before, files.last().records);
        lemma_records_in_order(before, files.last().records);
    }
}

/// How an import goes beside one that takes up further behind.
spec fn go_together(one: Course, other: Course, resume: Option<i64>) -> bool {
    &&& one.fault is Some <==> other.fault is Some
    &&& one.fault is None ==> one.run.last_open_time == other.run.last_open_time
    &&& other.inserted == new_rows(one.inserted, resume)
    &&& other.run.settings == (Settings { resume_open_time: resume, ..one.run.settings })
}

/// Is a point to take up at behind another one?
spec fn is_behind(resume: Option<i64>, other: Option<i64>) -> bool {
    other matches Some(o) ==> resume matches Some(r) && o <= r
}

/// If the import stopped, is the other point to take up at no further than its last row?
spec fn stops_behind(course: Course, resume: Option<i64>) -> bool {
    course.fault is Some && resume != course.run.settings.resume_open_time ==> {
        &&& course.inserted.len() > 0
        &&& resume matches Some(r) && r <= course.inserted.last().open_time
    }
}

proof fn lemma_records_together(
    one: Course,
    other: Course,
    resume: Option<i64>,
    records: Seq<Seq<Field>>,
)
    requires
        !one.run.settings.skip_order_check,
        in_order(one),
        go_together(one, other, resume),
        is_behind(resume, one.run.settings.resume_open_time),
        stops_behind(after_records(one, records), resume),
    ensures
        go_together(after_records(one, records), after_records(other, records), resume),
        in_order(after_records(one, records)),
    decreases records.len(),
{
    lemma_records_in_order(one, records);
    if records.len() > 0 {
        let fewer = records.drop_last();
        let record = records.last();
        let settings = one.run.settings;
        lemma_settings_stay(one, fewer);
        lemma_settings_stay(other, fewer);
        lemma_records_in_order(one, fewer);
        lemma_records_together(one, other, resume, fewer);
        let a = after_records(one, fewer);
        if a.fault is None {
            if row_of(record, settings.rsi_count as nat) is Ok {
                let row = row_of(record, settings.rsi_count as nat)->Ok_0;
                lemma_row_open_time(record, settings.rsi_count as nat);
                lemma_one_more_row(a.inserted, row, resume);
            }
        }
    }
}

proof fn lemma_files_together(settings: Settings, resume: Option<i64>, files: Seq<FileInput>)
    requires
        !settings.skip_order_check,
        is_behind(resume, settings.resume_open_time),
        stops_behind(reading_all(settings, files), resume),
        are_scanned(files),
    ensures
        go_together(
            reading_all(settings, files),
            reading_all(Settings { resume_open_time: resume, ..settings }, files),
            resume,
        ),
        in_order(reading_all(settings, files)),
    decreases files.len(),
{
    let again = Settings { resume_open_time: resume, ..settings };
    if files.len() == 0 {
        lemma_nothing_new(Seq::empty(), resume);
    } else {
        let fewer = files.drop_last();
        lemma_fewer_scanned(files);
        lemma_reading_all(settings, fewer);
        lemma_reading_all(settings, files);
        lemma_files_together(settings, resume, fewer);
        let one = reading_all(settings, fewer);
        let other = reading_all(again, fewer);
        if one.fault is None {
            let records = files.last().records;
            lemma_settings_stay(at_first_record(one), records);
            lemma_settings_stay(at_first_record(other), records);
            lemma_records_together(at_first_record(one), at_first_record(other), resume, records);
        }
    }
}

/// Where an import takes up that began at one point and has these rows in its table since.
pub open spec fn resume_behind(resume_open_time: Option<i64>, table: Seq<RowView>) -> Option<i64> {
    match (resume_open_time, max_open_time(table)) {
        (Some(resume), Some(max)) => Some(if resume > max {
            resume
        } else {
            max
        }),
        (Some(resume), None) => Some(resume),
        (None, max) => max,
    }
}

proof fn lemma_resume_behind(settings: Settings, files: Seq<FileInput>, stored: int)
    requires
        increasing(after_files(settings, files).inserted),
        0 <= stored <= after_files(settings, files).inserted.len(),
    ensures
        ({
            let rows = after_files(settings, files).inserted;
            let resume = resume_behind(settings.resume_open_time, rows.take(stored));
            &&& resume == (if stored == 0 {
                settings.resume_open_time
            } else {
                Some(rows[stored - 1].open_time)
            })
            &&& is_behind(resume, settings.resume_open_time)
            &&& new_rows(rows, resume) == rows.skip(stored)
        }),
{
    let rows = after_files(settings, files).inserted;
    let table = rows.take(stored);
    resumed_rows_are_new(settings, files);
    if stored == 0 {
        assert(max_open_time(table) is None);
        lemma_all_are_new(rows, settings.resume_open_time);
        assert(rows.skip(0) =~= rows);
    } else {
        assert(increasing(table)) by {
            assert forall|i: int, j: int| 0 <= i < j < table.len() implies (
            #[trigger] table[i]).open_time < (#[trigger] table[j]).open_time by {
                assert(rows[i].open_time < rows[j].open_time);
            }
        }
        lemma_max_is_latest(table);
        assert(table.last() == rows[stored - 1]);
        assert(!already_stored(rows[stored - 1].open_time, settings.resume_open_time));
        lemma_rows_behind_the_last(rows, stored);
    }
}

/// With the order check on, whatever the files hold: an import that was interrupted after any
/// number of rows and is taken up again writes exactly the rows that the first one would have
/// written behind them, and stops if and only if the first one would have.
pub proof fn resumed_import_does_what_the_first_would_have(
    settings: Settings,
    files: Seq<FileInput>,
    stored: int,
)
    requires
        !settings.skip_order_check,
        are_scanned(files),
        0 <= stored <= after_files(settings, files).inserted.len(),
    ensures
        ({
            let whole = after_files(settings, files);
            let table = whole.inserted.take(stored);
            let resumed = after_files(
                Settings {
                    resume_open_time: resume_behind(settings.resume_open_time, table),
                    ..settings
                },
                files,
            );
            &&& resumed.inserted == whole.inserted.skip(stored)
            &&& table + resumed.inserted == whole.inserted
            &&& resumed.fault is Some <==> whole.fault is Some
        }),
{
    let rows = after_files(settings, files).inserted;
    let resume = resume_behind(settings.resume_open_time, rows.take(stored));
    let again = Settings { resume_open_time: resume, ..settings };
    lemma_reading_all(settings, files);
    lemma_reading_in_order(settings, files);
    lemma_resume_behind(settings, files, stored);
    lemma_reading_all(again, files);
    if stored > 0 {
        assert(rows[stored - 1].open_time <= rows.last().open_time);
    }
    lemma_files_together(settings, resume, files);
    lemma_take_and_skip(rows, stored);
}

// ---------------------------------------------------------------------------------------------
// Importing twice
// ---------------------------------------------------------------------------------------------
/// Are all of these rows stored?
spec fn all_stored(rows: Seq<RowView>, resume: Option<i64>) -> bool {
    forall|i: int| 0 <= i < rows.len() ==> already_stored((#[trigger] rows[i]).open_time, resume)
}

/// Records that one course went through add nothing to another whose table holds all of its rows.
/// If both began behind the same row, or the order does not count, neither stops.
proof fn lemma_records_add_nothing(one: Course, other: Course, records: Seq<Seq<Field>>)
    requires
        other.run.settings == (Settings {
            resume_open_time: other.run.settings.resume_open_time,
            ..one.run.settings
        }),
        is_behind(other.run.settings.resume_open_time, one.run.settings.resume_open_time),
        after_records(one, records).fault is None,
        all_stored(after_records(one, records).inserted, other.run.settings.resume_open_time),
    ensures
        after_records(other, records).inserted == other.inserted,
        other.fault is None && one.run.settings.skip_order_check ==> after_records(
            other,
            records,
        ).fault is None,
        other.fault is None && other.run.last_open_time == one.run.last_open_time ==> {
            &&& after_records(other, records).fault is None
            &&& after_records(other, records).run.last_open_time == after_records(
                one,
                records,
            ).run.last_open_time
        },
    decreases records.len(),
{
    if records.len() > 0 {
        let fewer = records.drop_last();
        let record = records.last();
        let a = after_records(one, fewer);
        let end = after_records(one, records);
        let resume = other.run.settings.resume_open_time;
        lemma_settings_stay(one, fewer);
        lemma_settings_stay(other, fewer);
        assert forall|i: int| 0 <= i < a.inserted.len() implies already_stored(
            (#[trigger] a.inserted[i]).open_time,
            resume,
        ) by {
            assert(end.inserted[i] == a.inserted[i]);
        }
        lemma_records_add_nothing(one, other, fewer);
        if row_of(record, one.run.settings.rsi_count as nat) is Ok {
            lemma_row_open_time(record, one.run.settings.rsi_count as nat);
            if end.inserted.len() > a.inserted.len() {
                assert(already_stored(end.inserted[end.inserted.len() - 1].open_time, resume));
            }
        }
    }
}

proof fn lemma_files_add_nothing(settings: Settings, resume: Option<i64>, files: Seq<FileInput>)
    requires
        is_behind(resume, settings.resume_open_time),
        after_files(settings, files).fault is None,
        all_stored(after_files(settings, files).inserted, resume),
    ensures
        ({
            let second = after_files(Settings { resume_open_time: resume, ..settings }, files);
            &&& second.inserted.len() == 0
            &&& settings.skip_order_check ==> second.fault is None
        }),
    decreases files.len(),
{
    if files.len() > 0 {
        let again = Settings { resume_open_time: resume, ..settings };
        let fewer = files.drop_last();
        let file = files.last();
        let one = after_files(settings, fewer);
        let other = after_files(again, fewer);
        let end = after_files(settings, files);
        lemma_settings_stay_in_files(settings, fewer);
        lemma_settings_stay_in_files(again, fewer);
        lemma_rows_stay(at_first_record(one), file.records);
        assert forall|i: int| 0 <= i < one.inserted.len() implies already_stored(
            (#[trigger] one.inserted[i]).open_time,
            resume,
        ) by {
            assert(end.inserted[i] == one.inserted[i]);
        }
        lemma_files_add_nothing(settings, resume, fewer);
        if !is_stored_file(file.stats, settings.resume_open_time) {
            lemma_records_add_nothing(at_first_record(one), at_first_record(other), file.records);
        }
    }
}

/// The same for files that are all read: the second course keeps level with the first.
proof fn lemma_reading_adds_nothing(settings: Settings, resume: Option<i64>, files: Seq<FileInput>)
    requires
        is_behind(resume, settings.resume_open_time),
        reading_all(settings, files).fault is None,
        all_stored(reading_all(settings, files).inserted, resume),
    ensures
        ({
            let one = reading_all(settings, files);
            let second = reading_all(Settings { resume_open_time: resume, ..settings }, files);
            &&& one.run.settings == settings
            &&& second.run.settings == (Settings { resume_open_time: resume, ..settings })
            &&& second.fault is None
            &&& second.inserted.len() == 0
            &&& second.run.last_open_time == one.run.last_open_time
        }),
    decreases files.len(),
{
    if files.len() > 0 {
        let again = Settings { resume_open_time: resume, ..settings };
        let fewer = files.drop_last();
        let records = files.last().records;
        let one = reading_all(settings, fewer);
        let end = reading_all(settings, files);
        lemma_rows_stay(at_first_record(one), records);
        assert forall|i: int| 0 <= i < one.inserted.len() implies already_stored(
            (#[trigger] one.inserted[i]).open_time,
            resume,
        ) by {
            assert(end.inserted[i] == one.inserted[i]);
        }
        lemma_reading_adds_nothing(settings, resume, fewer);
        let other = reading_all(again, fewer);
        lemma_settings_stay(at_first_record(one), records);
        lemma_settings_stay(at_first_record(other), records);
        lemma_records_add_nothing(at_first_record(one), at_first_record(other), records);
    }
}

/// A row that was written stays where it is.
proof fn lemma_rows_stay(course: Course, records: Seq<Seq<Field>>)
    ensures
        course.inserted.len() <= after_records(course, records).inserted.len(),
        forall|i: int|
            0 <= i < course.inserted.len() ==> after_records(course, records).inserted[i]
                == #[trigger] course.inserted[i],
    decreases records.len(),
{
    if records.len() > 0 {
        lemma_rows_stay(course, records.drop_last());
    }
}

/// No row opens after the greatest open time.
proof fn lemma_max_is_greatest(rows: Seq<RowView>)
    ensures
        rows.len() > 0 ==> max_open_time(rows) is Some,
        forall|i: int|
            0 <= i < rows.len() ==> (#[trigger] rows[i]).open_time <= max_open_time(rows)->0,
    decreases rows.len(),
{
    if rows.len() > 0 {
        let fewer = rows.drop_last();
        lemma_max_is_greatest(fewer);
        assert forall|i: int| 0 <= i < rows.len() implies (#[trigger] rows[i]).open_time
            <= max_open_time(rows)->0 by {
            if i < fewer.len() {
                assert(fewer[i] == rows[i]);
            }
        }
    }
}

/// The settings of a second import of the same files, after a first one.
pub open spec fn second_settings(settings: Settings, files: Seq<FileInput>) -> Settings {
    Settings {
        resume_open_time: resume_behind(
            settings.resume_open_time,
            after_files(settings, files).inserted,
        ),
        ..settings
    }
}

/// After an import that came to its end, a second import of the same files comes to its end too
/// and writes nothing.
pub proof fn a_second_import_succeeds_and_writes_nothing(settings: Settings, files: Seq<FileInput>)
    requires
        after_files(settings, files).fault is None,
    ensures
        ({
            let second = after_files(second_settings(settings, files), files);
            &&& second.inserted.len() == 0
            &&& are_scanned(files) || settings.skip_order_check ==> second.fault is None
        }),
{
    let rows = after_files(settings, files).inserted;
    let resume = resume_behind(settings.resume_open_time, rows);
    lemma_max_is_greatest(rows);
    assert forall|i: int| 0 <= i < rows.len() implies already_stored(
        (#[trigger] rows[i]).open_time,
        resume,
    ) by {
        assert(rows[i].open_time <= max_open_time(rows)->0);
    }
    lemma_files_add_nothing(settings, resume, files);
    if are_scanned(files) {
        lemma_reading_all(settings, files);
        lemma_reading_all(second_settings(settings, files), files);
        lemma_reading_adds_nothing(settings, resume, files);
    }
}

/// Whatever the import mode, an import that is repeated with the same options, into the table that
/// the first one left, writes nothing, unless it replaces rows.
pub proof fn repeated_imports_write_nothing(
    args: Args,
    rsi_count: usize,
    max_open_time_before: Option<i64>,
    files: Seq<FileInput>,
)
    requires
        !args.replace_existing,
        after_files(settings_for(args, rsi_count, max_open_time_before), files).fault is None,
    ensures
        ({
            let first = after_files(settings_for(args, rsi_count, max_open_time_before), files);
            let second = after_files(
                settings_for(args, rsi_count, resume_behind(max_open_time_before, first.inserted)),
                files,
            );
            &&& second.inserted.len() == 0
            &&& are_scanned(files) || args.skip_order_check ==> second.fault is None
        }),
{
    a_second_import_succeeds_and_writes_nothing(
        settings_for(args, rsi_count, max_open_time_before),
        files,
    );
}

/// An import that replaces rows passes none over: of files in order it writes every row, whatever the
/// table holds.
pub proof fn replacing_imports_write_every_row(
    args: Args,
    rsi_count: usize,
    max_open_time_before: Option<i64>,
    files: Seq<FileInput>,
)
    requires
        args.replace_existing,
        is_clean(settings_for(args, rsi_count, max_open_time_before), files),
    ensures
        ({
            let settings = settings_for(args, rsi_count, max_open_time_before);
            &&& after_files(settings, files).fault is None
            &&& after_files(settings, files).inserted == all_rows(settings, files)
        }),
{
    import_writes_the_new_rows(settings_for(args, rsi_count, max_open_time_before), files);
}

/// With the order check on, a second import of the same files writes nothing even if the first one
/// stopped.
pub proof fn a_second_import_behind_a_stop_writes_nothing(
    settings: Settings,
    files: Seq<FileInput>,
)
    requires
        !settings.skip_order_check,
        are_scanned(files),
    ensures
        after_files(second_settings(settings, files), files).inserted.len() == 0,
{
    let rows = after_files(settings, files).inserted;
    assert(rows.take(rows.len() as int) =~= rows);
    resumed_import_does_what_the_first_would_have(settings, files, rows.len() as int);
}

// ---------------------------------------------------------------------------------------------
// Both ways
// ---------------------------------------------------------------------------------------------
/// Do two settings differ in the way that rows take at most?
pub open spec fn differ_in_way(one: Settings, other: Settings) -> bool {
    other == (Settings { path: other.path, import_mode: other.import_mode, ..one })
}

/// Both ways decide the same about a record, but for the reason to stop at it.
pub proof fn both_ways_agree_on_records(
    one: Settings,
    other: Settings,
    last: Option<i64>,
    record: Seq<Field>,
)
    requires
        differ_in_way(one, other),
    ensures
        verdict(one, last, record) == verdict(other, last, record) || (verdict(
            one,
            last,
            record,
        ) is Refuse && verdict(other, last, record) is Refuse),
{
}

/// Have two imports come equally far?
pub open spec fn are_level(one: Course, other: Course) -> bool {
    &&& one.inserted == other.inserted
    &&& one.fault is Some <==> other.fault is Some
    &&& one.progress == other.progress
    &&& other.run == (ImportRun { settings: other.run.settings, ..one.run })
}

proof fn lemma_records_level(one: Course, other: Course, records: Seq<Seq<Field>>)
    requires
        differ_in_way(one.run.settings, other.run.settings),
        are_level(one, other),
    ensures
        are_level(after_records(one, records), after_records(other, records)),
    decreases records.len(),
{
    if records.len() > 0 {
        lemma_settings_stay(one, records.drop_last());
        lemma_settings_stay(other, records.drop_last());
        lemma_records_level(one, other, records.drop_last());
    }
}

/// Both ways write the same rows and stop at the same record: after any records of any files they
/// have come equally far.
pub proof fn both_ways_write_the_same_rows(
    one: Settings,
    other: Settings,
    files: Seq<FileInput>,
    records: Seq<Seq<Field>>,
)
    requires
        differ_in_way(one, other),
    ensures
        are_level(after_files(one, files), after_files(other, files)),
        are_level(
            after_records(at_first_record(after_files(one, files)), records),
            after_records(at_first_record(after_files(other, files)), records),
        ),
    decreases files.len(),
{
    if files.len() > 0 {
        both_ways_write_the_same_rows(one, other, files.drop_last(), files.last().records);
        lemma_settings_stay_in_files(one, files.drop_last());
        lemma_settings_stay_in_files(other, files.drop_last());
    }
    lemma_settings_stay_in_files(one, files);
    lemma_settings_stay_in_files(other, files);
    lemma_records_level(
        at_first_record(after_files(one, files)),
        at_first_record(after_files(other, files)),
        records,
    );
}

// ---------------------------------------------------------------------------------------------
// Progress
// ---------------------------------------------------------------------------------------------
/// The number of records with something in them.
pub open spec fn filled(records: Seq<Seq<Field>>) -> nat {
    records.filter(|record: Seq<Field>| record.len() > 0).len()
}

proof fn lemma_progress(course: Course, records: Seq<Seq<Field>>)
    requires
        course.run.pending_progress < PROGRESS_FLUSH_ROWS,
        after_records(course, records).fault is None,
    ensures
        ({
            let end = after_records(course, records);
            &&& end.progress + end.run.pending_progress == course.progress
                + course.run.pending_progress + filled(records)
            &&& end.run.pending_progress < PROGRESS_FLUSH_ROWS
        }),
    decreases records.len(),
{
    reveal(Seq::filter);
    if records.len() > 0 {
        lemma_progress(course, records.drop_last());
    }
}

/// There is an open time for every record with something in it.
proof fn lemma_times_of_filled(records: Seq<Seq<Field>>)
    ensures
        open_times(records).len() == filled(records),
    decreases records.len(),
{
    reveal(Seq::filter);
    if records.len() > 0 {
        lemma_times_of_filled(records.drop_last());
    }
}

/// By the end of a file, whether it was read or passed over, the progress display has been told of
/// every record in it that is not empty, once.
pub proof fn progress_counts_every_record(course: Course, file: FileInput)
    requires
        course.fault is None,
        is_scanned(file),
        after_file(course, file).fault is None,
    ensures
        after_file(course, file).progress == course.progress + filled(file.records),
        after_file(course, file).run.pending_progress == 0,
{
    if is_stored_file(file.stats, course.run.settings.resume_open_time) {
        lemma_times_of_filled(file.records);
    } else {
        lemma_progress(at_first_record(course), file.records);
    }
}

// ---------------------------------------------------------------------------------------------
// Totals
// ---------------------------------------------------------------------------------------------
proof fn lemma_total(course: Course, records: Seq<Seq<Field>>)
    requires
        course.run.total_rows == course.inserted.len(),
        after_records(course, records).inserted.len() <= usize::MAX,
    ensures
        after_records(course, records).run.total_rows == after_records(
            course,
            records,
        ).inserted.len(),
        course.inserted.len() <= after_records(course, records).inserted.len(),
    decreases records.len(),
{
    if records.len() > 0 {
        lemma_total(course, records.drop_last());
    }
}

/// The number of rows that an import reports is the number of rows that it wrote.
pub proof fn total_counts_the_written_rows(settings: Settings, files: Seq<FileInput>)
    requires
        after_files(settings, files).inserted.len() <= usize::MAX,
    ensures
        after_files(settings, files).run.total_rows == after_files(settings, files).inserted.len(),
    decreases files.len(),
{
    if files.len() > 0 {
        let before = after_files(settings, files.drop_last());
        let begun = at_first_record(before);
        lemma_rows_stay(begun, files.last().records);
        total_counts_the_written_rows(settings, files.drop_last());
        if after_records(begun, files.last().records).inserted.len() <= usize::MAX {
            lemma_total(begun, files.last().records);
        }
    }
}

} // verus!
