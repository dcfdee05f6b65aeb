//! The course of an import: which files and rows are passed over, which go into the table, and
//! when what was written is made durable.

use crate::args::{first_args_error, Args, ImportMode};
use crate::progress::{count_row, passed_on, waiting_after, PROGRESS_FLUSH_ROWS};
use crate::row::{
    integer_at, integer_text, parse_i64, record_to_row, row_error_text, row_of,
    rows_hold_their_columns, Field, ParsedRow, RowError, RowView,
};
use crate::stats::{already_stored, is_skipped, should_skip_file, FileStats};
use crate::text::{append_signed_decimal, signed_decimal, texts};
use vstd::prelude::*;

verus! {

/// The way that rows take into the database.
#[derive(Clone, Copy, Debug, PartialEq, Eq, Structural)]
pub enum InsertPath {
    /// Rows are appended in bulk, and flushed from time to time.
    Appender,
    /// Rows are inserted one by one in a transaction, which is committed from time to time.
    Prepared,
}

/// The appender is flushed after this many rows, in the mode that flushes it from time to time.
pub const APPENDER_FLUSH_ROWS: usize = 250_000;

/// What stays the same during an import.
#[derive(Clone, Copy, Debug, PartialEq, Eq, Structural)]
pub struct Settings {
    pub path: InsertPath,
    pub import_mode: ImportMode,
    pub batch_size: usize,
    pub progress_every: usize,
    pub skip_order_check: bool,
    pub rsi_count: usize,
    pub resume_open_time: Option<i64>,
}

impl Settings {
    /// Batches and progress intervals have at least one row.
    pub open spec fn wf(self) -> bool {
        self.batch_size > 0 && self.progress_every > 0
    }
}

/// The way that rows take: the appender cannot replace rows, and the safe mode does without it.
pub open spec fn insert_path(args: Args) -> InsertPath {
    if args.import_mode != ImportMode::Safe && !args.replace_existing {
        InsertPath::Appender
    } else {
        InsertPath::Prepared
    }
}

/// Where an import takes up: nowhere if it replaces rows, else behind the last row of the table.
pub open spec fn resume_point(args: Args, max_open_time: Option<i64>) -> Option<i64> {
    if args.replace_existing {
        None
    } else {
        max_open_time
    }
}

/// Must the open time of the table's last row be known before an import begins?
pub fn needs_max_open_time(args: &Args) -> (yes: bool)
    ensures
        yes == !args.replace_existing,
        !yes ==> forall|max: Option<i64>| #[trigger] resume_point(*args, max) is None,
{
    !args.replace_existing
}

/// How an import with these options is done, into a table whose last row opens at `max_open_time`.
pub open spec fn settings_for(args: Args, rsi_count: usize, max_open_time: Option<i64>) -> Settings {
    Settings {
        path: insert_path(args),
        import_mode: args.import_mode,
        batch_size: args.batch_size,
        progress_every: args.progress_every,
        skip_order_check: args.skip_order_check,
        rsi_count,
        resume_open_time: resume_point(args, max_open_time),
    }
}

/// Whatever the import mode, an import takes up behind the last row of the table, unless it replaces
/// rows. Then it takes up nowhere, and inserts the rows one by one, as the safe mode does.
pub proof fn every_mode_takes_up_behind_the_table(
    args: Args,
    rsi_count: usize,
    max_open_time: Option<i64>,
)
    ensures
        ({
            let settings = settings_for(args, rsi_count, max_open_time);
            &&& !args.replace_existing ==> settings.resume_open_time == max_open_time
            &&& args.replace_existing ==> settings.resume_open_time is None && settings.path
                == InsertPath::Prepared
            &&& settings.path == InsertPath::Prepared <==> args.replace_existing
                || args.import_mode == ImportMode::Safe
            &&& settings.import_mode == args.import_mode
            &&& settings.batch_size == args.batch_size
            &&& settings.progress_every == args.progress_every
            &&& settings.skip_order_check == args.skip_order_check
            &&& settings.rsi_count == rsi_count
        }),
{
}

/// Settles how an import is done. `max_open_time` is the open time of the table's last row.
pub fn import_settings(args: &Args, rsi_count: usize, max_open_time: Option<i64>) -> (settings:
    Settings)
    ensures
        settings == (Settings {
            path: insert_path(*args),
            import_mode: args.import_mode,
            batch_size: args.batch_size,
            progress_every: args.progress_every,
            skip_order_check: args.skip_order_check,
            rsi_count,
            resume_open_time: resume_point(*args, max_open_time),
        }),
        settings == settings_for(*args, rsi_count, max_open_time),
        settings.path == InsertPath::Appender <==> (args.import_mode == ImportMode::Balanced
            || args.import_mode == ImportMode::Unsafe) && !args.replace_existing,
        settings.import_mode == args.import_mode,
        settings.batch_size == args.batch_size,
        settings.progress_every == args.progress_every,
        settings.skip_order_check == args.skip_order_check,
        settings.rsi_count == rsi_count,
        !args.replace_existing ==> settings.resume_open_time == max_open_time,
        args.replace_existing ==> settings.resume_open_time is None,
        first_args_error(*args) is None ==> settings.wf(),
{
    let path = match args.import_mode {
        ImportMode::Safe => InsertPath::Prepared,
        _ => if args.replace_existing {
            InsertPath::Prepared
        } else {
            InsertPath::Appender
        },
    };
    Settings {
        path,
        import_mode: args.import_mode,
        batch_size: args.batch_size,
        progress_every: args.progress_every,
        skip_order_check: args.skip_order_check,
        rsi_count,
        resume_open_time: if args.replace_existing { None } else { max_open_time },
    }
}

// ---------------------------------------------------------------------------------------------
// Transactions
// ---------------------------------------------------------------------------------------------
/// The beginning or the end of a transaction.
#[derive(Clone, Copy, Debug, PartialEq, Eq, Structural)]
pub enum Bracket {
    Begin,
    Commit,
}

/// The points of an import at which what was written is made durable, and the one before them.
#[derive(Clone, Copy, Debug, PartialEq, Eq, Structural)]
pub enum Milestone {
    /// Nothing was written yet.
    Start,
    /// A batch was written.
    Checkpoint,
    /// Everything was written.
    End,
}

impl Bracket {
    /// The statement.
    pub fn sql(&self) -> (sql: &'static str)
        ensures
            sql@ == (match *self {
                Bracket::Begin => "BEGIN"@,
                Bracket::Commit => "COMMIT"@,
            }),
    {
        match self {
            Bracket::Begin => "BEGIN",
            Bracket::Commit => "COMMIT",
        }
    }
}

/// How rows that are inserted one by one are bracketed at a milestone.
pub open spec fn brackets_at(milestone: Milestone) -> Seq<Bracket> {
    match milestone {
        Milestone::Start => seq![Bracket::Begin],
        Milestone::Checkpoint => seq![Bracket::Commit, Bracket::Begin],
        Milestone::End => seq![Bracket::Commit],
    }
}

/// What is to be done at a milestone. The appender is flushed, except at the start; rows that are
/// inserted one by one are bracketed by these statements.
pub enum MilestoneStep {
    Nothing,
    Flush,
    Execute(Vec<Bracket>),
}

/// Says what is to be done at a milestone.
pub fn at_milestone(path: InsertPath, milestone: Milestone) -> (step: MilestoneStep)
    ensures
        match path {
            InsertPath::Appender => match milestone {
                Milestone::Start => step is Nothing,
                _ => step is Flush,
            },
            InsertPath::Prepared => step matches MilestoneStep::Execute(b) && b@ == brackets_at(
                milestone,
            ),
        },
        step matches MilestoneStep::Execute(b) ==> {
            &&& b@.contains(Bracket::Begin) <==> milestone != Milestone::End
            &&& b@.contains(Bracket::Commit) <==> milestone != Milestone::Start
            &&& b@.len() == 2 <==> milestone == Milestone::Checkpoint
            &&& milestone == Milestone::Checkpoint ==> b@[0] == Bracket::Commit
        },
{
    match path {
        InsertPath::Appender => match milestone {
            Milestone::Start => MilestoneStep::Nothing,
            _ => MilestoneStep::Flush,
        },
        InsertPath::Prepared => {
            let brackets = match milestone {
                Milestone::Start => vec![Bracket::Begin],
                Milestone::Checkpoint => vec![Bracket::Commit, Bracket::Begin],
                Milestone::End => vec![Bracket::Commit],
            };
            assert(brackets@ =~= brackets_at(milestone));
            proof {
                assert(milestone != Milestone::End ==> brackets@[brackets@.len() - 1]
                    == Bracket::Begin);
                assert(milestone != Milestone::Start ==> brackets@[0] == Bracket::Commit);
            }
            MilestoneStep::Execute(brackets)
        },
    }
}

/// The brackets of an import up to its `n`th checkpoint.
pub open spec fn brackets_before(n: nat) -> Seq<Bracket>
    decreases n,
{
    if n == 0 {
        brackets_at(Milestone::Start)
    } else {
        brackets_before((n - 1) as nat) + brackets_at(Milestone::Checkpoint)
    }
}

/// However many checkpoints an import has, its transactions are begun and committed in turn, the
/// last one is committed, and there is one more of them than there are checkpoints.
pub proof fn every_transaction_is_committed(n: nat)
    ensures
        brackets_before(n) + brackets_at(Milestone::End) == Seq::new(
            2 * n + 2,
            |i: int|
                if i % 2 == 0 {
                    Bracket::Begin
                } else {
                    Bracket::Commit
                },
        ),
    decreases n,
{
    let all = brackets_before(n) + brackets_at(Milestone::End);
    let pairs = |i: int| if i % 2 == 0 { Bracket::Begin } else { Bracket::Commit };
    if n > 0 {
        let fewer = (n - 1) as nat;
        every_transaction_is_committed(fewer);
        let before = brackets_before(fewer) + brackets_at(Milestone::End);
        assert(all =~= before + seq![Bracket::Begin, Bracket::Commit]);
        assert forall|i: int| 0 <= i < all.len() implies all[i] == pairs(i) by {
            if i < before.len() {
                assert(all[i] == before[i]);
            }
        }
    }
    assert(all =~= Seq::new(2 * n + 2, pairs));
}

// ---------------------------------------------------------------------------------------------
// What becomes of a record
// ---------------------------------------------------------------------------------------------
/// Why an import stops at a record.
#[derive(Clone, Copy, Debug, PartialEq, Eq, Structural)]
pub enum RowFault {
    /// The open time cannot be read.
    OpenTime(RowError),
    /// The record is not a row.
    BadRow(RowError),
    /// The record does not open after the one before it.
    NotIncreasing { previous: i64, current: i64 },
}

/// The wording of a fault at a record of the file with this path, from the outside in.
pub open spec fn row_fault_text(fault: RowFault, record: Seq<Field>, path: Seq<char>) -> Seq<
    Seq<char>,
> {
    match fault {
        RowFault::OpenTime(e) => row_error_text(e, record),
        RowFault::BadRow(e) => seq!["Bad row in "@ + path] + row_error_text(e, record),
        RowFault::NotIncreasing { previous, current } => seq![
            "open_time is not strictly increasing: previous="@ + signed_decimal(previous as int)
                + ", current="@ + signed_decimal(current as int) + " in "@ + path,
        ],
    }
}

impl RowFault {
    /// The wording of the fault, from the outside in.
    pub fn messages(&self, record: &Vec<Field>, path: &str) -> (parts: Vec<String>)
        ensures
            texts(parts@) == row_fault_text(*self, record@, path@),
            parts@.len() > 0,
            self is BadRow ==> parts@[0]@ == "Bad row in "@ + path@,
            self matches RowFault::NotIncreasing { previous, current } ==> parts@[0]@
                == "open_time is not strictly increasing: previous="@ + signed_decimal(
                *previous as int,
            ) + ", current="@ + signed_decimal(*current as int) + " in "@ + path@,
    {
        match self {
            RowFault::OpenTime(e) => e.messages(record),
            RowFault::BadRow(e) => {
                let mut context = "Bad row in ".to_owned();
                context.append(path);
                let mut parts: Vec<String> = Vec::new();
                parts.push(context);
                let mut causes = e.messages(record);
                let ghost inner = causes@;
                parts.append(&mut causes);
                assert(texts(parts@) =~= seq![context@] + texts(inner));
                parts
            },
            RowFault::NotIncreasing { previous, current } => {
                let mut text = "open_time is not strictly increasing: previous=".to_owned();
                append_signed_decimal(&mut text, *previous);
                text.append(", current=");
                append_signed_decimal(&mut text, *current);
                text.append(" in ");
                text.append(path);
                let mut parts: Vec<String> = Vec::new();
                parts.push(text);
                assert(texts(parts@) =~= row_fault_text(*self, record@, path@));
                parts
            },
        }
    }
}

/// What becomes of a record.
pub enum Verdict {
    /// There is nothing in it.
    Ignore,
    /// Its row, which opens at this time, is already stored.
    Skip(i64),
    /// Its row goes into the table.
    Insert(RowView),
    /// The import stops.
    Refuse(RowFault),
}

/// What is wrong with the order of a row that opens at `current` behind one that opens at `last`.
pub open spec fn order_fault(settings: Settings, last: Option<i64>, current: i64) -> Option<
    RowFault,
> {
    match last {
        Some(previous) => if !settings.skip_order_check && current <= previous {
            Some(RowFault::NotIncreasing { previous, current })
        } else {
            None
        },
        None => None,
    }
}

/// What becomes of a record behind one that opens at `last`. The order counts for rows that are
/// already stored too. Of the others the appender's way looks at the order first, and the other
/// way at the rest of the record.
pub open spec fn verdict(settings: Settings, last: Option<i64>, record: Seq<Field>) -> Verdict {
    if record.len() == 0 {
        Verdict::Ignore
    } else {
        match integer_at(record, 0) {
            Err(e) => Verdict::Refuse(RowFault::OpenTime(e)),
            Ok(open_time) => {
                let order = order_fault(settings, last, open_time);
                if already_stored(open_time, settings.resume_open_time) {
                    match order {
                        Some(fault) => Verdict::Refuse(fault),
                        None => Verdict::Skip(open_time),
                    }
                } else {
                    match row_of(record, settings.rsi_count as nat) {
                        Ok(row) => match order {
                            Some(fault) => Verdict::Refuse(fault),
                            None => Verdict::Insert(row),
                        },
                        Err(e) => if settings.path == InsertPath::Appender && order is Some {
                            Verdict::Refuse(order->0)
                        } else {
                            Verdict::Refuse(RowFault::BadRow(e))
                        },
                    }
                }
            },
        }
    }
}

/// What becomes of a record follows from its open time: a row is passed over exactly where it does
/// not open after the table's last row, and written exactly where it does; unless the order counts
/// and it does not open after the record before it, or is no row. Nothing else is written. Where
/// both are wrong, the appender's way tells of the order, and the other way of the row.
pub proof fn rows_are_written_or_passed_over_by_their_open_times(
    settings: Settings,
    last: Option<i64>,
    record: Seq<Field>,
)
    ensures
        ({
            let time = integer_text(record[0]);
            let stored = settings.resume_open_time matches Some(resume) && time->0 <= resume;
            let late = !settings.skip_order_check && (last matches Some(previous) && time->0
                <= previous);
            let row = row_of(record, settings.rsi_count as nat);
            let outcome = verdict(settings, last, record);
            &&& outcome is Ignore <==> record.len() == 0
            &&& outcome is Skip <==> record.len() > 0 && time is Some && stored && !late
            &&& outcome matches Verdict::Skip(t) ==> time == Some(t as int)
            &&& outcome is Insert <==> record.len() > 0 && time is Some && !stored && !late && row
                is Ok
            &&& outcome matches Verdict::Insert(r) ==> row == Ok::<RowView, RowError>(r)
                && r.open_time == time->0
            &&& (outcome matches Verdict::Refuse(RowFault::OpenTime(_))) <==> record.len() > 0
                && time is None
            &&& outcome matches Verdict::Refuse(RowFault::OpenTime(e)) ==> e == RowError::Invalid(0)
            &&& (outcome matches Verdict::Refuse(RowFault::BadRow(_))) <==> record.len() > 0 && time
                is Some && !stored && row is Err && !(late && settings.path == InsertPath::Appender)
            &&& outcome matches Verdict::Refuse(RowFault::BadRow(e)) ==> row == Err::<
                RowView,
                RowError,
            >(e)
            &&& (outcome matches Verdict::Refuse(RowFault::NotIncreasing { .. })) <==> record.len()
                > 0 && time is Some && late && (stored || row is Ok || settings.path
                == InsertPath::Appender)
            &&& outcome matches Verdict::Refuse(RowFault::NotIncreasing { previous, current })
                ==> last == Some(previous) && current == time->0
        }),
{
    if row_of(record, settings.rsi_count as nat) is Ok {
        rows_hold_their_columns(record, settings.rsi_count as nat);
    }
}

/// Without the order check no record is refused for its open time, and the check changes nothing for
/// a record that opens after the one before it.
pub proof fn the_order_check_only_refuses(
    settings: Settings,
    last: Option<i64>,
    record: Seq<Field>,
)
    ensures
        ({
            let strict = Settings { skip_order_check: false, ..settings };
            let loose = Settings { skip_order_check: true, ..settings };
            &&& !(verdict(loose, last, record) matches Verdict::Refuse(
                RowFault::NotIncreasing { .. },
            ))
            &&& !(verdict(strict, last, record) is Refuse) ==> verdict(strict, last, record)
                == verdict(loose, last, record)
            &&& verdict(strict, None, record) == verdict(loose, last, record)
        }),
{
}

// ---------------------------------------------------------------------------------------------
// The course of an import
// ---------------------------------------------------------------------------------------------
/// An import under way.
pub struct ImportRun {
    pub settings: Settings,
    /// The rows that were written, of all files.
    pub total_rows: usize,
    /// The rows that were written, of the present file.
    pub file_rows: usize,
    /// The open time of the last row that was written or passed over.
    pub last_open_time: Option<i64>,
    /// The rows that wait to be passed on to the progress display.
    pub pending_progress: u64,
}

/// What is to be done with a file.
#[derive(Clone, Copy, Debug, PartialEq, Eq, Structural)]
pub enum FileStep {
    /// Pass over all of its rows, and show them as done.
    Skip { progress: u64 },
    /// Read its records.
    Import,
}

/// What is to be done with a record.
pub enum RowStep {
    /// Nothing.
    Ignore,
    /// Pass it over, and show this much progress.
    Skip { progress: Option<u64> },
    /// Write this row, and then tell the run that it is stored.
    Insert(ParsedRow),
}

/// What is to be done after a row was written, in this order.
#[derive(Clone, Copy, Debug, PartialEq, Eq, Structural)]
pub struct AfterRow {
    /// Show this much progress.
    pub progress: Option<u64>,
    /// Flush the appender, or commit the transaction and begin another.
    pub checkpoint: bool,
    /// Report the number of rows so far.
    pub report: bool,
}

/// What is to be done at the end of a file.
#[derive(Clone, Copy, Debug, PartialEq, Eq, Structural)]
pub struct FileEnd {
    /// The rows that were written.
    pub rows: usize,
    /// Show this much progress.
    pub progress: Option<u64>,
}

/// Is what was written made durable after `total` rows? Rows that are inserted one by one are
/// committed in batches. The appender is flushed at a period of its own, or, in the fastest mode,
/// not before the end.
pub open spec fn is_checkpoint(settings: Settings, total: int) -> bool {
    match settings.path {
        InsertPath::Prepared => total % settings.batch_size as int == 0,
        InsertPath::Appender => settings.import_mode == ImportMode::Balanced && total
            % APPENDER_FLUSH_ROWS as int == 0,
    }
}

/// The batch size is for rows that are inserted one by one: when the appender is flushed depends on
/// the import mode and the number of rows alone.
pub proof fn the_appender_ignores_the_batch_size(settings: Settings, other: Settings, total: int)
    requires
        settings.path == InsertPath::Appender,
        other.path == InsertPath::Appender,
        settings.import_mode == other.import_mode,
    ensures
        is_checkpoint(settings, total) == is_checkpoint(other, total),
{
}

/// A count as the progress display takes it.
pub open spec fn shown(progress: Option<u64>) -> Option<int> {
    match progress {
        Some(n) => Some(n as int),
        None => None,
    }
}

/// An import that has not written anything yet.
pub open spec fn fresh_run(settings: Settings) -> ImportRun {
    ImportRun { settings, total_rows: 0, file_rows: 0, last_open_time: None, pending_progress: 0 }
}

/// Is every row of a file already stored? Its last row is, and the others open before it. A file
/// whose lines are not its records cannot be judged by them.
pub open spec fn is_stored_file(stats: FileStats, resume_open_time: Option<i64>) -> bool {
    is_skipped(stats, resume_open_time) && stats.increasing && stats.described
}

/// What is wrong with the order of a file that is passed over whole: its first row must open after
/// what was looked at before.
pub open spec fn file_order_fault(run: ImportRun, stats: FileStats) -> Option<RowFault> {
    match stats.first_open_time {
        Some(first) => if is_stored_file(stats, run.settings.resume_open_time) {
            order_fault(run.settings, run.last_open_time, first)
        } else {
            None
        },
        None => None,
    }
}

/// A file is passed over whole exactly where its rows open one after the other, its lines are its
/// records, and the last of them is already stored. It is refused exactly where, besides, the order
/// counts and its first row does not open after what was looked at before.
pub proof fn files_are_passed_over_by_their_last_rows(run: ImportRun, stats: FileStats)
    requires
        stats.wf(),
    ensures
        ({
            let stored = is_stored_file(stats, run.settings.resume_open_time);
            let late = !run.settings.skip_order_check && run.last_open_time is Some
                && stats.first_open_time is Some && stats.first_open_time->0
                <= run.last_open_time->0;
            &&& stored <==> {
                &&& stats.increasing
                &&& stats.described
                &&& stats.last_open_time is Some
                &&& run.settings.resume_open_time is Some
                &&& stats.last_open_time->0 <= run.settings.resume_open_time->0
            }
            &&& file_order_fault(run, stats) is Some <==> stored && late
            &&& stored && late ==> file_order_fault(run, stats) == Some(
                RowFault::NotIncreasing {
                    previous: run.last_open_time->0,
                    current: stats.first_open_time->0,
                },
            )
            &&& at_file(run, stats).last_open_time == if stored {
                stats.last_open_time
            } else {
                run.last_open_time
            }
            &&& at_file(run, stats).settings == run.settings
            &&& at_file(run, stats).total_rows == run.total_rows
        }),
{
}

/// The run at the beginning of a file; if all of its rows are already stored, behind them.
pub open spec fn at_file(run: ImportRun, stats: FileStats) -> ImportRun {
    ImportRun {
        file_rows: 0,
        pending_progress: 0,
        last_open_time: if is_stored_file(stats, run.settings.resume_open_time) {
            stats.last_open_time
        } else {
            run.last_open_time
        },
        ..run
    }
}

/// The run after a row was passed over.
pub open spec fn passed_over(run: ImportRun, open_time: i64) -> ImportRun {
    ImportRun {
        last_open_time: Some(open_time),
        pending_progress: waiting_after(run.pending_progress as int) as u64,
        ..run
    }
}

/// The run after a row was written.
pub open spec fn with_row(run: ImportRun, open_time: i64) -> ImportRun {
    ImportRun {
        total_rows: (run.total_rows + 1) as usize,
        file_rows: (run.file_rows + 1) as usize,
        last_open_time: Some(open_time),
        pending_progress: waiting_after(run.pending_progress as int) as u64,
        ..run
    }
}

/// The run at the end of a file: nothing waits to be shown.
pub open spec fn behind_file(run: ImportRun) -> ImportRun {
    ImportRun { pending_progress: 0, ..run }
}

impl ImportRun {
    /// The settings are in order, the rows of a file are among all rows, and a full batch of
    /// progress does not wait.
    pub open spec fn wf(self) -> bool {
        &&& self.settings.wf()
        &&& self.file_rows <= self.total_rows
        &&& self.pending_progress < PROGRESS_FLUSH_ROWS
    }

    /// An import that has not written anything yet.
    pub fn new(settings: Settings) -> (run: ImportRun)
        requires
            settings.wf(),
        ensures
            run.wf(),
            run == fresh_run(settings),
            run.settings == settings,
            run.total_rows == 0 && run.file_rows == 0 && run.pending_progress == 0,
            run.last_open_time is None,
    {
        ImportRun {
            settings,
            total_rows: 0,
            file_rows: 0,
            last_open_time: None,
            pending_progress: 0,
        }
    }

    /// Turns to the next file.
    pub fn begin_file(&mut self, stats: &FileStats) -> (step: Result<FileStep, RowFault>)
        requires
            old(self).wf(),
        ensures
            final(self).wf(),
            match file_order_fault(*old(self), *stats) {
                Some(fault) => {
                    &&& step matches Err(f)
                    &&& f == fault
                    &&& *final(self) == *old(self)
                },
                None => {
                    &&& step matches Ok(s)
                    &&& s == (if is_stored_file(*stats, old(self).settings.resume_open_time) {
                        FileStep::Skip { progress: stats.row_count as u64 }
                    } else {
                        FileStep::Import
                    })
                    &&& *final(self) == at_file(*old(self), *stats)
                },
            },
            step matches Ok(FileStep::Skip { progress }) ==> {
                &&& progress == stats.row_count as u64
                &&& stats.last_open_time matches Some(file_last)
                    && old(self).settings.resume_open_time matches Some(resume) && file_last
                    <= resume
                &&& stats.increasing && stats.described
                &&& final(self).last_open_time == stats.last_open_time
            },
            step == Ok::<FileStep, RowFault>(FileStep::Import) ==> final(self).last_open_time
                == old(self).last_open_time && !(stats.increasing && stats.described && (
            stats.last_open_time matches Some(file_last)
                && old(self).settings.resume_open_time matches Some(resume) && file_last
                <= resume)),
            step is Ok ==> final(self).file_rows == 0 && final(self).pending_progress == 0,
            step matches Err(fault) ==> {
                &&& !old(self).settings.skip_order_check
                &&& stats.first_open_time is Some && old(self).last_open_time is Some
                &&& stats.first_open_time->0 <= old(self).last_open_time->0
                &&& fault == RowFault::NotIncreasing {
                    previous: old(self).last_open_time->0,
                    current: stats.first_open_time->0,
                }
            },
            step matches Ok(FileStep::Skip { .. }) && !old(self).settings.skip_order_check
                && stats.first_open_time is Some && old(self).last_open_time is Some
                ==> stats.first_open_time->0 > old(self).last_open_time->0,
            final(self).settings == old(self).settings,
            final(self).total_rows == old(self).total_rows,
    {
        let stored = should_skip_file(stats, self.settings.resume_open_time) && stats.increasing
            && stats.described;
        if stored {
            if let Some(first) = stats.first_open_time {
                if let Some(fault) = self.order_fault_of(first) {
                    return Err(fault);
                }
            }
        }
        self.file_rows = 0;
        self.pending_progress = 0;
        if stored {
            self.last_open_time = stats.last_open_time;
            Ok(FileStep::Skip { progress: stats.row_count as u64 })
        } else {
            Ok(FileStep::Import)
        }
    }

    /// What is wrong with the order of a row that opens at `current`.
    fn order_fault_of(&self, current: i64) -> (fault: Option<RowFault>)
        ensures
            fault == order_fault(self.settings, self.last_open_time, current),
    {
        match self.last_open_time {
            Some(previous) => if !self.settings.skip_order_check && current <= previous {
                Some(RowFault::NotIncreasing { previous, current })
            } else {
                None
            },
            None => None,
        }
    }

    /// Decides what becomes of the next record of the present file.
    pub fn next_record(&mut self, record: &Vec<Field>) -> (step: Result<RowStep, RowFault>)
        requires
            old(self).wf(),
        ensures
            final(self).wf(),
            match verdict(old(self).settings, old(self).last_open_time, record@) {
                Verdict::Ignore => step matches Ok(RowStep::Ignore) && *final(self) == *old(self),
                Verdict::Skip(open_time) => {
                    &&& step matches Ok(RowStep::Skip { progress })
                    &&& shown(progress) == passed_on(old(self).pending_progress as int)
                    &&& *final(self) == passed_over(*old(self), open_time)
                },
                Verdict::Insert(row) => {
                    &&& step matches Ok(RowStep::Insert(r))
                    &&& r@ == row
                    &&& *final(self) == *old(self)
                },
                Verdict::Refuse(fault) => {
                    &&& step matches Err(f)
                    &&& f == fault
                    &&& *final(self) == *old(self)
                },
            },
            step matches Ok(RowStep::Insert(row)) ==> {
                &&& row_of(record@, old(self).settings.rsi_count as nat) == Ok::<RowView, RowError>(
                    row@,
                )
                &&& old(self).settings.resume_open_time matches Some(resume) ==> row.open_time
                    > resume
                &&& !old(self).settings.skip_order_check ==> (
                old(self).last_open_time matches Some(last) ==> row.open_time > last)
            },
            step matches Ok(RowStep::Skip { .. }) ==> {
                &&& old(self).settings.resume_open_time matches Some(resume)
                    && final(self).last_open_time matches Some(time) && time <= resume
                &&& integer_text(record@[0]) == Some(final(self).last_open_time->0 as int)
            },
            (step matches Ok(RowStep::Ignore)) <==> record@.len() == 0,
            final(self).settings == old(self).settings,
            final(self).total_rows == old(self).total_rows,
            final(self).file_rows == old(self).file_rows,
    {
        proof {
            rows_are_written_or_passed_over_by_their_open_times(
                self.settings,
                self.last_open_time,
                record@,
            );
        }
        if record.len() == 0 {
            return Ok(RowStep::Ignore);
        }
        let open_time: i64 = match parse_i64(record, 0) {
            Ok(t) => t,
            Err(e) => return Err(RowFault::OpenTime(e)),
        };
        let order = self.order_fault_of(open_time);
        if let Some(resume) = self.settings.resume_open_time {
            if open_time <= resume {
                if let Some(fault) = order {
                    return Err(fault);
                }
                let progress = count_row(&mut self.pending_progress);
                self.last_open_time = Some(open_time);
                return Ok(RowStep::Skip { progress });
            }
        }
        if let InsertPath::Appender = self.settings.path {
            if let Some(fault) = order {
                return Err(fault);
            }
        }
        let row = match record_to_row(record, self.settings.rsi_count) {
            Ok(row) => row,
            Err(e) => return Err(RowFault::BadRow(e)),
        };
        match order {
            Some(fault) => Err(fault),
            None => Ok(RowStep::Insert(row)),
        }
    }

    /// Takes note of a row that was written, which opens at `open_time`.
    pub fn row_stored(&mut self, open_time: i64) -> (after: AfterRow)
        requires
            old(self).wf(),
            old(self).total_rows < usize::MAX,
        ensures
            final(self).wf(),
            *final(self) == with_row(*old(self), open_time),
            shown(after.progress) == passed_on(old(self).pending_progress as int),
            after.checkpoint == is_checkpoint(old(self).settings, old(self).total_rows + 1),
            after.report == ((old(self).total_rows + 1) % old(self).settings.progress_every as int
                == 0),
            final(self).settings == old(self).settings,
            final(self).total_rows == old(self).total_rows + 1,
            final(self).file_rows == old(self).file_rows + 1,
            final(self).last_open_time == Some(open_time),
            old(self).settings.path == InsertPath::Prepared ==> after.checkpoint == ((old(
                self,
            ).total_rows + 1) % old(self).settings.batch_size as int == 0),
            old(self).settings.path == InsertPath::Appender && old(self).settings.import_mode
                == ImportMode::Balanced ==> after.checkpoint == ((old(self).total_rows + 1) % 250_000
                == 0),
            old(self).settings.path == InsertPath::Appender && old(self).settings.import_mode
                != ImportMode::Balanced ==> !after.checkpoint,
            after.progress == (if old(self).pending_progress + 1 == 8192 {
                Some(8192u64)
            } else {
                None
            }),
            final(self).pending_progress == (if old(self).pending_progress + 1 == 8192 {
                0
            } else {
                old(self).pending_progress + 1
            }),
    {
        self.last_open_time = Some(open_time);
        self.file_rows += 1;
        self.total_rows += 1;
        let progress = count_row(&mut self.pending_progress);
        let checkpoint = match self.settings.path {
            InsertPath::Prepared => self.total_rows % self.settings.batch_size == 0,
            InsertPath::Appender => match self.settings.import_mode {
                ImportMode::Balanced => self.total_rows % APPENDER_FLUSH_ROWS == 0,
                _ => false,
            },
        };
        AfterRow {
            progress,
            checkpoint,
            report: self.total_rows % self.settings.progress_every == 0,
        }
    }

    /// Ends the present file.
    pub fn end_file(&mut self) -> (end: FileEnd)
        requires
            old(self).wf(),
        ensures
            final(self).wf(),
            *final(self) == behind_file(*old(self)),
            final(self).pending_progress == 0,
            final(self).total_rows == old(self).total_rows,
            final(self).last_open_time == old(self).last_open_time,
            final(self).settings == old(self).settings,
            end.rows == old(self).file_rows,
            end.progress == (if old(self).pending_progress > 0 {
                Some(old(self).pending_progress)
            } else {
                None
            }),
    {
        let pending: u64 = self.pending_progress;
        self.pending_progress = 0;
        FileEnd { rows: self.file_rows, progress: if pending > 0 { Some(pending) } else { None } }
    }
}

} // verus!
