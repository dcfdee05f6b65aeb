//! The steps of one import job: what is done to files and to the database, and in which order.

use crate::args::Args;
use crate::import::needs_max_open_time;
use crate::setup::{
    databases_are_recreated_as_asked, determine_recreate_action, needs_user_tables, recreate_action,
    RecreateAction,
};
use crate::text::texts;
use vstd::prelude::*;

verus! {

/// What is to be done next.
#[derive(Clone, Copy, Debug, PartialEq, Eq, Structural)]
pub enum JobAction {
    /// Make room for the RSI columns of this file.
    InferWidth(usize),
    /// Count the rows of this file.
    ScanRows(usize),
    /// Report what is about to be done.
    Announce,
    /// Make the directory of the database.
    CreateDirectory,
    /// Ask the database for the names of its tables.
    ListTables,
    /// Remove the file of the database.
    RemoveDatabase,
    /// Open the database.
    OpenDatabase,
    /// Execute the statements that make the database ready for rows.
    PrepareDatabase,
    /// Ask the table for the open time of its last row.
    AskMaxOpenTime,
    /// Import the files.
    ImportFiles,
    /// There is nothing left to do.
    Finished,
    /// Something failed, and nothing more is to be done.
    Stopped,
}

/// How an action went.
pub enum JobEvent {
    /// It was done.
    Done,
    /// It was done, and these are the names of the tables.
    Tables(Vec<String>),
    /// It failed.
    Failed,
}

/// How an action went.
pub enum EventView {
    Done,
    Tables(Seq<Seq<char>>),
    Failed,
}

impl View for JobEvent {
    type V = EventView;

    open spec fn view(&self) -> EventView {
        match self {
            JobEvent::Done => EventView::Done,
            JobEvent::Tables(names) => EventView::Tables(texts(names@)),
            JobEvent::Failed => EventView::Failed,
        }
    }
}

/// How far a job has come.
pub struct JobSteps {
    files: usize,
    action: JobAction,
    recreate: RecreateAction,
}

/// How far a job has come.
pub struct StepsView {
    /// The number of files.
    pub files: nat,
    /// What is to be done next.
    pub action: JobAction,
    /// What becomes of the database, once that is decided.
    pub recreate: RecreateAction,
}

impl View for JobSteps {
    type V = StepsView;

    closed spec fn view(&self) -> StepsView {
        StepsView { files: self.files as nat, action: self.action, recreate: self.recreate }
    }
}

/// A job that has not begun.
pub open spec fn fresh_steps(files: nat) -> StepsView {
    StepsView {
        files,
        action: if files == 0 {
            JobAction::Announce
        } else {
            JobAction::InferWidth(0)
        },
        recreate: RecreateAction::Keep,
    }
}

/// The job once it is known which tables the database has.
pub open spec fn with_tables(args: Args, steps: StepsView, tables: Seq<Seq<char>>) -> StepsView {
    let recreate = recreate_action(args, tables);
    StepsView {
        action: if recreate == RecreateAction::DeleteDatabaseFiles {
            JobAction::RemoveDatabase
        } else {
            JobAction::OpenDatabase
        },
        recreate,
        ..steps
    }
}

/// The job after its next action was done: all files are looked at twice before anything else.
pub open spec fn after_success(args: Args, steps: StepsView, tables: Seq<Seq<char>>) -> StepsView {
    let go_on = |action: JobAction| StepsView { action, ..steps };
    match steps.action {
        JobAction::InferWidth(i) => go_on(
            if i + 1 < steps.files {
                JobAction::InferWidth((i + 1) as usize)
            } else {
                JobAction::ScanRows(0)
            },
        ),
        JobAction::ScanRows(i) => go_on(
            if i + 1 < steps.files {
                JobAction::ScanRows((i + 1) as usize)
            } else {
                JobAction::Announce
            },
        ),
        JobAction::Announce => go_on(JobAction::CreateDirectory),
        JobAction::CreateDirectory => if !args.recreate && args.recreate_pragmatic {
            go_on(JobAction::ListTables)
        } else {
            with_tables(args, steps, Seq::empty())
        },
        JobAction::ListTables => with_tables(args, steps, tables),
        JobAction::RemoveDatabase => go_on(JobAction::OpenDatabase),
        JobAction::OpenDatabase => go_on(JobAction::PrepareDatabase),
        JobAction::PrepareDatabase => go_on(
            if args.replace_existing {
                JobAction::ImportFiles
            } else {
                JobAction::AskMaxOpenTime
            },
        ),
        JobAction::AskMaxOpenTime => go_on(JobAction::ImportFiles),
        JobAction::ImportFiles => go_on(JobAction::Finished),
        JobAction::Finished => steps,
        JobAction::Stopped => steps,
    }
}

/// The job after an event.
pub open spec fn after_event(args: Args, steps: StepsView, event: EventView) -> StepsView {
    match event {
        EventView::Failed => if steps.action == JobAction::Finished {
            steps
        } else {
            StepsView { action: JobAction::Stopped, ..steps }
        },
        EventView::Done => after_success(args, steps, Seq::empty()),
        EventView::Tables(names) => after_success(args, steps, names),
    }
}

impl JobSteps {
    /// A job that has not begun.
    pub fn new(files: usize) -> (steps: JobSteps)
        ensures
            steps@ == fresh_steps(files as nat),
    {
        JobSteps {
            files,
            action: if files == 0 { JobAction::Announce } else { JobAction::InferWidth(0) },
            recreate: RecreateAction::Keep,
        }
    }

    /// What is to be done next.
    pub fn action(&self) -> (action: JobAction)
        ensures
            action == self@.action,
    {
        self.action
    }

    /// What becomes of the database, once that is decided.
    pub fn recreate(&self) -> (recreate: RecreateAction)
        ensures
            recreate == self@.recreate,
    {
        self.recreate
    }

    /// Takes note of how the action went.
    pub fn advance(&mut self, args: &Args, event: &JobEvent)
        ensures
            final(self)@ == after_event(*args, old(self)@, event@),
    {
        let nothing: Vec<String> = Vec::new();
        assert(texts(nothing@) =~= Seq::empty());
        match event {
            JobEvent::Failed => {
                match self.action {
                    JobAction::Finished => {},
                    _ => {
                        self.action = JobAction::Stopped;
                    },
                }
            },
            JobEvent::Done => self.succeed(args, &nothing),
            JobEvent::Tables(names) => self.succeed(args, names),
        }
    }

    /// Takes note that the action was done.
    fn succeed(&mut self, args: &Args, tables: &Vec<String>)
        ensures
            final(self)@ == after_success(*args, old(self)@, texts(tables@)),
    {
        match self.action {
            JobAction::InferWidth(i) => {
                self.action = if self.files > 0 && i < self.files - 1 {
                    JobAction::InferWidth(i + 1)
                } else {
                    JobAction::ScanRows(0)
                };
            },
            JobAction::ScanRows(i) => {
                self.action = if self.files > 0 && i < self.files - 1 {
                    JobAction::ScanRows(i + 1)
                } else {
                    JobAction::Announce
                };
            },
            JobAction::Announce => {
                self.action = JobAction::CreateDirectory;
            },
            JobAction::CreateDirectory => {
                if needs_user_tables(args) {
                    self.action = JobAction::ListTables;
                } else {
                    let nothing: Vec<String> = Vec::new();
                    assert(texts(nothing@) =~= Seq::empty());
                    self.decide(args, &nothing);
                }
            },
            JobAction::ListTables => self.decide(args, tables),
            JobAction::RemoveDatabase => {
                self.action = JobAction::OpenDatabase;
            },
            JobAction::OpenDatabase => {
                self.action = JobAction::PrepareDatabase;
            },
            JobAction::PrepareDatabase => {
                self.action = if needs_max_open_time(args) {
                    JobAction::AskMaxOpenTime
                } else {
                    JobAction::ImportFiles
                };
            },
            JobAction::AskMaxOpenTime => {
                self.action = JobAction::ImportFiles;
            },
            JobAction::ImportFiles => {
                self.action = JobAction::Finished;
            },
            JobAction::Finished => {},
            JobAction::Stopped => {},
        }
    }

    /// Decides what becomes of the database.
    fn decide(&mut self, args: &Args, tables: &Vec<String>)
        ensures
            final(self)@ == with_tables(*args, old(self)@, texts(tables@)),
    {
        self.recreate = determine_recreate_action(args, tables);
        self.action = match self.recreate {
            RecreateAction::DeleteDatabaseFiles => JobAction::RemoveDatabase,
            _ => JobAction::OpenDatabase,
        };
    }
}

// ---------------------------------------------------------------------------------------------
// The course of a job
// ---------------------------------------------------------------------------------------------
/// The job after some events.
pub open spec fn after_events(args: Args, files: nat, events: Seq<EventView>) -> StepsView
    decreases events.len(),
{
    if events.len() == 0 {
        fresh_steps(files)
    } else {
        after_event(args, after_events(args, files, events.drop_last()), events.last())
    }
}

/// Does an action do something to the database or to its directory?
pub open spec fn touches_database(action: JobAction) -> bool {
    match action {
        JobAction::InferWidth(_) => false,
        JobAction::ScanRows(_) => false,
        JobAction::Announce => false,
        JobAction::Stopped => false,
        _ => true,
    }
}

/// What is done after `n` successes, as long as files are looked at.
pub open spec fn scan_at(files: nat, n: nat) -> JobAction {
    if n < files {
        JobAction::InferWidth(n as usize)
    } else if n < 2 * files {
        JobAction::ScanRows((n - files) as usize)
    } else {
        JobAction::Announce
    }
}

proof fn lemma_scans(args: Args, files: nat, events: Seq<EventView>)
    requires
        files <= usize::MAX,
    ensures
        ({
            let steps = after_events(args, files, events);
            let n = events.len();
            &&& steps.files == files
            &&& steps.action != JobAction::Stopped && n <= 2 * files ==> steps.action == scan_at(
                files,
                n,
            )
            &&& touches_database(steps.action) ==> n > 2 * files
            &&& steps.action != JobAction::Stopped ==> forall|k: int|
                0 <= k < n && k <= 2 * files ==> !(#[trigger] events[k] is Failed)
        }),
    decreases events.len(),
{
    if events.len() > 0 {
        let fewer = events.drop_last();
        lemma_scans(args, files, fewer);
        let steps = after_events(args, files, events);
        assert(events.last() == events[events.len() - 1]);
        if steps.action != JobAction::Stopped {
            assert forall|k: int| 0 <= k < events.len() && k <= 2 * files implies !(
            #[trigger] events[k] is Failed) by {
                if k < fewer.len() {
                    assert(fewer[k] == events[k]);
                }
            }
        }
    }
}

/// Nothing is done to the database before every file has been looked at, twice, and that without
/// a failure. So a file that cannot be read or scanned leaves the database as it was.
pub proof fn every_scan_comes_before_the_database(args: Args, files: nat, events: Seq<EventView>)
    requires
        files <= usize::MAX,
    ensures
        touches_database(after_events(args, files, events).action) ==> {
            &&& events.len() > 2 * files
            &&& forall|k: int|
                0 <= k < 2 * files ==> {
                    &&& after_events(args, files, #[trigger] events.take(k)).action == scan_at(
                        files,
                        k as nat,
                    )
                    &&& !(events[k] is Failed)
                }
        },
{
    lemma_scans(args, files, events);
    if touches_database(after_events(args, files, events).action) {
        assert forall|k: int| 0 <= k < 2 * files implies {
            &&& after_events(args, files, #[trigger] events.take(k)).action == scan_at(
                files,
                k as nat,
            )
            &&& !(events[k] is Failed)
        } by {
            lemma_scans(args, files, events.take(k));
            lemma_stop_stays(args, files, events, k);
        }
    }
}

/// A job that has stopped does nothing more.
proof fn lemma_stop_stays(args: Args, files: nat, events: Seq<EventView>, n: int)
    requires
        0 <= n <= events.len(),
        after_events(args, files, events).action != JobAction::Stopped,
    ensures
        after_events(args, files, events.take(n)).action != JobAction::Stopped,
    decreases events.len(),
{
    if n == events.len() {
        assert(events.take(n) =~= events);
    } else {
        assert(events.drop_last().take(n) =~= events.take(n));
        lemma_stop_stays(args, files, events.drop_last(), n);
    }
}

/// The file of a database is removed only where a new beginning was asked for, and then before the
/// database is opened: the action that comes next opens it.
pub proof fn databases_are_removed_on_request_only(
    args: Args,
    files: nat,
    events: Seq<EventView>,
    next: EventView,
)
    requires
        files <= usize::MAX,
        after_events(args, files, events).action == JobAction::RemoveDatabase,
    ensures
        args.recreate || args.recreate_pragmatic,
        after_events(args, files, events).recreate == RecreateAction::DeleteDatabaseFiles,
        !(next is Failed) ==> after_events(args, files, events.push(next)).action
            == JobAction::OpenDatabase,
{
    lemma_scans(args, files, events);
    assert(events.push(next).drop_last() =~= events);
}

/// What is done next, in terms of what was done last. The tables are listed exactly where it depends
/// on them what becomes of the database; the database is removed exactly where that was decided, and
/// opened behind it; it is made ready before anything is asked of it; and the files are imported once
/// the table's last row is known, unless they replace rows.
pub proof fn every_action_follows_its_own(args: Args, steps: StepsView, event: EventView)
    requires
        !(event is Failed),
    ensures
        ({
            let after = after_event(args, steps, event);
            let last = steps.action;
            let lists = !args.recreate && args.recreate_pragmatic;
            let decides = last == JobAction::ListTables || (last == JobAction::CreateDirectory
                && !lists);
            &&& after.files == steps.files
            &&& after.action == JobAction::CreateDirectory <==> last == JobAction::Announce
            &&& after.action == JobAction::ListTables <==> last == JobAction::CreateDirectory
                && lists
            &&& after.action == JobAction::RemoveDatabase <==> decides && after.recreate
                == RecreateAction::DeleteDatabaseFiles
            &&& after.action == JobAction::OpenDatabase <==> last == JobAction::RemoveDatabase || (
            decides && after.recreate != RecreateAction::DeleteDatabaseFiles)
            &&& after.action == JobAction::PrepareDatabase <==> last == JobAction::OpenDatabase
            &&& after.action == JobAction::AskMaxOpenTime <==> last == JobAction::PrepareDatabase
                && !args.replace_existing
            &&& after.action == JobAction::ImportFiles <==> last == JobAction::AskMaxOpenTime || (
            last == JobAction::PrepareDatabase && args.replace_existing)
            &&& after.action == JobAction::Finished <==> last == JobAction::ImportFiles || last
                == JobAction::Finished
            &&& after.action == JobAction::Stopped <==> last == JobAction::Stopped
            &&& !decides ==> after.recreate == steps.recreate
            &&& decides && args.recreate ==> after.recreate == RecreateAction::DeleteDatabaseFiles
            &&& decides && !args.recreate && !args.recreate_pragmatic ==> after.recreate
                == RecreateAction::Keep
            &&& last == JobAction::ListTables && lists && event is Tables ==> after.recreate == (
            if event->Tables_0.len() == 1 && event->Tables_0[0] == args.table@ {
                RecreateAction::DeleteDatabaseFiles
            } else {
                RecreateAction::DropTableOnly
            })
        }),
{
    databases_are_recreated_as_asked(args, Seq::empty());
    if let EventView::Tables(names) = event {
        databases_are_recreated_as_asked(args, names);
    }
}

/// A failure stops a job that is not yet done, and nothing gets it going again.
pub proof fn failures_stop_a_job(args: Args, steps: StepsView, event: EventView)
    ensures
        steps.action != JobAction::Finished ==> after_event(
            args,
            steps,
            EventView::Failed,
        ).action == JobAction::Stopped,
        steps.action == JobAction::Stopped || steps.action == JobAction::Finished ==> after_event(
            args,
            steps,
            event,
        ) == steps,
        after_event(args, steps, event).files == steps.files,
        event is Failed ==> after_event(args, steps, event).recreate == steps.recreate,
{
}

} // verus!
