use csv_to_duckdb::args::{Args, ImportMode};
use csv_to_duckdb::setup::RecreateAction;
use csv_to_duckdb::steps::{JobAction, JobEvent, JobSteps};

fn args() -> Args {
    Args {
        dir: Vec::new(),
        db: String::new(),
        interval: "1s".to_string(),
        table: "klines".to_string(),
        batch_size: 1,
        progress_every: 1,
        has_header: false,
        recreate: false,
        recreate_pragmatic: false,
        import_mode: ImportMode::Balanced,
        replace_existing: false,
        skip_order_check: false,
        auto: None,
        all: false,
        jobs: 1,
    }
}

fn run(args: &Args, files: usize, tables: &[&str]) -> (Vec<JobAction>, RecreateAction) {
    let mut steps = JobSteps::new(files);
    let mut actions = Vec::new();
    loop {
        let action = steps.action();
        actions.push(action);
        if action == JobAction::Finished {
            return (actions, steps.recreate());
        }
        let event = if action == JobAction::ListTables {
            JobEvent::Tables(tables.iter().map(|s| s.to_string()).collect())
        } else {
            JobEvent::Done
        };
        steps.advance(args, &event);
    }
}

#[test]
fn steps_of_a_job() {
    let (actions, recreate) = run(&args(), 2, &[]);
    assert_eq!(
        actions,
        vec![
            JobAction::InferWidth(0),
            JobAction::InferWidth(1),
            JobAction::ScanRows(0),
            JobAction::ScanRows(1),
            JobAction::Announce,
            JobAction::CreateDirectory,
            JobAction::OpenDatabase,
            JobAction::PrepareDatabase,
            JobAction::AskMaxOpenTime,
            JobAction::ImportFiles,
            JobAction::Finished,
        ]
    );
    assert_eq!(recreate, RecreateAction::Keep);
}

#[test]
fn steps_of_a_job_that_begins_anew() {
    let mut a = args();
    a.recreate = true;
    a.replace_existing = true;
    let (actions, recreate) = run(&a, 1, &[]);
    assert_eq!(
        actions[3..].to_vec(),
        vec![
            JobAction::CreateDirectory,
            JobAction::RemoveDatabase,
            JobAction::OpenDatabase,
            JobAction::PrepareDatabase,
            JobAction::ImportFiles,
            JobAction::Finished,
        ]
    );
    assert_eq!(recreate, RecreateAction::DeleteDatabaseFiles);
}

#[test]
fn a_pragmatic_job_asks_for_the_tables() {
    let mut a = args();
    a.recreate_pragmatic = true;
    let (actions, recreate) = run(&a, 1, &["klines"]);
    assert_eq!(actions[4], JobAction::ListTables);
    assert_eq!(actions[5], JobAction::RemoveDatabase);
    assert_eq!(recreate, RecreateAction::DeleteDatabaseFiles);
    let (actions, recreate) = run(&a, 1, &["klines", "mine"]);
    assert_eq!(actions[5], JobAction::OpenDatabase);
    assert_eq!(recreate, RecreateAction::DropTableOnly);
}

#[test]
fn a_failed_scan_leaves_the_database_alone() {
    let mut a = args();
    a.recreate = true;
    for failing in 0..6 {
        let mut steps = JobSteps::new(3);
        for i in 0..20 {
            let action = steps.action();
            assert!(matches!(
                action,
                JobAction::InferWidth(_) | JobAction::ScanRows(_) | JobAction::Stopped
            ));
            assert_eq!(action == JobAction::Stopped, i > failing);
            let event = if i == failing { JobEvent::Failed } else { JobEvent::Done };
            steps.advance(&a, &event);
        }
    }
}

#[test]
fn what_is_finished_stays_finished() {
    let mut steps = JobSteps::new(0);
    assert_eq!(steps.action(), JobAction::Announce);
    for _ in 0..6 {
        steps.advance(&args(), &JobEvent::Done);
    }
    assert_eq!(steps.action(), JobAction::Finished);
    steps.advance(&args(), &JobEvent::Failed);
    assert_eq!(steps.action(), JobAction::Finished);
}
