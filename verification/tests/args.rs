use csv_to_duckdb::args::{
    arg_was_provided, capped_jobs, capped_jobs_warning, no_arguments_message, startup,
    validate_args, validate_ident, Args, ArgsError, IdentError, ImportMode, Startup,
    DEFAULT_ALL_DB_DIR, DEFAULT_ALL_DIR, DEFAULT_SINGLE_DB, DEFAULT_SINGLE_DIR,
};

fn defaults() -> Args {
    Args {
        dir: DEFAULT_SINGLE_DIR.as_bytes().to_vec(),
        db: DEFAULT_SINGLE_DB.to_string(),
        interval: "1s".to_string(),
        table: "klines".to_string(),
        batch_size: 250_000,
        progress_every: 1_000_000,
        has_header: false,
        recreate: false,
        recreate_pragmatic: false,
        import_mode: ImportMode::Balanced,
        replace_existing: false,
        skip_order_check: false,
        auto: None,
        all: false,
        jobs: 1,
    }
}

fn words(list: &[&str]) -> Vec<String> {
    list.iter().map(|s| s.to_string()).collect()
}

#[test]
fn default_paths() {
    assert_eq!(DEFAULT_SINGLE_DIR, "../data/BTCUSDT/");
    assert_eq!(DEFAULT_SINGLE_DB, "../db/BTCUSDT/BTCUSDT.duckdb");
    assert_eq!(DEFAULT_ALL_DIR, "../data/");
    assert_eq!(DEFAULT_ALL_DB_DIR, "../db/");
}

#[test]
fn options_in_order_are_accepted() {
    assert_eq!(validate_args(&defaults()), Ok(()));
    let mut args = defaults();
    args.auto = Some(3);
    assert_eq!(validate_args(&args), Ok(()));
    args.auto = None;
    args.recreate = true;
    assert_eq!(validate_args(&args), Ok(()));
}

#[test]
fn each_rule_for_options_has_its_error() {
    let refused = |change: fn(&mut Args)| {
        let mut args = defaults();
        change(&mut args);
        validate_args(&args).unwrap_err()
    };
    let e = refused(|a| a.batch_size = 0);
    assert_eq!((e, e.message()), (ArgsError::BatchSizeZero, "--batch-size must be greater than 0"));
    let e = refused(|a| a.progress_every = 0);
    assert_eq!(
        (e, e.message()),
        (ArgsError::ProgressEveryZero, "--progress-every must be greater than 0")
    );
    let e = refused(|a| a.jobs = 0);
    assert_eq!((e, e.message()), (ArgsError::JobsZero, "--jobs must be greater than 0"));
    let e = refused(|a| {
        a.recreate = true;
        a.recreate_pragmatic = true;
    });
    assert_eq!(
        (e, e.message()),
        (ArgsError::BothRecreates, "--recreate and --recreate-pragmatic cannot be used together")
    );
    let e = refused(|a| {
        a.auto = Some(0);
        a.recreate = true;
    });
    assert_eq!((e, e.message()), (ArgsError::AutoZero, "--auto must be greater than 0"));
    let e = refused(|a| {
        a.auto = Some(1);
        a.recreate_pragmatic = true;
    });
    assert_eq!(
        (e, e.message()),
        (ArgsError::AutoWithRecreate, "--auto cannot be combined with recreate options")
    );
}

#[test]
fn the_first_broken_rule_is_reported() {
    let mut args = defaults();
    args.batch_size = 0;
    args.jobs = 0;
    assert_eq!(validate_args(&args), Err(ArgsError::BatchSizeZero));
}

#[test]
fn identifiers() {
    for name in ["klines", "eth_klines", "_", "T1", "9"] {
        assert_eq!(validate_ident(name), Ok(()));
    }
    assert_eq!(validate_ident(""), Err(IdentError::Empty));
    for name in ["a b", "a;", "a-b", "\u{e9}", "a\"", "a.b"] {
        assert_eq!(validate_ident(name), Err(IdentError::Unsafe));
    }
    assert_eq!(IdentError::Empty.message(""), "SQL identifier cannot be empty");
    assert_eq!(IdentError::Unsafe.message("a b"), "Unsafe SQL identifier: a b");
}

#[test]
fn options_on_the_command_line() {
    let line = words(&["csv-to-duckdb", "--all", "--dir=x", "-o", "y"]);
    assert!(arg_was_provided(&line, "-d", "--dir"));
    assert!(arg_was_provided(&line, "-o", "--db"));
    assert!(!arg_was_provided(&line, "-i", "--interval"));
    assert!(!arg_was_provided(&words(&["-d"]), "-d", "--dir"));
    assert!(!arg_was_provided(&words(&["p", "--directory"]), "-d", "--dir"));
    assert!(!arg_was_provided(&words(&["p", "-dx"]), "-d", "--dir"));
}

#[test]
fn what_a_command_line_asks_for() {
    assert_eq!(startup(&words(&["p", "--all", "-v"])), Startup::Version);
    assert_eq!(startup(&words(&["p", "--version"])), Startup::Version);
    assert_eq!(startup(&words(&["p"])), Startup::NoArguments);
    assert_eq!(
        startup(&words(&["p", "--all"])),
        Startup::Import { dir_given: false, db_given: false }
    );
    assert_eq!(
        startup(&words(&["p", "-d", "x"])),
        Startup::Import { dir_given: true, db_given: false }
    );
    assert_eq!(
        startup(&words(&["p", "--db=y"])),
        Startup::Import { dir_given: false, db_given: true }
    );
    assert_eq!(no_arguments_message(), "no arguments provided; use --help for usage");
}

#[test]
fn jobs_are_capped() {
    assert_eq!(capped_jobs(true, 8, 4), 4);
    assert_eq!(capped_jobs(true, 4, 4), 4);
    assert_eq!(capped_jobs(false, 8, 4), 8);
    assert_eq!(
        capped_jobs_warning(8, 4),
        "Warning: --jobs 8 exceeds available system threads (4); capped to 4"
    );
}
