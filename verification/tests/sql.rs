use csv_to_duckdb::args::{Args, ImportMode};
use csv_to_duckdb::row::{record_to_row, row_to_params, Field};
use csv_to_duckdb::setup::{
    build_synchronous_sql, determine_recreate_action, mode_report, needs_user_tables,
    setup_statements, RecreateAction,
};
use csv_to_duckdb::sql::{
    build_create_table_sql, build_insert_sql, build_max_open_time_sql, conflict_word,
    USER_TABLES_SQL,
};

fn args() -> Args {
    Args {
        dir: Vec::new(),
        db: String::new(),
        interval: "1s".to_string(),
        table: "klines".to_string(),
        batch_size: 250_000,
        progress_every: 1,
        has_header: false,
        recreate: false,
        recreate_pragmatic: false,
        import_mode: ImportMode::Balanced,
        replace_existing: false,
        skip_order_check: false,
        auto: None,
        all: false,
        jobs: 1,
    }
}

fn tables(names: &[&str]) -> Vec<String> {
    names.iter().map(|s| s.to_string()).collect()
}

#[test]
fn insert_statement() {
    assert_eq!(
        build_insert_sql("klines", 2, false),
        "INSERT OR IGNORE INTO klines (open_time, open, high, low, close, volume, close_time, quote_asset_volume, number_of_trades, taker_buy_base_asset_volume, taker_buy_quote_asset_volume, ignore_col, rsi_1, rsi_2) VALUES (?1, ?2, ?3, ?4, ?5, ?6, ?7, ?8, ?9, ?10, ?11, ?12, ?13, ?14)"
    );
    assert_eq!(
        build_insert_sql("t", 0, true),
        "INSERT OR REPLACE INTO t (open_time, open, high, low, close, volume, close_time, quote_asset_volume, number_of_trades, taker_buy_base_asset_volume, taker_buy_quote_asset_volume, ignore_col) VALUES (?1, ?2, ?3, ?4, ?5, ?6, ?7, ?8, ?9, ?10, ?11, ?12)"
    );
    assert_eq!(conflict_word(true), "REPLACE");
    assert_eq!(conflict_word(false), "IGNORE");
}

#[test]
fn table_statement() {
    assert_eq!(
        build_create_table_sql("klines", 3),
        "CREATE TABLE IF NOT EXISTS klines (open_time BIGINT NOT NULL, open DOUBLE NOT NULL, high DOUBLE NOT NULL, low DOUBLE NOT NULL, close DOUBLE NOT NULL, volume DOUBLE NOT NULL, close_time BIGINT NOT NULL, quote_asset_volume DOUBLE NOT NULL, number_of_trades BIGINT NOT NULL, taker_buy_base_asset_volume DOUBLE NOT NULL, taker_buy_quote_asset_volume DOUBLE NOT NULL, ignore_col VARCHAR, rsi_1 DOUBLE, rsi_2 DOUBLE, rsi_3 DOUBLE, PRIMARY KEY (open_time))"
    );
}

#[test]
fn questions_to_the_database() {
    assert_eq!(build_max_open_time_sql("klines"), "SELECT MAX(open_time) FROM klines");
    assert_eq!(
        USER_TABLES_SQL,
        "SELECT table_name FROM information_schema.tables WHERE table_type = 'BASE TABLE' AND table_schema = 'main' ORDER BY table_name"
    );
}

#[test]
fn a_row_has_a_value_for_every_placeholder() {
    let texts = ["1", "1", "1", "1", "1", "1", "1", "1", "1", "1", "1", "x", "2", ""];
    let record: Vec<Field> = texts
        .iter()
        .map(|s| Field { text: s.to_string(), double: s.parse::<f64>().ok().map(f64::to_bits) })
        .collect();
    let row = record_to_row(&record, 3).ok().unwrap();
    let sql = build_insert_sql("t", 3, false);
    assert_eq!(row_to_params(&row).len(), 15);
    assert_eq!(sql.matches('?').count(), 15);
}

#[test]
fn what_becomes_of_a_database() {
    let mut a = args();
    assert!(!needs_user_tables(&a));
    assert_eq!(determine_recreate_action(&a, &tables(&["klines"])), RecreateAction::Keep);
    a.recreate = true;
    assert!(!needs_user_tables(&a));
    assert_eq!(
        determine_recreate_action(&a, &tables(&["klines", "mine"])),
        RecreateAction::DeleteDatabaseFiles
    );
}

#[test]
fn a_pragmatic_import_preserves_other_tables() {
    let mut a = args();
    a.recreate_pragmatic = true;
    assert!(needs_user_tables(&a));
    let action = |names: &[&str]| determine_recreate_action(&a, &tables(names));
    assert_eq!(action(&["klines"]), RecreateAction::DeleteDatabaseFiles);
    assert_eq!(action(&["mine"]), RecreateAction::DropTableOnly);
    assert_eq!(action(&["klines", "mine"]), RecreateAction::DropTableOnly);
    assert_eq!(action(&["klines", "klines"]), RecreateAction::DropTableOnly);
    assert_eq!(action(&[]), RecreateAction::DropTableOnly);
}

#[test]
fn statements_before_the_rows() {
    let mut a = args();
    let create = build_create_table_sql("klines", 1);
    assert_eq!(
        setup_statements(&a, RecreateAction::Keep, 1),
        vec!["PRAGMA synchronous = NORMAL".to_string(), create.clone()]
    );
    assert_eq!(
        setup_statements(&a, RecreateAction::DeleteDatabaseFiles, 1),
        vec!["PRAGMA synchronous = NORMAL".to_string(), create.clone()]
    );
    a.import_mode = ImportMode::Safe;
    assert_eq!(
        setup_statements(&a, RecreateAction::DropTableOnly, 1),
        vec![
            "PRAGMA synchronous = FULL".to_string(),
            "DROP TABLE IF EXISTS klines".to_string(),
            "CHECKPOINT".to_string(),
            "VACUUM".to_string(),
            "CHECKPOINT".to_string(),
            create,
        ]
    );
    assert_eq!(build_synchronous_sql(ImportMode::Unsafe), "PRAGMA synchronous = OFF");
}

#[test]
fn report_of_the_mode() {
    let mut a = args();
    assert_eq!(
        mode_report(&a),
        "Import mode: Balanced. Batch size: 250000. Conflict mode: IGNORE."
    );
    a.import_mode = ImportMode::Unsafe;
    a.replace_existing = true;
    assert_eq!(mode_report(&a), "Import mode: Unsafe. Batch size: 250000. Conflict mode: REPLACE.");
    a.import_mode = ImportMode::Safe;
    assert_eq!(mode_report(&a), "Import mode: Safe. Batch size: 250000. Conflict mode: REPLACE.");
}
