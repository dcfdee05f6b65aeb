//! The SQL statements of an import.

use crate::row::{
    column_name, column_text, is_integer_column, params_of, row_of, Field, ParamView, BINANCE_COLS,
};
use crate::text::{append_decimal, decimal, join, joined, texts};
use vstd::prelude::*;

verus! {

/// The name of an RSI column; the first one has the number 1.
pub open spec fn rsi_column_text(number: int) -> Seq<char> {
    "rsi_"@ + decimal(number as nat)
}

/// The names of the columns of a table with `rsi_count` RSI columns.
pub open spec fn column_names(rsi_count: nat) -> Seq<Seq<char>> {
    Seq::new(
        BINANCE_COLS as nat + rsi_count,
        |i: int|
            if i < BINANCE_COLS {
                column_text(i)
            } else {
                rsi_column_text(i - BINANCE_COLS + 1)
            },
    )
}

/// The placeholders `?1`, `?2` and so on of a statement with `count` parameters.
pub open spec fn placeholders(count: nat) -> Seq<Seq<char>> {
    Seq::new(count, |i: int| "?"@ + decimal((i + 1) as nat))
}

/// The word for what happens to a row whose open time is already there.
pub open spec fn conflict_action(replace_existing: bool) -> Seq<char> {
    if replace_existing {
        "REPLACE"@
    } else {
        "IGNORE"@
    }
}

/// The statement that inserts one row.
pub open spec fn insert_sql(table: Seq<char>, rsi_count: nat, replace_existing: bool) -> Seq<char> {
    "INSERT OR "@ + conflict_action(replace_existing) + " INTO "@ + table + " ("@ + joined(
        column_names(rsi_count),
        ", "@,
    ) + ") VALUES ("@ + joined(placeholders(BINANCE_COLS as nat + rsi_count), ", "@) + ")"@
}

/// The word for what happens to a row whose open time is already there.
pub fn conflict_word(replace_existing: bool) -> (word: &'static str)
    ensures
        word@ == conflict_action(replace_existing),
        replace_existing ==> word@ == "REPLACE"@,
        !replace_existing ==> word@ == "IGNORE"@,
{
    if replace_existing {
        "REPLACE"
    } else {
        "IGNORE"
    }
}

/// Builds the statement that inserts one row.
pub fn build_insert_sql(table: &str, rsi_count: usize, replace_existing: bool) -> (sql: String)
    requires
        rsi_count + BINANCE_COLS <= usize::MAX,
    ensures
        sql@ == insert_sql(table@, rsi_count as nat, replace_existing),
        ("INSERT OR REPLACE INTO "@ + table@).is_prefix_of(sql@) <==> replace_existing,
        ("INSERT OR IGNORE INTO "@ + table@).is_prefix_of(sql@) <==> !replace_existing,
{
    let count: usize = BINANCE_COLS + rsi_count;
    let mut columns: Vec<String> = Vec::new();
    let mut marks: Vec<String> = Vec::new();
    let mut i: usize = 0;
    let ghost all_columns = column_names(rsi_count as nat);
    let ghost all_marks = placeholders(count as nat);
    while i < count
        invariant
            i <= count,
            count == BINANCE_COLS + rsi_count,
            all_columns == column_names(rsi_count as nat),
            all_marks == placeholders(count as nat),
            texts(columns@) =~= all_columns.take(i as int),
            texts(marks@) =~= all_marks.take(i as int),
        decreases count - i,
    {
        let mut column = String::new();
        append_column_name(&mut column, i);
        assert(column@ =~= all_columns[i as int]);
        let ghost before = columns@;
        columns.push(column);
        assert(texts(columns@) =~= texts(before).push(column@));
        let mut mark = "?".to_owned();
        append_decimal(&mut mark, i as u64 + 1);
        assert(mark@ == all_marks[i as int]);
        let ghost before = marks@;
        marks.push(mark);
        assert(texts(marks@) =~= texts(before).push(mark@));
        i += 1;
    }
    assert(all_columns.take(i as int) =~= all_columns);
    assert(all_marks.take(i as int) =~= all_marks);
    let mut sql = "INSERT OR ".to_owned();
    sql.append(conflict_word(replace_existing));
    sql.append(" INTO ");
    sql.append(table);
    sql.append(" (");
    sql.append(join(&columns, ", ").as_str());
    sql.append(") VALUES (");
    sql.append(join(&marks, ", ").as_str());
    sql.append(")");
    proof {
        inserts_replace_or_ignore(table@, rsi_count as nat, replace_existing);
    }
    sql
}

/// Whatever the table and however many RSI columns it has: a row replaces the one with its open
/// time exactly where that was asked for, and is ignored otherwise.
pub proof fn inserts_replace_or_ignore(table: Seq<char>, rsi_count: nat, replace_existing: bool)
    ensures
        ("INSERT OR REPLACE INTO "@ + table).is_prefix_of(
            insert_sql(table, rsi_count, replace_existing),
        ) <==> replace_existing,
        ("INSERT OR IGNORE INTO "@ + table).is_prefix_of(
            insert_sql(table, rsi_count, replace_existing),
        ) <==> !replace_existing,
{
    reveal_strlit("INSERT OR ");
    reveal_strlit("REPLACE");
    reveal_strlit("IGNORE");
    reveal_strlit(" INTO ");
    reveal_strlit("INSERT OR REPLACE INTO ");
    reveal_strlit("INSERT OR IGNORE INTO ");
    let sql = insert_sql(table, rsi_count, replace_existing);
    let replacing = "INSERT OR REPLACE INTO "@ + table;
    let ignoring = "INSERT OR IGNORE INTO "@ + table;
    assert(replacing[10] == 'R');
    assert(ignoring[10] == 'I');
    if replace_existing {
        assert(sql.take(replacing.len() as int) =~= replacing);
        assert(sql[10] == 'R');
    } else {
        assert(sql.take(ignoring.len() as int) =~= ignoring);
        assert(sql[10] == 'I');
    }
}

/// The statement that inserts a row names every column of the table, and has a placeholder for each
/// of them.
pub proof fn inserts_name_every_column(table: Seq<char>, rsi_count: nat, replace_existing: bool)
    ensures
        insert_sql(table, rsi_count, replace_existing) == (if replace_existing {
            "INSERT OR REPLACE INTO "@
        } else {
            "INSERT OR IGNORE INTO "@
        }) + table + " ("@ + joined(column_names(rsi_count), ", "@) + ") VALUES ("@ + joined(
            placeholders(column_names(rsi_count).len()),
            ", "@,
        ) + ")"@,
{
    reveal_strlit("INSERT OR ");
    reveal_strlit("REPLACE");
    reveal_strlit("IGNORE");
    reveal_strlit(" INTO ");
    reveal_strlit("INSERT OR REPLACE INTO ");
    reveal_strlit("INSERT OR IGNORE INTO ");
    assert("INSERT OR "@ + "REPLACE"@ + " INTO "@ =~= "INSERT OR REPLACE INTO "@);
    assert("INSERT OR "@ + "IGNORE"@ + " INTO "@ =~= "INSERT OR IGNORE INTO "@);
}

/// The table has the kline columns, and behind them the RSI columns, which are counted from one;
/// so are the placeholders.
pub proof fn columns_stand_in_their_places(rsi_count: nat, k: int)
    ensures
        column_names(rsi_count).len() == 12 + rsi_count,
        column_names(rsi_count).take(12) == seq![
            "open_time"@,
            "open"@,
            "high"@,
            "low"@,
            "close"@,
            "volume"@,
            "close_time"@,
            "quote_asset_volume"@,
            "number_of_trades"@,
            "taker_buy_base_asset_volume"@,
            "taker_buy_quote_asset_volume"@,
            "ignore_col"@,
        ],
        1 <= k <= rsi_count ==> column_names(rsi_count)[11 + k] == "rsi_"@ + decimal(k as nat),
        placeholders(12 + rsi_count).len() == 12 + rsi_count,
        1 <= k <= 12 + rsi_count ==> placeholders(12 + rsi_count)[k - 1] == "?"@ + decimal(
            k as nat,
        ),
{
    assert(column_names(rsi_count).take(12) =~= seq![
        "open_time"@,
        "open"@,
        "high"@,
        "low"@,
        "close"@,
        "volume"@,
        "close_time"@,
        "quote_asset_volume"@,
        "number_of_trades"@,
        "taker_buy_base_asset_volume"@,
        "taker_buy_quote_asset_volume"@,
        "ignore_col"@,
    ]);
}

// ---------------------------------------------------------------------------------------------
// The table
// ---------------------------------------------------------------------------------------------
/// The types of the columns.
#[derive(Clone, Copy, Debug, PartialEq, Eq, Structural)]
pub enum ColumnType {
    BigInt,
    Double,
    Text,
    /// A double that may be missing.
    OptionalDouble,
}

/// The type of the column at a position.
pub open spec fn column_type(index: int) -> ColumnType {
    if is_integer_column(index) {
        ColumnType::BigInt
    } else if index == 11 {
        ColumnType::Text
    } else if index < BINANCE_COLS {
        ColumnType::Double
    } else {
        ColumnType::OptionalDouble
    }
}

/// The wording of a column's type.
pub open spec fn column_type_text(kind: ColumnType) -> Seq<char> {
    match kind {
        ColumnType::BigInt => " BIGINT NOT NULL"@,
        ColumnType::Double => " DOUBLE NOT NULL"@,
        ColumnType::Text => " VARCHAR"@,
        ColumnType::OptionalDouble => " DOUBLE"@,
    }
}

/// The columns of a table with `rsi_count` RSI columns, with their types, and its primary key.
pub open spec fn column_definitions(rsi_count: nat) -> Seq<Seq<char>> {
    Seq::new(
        BINANCE_COLS as nat + rsi_count,
        |i: int| column_names(rsi_count)[i] + column_type_text(column_type(i)),
    ).push("PRIMARY KEY (open_time)"@)
}

/// The statement that makes the table, unless it is there.
pub open spec fn create_table_sql(table: Seq<char>, rsi_count: nat) -> Seq<char> {
    "CREATE TABLE IF NOT EXISTS "@ + table + " ("@ + joined(column_definitions(rsi_count), ", "@)
        + ")"@
}

/// Appends the name of the column at a position.
fn append_column_name(out: &mut String, index: usize)
    ensures
        final(out)@ == old(out)@ + (if index < BINANCE_COLS {
            column_text(index as int)
        } else {
            rsi_column_text(index - BINANCE_COLS + 1)
        }),
{
    if index < BINANCE_COLS {
        out.append(column_name(index));
    } else {
        out.append("rsi_");
        append_decimal(out, (index - BINANCE_COLS) as u64 + 1);
        assert(out@ =~= old(out)@ + rsi_column_text(index - BINANCE_COLS + 1));
    }
}

/// Appends the type of the column at a position.
fn append_column_type(out: &mut String, index: usize)
    ensures
        final(out)@ == old(out)@ + column_type_text(column_type(index as int)),
{
    if index == 0 || index == 6 || index == 8 {
        out.append(" BIGINT NOT NULL");
    } else if index == 11 {
        out.append(" VARCHAR");
    } else if index < BINANCE_COLS {
        out.append(" DOUBLE NOT NULL");
    } else {
        out.append(" DOUBLE");
    }
}

/// Builds the statement that makes the table, unless it is there.
pub fn build_create_table_sql(table: &str, rsi_count: usize) -> (sql: String)
    requires
        rsi_count + BINANCE_COLS <= usize::MAX,
    ensures
        sql@ == create_table_sql(table@, rsi_count as nat),
{
    let count: usize = BINANCE_COLS + rsi_count;
    let mut columns: Vec<String> = Vec::new();
    let mut i: usize = 0;
    let ghost all = column_definitions(rsi_count as nat);
    while i < count
        invariant
            i <= count,
            count == BINANCE_COLS + rsi_count,
            all == column_definitions(rsi_count as nat),
            texts(columns@) =~= all.take(i as int),
        decreases count - i,
    {
        let mut column = String::new();
        append_column_name(&mut column, i);
        append_column_type(&mut column, i);
        assert(column@ =~= all[i as int]);
        let ghost before = columns@;
        columns.push(column);
        assert(texts(columns@) =~= texts(before).push(column@));
        i += 1;
    }
    let ghost before = columns@;
    columns.push("PRIMARY KEY (open_time)".to_owned());
    assert(texts(columns@) =~= texts(before).push("PRIMARY KEY (open_time)"@));
    assert(texts(columns@) =~= all);
    let mut sql = "CREATE TABLE IF NOT EXISTS ".to_owned();
    sql.append(table);
    sql.append(" (");
    sql.append(join(&columns, ", ").as_str());
    sql.append(")");
    sql
}

/// The statement that makes the table makes it only where it is not there yet.
pub proof fn tables_are_made_unless_there(table: Seq<char>, rsi_count: nat)
    ensures
        ("CREATE TABLE IF NOT EXISTS "@ + table + " ("@).is_prefix_of(
            create_table_sql(table, rsi_count),
        ),
        create_table_sql(table, rsi_count) == "CREATE TABLE IF NOT EXISTS "@ + table + " ("@
            + joined(column_definitions(rsi_count), ", "@) + ")"@,
{
    let head = "CREATE TABLE IF NOT EXISTS "@ + table + " ("@;
    assert(create_table_sql(table, rsi_count).take(head.len() as int) =~= head);
}

/// The table has the columns that rows are inserted into: times and counts are integers, the RSI
/// columns may be missing, and no other number may. The open time identifies a row.
pub proof fn the_table_has_the_inserted_columns(rsi_count: nat, i: int)
    requires
        0 <= i < column_names(rsi_count).len(),
    ensures
        column_definitions(rsi_count).len() == column_names(rsi_count).len() + 1,
        column_definitions(rsi_count).last() == "PRIMARY KEY (open_time)"@,
        column_definitions(rsi_count)[i] == column_names(rsi_count)[i] + (if i == 0 || i == 6 || i
            == 8 {
            " BIGINT NOT NULL"@
        } else if i == 11 {
            " VARCHAR"@
        } else if i >= 12 {
            " DOUBLE"@
        } else {
            " DOUBLE NOT NULL"@
        }),
{
}

/// Can a value stand in a column of this type?
pub open spec fn fits(param: ParamView, kind: ColumnType) -> bool {
    match kind {
        ColumnType::BigInt => param is BigInt,
        ColumnType::Double => param is Double,
        ColumnType::Text => param is Text,
        ColumnType::OptionalDouble => param is Double || param is Null,
    }
}

/// The values of a row are as many as the columns of the table and as the placeholders of the
/// statement that inserts it, and each is of its column's type.
pub proof fn rows_fit_the_table(record: Seq<Field>, rsi_count: nat)
    requires
        row_of(record, rsi_count) is Ok,
    ensures
        ({
            let params = params_of(row_of(record, rsi_count)->Ok_0);
            &&& params.len() == column_names(rsi_count).len()
            &&& params.len() == placeholders(BINANCE_COLS as nat + rsi_count).len()
            &&& params.len() + 1 == column_definitions(rsi_count).len()
            &&& forall|i: int|
                0 <= i < params.len() ==> fits(#[trigger] params[i], column_type(i))
        }),
{
}

// ---------------------------------------------------------------------------------------------
// Questions
// ---------------------------------------------------------------------------------------------
/// Builds the question for the open time of the table's last row.
pub fn build_max_open_time_sql(table: &str) -> (sql: String)
    ensures
        sql@ == "SELECT MAX(open_time) FROM "@ + table@,
        "SELECT MAX(open_time) FROM "@.is_prefix_of(sql@),
        table@.is_suffix_of(sql@),
{
    let mut sql = "SELECT MAX(open_time) FROM ".to_owned();
    sql.append(table);
    assert(sql@.take("SELECT MAX(open_time) FROM "@.len() as int)
        =~= "SELECT MAX(open_time) FROM "@);
    assert(sql@.skip(sql@.len() - table@.len()) =~= table@);
    sql
}

/// The question for the names of the tables that users made.
pub const USER_TABLES_SQL: &'static str =
    "SELECT table_name FROM information_schema.tables WHERE table_type = 'BASE TABLE' AND table_schema = 'main' ORDER BY table_name";

/// The tables that users made are the base tables of the main schema, and they are told in the order
/// of their names.
pub proof fn user_tables_are_the_base_tables_of_the_main_schema()
    ensures
        USER_TABLES_SQL@ == "SELECT table_name FROM information_schema.tables"@
            + " WHERE table_type = 'BASE TABLE' AND table_schema = 'main'"@
            + " ORDER BY table_name"@,
{
    reveal_strlit(
        "SELECT table_name FROM information_schema.tables WHERE table_type = 'BASE TABLE' AND table_schema = 'main' ORDER BY table_name",
    );
    reveal_strlit("SELECT table_name FROM information_schema.tables");
    reveal_strlit(" WHERE table_type = 'BASE TABLE' AND table_schema = 'main'");
    reveal_strlit(" ORDER BY table_name");
    assert(USER_TABLES_SQL@ =~= "SELECT table_name FROM information_schema.tables"@
        + " WHERE table_type = 'BASE TABLE' AND table_schema = 'main'"@ + " ORDER BY table_name"@);
}

} // verus!
