//! What is done to a database before rows go into it.

use crate::args::{Args, ImportMode};
use crate::row::BINANCE_COLS;
use crate::sql::{
    build_create_table_sql, conflict_action, conflict_word, create_table_sql,
    tables_are_made_unless_there,
};
use crate::text::{append_decimal, decimal, same_text, texts};
use vstd::prelude::*;

verus! {

/// What becomes of a database that is already there.
#[derive(Clone, Copy, Debug, PartialEq, Eq, Structural)]
pub enum RecreateAction {
    /// It stays as it is.
    Keep,
    /// Its file is removed.
    DeleteDatabaseFiles,
    /// The table is dropped; the others stay.
    DropTableOnly,
}

/// What the options make of a database with these tables. A pragmatic import removes the file
/// only where the table that it imports into is the only one.
pub open spec fn recreate_action(args: Args, tables: Seq<Seq<char>>) -> RecreateAction {
    if args.recreate {
        RecreateAction::DeleteDatabaseFiles
    } else if !args.recreate_pragmatic {
        RecreateAction::Keep
    } else if tables == seq![args.table@] {
        RecreateAction::DeleteDatabaseFiles
    } else {
        RecreateAction::DropTableOnly
    }
}

/// Must the tables of the database be known before it is decided what becomes of it?
pub fn needs_user_tables(args: &Args) -> (yes: bool)
    ensures
        yes == (!args.recreate && args.recreate_pragmatic),
        !yes ==> forall|tables: Seq<Seq<char>>| #[trigger]
            recreate_action(*args, tables) == recreate_action(*args, Seq::empty()),
{
    !args.recreate && args.recreate_pragmatic
}

/// Decides what becomes of a database with these tables.
pub fn determine_recreate_action(args: &Args, table_names: &Vec<String>) -> (action: RecreateAction)
    ensures
        action == recreate_action(*args, texts(table_names@)),
        action == RecreateAction::Keep <==> !args.recreate && !args.recreate_pragmatic,
        args.recreate ==> action == RecreateAction::DeleteDatabaseFiles,
        !args.recreate && args.recreate_pragmatic ==> (action
            == RecreateAction::DeleteDatabaseFiles <==> table_names@.len() == 1
            && table_names@[0]@ == args.table@),
{
    if args.recreate {
        return RecreateAction::DeleteDatabaseFiles;
    }
    if !args.recreate_pragmatic {
        return RecreateAction::Keep;
    }
    if table_names.len() == 1 && same_text(table_names[0].as_str(), args.table.as_str()) {
        assert(texts(table_names@) =~= seq![args.table@]);
        return RecreateAction::DeleteDatabaseFiles;
    }
    proof {
        if texts(table_names@) == seq![args.table@] {
            assert(texts(table_names@).len() == table_names@.len());
            assert(texts(table_names@)[0] == table_names@[0]@);
        }
    }
    RecreateAction::DropTableOnly
}

/// A database that is recreated from scratch is removed, whatever it holds. Unless it is recreated
/// in one way or the other it stays. A pragmatic import removes it for the sake of its only table,
/// and drops just the table otherwise.
pub proof fn databases_are_recreated_as_asked(args: Args, tables: Seq<Seq<char>>)
    ensures
        args.recreate ==> recreate_action(args, tables) == RecreateAction::DeleteDatabaseFiles,
        recreate_action(args, tables) == RecreateAction::Keep <==> !args.recreate
            && !args.recreate_pragmatic,
        !args.recreate && args.recreate_pragmatic ==> (recreate_action(args, tables)
            == RecreateAction::DeleteDatabaseFiles <==> tables.len() == 1 && tables[0]
            == args.table@),
{
    if tables.len() == 1 && tables[0] == args.table@ {
        assert(tables =~= seq![args.table@]);
    }
}

/// Unless a database is recreated from scratch, one that holds another table than the one that it
/// is imported into is never removed.
pub proof fn other_tables_are_preserved(args: Args, tables: Seq<Seq<char>>, other: int)
    requires
        !args.recreate,
        0 <= other < tables.len(),
        tables[other] != args.table@,
    ensures
        recreate_action(args, tables) == (if args.recreate_pragmatic {
            RecreateAction::DropTableOnly
        } else {
            RecreateAction::Keep
        }),
{
}

// ---------------------------------------------------------------------------------------------
// Statements
// ---------------------------------------------------------------------------------------------
/// The statement that sets how much is done against a crash.
pub open spec fn synchronous_sql(mode: ImportMode) -> Seq<char> {
    match mode {
        ImportMode::Safe => "PRAGMA synchronous = FULL"@,
        ImportMode::Balanced => "PRAGMA synchronous = NORMAL"@,
        ImportMode::Unsafe => "PRAGMA synchronous = OFF"@,
    }
}

/// The statement that sets how much is done against a crash.
pub fn build_synchronous_sql(mode: ImportMode) -> (sql: &'static str)
    ensures
        sql@ == synchronous_sql(mode),
        mode == ImportMode::Safe ==> sql@ == "PRAGMA synchronous = FULL"@,
        mode == ImportMode::Balanced ==> sql@ == "PRAGMA synchronous = NORMAL"@,
        mode == ImportMode::Unsafe ==> sql@ == "PRAGMA synchronous = OFF"@,
{
    match mode {
        ImportMode::Safe => "PRAGMA synchronous = FULL",
        ImportMode::Balanced => "PRAGMA synchronous = NORMAL",
        ImportMode::Unsafe => "PRAGMA synchronous = OFF",
    }
}

/// The statements that drop a table and give back the room that it took.
pub open spec fn drop_statements(table: Seq<char>) -> Seq<Seq<char>> {
    seq!["DROP TABLE IF EXISTS "@ + table, "CHECKPOINT"@, "VACUUM"@, "CHECKPOINT"@]
}

/// The statements that make an open database ready for rows, one after the other.
pub open spec fn setup_sql(args: Args, action: RecreateAction, rsi_count: nat) -> Seq<Seq<char>> {
    seq![synchronous_sql(args.import_mode)] + (if action == RecreateAction::DropTableOnly {
        drop_statements(args.table@)
    } else {
        Seq::empty()
    }) + seq![create_table_sql(args.table@, rsi_count)]
}

/// Builds the statements that make an open database ready for rows, one after the other.
pub fn setup_statements(args: &Args, action: RecreateAction, rsi_count: usize) -> (statements: Vec<
    String,
>)
    requires
        rsi_count + BINANCE_COLS <= usize::MAX,
    ensures
        texts(statements@) == setup_sql(*args, action, rsi_count as nat),
        action == RecreateAction::DropTableOnly ==> exists|i: int|
            0 <= i < statements@.len() - 1 && #[trigger] statements@[i]@ == "DROP TABLE IF EXISTS "@
                + args.table@,
        action != RecreateAction::DropTableOnly ==> forall|i: int|
            0 <= i < statements@.len() ==> !"DROP "@.is_prefix_of(#[trigger] statements@[i]@),
        statements@.len() > 0,
        ("CREATE TABLE IF NOT EXISTS "@ + args.table@ + " ("@).is_prefix_of(
            statements@[statements@.len() - 1]@,
        ),
        statements@[0]@ == (match args.import_mode {
            ImportMode::Safe => "PRAGMA synchronous = FULL"@,
            ImportMode::Balanced => "PRAGMA synchronous = NORMAL"@,
            ImportMode::Unsafe => "PRAGMA synchronous = OFF"@,
        }),
{
    let mut statements: Vec<String> = Vec::new();
    statements.push(build_synchronous_sql(args.import_mode).to_owned());
    if let RecreateAction::DropTableOnly = action {
        let mut drop_table = "DROP TABLE IF EXISTS ".to_owned();
        drop_table.append(args.table.as_str());
        statements.push(drop_table);
        statements.push("CHECKPOINT".to_owned());
        statements.push("VACUUM".to_owned());
        statements.push("CHECKPOINT".to_owned());
    }
    statements.push(build_create_table_sql(args.table.as_str(), rsi_count));
    assert(texts(statements@) =~= setup_sql(*args, action, rsi_count as nat));
    proof {
        let all = setup_sql(*args, action, rsi_count as nat);
        the_table_is_dropped_where_asked(*args, action, rsi_count as nat);
        assert(all.len() == statements@.len());
        assert forall|i: int| 0 <= i < all.len() implies #[trigger] statements@[i]@ == all[i] by {
            assert(texts(statements@)[i] == statements@[i]@);
        }
        if action == RecreateAction::DropTableOnly {
            assert(statements@[1]@ == all[1]);
        }
    }
    statements
}

/// In every import mode, a table that is to be dropped is dropped before it is made again, and the
/// room that it took is given back in between. Where it is not to be dropped, no statement drops
/// anything. The last statement makes the table, and the first sets how much is done against a
/// crash.
pub proof fn the_table_is_dropped_where_asked(args: Args, action: RecreateAction, rsi_count: nat)
    ensures
        ({
            let all = setup_sql(args, action, rsi_count);
            let n = all.len() as int;
            &&& n >= 2
            &&& action == RecreateAction::DropTableOnly ==> {
                &&& n == 6
                &&& all[1] == "DROP TABLE IF EXISTS "@ + args.table@
                &&& all[2] == "CHECKPOINT"@
                &&& all[3] == "VACUUM"@
                &&& all[4] == "CHECKPOINT"@
            }
            &&& action != RecreateAction::DropTableOnly ==> {
                &&& n == 2
                &&& forall|i: int| 0 <= i < n ==> !"DROP "@.is_prefix_of(#[trigger] all[i])
            }
            &&& ("CREATE TABLE IF NOT EXISTS "@ + args.table@ + " ("@).is_prefix_of(all[n - 1])
            &&& all[0] == (match args.import_mode {
                ImportMode::Safe => "PRAGMA synchronous = FULL"@,
                ImportMode::Balanced => "PRAGMA synchronous = NORMAL"@,
                ImportMode::Unsafe => "PRAGMA synchronous = OFF"@,
            })
        }),
{
    let all = setup_sql(args, action, rsi_count);
    let n = all.len() as int;
    tables_are_made_unless_there(args.table@, rsi_count);
    reveal_strlit("DROP ");
    reveal_strlit("CREATE TABLE IF NOT EXISTS ");
    reveal_strlit("PRAGMA synchronous = FULL");
    reveal_strlit("PRAGMA synchronous = NORMAL");
    reveal_strlit("PRAGMA synchronous = OFF");
    let head = "CREATE TABLE IF NOT EXISTS "@ + args.table@ + " ("@;
    assert(all[n - 1] == create_table_sql(args.table@, rsi_count));
    assert(all[n - 1][0] == head[0]);
    assert("DROP "@[0] == 'D');
    if action != RecreateAction::DropTableOnly {
        assert forall|i: int| 0 <= i < n implies !"DROP "@.is_prefix_of(#[trigger] all[i]) by {
            assert(all[i][0] != 'D');
        }
    }
}

// ---------------------------------------------------------------------------------------------
// Messages
// ---------------------------------------------------------------------------------------------
/// The name of an import mode.
pub open spec fn mode_text(mode: ImportMode) -> Seq<char> {
    match mode {
        ImportMode::Safe => "Safe"@,
        ImportMode::Balanced => "Balanced"@,
        ImportMode::Unsafe => "Unsafe"@,
    }
}

/// The report of how an import is done.
pub fn mode_report(args: &Args) -> (text: String)
    ensures
        text@ == "Import mode: "@ + mode_text(args.import_mode) + ". Batch size: "@ + decimal(
            args.batch_size as nat,
        ) + ". Conflict mode: "@ + conflict_action(args.replace_existing) + "."@,
        text@ == "Import mode: "@ + (match args.import_mode {
            ImportMode::Safe => "Safe"@,
            ImportMode::Balanced => "Balanced"@,
            ImportMode::Unsafe => "Unsafe"@,
        }) + ". Batch size: "@ + decimal(args.batch_size as nat) + ". Conflict mode: "@ + (
        if args.replace_existing {
            "REPLACE"@
        } else {
            "IGNORE"@
        }) + "."@,
{
    let mut text = "Import mode: ".to_owned();
    text.append(
        match args.import_mode {
            ImportMode::Safe => "Safe",
            ImportMode::Balanced => "Balanced",
            ImportMode::Unsafe => "Unsafe",
        },
    );
    text.append(". Batch size: ");
    append_decimal(&mut text, args.batch_size as u64);
    text.append(". Conflict mode: ");
    text.append(conflict_word(args.replace_existing));
    text.append(".");
    text
}

} // verus!
