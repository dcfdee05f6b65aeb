# csv-to-duckdb

Imports Binance Vision kline CSV files into local DuckDB databases.

The library under `src/` holds what decides an import, verified with Verus: which files belong
together and where their databases go, what a CSV record must hold, which rows are passed over,
written or refused, when what was written is made durable, and the SQL that is sent. The program
under `app/` reads files and directories, talks to DuckDB and shows progress.

## Layout

| Module | What it holds |
|--------|---------------|
| `args` | Options, what they exclude, and what the command line itself decides |
| `names` | CSV file names, `SYMBOL-INTERVAL-YYYY-MM.csv` |
| `files` | The files of a job: their order, the newest ones, missing months |
| `discover`, `jobs`, `paths` | Directories, and the import jobs that they make |
| `pool` | Jobs that run at once |
| `records` | Records of CSV data, and the number of RSI columns |
| `row` | Kline rows, and the values that go into the table |
| `stats` | The first pass over a file: how many rows, and when the last one opens |
| `steps` | The steps of a job: every file is scanned before the database is touched |
| `import` | The course of an import, step by step |
| `course` | What an import does as a whole, and how it is taken up again |
| `setup`, `sql` | What is done to a database before rows go into it, and the statements |
| `progress` | What the progress display shows |
| `sort`, `text` | Stable sorting and text building blocks |

## What is not proved

Three things are taken from elsewhere with a stated contract: how the `csv` crate takes data apart
(`records`), `std::str::from_utf8` and `String::push` (`text`). Doubles are held as their bits;
reading and showing them is left to the program.

The laws on whole imports (`course`) speak of a file as the first pass and the records of the same
bytes give it; `scans_describe_records` shows that the first pass then says of the records only
what is so. That the program hands the same bytes to both, and that a write that is reported as
done was done, is not proved.
