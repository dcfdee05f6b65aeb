//! What the progress display shows: shortened names, bar layouts and batched counts.

use crate::text::{append_decimal, append_padded, decimal, pad_left};
use vstd::prelude::*;

verus! {

/// Progress is passed on to the display in batches of this many rows.
pub const PROGRESS_FLUSH_ROWS: u64 = 8192;

/// A file name as the display shows it: at most 34 characters, and a tilde where it was cut.
pub open spec fn shown_name(name: Seq<char>) -> Seq<char> {
    if name.len() <= 34 {
        name
    } else {
        name.take(33).push('~')
    }
}

/// A symbol as the display shows it: its first 7 characters.
pub open spec fn shown_prefix(name: Seq<char>) -> Seq<char> {
    if name.len() <= 7 {
        name
    } else {
        name.take(7)
    }
}

/// Shortens a file name for the display.
pub fn truncate_progress_name(file_name: &str) -> (shown: String)
    ensures
        shown@ == shown_name(file_name@),
        file_name@.len() <= 34 ==> shown@ == file_name@,
        file_name@.len() > 34 ==> shown@.len() == 34 && shown@.last() == '~' && shown@.take(33)
            == file_name@.take(33),
{
    if file_name.unicode_len() <= 34 {
        return file_name.to_owned();
    }
    let mut shortened = file_name.substring_char(0, 33).to_owned();
    shortened.push('~');
    assert(shortened@ =~= shown_name(file_name@));
    assert(shortened@.take(33) =~= file_name@.take(33));
    shortened
}

/// Shortens a symbol for the display.
pub fn truncate_progress_prefix(name: &str) -> (shown: String)
    ensures
        shown@ == shown_prefix(name@),
        shown@.is_prefix_of(name@),
        shown@.len() == if name@.len() < 7 { name@.len() } else { 7 },
{
    if name.unicode_len() <= 7 {
        assert(name@.take(name@.len() as int) =~= name@);
        return name.to_owned();
    }
    let shortened = name.substring_char(0, 7).to_owned();
    assert(shortened@ =~= shown_prefix(name@));
    shortened
}

/// The layout of the bar for all files of a job, with or without a known number of rows.
pub fn total_progress_template(has_total: bool) -> (template: &'static str)
    ensures
        template@ == (if has_total {
            "{prefix:<10} [{elapsed_precise}] [{bar:40.cyan/blue}] {percent:>3}% {pos}/{len} rows ({per_sec}, ETA {eta}) {msg}"@
        } else {
            "{prefix:<10} [{elapsed_precise}] {spinner:.green} {pos} rows ({per_sec}) {msg}"@
        }),
{
    if has_total {
        "{prefix:<10} [{elapsed_precise}] [{bar:40.cyan/blue}] {percent:>3}% {pos}/{len} rows ({per_sec}, ETA {eta}) {msg}"
    } else {
        "{prefix:<10} [{elapsed_precise}] {spinner:.green} {pos} rows ({per_sec}) {msg}"
    }
}

/// The layout of the bar for one file, with or without a known number of rows.
pub fn file_progress_template(has_total: bool) -> (template: &'static str)
    ensures
        template@ == (if has_total {
            "  {msg:<34} [{bar:28.green/black}] {percent:>3}% {pos}/{len}"@
        } else {
            "  {msg:<34} {spinner:.green} {pos} rows"@
        }),
{
    if has_total {
        "  {msg:<34} [{bar:28.green/black}] {percent:>3}% {pos}/{len}"
    } else {
        "  {msg:<34} {spinner:.green} {pos} rows"
    }
}

/// What counting one more row passes on to the display, when `pending` rows wait already.
pub open spec fn passed_on(pending: int) -> Option<int> {
    if pending + 1 >= PROGRESS_FLUSH_ROWS {
        Some(pending + 1)
    } else {
        None
    }
}

/// How many rows wait after one more was counted.
pub open spec fn waiting_after(pending: int) -> int {
    if pending + 1 >= PROGRESS_FLUSH_ROWS {
        0
    } else {
        pending + 1
    }
}

/// Counts one more row. The result is what is passed on to the display.
pub fn count_row(pending: &mut u64) -> (progress: Option<u64>)
    requires
        *old(pending) < PROGRESS_FLUSH_ROWS,
    ensures
        *final(pending) == waiting_after(*old(pending) as int),
        *final(pending) < PROGRESS_FLUSH_ROWS,
        (match progress {
            Some(n) => Some(n as int),
            None => None,
        }) == passed_on(*old(pending) as int),
        progress == (if *old(pending) == 8191 {
            Some(8192u64)
        } else {
            None
        }),
        *final(pending) == (if *old(pending) == 8191 {
            0
        } else {
            *old(pending) + 1
        }),
{
    *pending += 1;
    if *pending >= PROGRESS_FLUSH_ROWS {
        let due: u64 = *pending;
        *pending = 0;
        Some(due)
    } else {
        None
    }
}

// ---------------------------------------------------------------------------------------------
// Lines of the report
// ---------------------------------------------------------------------------------------------
/// What is reported of a file that was imported or passed over.
pub fn file_report(rows: usize, file_name: &str) -> (text: String)
    ensures
        text@ == "Imported "@ + pad_left(decimal(rows as nat), 12, ' ') + " rows from "@
            + file_name@,
        "Imported "@.is_prefix_of(text@),
        (" rows from "@ + file_name@).is_suffix_of(text@),
        text@.len() == 20 + file_name@.len() + (if decimal(rows as nat).len() < 12 {
            12
        } else {
            decimal(rows as nat).len()
        }),
{
    let mut text = "Imported ".to_owned();
    append_padded(&mut text, rows as u64, 12, ' ');
    text.append(" rows from ");
    text.append(file_name);
    proof {
        reveal_strlit("Imported ");
        reveal_strlit(" rows from ");
        let tail = " rows from "@ + file_name@;
        assert(text@.take(9) =~= "Imported "@);
        assert(text@.skip(text@.len() - tail.len()) =~= tail);
    }
    text
}

/// What is reported of the files of a job before they are imported.
pub fn files_report(files: usize, rsi_count: usize, expected_rows: usize) -> (text: String)
    ensures
        text@ == "Found "@ + decimal(files as nat) + " file(s). Max RSI columns: "@ + decimal(
            rsi_count as nat,
        ) + ". Expected rows: "@ + decimal(expected_rows as nat),
{
    let mut text = "Found ".to_owned();
    append_decimal(&mut text, files as u64);
    text.append(" file(s). Max RSI columns: ");
    append_decimal(&mut text, rsi_count as u64);
    text.append(". Expected rows: ");
    append_decimal(&mut text, expected_rows as u64);
    text
}

/// What is reported of a job before it begins.
pub fn job_report(symbol: &str, interval: &str, dir: &str, db_path: &str) -> (text: String)
    ensures
        text@ == "Importing "@ + symbol@ + " "@ + interval@ + " from "@ + dir@ + " into "@
            + db_path@,
{
    let mut text = "Importing ".to_owned();
    text.append(symbol);
    text.append(" ");
    text.append(interval);
    text.append(" from ");
    text.append(dir);
    text.append(" into ");
    text.append(db_path);
    text
}

/// What is reported of all jobs before they begin.
pub fn jobs_report(jobs: usize, max_parallel: usize) -> (text: String)
    ensures
        text@ == "Found "@ + decimal(jobs as nat) + " import job(s). Processing up to "@ + decimal(
            max_parallel as nat,
        ) + " folder(s) in parallel."@,
{
    let mut text = "Found ".to_owned();
    append_decimal(&mut text, jobs as u64);
    text.append(" import job(s). Processing up to ");
    append_decimal(&mut text, max_parallel as u64);
    text.append(" folder(s) in parallel.");
    text
}

/// No row is lost on the way to the display: what was waiting and one row more is either passed on,
/// as soon as it is a full batch, or waits.
pub proof fn no_row_is_lost_on_the_way(pending: int)
    requires
        0 <= pending < 8192,
    ensures
        pending + 1 == waiting_after(pending) + (match passed_on(pending) {
            Some(n) => n,
            None => 0,
        }),
        passed_on(pending) is Some <==> pending + 1 == 8192,
        0 <= waiting_after(pending) < 8192,
{
}

/// A name as the display shows it fits, is the name where that fits, and else its beginning with a
/// mark; a symbol is cut without one.
pub proof fn shown_names_fit(name: Seq<char>)
    ensures
        shown_name(name).len() == if name.len() < 34 { name.len() } else { 34 },
        name.len() <= 34 ==> shown_name(name) == name,
        name.len() > 34 ==> shown_name(name).last() == '~' && shown_name(name).drop_last()
            == name.take(33),
        shown_prefix(name) == name.take(if name.len() < 7 { name.len() as int } else { 7 }),
{
    if name.len() > 34 {
        assert(shown_name(name).drop_last() =~= name.take(33));
    }
    if name.len() <= 7 {
        assert(name.take(name.len() as int) =~= name);
    }
}

} // verus!
