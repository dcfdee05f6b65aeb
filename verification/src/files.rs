//! The CSV files of a job: their order, the newest ones, and the months that are missing.

use crate::args::{first_args_error, Args};
use crate::sort::{is_stable_sort, sort, stable_sort_keeps_everything, Ranked};
use crate::text::{append_padded, append_zero_padded, decimal, pad_left, texts, zero_padded};
use vstd::prelude::*;

verus! {

/// A CSV file of one month.
pub struct CsvFile {
    pub file_name: String,
    pub year: i32,
    pub month: u32,
}

/// Is the month of `a` not after that of `b`?
pub open spec fn not_after(a: CsvFile, b: CsvFile) -> bool {
    a.year < b.year || (a.year == b.year && a.month <= b.month)
}

impl Ranked for CsvFile {
    open spec fn at_most(self, other: CsvFile) -> bool {
        not_after(self, other)
    }

    proof fn at_most_total(a: CsvFile, b: CsvFile) {
    }

    proof fn at_most_chains(a: CsvFile, b: CsvFile, c: CsvFile) {
    }

    fn is_at_most(&self, other: &CsvFile) -> (yes: bool) {
        self.year < other.year || (self.year == other.year && self.month <= other.month)
    }
}

/// The last `limit` files of a list, or all where there is no limit.
pub open spec fn limited(files: Seq<CsvFile>, auto: Option<usize>) -> Seq<CsvFile> {
    match auto {
        Some(limit) => if files.len() > limit {
            files.skip(files.len() - limit)
        } else {
            files
        },
        None => files,
    }
}

/// Cuts a list of files down to its last ones.
pub fn apply_auto_file_limit(files: &mut Vec<CsvFile>, auto: Option<usize>)
    ensures
        final(files)@ == limited(old(files)@, auto),
        auto is None ==> final(files)@ == old(files)@,
        auto matches Some(limit) ==> {
            &&& final(files)@.len() == if old(files)@.len() < limit {
                old(files)@.len()
            } else {
                limit as nat
            }
            &&& final(files)@ == old(files)@.skip(old(files)@.len() - final(files)@.len())
        },
{
    assert(files@.skip(0) =~= files@);
    let limit: usize = match auto {
        Some(limit) => limit,
        None => return,
    };
    if files.len() > limit {
        let first: usize = files.len() - limit;
        let newest = files.split_off(first);
        *files = newest;
        assert(files@ =~= limited(old(files)@, auto));
    }
}

/// Puts the files of a job into the order of their months and keeps the newest ones. Whether any
/// is left is the result.
pub fn arrange_files(files: &mut Vec<CsvFile>, auto: Option<usize>) -> (any: bool)
    ensures
        exists|sorted: Seq<CsvFile>| #[trigger]
            is_stable_sort(old(files)@, sorted) && final(files)@ == limited(sorted, auto),
        any == (final(files)@.len() > 0),
        final(files)@.len() == (match auto {
            Some(limit) => if old(files)@.len() < limit {
                old(files)@.len()
            } else {
                limit as nat
            },
            None => old(files)@.len(),
        }),
        forall|i: int, j: int|
            0 <= i < j < final(files)@.len() ==> (#[trigger] final(files)@[i]).year < (
            #[trigger] final(files)@[j]).year || (final(files)@[i].year == final(files)@[j].year
                && final(files)@[i].month <= final(files)@[j].month),
        forall|i: int|
            0 <= i < final(files)@.len() ==> old(files)@.contains(#[trigger] final(files)@[i]),
        forall|i: int, j: int|
            #![trigger old(files)@[i], final(files)@[j]]
            0 <= i < old(files)@.len() && 0 <= j < final(files)@.len() && !final(files)@.contains(
                old(files)@[i],
            ) ==> old(files)@[i].year < final(files)@[j].year || (old(files)@[i].year
                == final(files)@[j].year && old(files)@[i].month <= final(files)@[j].month),
{
    sort(files);
    let ghost sorted = files@;
    proof {
        stable_sort_keeps_everything(old(files)@, sorted);
    }
    apply_auto_file_limit(files, auto);
    assert(is_stable_sort(old(files)@, sorted));
    proof {
        let kept = files@;
        let first = sorted.len() - kept.len();
        assert(kept =~= sorted.skip(first));
        assert forall|i: int, j: int| 0 <= i < j < kept.len() implies (#[trigger] kept[i]).year < (
        #[trigger] kept[j]).year || (kept[i].year == kept[j].year && kept[i].month
            <= kept[j].month) by {
            assert(sorted[first + i].at_most(sorted[first + j]));
        }
        assert forall|i: int| 0 <= i < kept.len() implies old(files)@.contains(
            #[trigger] kept[i],
        ) by {
            assert(kept[i] == sorted[first + i]);
        }
        assert forall|i: int, j: int|
            #![trigger old(files)@[i], kept[j]]
            0 <= i < old(files)@.len() && 0 <= j < kept.len() && !kept.contains(
                old(files)@[i],
            ) implies old(files)@[i].year < kept[j].year || (old(files)@[i].year == kept[j].year
            && old(files)@[i].month <= kept[j].month) by {
            assert(sorted.contains(old(files)@[i]));
            let k = choose|k: int| 0 <= k < sorted.len() && sorted[k] == old(files)@[i];
            if k >= first {
                assert(kept[k - first] == sorted[k]);
            }
            assert(kept[j] == sorted[first + j]);
            assert(sorted[k].at_most(sorted[first + j]));
        }
    }
    files.len() > 0
}

/// Of the files of a job in order, the limit keeps the newest: there are as many as it allows, if
/// there are so many, they are still in order, and none that was dropped is after one that was kept.
pub proof fn newest_files_are_kept(files: Seq<CsvFile>, sorted: Seq<CsvFile>, limit: usize)
    requires
        is_stable_sort(files, sorted),
    ensures
        ({
            let kept = limited(sorted, Some(limit));
            let dropped = sorted.take(sorted.len() - kept.len());
            &&& kept.len() == (if files.len() < limit { files.len() } else { limit as nat })
            &&& dropped + kept == sorted
            &&& forall|i: int, j: int|
                0 <= i < j < kept.len() ==> not_after(#[trigger] kept[i], #[trigger] kept[j])
            &&& forall|i: int, j: int|
                0 <= i < dropped.len() && 0 <= j < kept.len() ==> not_after(
                    #[trigger] dropped[i],
                    #[trigger] kept[j],
                )
        }),
{
    stable_sort_keeps_everything(files, sorted);
    let kept = limited(sorted, Some(limit));
    let first = sorted.len() - kept.len();
    let dropped = sorted.take(first);
    assert(dropped + kept =~= sorted);
    assert forall|i: int, j: int| 0 <= i < j < kept.len() implies not_after(
        #[trigger] kept[i],
        #[trigger] kept[j],
    ) by {
        assert(sorted[first + i].at_most(sorted[first + j]));
    }
    assert forall|i: int, j: int| 0 <= i < dropped.len() && 0 <= j < kept.len() implies not_after(
        #[trigger] dropped[i],
        #[trigger] kept[j],
    ) by {
        assert(sorted[i].at_most(sorted[first + j]));
    }
}

/// With options that are in order, a job that has a file keeps one.
pub proof fn some_file_is_kept(args: Args, files: Seq<CsvFile>, sorted: Seq<CsvFile>)
    requires
        first_args_error(args) is None,
        files.len() > 0,
        is_stable_sort(files, sorted),
    ensures
        limited(sorted, args.auto).len() > 0,
{
    stable_sort_keeps_everything(files, sorted);
}

/// What is said when no file of a job is left.
pub fn no_files_message(symbol: &str, interval: &str, dir: &str) -> (text: String)
    ensures
        text@ == "No files found matching "@ + symbol@ + "-"@ + interval@ + "-YYYY-MM.csv in "@
            + dir@,
{
    let mut text = "No files found matching ".to_owned();
    text.append(symbol);
    text.append("-");
    text.append(interval);
    text.append("-YYYY-MM.csv in ");
    text.append(dir);
    text
}

// ---------------------------------------------------------------------------------------------
// Missing months
// ---------------------------------------------------------------------------------------------
/// Is the month of `next` the one right after that of `file`?
pub open spec fn follows(file: CsvFile, next: CsvFile) -> bool {
    if file.month == 12 {
        next.year == file.year + 1 && next.month == 1
    } else {
        next.year == file.year && next.month == file.month + 1
    }
}

/// A year and a month as the warning shows them.
pub open spec fn month_text(file: CsvFile) -> Seq<char> {
    zero_padded(file.year as int, 4) + "-"@ + pad_left(decimal(file.month as nat), 2, '0')
}

/// The warning about the months between two files.
pub open spec fn gap_text(file: CsvFile, next: CsvFile) -> Seq<char> {
    "Warning: missing month(s) between "@ + month_text(file) + " and "@ + month_text(next)
}

/// The warnings about the first `n` files of a list: one for each pair of neighbours of which the
/// second does not follow the first.
pub open spec fn gap_texts(files: Seq<CsvFile>, n: nat) -> Seq<Seq<char>>
    decreases n,
{
    if n < 2 {
        Seq::empty()
    } else {
        let before = gap_texts(files, (n - 1) as nat);
        if follows(files[n - 2], files[n - 1]) {
            before
        } else {
            before.push(gap_text(files[n - 2], files[n - 1]))
        }
    }
}

/// Appends a year and a month as the warning shows them.
fn append_month(text: &mut String, file: &CsvFile)
    ensures
        final(text)@ == old(text)@ + month_text(*file),
{
    append_zero_padded(text, file.year, 4);
    text.append("-");
    append_padded(text, file.month as u64, 2, '0');
    assert(text@ =~= old(text)@ + month_text(*file));
}

/// The warnings about missing months between neighbours of a list of files.
pub fn warn_missing_months(files: &Vec<CsvFile>) -> (warnings: Vec<String>)
    ensures
        texts(warnings@) == gap_texts(files@, files@.len()),
{
    let mut warnings: Vec<String> = Vec::new();
    let mut n: usize = 1;
    assert(texts(warnings@) =~= gap_texts(files@, 1));
    if files.len() == 0 {
        assert(texts(warnings@) =~= gap_texts(files@, 0));
        return warnings;
    }
    while n < files.len()
        invariant
            1 <= n <= files@.len(),
            texts(warnings@) == gap_texts(files@, n as nat),
        decreases files@.len() - n,
    {
        let file = &files[n - 1];
        let next = &files[n];
        let follows = if file.month == 12 {
            file.year < i32::MAX && next.year == file.year + 1 && next.month == 1
        } else {
            file.month < u32::MAX && next.year == file.year && next.month == file.month + 1
        };
        if !follows {
            let mut text = "Warning: missing month(s) between ".to_owned();
            append_month(&mut text, file);
            text.append(" and ");
            append_month(&mut text, next);
            assert(text@ =~= gap_text(*file, *next));
            let ghost before = warnings@;
            warnings.push(text);
            assert(texts(warnings@) =~= texts(before).push(text@));
        }
        n += 1;
    }
    warnings
}

/// One month follows another exactly where it is the next one in the count of months.
pub proof fn months_follow_by_count(file: CsvFile, next: CsvFile)
    requires
        1 <= file.month <= 12,
        1 <= next.month <= 12,
    ensures
        follows(file, next) <==> 12 * next.year + next.month == 12 * file.year + file.month + 1,
{
}

/// There is one warning for each gap, in the order of the files, and it names the months on both
/// sides of the gap.
pub proof fn every_gap_is_told(files: Seq<CsvFile>, k: int)
    requires
        0 <= k < files.len() - 1,
    ensures
        ({
            let before = gap_texts(files, (k + 1) as nat);
            let behind = gap_texts(files, (k + 2) as nat);
            if follows(files[k], files[k + 1]) {
                behind == before
            } else {
                behind == before.push(
                    "Warning: missing month(s) between "@ + zero_padded(files[k].year as int, 4)
                        + "-"@ + pad_left(decimal(files[k].month as nat), 2, '0') + " and "@
                        + zero_padded(files[k + 1].year as int, 4) + "-"@ + pad_left(
                        decimal(files[k + 1].month as nat),
                        2,
                        '0',
                    ),
                )
            }
        }),
        gap_texts(files, 1).len() == 0,
{
    if !follows(files[k], files[k + 1]) {
        assert(gap_text(files[k], files[k + 1]) =~= "Warning: missing month(s) between "@
            + zero_padded(files[k].year as int, 4) + "-"@ + pad_left(
            decimal(files[k].month as nat),
            2,
            '0',
        ) + " and "@ + zero_padded(files[k + 1].year as int, 4) + "-"@ + pad_left(
            decimal(files[k + 1].month as nat),
            2,
            '0',
        ));
    }
}

/// Without a limit every file is kept, in the order of the months.
pub proof fn without_a_limit_every_file_is_kept(files: Seq<CsvFile>, sorted: Seq<CsvFile>)
    requires
        is_stable_sort(files, sorted),
    ensures
        limited(sorted, None) == sorted,
        sorted.len() == files.len(),
        forall|i: int, j: int|
            0 <= i < j < sorted.len() ==> (#[trigger] sorted[i]).year < (#[trigger] sorted[j]).year
                || (sorted[i].year == sorted[j].year && sorted[i].month <= sorted[j].month),
{
    stable_sort_keeps_everything(files, sorted);
    assert forall|i: int, j: int| 0 <= i < j < sorted.len() implies (#[trigger] sorted[i]).year < (
    #[trigger] sorted[j]).year || (sorted[i].year == sorted[j].year && sorted[i].month
        <= sorted[j].month) by {
        assert(sorted[i].at_most(sorted[j]));
    }
}

/// The warnings are none exactly where each file follows its neighbour.
pub proof fn no_warning_means_no_gap(files: Seq<CsvFile>)
    ensures
        gap_texts(files, files.len()).len() == 0 <==> forall|i: int|
            0 <= i < files.len() - 1 ==> follows(#[trigger] files[i], files[i + 1]),
{
    lemma_no_gap(files, files.len());
}

proof fn lemma_no_gap(files: Seq<CsvFile>, n: nat)
    requires
        n <= files.len(),
    ensures
        gap_texts(files, n).len() == 0 <==> forall|i: int|
            0 <= i < n - 1 ==> follows(#[trigger] files[i], files[i + 1]),
    decreases n,
{
    if n >= 2 {
        lemma_no_gap(files, (n - 1) as nat);
        assert(files[n - 2 + 1] == files[n - 1]);
        if gap_texts(files, n).len() == 0 {
            assert(follows(files[n - 2], files[n - 1]));
        } else if !follows(files[n - 2], files[n - 1]) {
            assert(!follows(files[n - 2], files[n - 2 + 1]));
        }
    }
}

} // verus!
