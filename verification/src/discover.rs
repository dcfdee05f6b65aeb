//! What a directory holds: which of its CSV files belong together.

use crate::files::CsvFile;
use crate::names::{name_parts, parse_filename, NameParts};
use crate::text::{same_text, strip_suffix, texts, without_suffix};
use vstd::prelude::*;

verus! {

// ---------------------------------------------------------------------------------------------
// Listings
// ---------------------------------------------------------------------------------------------
/// One entry of a directory, in the order in which the directory gives them.
pub enum Entry {
    /// A file. Its name is missing where it is not text.
    File(Option<String>),
    /// A directory: its name, and what is in it.
    Dir(Vec<u8>, Listing),
    /// Something else.
    Other,
    /// An entry that could not be read; the number tells which failure it was.
    Failed(usize),
}

/// What a directory holds.
pub enum Listing {
    /// It could not be read; the number tells which failure it was.
    Unreadable(usize),
    /// It holds these entries.
    Entries(Vec<Entry>),
}

/// Why the files of a directory do not make a job.
pub enum DirectoryError {
    /// The directory could not be read; the number tells which failure it was.
    Unreadable(usize),
    /// An entry could not be read; the number tells which failure it was.
    BadEntry(usize),
    /// There are files of two symbols.
    MixedSymbols { existing: String, found: String },
    /// There are files of two intervals.
    MixedIntervals { existing: String, found: String },
}

/// Why the files of a directory do not make a job.
pub enum DirectoryFault {
    Unreadable(usize),
    BadEntry(usize),
    MixedSymbols { existing: Seq<char>, found: Seq<char> },
    MixedIntervals { existing: Seq<char>, found: Seq<char> },
}

impl View for DirectoryError {
    type V = DirectoryFault;

    open spec fn view(&self) -> DirectoryFault {
        match self {
            DirectoryError::Unreadable(i) => DirectoryFault::Unreadable(*i),
            DirectoryError::BadEntry(i) => DirectoryFault::BadEntry(*i),
            DirectoryError::MixedSymbols { existing, found } => DirectoryFault::MixedSymbols {
                existing: existing@,
                found: found@,
            },
            DirectoryError::MixedIntervals { existing, found } => DirectoryFault::MixedIntervals {
                existing: existing@,
                found: found@,
            },
        }
    }
}

/// A file whose name follows the pattern.
pub struct FoundFile {
    pub file_name: Seq<char>,
    pub parts: NameParts,
}

/// What the entries of a directory come to, one after the other.
pub struct Scan {
    /// The files that belong to the job.
    pub found: Seq<FoundFile>,
    /// The CSV files whose names do not follow the pattern.
    pub ignored: Seq<Seq<char>>,
    /// Why there is no job, if so. Nothing behind the entry at fault is looked at.
    pub fault: Option<DirectoryFault>,
}

/// What one more file whose name follows the pattern changes. With a `wanted` interval, files of
/// other intervals do not count.
pub open spec fn with_file(scan: Scan, file: FoundFile, wanted: Option<Seq<char>>) -> Scan {
    if wanted is Some && file.parts.interval != wanted->0 {
        scan
    } else if scan.found.len() > 0 && scan.found[0].parts.symbol != file.parts.symbol {
        Scan {
            fault: Some(
                DirectoryFault::MixedSymbols {
                    existing: scan.found[0].parts.symbol,
                    found: file.parts.symbol,
                },
            ),
            ..scan
        }
    } else if scan.found.len() > 0 && scan.found[0].parts.interval != file.parts.interval {
        Scan {
            fault: Some(
                DirectoryFault::MixedIntervals {
                    existing: scan.found[0].parts.interval,
                    found: file.parts.interval,
                },
            ),
            ..scan
        }
    } else {
        Scan { found: scan.found.push(file), ..scan }
    }
}

/// What one more entry changes.
pub open spec fn with_entry(scan: Scan, entry: Entry, wanted: Option<Seq<char>>) -> Scan {
    if scan.fault is Some {
        scan
    } else {
        match entry {
            Entry::Failed(i) => Scan { fault: Some(DirectoryFault::BadEntry(i)), ..scan },
            Entry::File(Some(name)) => if without_suffix(name@, ".csv"@) is None {
                scan
            } else {
                match name_parts(name@) {
                    Some(parts) => with_file(scan, FoundFile { file_name: name@, parts }, wanted),
                    None => Scan { ignored: scan.ignored.push(name@), ..scan },
                }
            },
            _ => scan,
        }
    }
}

/// What a list of entries comes to.
pub open spec fn scan_of(entries: Seq<Entry>, wanted: Option<Seq<char>>) -> Scan
    decreases entries.len(),
{
    if entries.len() == 0 {
        Scan { found: Seq::empty(), ignored: Seq::empty(), fault: None }
    } else {
        with_entry(scan_of(entries.drop_last(), wanted), entries.last(), wanted)
    }
}

/// Once there is a fault, no further entry changes anything.
proof fn lemma_fault_stays(entries: Seq<Entry>, n: int, wanted: Option<Seq<char>>)
    requires
        0 <= n <= entries.len(),
        scan_of(entries.take(n), wanted).fault is Some,
    ensures
        scan_of(entries, wanted) == scan_of(entries.take(n), wanted),
    decreases entries.len(),
{
    if n == entries.len() {
        assert(entries.take(n) =~= entries);
    } else {
        assert(entries.drop_last().take(n) =~= entries.take(n));
        lemma_fault_stays(entries.drop_last(), n, wanted);
    }
}

/// What the files of a directory came to: the symbol and the interval of all, and the files.
pub struct FileGroup {
    pub symbol: String,
    pub interval: String,
    pub files: Vec<CsvFile>,
}

/// The name and the month of a file.
pub struct FileView {
    pub file_name: Seq<char>,
    pub year: i32,
    pub month: u32,
}

/// The name and the month of a file.
pub open spec fn file_view(file: CsvFile) -> FileView {
    FileView { file_name: file.file_name@, year: file.year, month: file.month }
}

/// The name and the month of a file that was found.
pub open spec fn found_view(file: FoundFile) -> FileView {
    FileView { file_name: file.file_name, year: file.parts.year, month: file.parts.month }
}

/// The names and the months of a list of files.
pub open spec fn file_views(files: Seq<CsvFile>) -> Seq<FileView> {
    Seq::new(files.len(), |i: int| file_view(files[i]))
}

/// The names and the months of files that were found.
pub open spec fn found_views(found: Seq<FoundFile>) -> Seq<FileView> {
    Seq::new(found.len(), |i: int| found_view(found[i]))
}

/// One more file on both sides.
proof fn lemma_views_with_file(
    files: Seq<CsvFile>,
    found: Seq<FoundFile>,
    file: CsvFile,
    more: FoundFile,
)
    requires
        file_views(files) == found_views(found),
        file.file_name@ == more.file_name,
        file.year == more.parts.year,
        file.month == more.parts.month,
    ensures
        file_views(files.push(file)) == found_views(found.push(more)),
{
    assert(file_views(files.push(file)) =~= file_views(files).push(file_view(file)));
    assert(found_views(found.push(more)) =~= found_views(found).push(found_view(more)));
}

/// Is the group what was found, if anything was?
pub open spec fn is_group_of(group: Option<FileGroup>, found: Seq<FoundFile>) -> bool {
    match group {
        None => found.len() == 0,
        Some(g) => {
            &&& found.len() > 0
            &&& g.symbol@ == found[0].parts.symbol
            &&& g.interval@ == found[0].parts.interval
            &&& file_views(g.files@) == found_views(found)
        },
    }
}

/// Gathers the files of a directory that belong together. Names of CSV files that do not follow
/// the pattern are added to `ignored`.
pub fn gather_files(
    entries: &Vec<Entry>,
    wanted: Option<&str>,
    ignored: &mut Vec<String>,
) -> (group: Result<Option<FileGroup>, DirectoryError>)
    ensures
        ({
            let interval = match wanted {
                Some(w) => Some(w@),
                None => None,
            };
            let scan = scan_of(entries@, interval);
            &&& texts(final(ignored)@) == texts(old(ignored)@)
                + scan.ignored
            &&& match group {
                Ok(g) => scan.fault is None && is_group_of(g, scan.found),
                Err(e) => scan.fault == Some(e@),
            }
        }),
        group matches Ok(Some(g)) ==> {
            &&& g.files@.len() > 0
            &&& wanted matches Some(w) ==> g.interval@ == w@
            &&& forall|k: int|
                0 <= k < g.files@.len() ==> name_parts((#[trigger] g.files@[k]).file_name@) == Some(
                    NameParts {
                        symbol: g.symbol@,
                        interval: g.interval@,
                        year: g.files@[k].year,
                        month: g.files@[k].month,
                    },
                )
        },
{
    let ghost interval = match wanted {
        Some(w) => Some(w@),
        None => None,
    };
    let mut group: Option<FileGroup> = None;
    let mut i: usize = 0;
    assert(entries@.take(0) =~= Seq::empty());
    assert(texts(ignored@) =~= texts(old(ignored)@) + scan_of(
        entries@.take(0),
        interval,
    ).ignored);
    while i < entries.len()
        invariant
            i <= entries@.len(),
            interval == (match wanted {
                Some(w) => Some(w@),
                None => None,
            }),
            scan_of(entries@.take(i as int), interval).fault is None,
            is_group_of(group, scan_of(entries@.take(i as int), interval).found),
            texts(ignored@) == texts(old(ignored)@) + scan_of(
                entries@.take(i as int),
                interval,
            ).ignored,
        decreases entries@.len() - i,
    {
        let ghost before = scan_of(entries@.take(i as int), interval);
        let ghost next = scan_of(entries@.take(i + 1), interval);
        assert(entries@.take(i + 1).drop_last() =~= entries@.take(i as int));
        assert(entries@.take(i + 1).last() == entries@[i as int]);
        proof {
            if next.fault is Some {
                lemma_fault_stays(entries@, i + 1, interval);
            }
        }
        match &entries[i] {
            Entry::Failed(index) => {
                return Err(DirectoryError::BadEntry(*index));
            },
            Entry::File(Some(name)) => {
                if strip_suffix(name.as_str(), ".csv").is_some() {
                    match parse_filename(name.as_str()) {
                        None => {
                            let ghost old_ignored = ignored@;
                            ignored.push(name.clone());
                            assert(texts(ignored@) =~= texts(
                                old_ignored,
                            ).push(name@));
                            assert(texts(ignored@) =~= texts(
                                old(ignored)@,
                            ) + next.ignored);
                        },
                        Some((symbol, file_interval, year, month)) => {
                            let counts = match wanted {
                                Some(w) => same_text(file_interval.as_str(), w),
                                None => true,
                            };
                            if counts {
                                let file = CsvFile { file_name: name.clone(), year, month };
                                match group {
                                    None => {
                                        let mut files: Vec<CsvFile> = Vec::new();
                                        files.push(file);
                                        assert(file_views(files@) =~= found_views(next.found));
                                        group = Some(
                                            FileGroup { symbol, interval: file_interval, files },
                                        );
                                    },
                                    Some(mut g) => {
                                        if !same_text(g.symbol.as_str(), symbol.as_str()) {
                                            return Err(
                                                DirectoryError::MixedSymbols {
                                                    existing: g.symbol,
                                                    found: symbol,
                                                },
                                            );
                                        }
                                        if !same_text(g.interval.as_str(), file_interval.as_str()) {
                                            return Err(
                                                DirectoryError::MixedIntervals {
                                                    existing: g.interval,
                                                    found: file_interval,
                                                },
                                            );
                                        }
                                        let ghost old_files = g.files@;
                                        g.files.push(file);
                                        assert(next.found == before.found.push(
                                            FoundFile {
                                                file_name: name@,
                                                parts: name_parts(name@)->0,
                                            },
                                        ));
                                        proof {
                                            lemma_views_with_file(
                                                old_files,
                                                before.found,
                                                file,
                                                next.found.last(),
                                            );
                                        }
                                        group = Some(g);
                                    },
                                }
                            }
                        },
                    }
                }
            },
            _ => {},
        }
        i += 1;
    }
    assert(entries@.take(i as int) =~= entries@);
    proof {
        let found = scan_of(entries@, interval).found;
        found_files_belong_together(entries@, interval);
        if group is Some {
            let g = group->0;
            assert(file_views(g.files@).len() == found_views(found).len());
            assert forall|k: int| 0 <= k < g.files@.len() implies name_parts(
                (#[trigger] g.files@[k]).file_name@,
            ) == Some(
                NameParts {
                    symbol: g.symbol@,
                    interval: g.interval@,
                    year: g.files@[k].year,
                    month: g.files@[k].month,
                },
            ) by {
                assert(file_views(g.files@)[k] == found_views(found)[k]);
                assert(name_parts(found[k].file_name) == Some(found[k].parts));
            }
        }
    }
    Ok(group)
}

/// The files of a job belong together: each name says what the file was taken for, all names say the
/// same symbol and the same interval, and that is the wanted one, if one is wanted.
pub proof fn found_files_belong_together(entries: Seq<Entry>, wanted: Option<Seq<char>>)
    ensures
        ({
            let found = scan_of(entries, wanted).found;
            &&& forall|k: int|
                0 <= k < found.len() ==> {
                    &&& name_parts((#[trigger] found[k]).file_name) == Some(found[k].parts)
                    &&& found[k].parts.symbol == found[0].parts.symbol
                    &&& found[k].parts.interval == found[0].parts.interval
                    &&& wanted matches Some(w) ==> found[k].parts.interval == w
                }
        }),
    decreases entries.len(),
{
    if entries.len() > 0 {
        let fewer = entries.drop_last();
        found_files_belong_together(fewer, wanted);
        let before = scan_of(fewer, wanted).found;
        let found = scan_of(entries, wanted).found;
        assert forall|k: int| 0 <= k < found.len() implies {
            &&& name_parts((#[trigger] found[k]).file_name) == Some(found[k].parts)
            &&& found[k].parts.symbol == found[0].parts.symbol
            &&& found[k].parts.interval == found[0].parts.interval
            &&& wanted matches Some(w) ==> found[k].parts.interval == w
        } by {
            if k < before.len() {
                assert(found[k] == before[k]);
                assert(found[0] == before[0]);
            } else if before.len() > 0 {
                assert(found[0] == before[0]);
            }
        }
    }
}

/// A fault is a real one: an entry that could not be read is among the entries, and two symbols or
/// intervals that are told are those of two files that count, the one in front first. Where an
/// interval is wanted, intervals do not clash.
pub proof fn faults_are_real(entries: Seq<Entry>, wanted: Option<Seq<char>>)
    ensures
        match scan_of(entries, wanted).fault {
            None => true,
            Some(DirectoryFault::Unreadable(_)) => false,
            Some(DirectoryFault::BadEntry(n)) => entries.contains(Entry::Failed(n)),
            Some(DirectoryFault::MixedSymbols { existing, found }) => {
                &&& existing != found
                &&& exists|i: int, j: int|
                    0 <= i < j < entries.len() && (counted_file(#[trigger] entries[i], wanted)
                        matches Some(f) && f.parts.symbol == existing) && (counted_file(
                        #[trigger] entries[j],
                        wanted,
                    ) matches Some(g) && g.parts.symbol == found)
            },
            Some(DirectoryFault::MixedIntervals { existing, found }) => {
                &&& wanted is None
                &&& existing != found
                &&& exists|i: int, j: int|
                    0 <= i < j < entries.len() && (counted_file(#[trigger] entries[i], wanted)
                        matches Some(f) && f.parts.interval == existing) && (counted_file(
                        #[trigger] entries[j],
                        wanted,
                    ) matches Some(g) && g.parts.interval == found)
            },
        },
    decreases entries.len(),
{
    if entries.len() > 0 {
        let fewer = entries.drop_last();
        let last = entries.len() - 1;
        faults_are_real(fewer, wanted);
        let before = scan_of(fewer, wanted);
        assert(forall|i: int| 0 <= i < fewer.len() ==> #[trigger] fewer[i] == entries[i]);
        if before.fault is Some {
            match before.fault->0 {
                DirectoryFault::BadEntry(n) => {
                    let k = choose|k: int|
                        0 <= k < fewer.len() && fewer[k] == Entry::Failed(n);
                    assert(entries[k] == Entry::Failed(n));
                },
                DirectoryFault::MixedSymbols { existing, found } => {
                    let (i, j) = choose|i: int, j: int|
                        0 <= i < j < fewer.len() && (counted_file(#[trigger] fewer[i], wanted)
                            matches Some(f) && f.parts.symbol == existing) && (counted_file(
                            #[trigger] fewer[j],
                            wanted,
                        ) matches Some(g) && g.parts.symbol == found);
                    assert(fewer[i] == entries[i] && fewer[j] == entries[j]);
                },
                DirectoryFault::MixedIntervals { existing, found } => {
                    let (i, j) = choose|i: int, j: int|
                        0 <= i < j < fewer.len() && (counted_file(#[trigger] fewer[i], wanted)
                            matches Some(f) && f.parts.interval == existing) && (counted_file(
                            #[trigger] fewer[j],
                            wanted,
                        ) matches Some(g) && g.parts.interval == found);
                    assert(fewer[i] == entries[i] && fewer[j] == entries[j]);
                },
                _ => {},
            }
        } else {
            assert(entries[last] == entries.last());
            found_files_belong_together(fewer, wanted);
            if before.found.len() > 0 {
                uniform_directories_are_accepted(fewer, wanted);
                let k = choose|i: int|
                    0 <= i < fewer.len() && counted_file(#[trigger] fewer[i], wanted) == Some(
                        before.found[0],
                    );
                assert(fewer[k] == entries[k]);
                assert(counted_file(entries[k], wanted) == Some(before.found[0]));
            }
        }
    }
}

/// The files that are told to be ignored are the CSV files whose names do not follow the pattern:
/// each that is told is one, and, where there is no fault, each one is told.
pub proof fn ignored_files_do_not_follow_the_pattern(entries: Seq<Entry>, wanted: Option<Seq<char>>)
    ensures
        ({
            let scan = scan_of(entries, wanted);
            &&& forall|k: int|
                0 <= k < scan.ignored.len() ==> {
                    &&& ".csv"@.is_suffix_of(#[trigger] scan.ignored[k])
                    &&& name_parts(scan.ignored[k]) is None
                }
            &&& scan.fault is None ==> forall|i: int|
                0 <= i < entries.len() ==> match #[trigger] entries[i] {
                    Entry::File(Some(name)) => ".csv"@.is_suffix_of(name@) && name_parts(name@)
                        is None ==> scan.ignored.contains(name@),
                    _ => true,
                }
        }),
    decreases entries.len(),
{
    if entries.len() > 0 {
        let fewer = entries.drop_last();
        ignored_files_do_not_follow_the_pattern(fewer, wanted);
        let before = scan_of(fewer, wanted);
        let scan = scan_of(entries, wanted);
        assert forall|k: int| 0 <= k < scan.ignored.len() implies {
            &&& ".csv"@.is_suffix_of(#[trigger] scan.ignored[k])
            &&& name_parts(scan.ignored[k]) is None
        } by {
            if k < before.ignored.len() {
                assert(scan.ignored[k] == before.ignored[k]);
            }
        }
        if scan.fault is None {
            assert forall|i: int| 0 <= i < entries.len() implies match #[trigger] entries[i] {
                Entry::File(Some(name)) => ".csv"@.is_suffix_of(name@) && name_parts(name@) is None
                    ==> scan.ignored.contains(name@),
                _ => true,
            } by {
                if let Entry::File(Some(name)) = entries[i] {
                    if ".csv"@.is_suffix_of(name@) && name_parts(name@) is None {
                        if i < fewer.len() {
                            assert(fewer[i] == entries[i]);
                            assert(before.ignored.contains(name@));
                            let k = choose|k: int|
                                0 <= k < before.ignored.len() && before.ignored[k] == name@;
                            assert(scan.ignored[k] == name@);
                        } else {
                            assert(scan.ignored[scan.ignored.len() - 1] == name@);
                        }
                    }
                }
            }
        }
    }
}

// ---------------------------------------------------------------------------------------------
// Which directories are accepted
// ---------------------------------------------------------------------------------------------
/// The file of an entry, if its name follows the pattern and its interval counts.
pub open spec fn counted_file(entry: Entry, wanted: Option<Seq<char>>) -> Option<FoundFile> {
    match entry {
        Entry::File(Some(name)) => match name_parts(name@) {
            Some(parts) => if wanted is None || parts.interval == wanted->0 {
                Some(FoundFile { file_name: name@, parts })
            } else {
                None
            },
            None => None,
        },
        _ => None,
    }
}

/// Do two entries not contradict each other? Files that count are of one symbol and one interval.
pub open spec fn agree(a: Entry, b: Entry, wanted: Option<Seq<char>>) -> bool {
    match (counted_file(a, wanted), counted_file(b, wanted)) {
        (Some(f), Some(g)) => f.parts.symbol == g.parts.symbol && f.parts.interval
            == g.parts.interval,
        _ => true,
    }
}

/// Are all entries readable, and all files that count of one symbol and one interval?
pub open spec fn is_uniform(entries: Seq<Entry>, wanted: Option<Seq<char>>) -> bool {
    &&& forall|i: int| 0 <= i < entries.len() ==> !(#[trigger] entries[i] is Failed)
    &&& forall|i: int, j: int|
        0 <= i < entries.len() && 0 <= j < entries.len() ==> agree(
            #[trigger] entries[i],
            #[trigger] entries[j],
            wanted,
        )
}

/// One more entry leaves a directory uniform exactly where it is readable and agrees with a file
/// that counts, if there is one.
proof fn lemma_uniform_grows(entries: Seq<Entry>, wanted: Option<Seq<char>>, k: int)
    requires
        entries.len() > 0,
        0 <= k < entries.len() - 1 ==> counted_file(entries[k], wanted) is Some,
        !(0 <= k < entries.len() - 1) ==> forall|i: int|
            0 <= i < entries.len() - 1 ==> counted_file(#[trigger] entries[i], wanted) is None,
    ensures
        is_uniform(entries, wanted) <==> {
            &&& is_uniform(entries.drop_last(), wanted)
            &&& !(entries.last() is Failed)
            &&& 0 <= k < entries.len() - 1 ==> agree(entries[k], entries.last(), wanted)
        },
{
    let fewer = entries.drop_last();
    let last = entries.last();
    assert(forall|i: int| 0 <= i < fewer.len() ==> #[trigger] fewer[i] == entries[i]);
    assert(last == entries[entries.len() - 1]);
    if is_uniform(entries, wanted) {
        assert forall|i: int, j: int|
            0 <= i < fewer.len() && 0 <= j < fewer.len() implies agree(
            #[trigger] fewer[i],
            #[trigger] fewer[j],
            wanted,
        ) by {
            assert(agree(entries[i], entries[j], wanted));
        }
        assert forall|i: int| 0 <= i < fewer.len() implies !(#[trigger] fewer[i] is Failed) by {
            assert(!(entries[i] is Failed));
        }
        assert(is_uniform(fewer, wanted));
        assert(!(last is Failed));
    }
    if is_uniform(fewer, wanted) && !(last is Failed) && (0 <= k < fewer.len() ==> agree(
        entries[k],
        last,
        wanted,
    )) {
        assert forall|i: int, j: int|
            0 <= i < entries.len() && 0 <= j < entries.len() implies agree(
            #[trigger] entries[i],
            #[trigger] entries[j],
            wanted,
        ) by {
            if i < fewer.len() && j < fewer.len() {
                assert(agree(fewer[i], fewer[j], wanted));
            } else if 0 <= k < fewer.len() {
                if i < fewer.len() {
                    assert(agree(fewer[i], fewer[k], wanted));
                }
                if j < fewer.len() {
                    assert(agree(fewer[j], fewer[k], wanted));
                }
            }
        }
        assert forall|i: int| 0 <= i < entries.len() implies !(#[trigger] entries[i] is Failed) by {
            if i < fewer.len() {
                assert(!(fewer[i] is Failed));
            }
        }
        assert(is_uniform(entries, wanted));
    }
}

/// A directory is accepted exactly where all of its entries can be read and the files that count
/// are of one symbol and one interval. The job then has each of those files, and no other.
pub proof fn uniform_directories_are_accepted(entries: Seq<Entry>, wanted: Option<Seq<char>>)
    ensures
        scan_of(entries, wanted).fault is None <==> is_uniform(entries, wanted),
        scan_of(entries, wanted).fault is None ==> {
            &&& forall|i: int|
                0 <= i < entries.len() && counted_file(#[trigger] entries[i], wanted) is Some
                    ==> scan_of(entries, wanted).found.contains(
                    counted_file(entries[i], wanted)->0,
                )
            &&& forall|k: int|
                0 <= k < scan_of(entries, wanted).found.len() ==> exists|i: int|
                    0 <= i < entries.len() && counted_file(#[trigger] entries[i], wanted) == Some(
                        #[trigger] scan_of(entries, wanted).found[k],
                    )
        },
    decreases entries.len(),
{
    if entries.len() > 0 {
        let fewer = entries.drop_last();
        uniform_directories_are_accepted(fewer, wanted);
        let before = scan_of(fewer, wanted);
        assert(forall|i: int| 0 <= i < fewer.len() ==> #[trigger] fewer[i] == entries[i]);
        if before.fault is Some {
            if is_uniform(entries, wanted) {
                assert forall|i: int, j: int|
                    0 <= i < fewer.len() && 0 <= j < fewer.len() implies agree(
                    #[trigger] fewer[i],
                    #[trigger] fewer[j],
                    wanted,
                ) by {
                    assert(agree(entries[i], entries[j], wanted));
                }
                assert(is_uniform(fewer, wanted));
            }
        } else {
            let k = if before.found.len() > 0 {
                choose|i: int|
                    0 <= i < fewer.len() && counted_file(#[trigger] fewer[i], wanted) == Some(
                        before.found[0],
                    )
            } else {
                -1
            };
            if before.found.len() == 0 {
                assert forall|i: int| 0 <= i < fewer.len() implies counted_file(
                    #[trigger] entries[i],
                    wanted,
                ) is None by {
                    assert(fewer[i] == entries[i]);
                    if counted_file(fewer[i], wanted) is Some {
                        assert(before.found.contains(counted_file(fewer[i], wanted)->0));
                    }
                }
            }
            lemma_uniform_grows(entries, wanted, k);
            if scan_of(entries, wanted).fault is None {
                lemma_found_grows(entries, wanted);
            }
        }
    }
}

/// The last entry adds its file, if that counts, behind those before it.
proof fn lemma_found_grows(entries: Seq<Entry>, wanted: Option<Seq<char>>)
    requires
        entries.len() > 0,
        scan_of(entries, wanted).fault is None,
        ({
            let fewer = entries.drop_last();
            let before = scan_of(fewer, wanted).found;
            &&& forall|i: int|
                0 <= i < fewer.len() && counted_file(#[trigger] fewer[i], wanted) is Some
                    ==> before.contains(counted_file(fewer[i], wanted)->0)
            &&& forall|k: int|
                0 <= k < before.len() ==> exists|i: int|
                    0 <= i < fewer.len() && counted_file(#[trigger] fewer[i], wanted) == Some(
                        #[trigger] before[k],
                    )
        }),
    ensures
        ({
            let found = scan_of(entries, wanted).found;
            &&& forall|i: int|
                0 <= i < entries.len() && counted_file(#[trigger] entries[i], wanted) is Some
                    ==> found.contains(counted_file(entries[i], wanted)->0)
            &&& forall|k: int|
                0 <= k < found.len() ==> exists|i: int|
                    0 <= i < entries.len() && counted_file(#[trigger] entries[i], wanted) == Some(
                        #[trigger] found[k],
                    )
        }),
{
    let fewer = entries.drop_last();
    let before = scan_of(fewer, wanted).found;
    let found = scan_of(entries, wanted).found;
    let last = entries.last();
    assert(last == entries[entries.len() - 1]);
    assert(found == match counted_file(last, wanted) {
        Some(file) => before.push(file),
        None => before,
    });
    assert forall|i: int|
        0 <= i < entries.len() && counted_file(#[trigger] entries[i], wanted)
            is Some implies found.contains(counted_file(entries[i], wanted)->0) by {
        let file = counted_file(entries[i], wanted)->0;
        if i < fewer.len() {
            assert(fewer[i] == entries[i]);
            assert(before.contains(file));
            let k = choose|k: int| 0 <= k < before.len() && before[k] == file;
            assert(found[k] == file);
        } else {
            assert(found[found.len() - 1] == file);
        }
    }
    assert forall|k: int| 0 <= k < found.len() implies exists|i: int|
        0 <= i < entries.len() && counted_file(#[trigger] entries[i], wanted) == Some(
            #[trigger] found[k],
        ) by {
        if k < before.len() {
            assert(found[k] == before[k]);
            let i = choose|i: int|
                0 <= i < fewer.len() && counted_file(#[trigger] fewer[i], wanted) == Some(
                    before[k],
                );
            assert(fewer[i] == entries[i]);
            assert(counted_file(entries[i], wanted) == Some(found[k]));
        } else {
            assert(counted_file(entries[entries.len() - 1], wanted) == Some(found[k]));
        }
    }
}

} // verus!
