//! Import jobs: one for each directory with CSV files, each with a database of its own.

use crate::args::{Args, DEFAULT_ALL_DB_DIR, DEFAULT_ALL_DIR};
use crate::discover::{
    file_views, found_files_belong_together, found_views, gather_files, scan_of, DirectoryError,
    DirectoryFault, Entry, FileView, FoundFile, Listing, Scan,
};
use crate::files::CsvFile;
use crate::names::{name_parts, NameParts};
use crate::paths::{
    copy_names, lemma_path_chains, lemma_path_total, names, path_at_most, path_no_later, Location,
    LocationView,
};
use crate::sort::{
    arranged, is_stable_sort, sort, sorts, stable_sort_keeps_everything, Ranked,
};
use crate::text::{optional_text, texts};
use vstd::prelude::*;
use vstd::slice::slice_to_vec;
use vstd::utf8::encode_utf8;

verus! {

/// The import of the files of one directory into one database.
pub struct ImportJob {
    pub dir: Location,
    pub db_path: Location,
    pub symbol: String,
    pub interval: String,
    pub files: Vec<CsvFile>,
}

/// What a job says.
pub struct JobView {
    pub dir: LocationView,
    pub db_path: LocationView,
    pub symbol: Seq<char>,
    pub interval: Seq<char>,
    pub files: Seq<FileView>,
}

impl View for ImportJob {
    type V = JobView;

    open spec fn view(&self) -> JobView {
        JobView {
            dir: self.dir@,
            db_path: self.db_path@,
            symbol: self.symbol@,
            interval: self.interval@,
            files: file_views(self.files@),
        }
    }
}

/// What a list of jobs says.
pub open spec fn job_views(jobs: Seq<ImportJob>) -> Seq<JobView> {
    Seq::new(jobs.len(), |i: int| jobs[i]@)
}

impl Ranked for ImportJob {
    open spec fn at_most(self, other: ImportJob) -> bool {
        path_at_most(self.dir@.parts, other.dir@.parts)
    }

    proof fn at_most_total(a: ImportJob, b: ImportJob) {
        lemma_path_total(a.dir@.parts, b.dir@.parts);
    }

    proof fn at_most_chains(a: ImportJob, b: ImportJob, c: ImportJob) {
        lemma_path_chains(a.dir@.parts, b.dir@.parts, c.dir@.parts);
    }

    fn is_at_most(&self, other: &ImportJob) -> (yes: bool) {
        path_no_later(&self.dir.parts, &other.dir.parts)
    }
}

/// A CSV file whose name does not follow the pattern, and the directory that it is in.
pub struct IgnoredFile {
    pub dir: Vec<Vec<u8>>,
    pub file_name: String,
}

impl View for IgnoredFile {
    type V = (Seq<Seq<u8>>, Seq<char>);

    open spec fn view(&self) -> (Seq<Seq<u8>>, Seq<char>) {
        (names(self.dir@), self.file_name@)
    }
}

/// The directories and names of a list of ignored files.
pub open spec fn ignored_views(ignored: Seq<IgnoredFile>) -> Seq<(Seq<Seq<u8>>, Seq<char>)> {
    Seq::new(ignored.len(), |i: int| ignored[i]@)
}

/// The ignored files of one directory.
pub open spec fn ignored_in(parts: Seq<Seq<u8>>, file_names: Seq<Seq<char>>) -> Seq<
    (Seq<Seq<u8>>, Seq<char>),
> {
    Seq::new(file_names.len(), |i: int| (parts, file_names[i]))
}

// ---------------------------------------------------------------------------------------------
// One directory
// ---------------------------------------------------------------------------------------------
/// The bytes of the name of a symbol's database.
pub open spec fn database_name(symbol: Seq<char>) -> Seq<u8> {
    encode_utf8(symbol + ".duckdb"@)
}

/// The job of a directory below `input`, whose database has the same place below `output`.
pub open spec fn mirrored_job(
    input: Seq<u8>,
    output: Seq<u8>,
    parts: Seq<Seq<u8>>,
    found: Seq<FoundFile>,
) -> JobView {
    JobView {
        dir: LocationView { root: input, parts },
        db_path: LocationView {
            root: output,
            parts: parts.push(database_name(found[0].parts.symbol)),
        },
        symbol: found[0].parts.symbol,
        interval: found[0].parts.interval,
        files: found_views(found),
    }
}

/// Makes the job of one directory of a tree, if it holds CSV files. `parts` leads from the root
/// of the tree to the directory.
pub fn import_job_for_directory(
    input: &Vec<u8>,
    output: &Vec<u8>,
    parts: &Vec<Vec<u8>>,
    entries: &Vec<Entry>,
    ignored: &mut Vec<IgnoredFile>,
) -> (job: Result<Option<ImportJob>, DirectoryError>)
    ensures
        ({
            let scan = scan_of(entries@, None);
            &&& ignored_views(final(ignored)@) == ignored_views(old(ignored)@) + ignored_in(
                names(parts@),
                scan.ignored,
            )
            &&& match job {
                Err(e) => scan.fault == Some(e@),
                Ok(None) => scan.fault is None && scan.found.len() == 0,
                Ok(Some(j)) => scan.fault is None && scan.found.len() > 0 && j@ == mirrored_job(
                    input@,
                    output@,
                    names(parts@),
                    scan.found,
                ),
            }
        }),
        job matches Ok(Some(j)) ==> {
            &&& j.dir.root@ == input@ && names(j.dir.parts@) == names(parts@)
            &&& j.db_path.root@ == output@ && names(j.db_path.parts@) == names(parts@).push(
                encode_utf8(j.symbol@ + ".duckdb"@),
            )
            &&& j.files@.len() > 0
            &&& forall|k: int|
                0 <= k < j.files@.len() ==> name_parts((#[trigger] j.files@[k]).file_name@) == Some(
                    NameParts {
                        symbol: j.symbol@,
                        interval: j.interval@,
                        year: j.files@[k].year,
                        month: j.files@[k].month,
                    },
                )
        },
{
    let mut file_names: Vec<String> = Vec::new();
    let gathered = gather_files(entries, None, &mut file_names);
    let ghost scan = scan_of(entries@, None);
    assert(texts(file_names@) =~= scan.ignored);
    note_ignored(parts, &file_names, ignored);
    match gathered {
        Err(e) => Err(e),
        Ok(None) => Ok(None),
        Ok(Some(group)) => {
            let mut db_name = group.symbol.clone();
            db_name.append(".duckdb");
            let mut db_parts = copy_names(parts);
            let ghost above = db_parts@;
            db_parts.push(slice_to_vec(db_name.as_str().as_bytes()));
            assert(names(db_parts@) =~= names(above).push(database_name(group.symbol@)));
            let job = ImportJob {
                dir: Location { root: slice_to_vec(input.as_slice()), parts: copy_names(parts) },
                db_path: Location { root: slice_to_vec(output.as_slice()), parts: db_parts },
                symbol: group.symbol,
                interval: group.interval,
                files: group.files,
            };
            assert(job@ == mirrored_job(input@, output@, names(parts@), scan.found));
            Ok(Some(job))
        },
    }
}

/// Adds the names of ignored files of one directory to a list.
fn note_ignored(parts: &Vec<Vec<u8>>, file_names: &Vec<String>, ignored: &mut Vec<IgnoredFile>)
    ensures
        ignored_views(final(ignored)@) == ignored_views(old(ignored)@) + ignored_in(
            names(parts@),
            texts(file_names@),
        ),
{
    let mut i: usize = 0;
    let ghost added = ignored_in(names(parts@), texts(file_names@));
    assert(ignored_views(ignored@) =~= ignored_views(old(ignored)@) + added.take(0));
    while i < file_names.len()
        invariant
            i <= file_names@.len(),
            added == ignored_in(names(parts@), texts(file_names@)),
            ignored_views(ignored@) == ignored_views(old(ignored)@) + added.take(i as int),
        decreases file_names@.len() - i,
    {
        let file = IgnoredFile { dir: copy_names(parts), file_name: file_names[i].clone() };
        let ghost before = ignored@;
        ignored.push(file);
        assert(file@ == added[i as int]);
        assert(ignored_views(ignored@) =~= ignored_views(before).push(file@));
        assert(ignored_views(ignored@) =~= ignored_views(old(ignored)@) + added.take(i + 1));
        i += 1;
    }
    assert(added.take(i as int) =~= added);
}

// ---------------------------------------------------------------------------------------------
// A tree of directories
// ---------------------------------------------------------------------------------------------
/// What the directories of a tree come to, one after the other.
pub struct Collected {
    pub jobs: Seq<JobView>,
    pub ignored: Seq<(Seq<Seq<u8>>, Seq<char>)>,
    /// Where and why there is no answer, if so. No directory behind that one is looked at.
    pub fault: Option<(Seq<Seq<u8>>, DirectoryFault)>,
}

/// What one directory adds.
pub open spec fn with_directory(
    input: Seq<u8>,
    output: Seq<u8>,
    parts: Seq<Seq<u8>>,
    scan: Scan,
    so_far: Collected,
) -> Collected {
    Collected {
        jobs: if scan.fault is None && scan.found.len() > 0 {
            so_far.jobs.push(mirrored_job(input, output, parts, scan.found))
        } else {
            so_far.jobs
        },
        ignored: so_far.ignored + ignored_in(parts, scan.ignored),
        fault: match scan.fault {
            Some(fault) => Some((parts, fault)),
            None => None,
        },
    }
}

/// The number of entries of a directory.
pub open spec fn entry_count(listing: Listing) -> nat {
    match listing {
        Listing::Unreadable(_) => 0,
        Listing::Entries(entries) => entries@.len(),
    }
}

/// What a directory and all those below it add: first the directory itself, then what is below
/// it, in the order of its entries.
pub open spec fn collected(
    input: Seq<u8>,
    output: Seq<u8>,
    parts: Seq<Seq<u8>>,
    listing: Listing,
    so_far: Collected,
) -> Collected
    decreases listing, entry_count(listing) + 1,
{
    match listing {
        Listing::Unreadable(i) => Collected {
            fault: Some((parts, DirectoryFault::Unreadable(i))),
            ..so_far
        },
        Listing::Entries(entries) => {
            let here = with_directory(input, output, parts, scan_of(entries@, None), so_far);
            if here.fault is Some {
                here
            } else {
                below(input, output, parts, listing, entries@.len(), here)
            }
        },
    }
}

/// What the directories among the first `n` entries of a directory add.
pub open spec fn below(
    input: Seq<u8>,
    output: Seq<u8>,
    parts: Seq<Seq<u8>>,
    listing: Listing,
    n: nat,
    so_far: Collected,
) -> Collected
    decreases listing, n,
{
    match listing {
        Listing::Unreadable(_) => so_far,
        Listing::Entries(entries) => if n == 0 || n > entries@.len() {
            so_far
        } else {
            let before = below(input, output, parts, listing, (n - 1) as nat, so_far);
            if before.fault is Some {
                before
            } else {
                match entries@[n - 1] {
                    Entry::Dir(name, inner) => collected(
                        input,
                        output,
                        parts.push(name@),
                        inner,
                        before,
                    ),
                    _ => before,
                }
            }
        },
    }
}

/// Once there is a fault, no further entry changes anything.
proof fn lemma_fault_stays(
    input: Seq<u8>,
    output: Seq<u8>,
    parts: Seq<Seq<u8>>,
    listing: Listing,
    n: nat,
    m: nat,
    so_far: Collected,
)
    requires
        n <= m <= entry_count(listing),
        below(input, output, parts, listing, n, so_far).fault is Some,
    ensures
        below(input, output, parts, listing, m, so_far) == below(
            input,
            output,
            parts,
            listing,
            n,
            so_far,
        ),
    decreases m,
{
    if n < m {
        lemma_fault_stays(input, output, parts, listing, n, (m - 1) as nat, so_far);
    }
}

/// Why a directory of a tree does not make a job: where it is, and what is wrong there.
pub struct JobError {
    pub dir: Vec<Vec<u8>>,
    pub error: DirectoryError,
}

impl View for JobError {
    type V = (Seq<Seq<u8>>, DirectoryFault);

    open spec fn view(&self) -> (Seq<Seq<u8>>, DirectoryFault) {
        (names(self.dir@), self.error@)
    }
}

/// What lists of jobs and ignored files say, as long as there is no fault.
pub open spec fn collected_in(jobs: Seq<ImportJob>, ignored: Seq<IgnoredFile>) -> Collected {
    Collected { jobs: job_views(jobs), ignored: ignored_views(ignored), fault: None }
}

/// Makes the jobs of a directory and of all those below it.
pub fn collect_all_import_jobs(
    input: &Vec<u8>,
    output: &Vec<u8>,
    parts: &Vec<Vec<u8>>,
    listing: &Listing,
    jobs: &mut Vec<ImportJob>,
    ignored: &mut Vec<IgnoredFile>,
) -> (result: Result<(), JobError>)
    ensures
        ({
            let all = collected(
                input@,
                output@,
                names(parts@),
                *listing,
                collected_in(old(jobs)@, old(ignored)@),
            );
            &&& all.jobs == job_views(final(jobs)@)
            &&& all.ignored == ignored_views(final(ignored)@)
            &&& match result {
                Ok(_) => all.fault is None,
                Err(e) => all.fault == Some(e@),
            }
        }),
    decreases *listing,
{
    let ghost so_far = collected_in(jobs@, ignored@);
    match listing {
        Listing::Unreadable(i) => Err(
            JobError { dir: copy_names(parts), error: DirectoryError::Unreadable(*i) },
        ),
        Listing::Entries(entries) => {
            let ghost here = with_directory(
                input@,
                output@,
                names(parts@),
                scan_of(entries@, None),
                so_far,
            );
            match import_job_for_directory(input, output, parts, entries, ignored) {
                Err(e) => {
                    assert(job_views(jobs@) =~= here.jobs);
                    return Err(JobError { dir: copy_names(parts), error: e });
                },
                Ok(None) => {},
                Ok(Some(job)) => {
                    let ghost before = jobs@;
                    jobs.push(job);
                    assert(job_views(jobs@) =~= job_views(before).push(job@));
                },
            }
            assert(here == collected_in(jobs@, ignored@));
            let mut i: usize = 0;
            while i < entries.len()
                invariant
                    i <= entries@.len(),
                    *listing == Listing::Entries(*entries),
                    so_far == collected_in(old(jobs)@, old(ignored)@),
                    here.fault is None,
                    collected(input@, output@, names(parts@), *listing, so_far) == below(
                        input@,
                        output@,
                        names(parts@),
                        *listing,
                        entries@.len(),
                        here,
                    ),
                    below(input@, output@, names(parts@), *listing, i as nat, here)
                        == collected_in(jobs@, ignored@),
                decreases entries@.len() - i,
            {
                if let Entry::Dir(name, inner) = &entries[i] {
                    let mut inner_parts = copy_names(parts);
                    let ghost above = inner_parts@;
                    inner_parts.push(slice_to_vec(name.as_slice()));
                    assert(names(inner_parts@) =~= names(above).push(name@));
                    let result = collect_all_import_jobs(
                        input,
                        output,
                        &inner_parts,
                        inner,
                        jobs,
                        ignored,
                    );
                    if let Err(e) = result {
                        proof {
                            lemma_fault_stays(
                                input@,
                                output@,
                                names(parts@),
                                *listing,
                                (i + 1) as nat,
                                entries@.len(),
                                here,
                            );
                        }
                        return Err(e);
                    }
                }
                i += 1;
            }
            Ok(())
        },
    }
}

// ---------------------------------------------------------------------------------------------
// All jobs
// ---------------------------------------------------------------------------------------------
/// The root of the tree that is searched for CSV files.
pub open spec fn input_root(args: Args, dir_given: bool) -> Seq<u8> {
    if dir_given {
        args.dir@
    } else {
        encode_utf8(DEFAULT_ALL_DIR@)
    }
}

/// The root of the tree that the databases are put into.
pub open spec fn output_root(args: Args, db_given: bool) -> Seq<u8> {
    if db_given {
        encode_utf8(args.db@)
    } else {
        encode_utf8(DEFAULT_ALL_DB_DIR@)
    }
}

/// Both trees are where the options say, or else beside the program's directory.
pub proof fn trees_are_where_the_options_say(args: Args)
    ensures
        input_root(args, true) == args.dir@,
        input_root(args, false) == encode_utf8("../data/"@),
        output_root(args, true) == encode_utf8(args.db@),
        output_root(args, false) == encode_utf8("../db/"@),
{
}

/// The directory that is read first: the input root, or the one directory of a single import.
pub fn first_directory(args: &Args, dir_given: bool) -> (dir: Vec<u8>)
    ensures
        dir@ == (if args.all {
            input_root(*args, dir_given)
        } else {
            args.dir@
        }),
        !args.all || dir_given ==> dir@ == args.dir@,
        args.all && !dir_given ==> dir@ == encode_utf8("../data/"@),
{
    if args.all && !dir_given {
        slice_to_vec(DEFAULT_ALL_DIR.as_bytes())
    } else {
        slice_to_vec(args.dir.as_slice())
    }
}

/// The job of a single import.
pub open spec fn single_job(args: Args, found: Seq<FoundFile>) -> JobView {
    JobView {
        dir: LocationView { root: args.dir@, parts: Seq::empty() },
        db_path: LocationView { root: encode_utf8(args.db@), parts: Seq::empty() },
        symbol: found[0].parts.symbol,
        interval: found[0].parts.interval,
        files: found_views(found),
    }
}

/// A single import reads the directory and writes the database that the options name, and has the
/// files that were found there, in their order.
pub proof fn single_imports_go_where_the_options_say(args: Args, found: Seq<FoundFile>, k: int)
    ensures
        ({
            let job = single_job(args, found);
            &&& job.dir.root == args.dir@ && job.dir.parts.len() == 0
            &&& job.db_path.root == encode_utf8(args.db@) && job.db_path.parts.len() == 0
            &&& job.files.len() == found.len()
            &&& 0 <= k < found.len() ==> {
                &&& job.files[k].file_name == found[k].file_name
                &&& job.files[k].year == found[k].parts.year
                &&& job.files[k].month == found[k].parts.month
            }
        }),
{
}

/// Why there are no jobs.
pub enum BuildError {
    /// No directory holds CSV files.
    NoDirectories,
    /// The directory of a single import holds no file of the interval.
    NoMatch,
    /// A directory does not make a job.
    Directory(JobError),
}

/// Makes the job of a single import.
pub fn import_job_for_single_directory(
    args: &Args,
    entries: &Vec<Entry>,
    ignored: &mut Vec<IgnoredFile>,
) -> (job: Result<ImportJob, BuildError>)
    ensures
        ({
            let scan = scan_of(entries@, Some(args.interval@));
            &&& ignored_views(final(ignored)@) == ignored_views(old(ignored)@) + ignored_in(
                Seq::empty(),
                scan.ignored,
            )
            &&& match job {
                Ok(j) => scan.fault is None && scan.found.len() > 0 && j@ == single_job(
                    *args,
                    scan.found,
                ),
                Err(BuildError::Directory(e)) => scan.fault is Some && e@ == (
                    Seq::<Seq<u8>>::empty(),
                    scan.fault->0,
                ),
                Err(BuildError::NoMatch) => scan.fault is None && scan.found.len() == 0,
                Err(BuildError::NoDirectories) => false,
            }
        }),
        job matches Ok(j) ==> {
            &&& j.dir.root@ == args.dir@ && j.dir.parts@.len() == 0
            &&& j.db_path.root@ == encode_utf8(args.db@) && j.db_path.parts@.len() == 0
            &&& j.interval@ == args.interval@
            &&& j.files@.len() > 0
            &&& forall|k: int|
                0 <= k < j.files@.len() ==> name_parts((#[trigger] j.files@[k]).file_name@) == Some(
                    NameParts {
                        symbol: j.symbol@,
                        interval: j.interval@,
                        year: j.files@[k].year,
                        month: j.files@[k].month,
                    },
                )
        },
{
    let mut file_names: Vec<String> = Vec::new();
    let gathered = gather_files(entries, Some(args.interval.as_str()), &mut file_names);
    let ghost scan = scan_of(entries@, Some(args.interval@));
    assert(texts(file_names@) =~= scan.ignored);
    let here: Vec<Vec<u8>> = Vec::new();
    assert(names(here@) =~= Seq::empty());
    note_ignored(&here, &file_names, ignored);
    match gathered {
        Err(error) => Err(BuildError::Directory(JobError { dir: here, error })),
        Ok(None) => Err(BuildError::NoMatch),
        Ok(Some(group)) => {
            let below_db: Vec<Vec<u8>> = Vec::new();
            assert(names(below_db@) =~= Seq::empty());
            Ok(
                ImportJob {
                    dir: Location { root: slice_to_vec(args.dir.as_slice()), parts: here },
                    db_path: Location {
                        root: slice_to_vec(args.db.as_str().as_bytes()),
                        parts: below_db,
                    },
                    symbol: group.symbol,
                    interval: group.interval,
                    files: group.files,
                },
            )
        },
    }
}

/// What the tree of an import of every directory comes to.
pub open spec fn whole_tree(
    args: Args,
    dir_given: bool,
    db_given: bool,
    listing: Listing,
    ignored: Seq<IgnoredFile>,
) -> Collected {
    collected(
        input_root(args, dir_given),
        output_root(args, db_given),
        Seq::empty(),
        listing,
        collected_in(Seq::empty(), ignored),
    )
}

/// Are these the jobs that a search came to, sorted by their directories?
pub open spec fn are_in_order(jobs: Seq<ImportJob>, found: Seq<JobView>) -> bool {
    exists|unsorted: Seq<ImportJob>|
        job_views(unsorted) == found && #[trigger] is_stable_sort(unsorted, jobs)
}

/// Makes the jobs of an import. `listing` is what the first directory holds, with all that is
/// below it where every directory is imported.
pub fn build_import_jobs(
    args: &Args,
    dir_given: bool,
    db_given: bool,
    listing: &Listing,
    ignored: &mut Vec<IgnoredFile>,
) -> (jobs: Result<Vec<ImportJob>, BuildError>)
    ensures
        args.all ==> {
            let tree = whole_tree(*args, dir_given, db_given, *listing, old(ignored)@);
            &&& ignored_views(final(ignored)@) == tree.ignored
            &&& match jobs {
                Ok(j) => {
                    &&& tree.fault is None
                    &&& tree.jobs.len() > 0
                    &&& are_in_order(j@, tree.jobs)
                },
                Err(BuildError::Directory(e)) => tree.fault == Some(e@),
                Err(BuildError::NoDirectories) => tree.fault is None && tree.jobs.len() == 0,
                Err(BuildError::NoMatch) => false,
            }
        },
        !args.all ==> match *listing {
            Listing::Unreadable(i) => {
                &&& jobs matches Err(BuildError::Directory(e))
                &&& e@ == (Seq::<Seq<u8>>::empty(), DirectoryFault::Unreadable(i))
                &&& final(ignored)@ == old(ignored)@
            },
            Listing::Entries(entries) => {
                let scan = scan_of(entries@, Some(args.interval@));
                &&& ignored_views(final(ignored)@) == ignored_views(old(ignored)@) + ignored_in(
                    Seq::empty(),
                    scan.ignored,
                )
                &&& match jobs {
                    Ok(j) => {
                        &&& scan.fault is None
                        &&& scan.found.len() > 0
                        &&& job_views(j@) == seq![single_job(*args, scan.found)]
                    },
                    Err(BuildError::Directory(e)) => scan.fault is Some && e@ == (
                        Seq::<Seq<u8>>::empty(),
                        scan.fault->0,
                    ),
                    Err(BuildError::NoMatch) => scan.fault is None && scan.found.len() == 0,
                    Err(BuildError::NoDirectories) => false,
                }
            },
        },
{
    let here: Vec<Vec<u8>> = Vec::new();
    assert(names(here@) =~= Seq::empty());
    if args.all {
        let input = first_directory(args, dir_given);
        let output = if db_given {
            slice_to_vec(args.db.as_str().as_bytes())
        } else {
            slice_to_vec(DEFAULT_ALL_DB_DIR.as_bytes())
        };
        let mut jobs: Vec<ImportJob> = Vec::new();
        assert(jobs@ =~= Seq::empty());
        match collect_all_import_jobs(&input, &output, &here, listing, &mut jobs, ignored) {
            Err(e) => return Err(BuildError::Directory(e)),
            Ok(_) => {},
        }
        let ghost unsorted = jobs@;
        assert(job_views(unsorted).len() == unsorted.len());
        sort(&mut jobs);
        proof {
            stable_sort_keeps_everything(unsorted, jobs@);
        }
        if jobs.len() == 0 {
            return Err(BuildError::NoDirectories);
        }
        assert(is_stable_sort(unsorted, jobs@));
        assert(are_in_order(jobs@, job_views(unsorted)));
        return Ok(jobs);
    }
    match listing {
        Listing::Unreadable(i) => Err(
            BuildError::Directory(JobError { dir: here, error: DirectoryError::Unreadable(*i) }),
        ),
        Listing::Entries(entries) => match import_job_for_single_directory(args, entries, ignored) {
            Err(e) => Err(e),
            Ok(job) => {
                let mut jobs: Vec<ImportJob> = Vec::new();
                jobs.push(job);
                assert(job_views(jobs@) =~= seq![job@]);
                Ok(jobs)
            },
        },
    }
}

// ---------------------------------------------------------------------------------------------
// Mirrored directories
// ---------------------------------------------------------------------------------------------
/// Is the database of a job named after its symbol, in the same place below `output` as the job's
/// directory below `input`?
pub open spec fn is_mirrored(job: JobView, input: Seq<u8>, output: Seq<u8>) -> bool {
    &&& job.dir.root == input
    &&& job.db_path.root == output
    &&& job.db_path.parts == job.dir.parts.push(database_name(job.symbol))
    &&& job.files.len() > 0
}

spec fn all_mirrored(jobs: Seq<JobView>, input: Seq<u8>, output: Seq<u8>) -> bool {
    forall|i: int| 0 <= i < jobs.len() ==> is_mirrored(#[trigger] jobs[i], input, output)
}

proof fn lemma_collected_mirrored(
    input: Seq<u8>,
    output: Seq<u8>,
    parts: Seq<Seq<u8>>,
    listing: Listing,
    so_far: Collected,
)
    requires
        all_mirrored(so_far.jobs, input, output),
    ensures
        all_mirrored(collected(input, output, parts, listing, so_far).jobs, input, output),
    decreases listing, entry_count(listing) + 1,
{
    if let Listing::Entries(entries) = listing {
        let here = with_directory(input, output, parts, scan_of(entries@, None), so_far);
        if here.fault is None {
            lemma_below_mirrored(input, output, parts, listing, entries@.len(), here);
        }
    }
}

proof fn lemma_below_mirrored(
    input: Seq<u8>,
    output: Seq<u8>,
    parts: Seq<Seq<u8>>,
    listing: Listing,
    n: nat,
    so_far: Collected,
)
    requires
        all_mirrored(so_far.jobs, input, output),
    ensures
        all_mirrored(below(input, output, parts, listing, n, so_far).jobs, input, output),
    decreases listing, n,
{
    if let Listing::Entries(entries) = listing {
        if 0 < n <= entries@.len() {
            lemma_below_mirrored(input, output, parts, listing, (n - 1) as nat, so_far);
            let before = below(input, output, parts, listing, (n - 1) as nat, so_far);
            if let Entry::Dir(name, inner) = entries@[n - 1] {
                lemma_collected_mirrored(input, output, parts.push(name@), inner, before);
            }
        }
    }
}

/// An import of every directory mirrors the input tree: each job's database has the place below
/// the output root that the job's directory has below the input root, and bears its symbol's name.
pub proof fn databases_mirror_directories(
    args: Args,
    dir_given: bool,
    db_given: bool,
    listing: Listing,
    ignored: Seq<IgnoredFile>,
    jobs: Seq<ImportJob>,
)
    requires
        are_in_order(jobs, whole_tree(args, dir_given, db_given, listing, ignored).jobs),
    ensures
        forall|i: int|
            0 <= i < jobs.len() ==> is_mirrored(
                (#[trigger] jobs[i])@,
                input_root(args, dir_given),
                output_root(args, db_given),
            ),
        forall|i: int, j: int|
            0 <= i < j < jobs.len() ==> path_at_most(
                (#[trigger] jobs[i])@.dir.parts,
                (#[trigger] jobs[j])@.dir.parts,
            ),
{
    let tree = whole_tree(args, dir_given, db_given, listing, ignored);
    let input = input_root(args, dir_given);
    let output = output_root(args, db_given);
    lemma_collected_mirrored(
        input,
        output,
        Seq::empty(),
        listing,
        collected_in(Seq::empty(), ignored),
    );
    let unsorted = choose|unsorted: Seq<ImportJob>|
        job_views(unsorted) == tree.jobs && #[trigger] is_stable_sort(unsorted, jobs);
    stable_sort_keeps_everything(unsorted, jobs);
    assert forall|i: int| 0 <= i < jobs.len() implies is_mirrored(
        (#[trigger] jobs[i])@,
        input,
        output,
    ) by {
        assert(unsorted.contains(jobs[i]));
        let k = choose|k: int| 0 <= k < unsorted.len() && unsorted[k] == jobs[i];
        assert(job_views(unsorted)[k] == jobs[i]@);
        assert(is_mirrored(tree.jobs[k], input, output));
    }
    assert forall|i: int, j: int| 0 <= i < j < jobs.len() implies path_at_most(
        (#[trigger] jobs[i])@.dir.parts,
        (#[trigger] jobs[j])@.dir.parts,
    ) by {
        assert(jobs[i].at_most(jobs[j]));
    }
}

/// The place of a job's database, name by name: the names of the job's directory, and behind them the
/// symbol with its extension.
pub proof fn databases_are_named_after_symbols(job: JobView, input: Seq<u8>, output: Seq<u8>)
    requires
        is_mirrored(job, input, output),
    ensures
        job.dir.root == input,
        job.db_path.root == output,
        job.db_path.parts.len() == job.dir.parts.len() + 1,
        forall|i: int|
            0 <= i < job.dir.parts.len() ==> #[trigger] job.db_path.parts[i] == job.dir.parts[i],
        job.db_path.parts.last() == encode_utf8(job.symbol + ".duckdb"@),
{
}

/// The files of every job belong to it: their names say its symbol and its interval.
pub proof fn jobs_hold_files_of_their_symbol(
    input: Seq<u8>,
    output: Seq<u8>,
    parts: Seq<Seq<u8>>,
    entries: Seq<Entry>,
    args: Args,
)
    ensures
        ({
            let job = mirrored_job(input, output, parts, scan_of(entries, None).found);
            forall|k: int|
                0 <= k < job.files.len() ==> name_parts((#[trigger] job.files[k]).file_name)
                    == Some(
                    NameParts {
                        symbol: job.symbol,
                        interval: job.interval,
                        year: job.files[k].year,
                        month: job.files[k].month,
                    },
                )
        }),
        ({
            let job = single_job(args, scan_of(entries, Some(args.interval@)).found);
            forall|k: int|
                0 <= k < job.files.len() ==> name_parts((#[trigger] job.files[k]).file_name)
                    == Some(
                    NameParts {
                        symbol: job.symbol,
                        interval: args.interval@,
                        year: job.files[k].year,
                        month: job.files[k].month,
                    },
                )
        }),
{
    let found = scan_of(entries, None).found;
    let wanted = scan_of(entries, Some(args.interval@)).found;
    found_files_belong_together(entries, None);
    found_files_belong_together(entries, Some(args.interval@));
    assert forall|k: int| 0 <= k < found.len() implies name_parts(
        (#[trigger] found_views(found)[k]).file_name,
    ) == Some(
        NameParts {
            symbol: found[0].parts.symbol,
            interval: found[0].parts.interval,
            year: found_views(found)[k].year,
            month: found_views(found)[k].month,
        },
    ) by {
        assert(name_parts(found[k].file_name) == Some(found[k].parts));
    }
    assert forall|k: int| 0 <= k < wanted.len() implies name_parts(
        (#[trigger] found_views(wanted)[k]).file_name,
    ) == Some(
        NameParts {
            symbol: wanted[0].parts.symbol,
            interval: args.interval@,
            year: found_views(wanted)[k].year,
            month: found_views(wanted)[k].month,
        },
    ) by {
        assert(name_parts(wanted[k].file_name) == Some(wanted[k].parts));
    }
}

/// Directories do not share databases: where two jobs of an import of every directory write into
/// the same database, they are of the same directory.
pub proof fn every_directory_has_its_own_database(
    a: JobView,
    b: JobView,
    input: Seq<u8>,
    output: Seq<u8>,
)
    requires
        is_mirrored(a, input, output),
        is_mirrored(b, input, output),
    ensures
        a.db_path == b.db_path ==> a.dir == b.dir,
{
    if a.db_path == b.db_path {
        assert(a.db_path.parts.drop_last() =~= a.dir.parts);
        assert(b.db_path.parts.drop_last() =~= b.dir.parts);
    }
}

// ---------------------------------------------------------------------------------------------
// Every directory counts
// ---------------------------------------------------------------------------------------------
/// The directory that a route leads to, and the names on the way. A route gives the place of each
/// directory among the entries of the one before it.
pub open spec fn directory_at(listing: Listing, route: Seq<int>) -> Option<
    (Seq<Seq<u8>>, Listing),
>
    decreases route.len(),
{
    if route.len() == 0 {
        Some((Seq::empty(), listing))
    } else {
        match listing {
            Listing::Unreadable(_) => None,
            Listing::Entries(entries) => if 0 <= route[0] < entries@.len() {
                match entries@[route[0]] {
                    Entry::Dir(name, inner) => match directory_at(inner, route.drop_first()) {
                        Some((parts, found)) => Some((seq![name@] + parts, found)),
                        None => None,
                    },
                    _ => None,
                }
            } else {
                None
            },
        }
    }
}

/// Is this the job of the directory that a route leads to? `above` leads to where it begins.
pub open spec fn is_job_at(
    job: JobView,
    input: Seq<u8>,
    output: Seq<u8>,
    above: Seq<Seq<u8>>,
    listing: Listing,
    route: Seq<int>,
) -> bool {
    match directory_at(listing, route) {
        Some((parts, Listing::Entries(entries))) => {
            &&& scan_of(entries@, None).fault is None
            &&& scan_of(entries@, None).found.len() > 0
            &&& job == mirrored_job(input, output, above + parts, scan_of(entries@, None).found)
        },
        _ => false,
    }
}

/// What was collected stays.
proof fn lemma_jobs_stay(
    input: Seq<u8>,
    output: Seq<u8>,
    parts: Seq<Seq<u8>>,
    listing: Listing,
    so_far: Collected,
    job: JobView,
)
    requires
        so_far.jobs.contains(job),
    ensures
        collected(input, output, parts, listing, so_far).jobs.contains(job),
    decreases listing, entry_count(listing) + 1,
{
    if let Listing::Entries(entries) = listing {
        let here = with_directory(input, output, parts, scan_of(entries@, None), so_far);
        let k = choose|k: int| 0 <= k < so_far.jobs.len() && so_far.jobs[k] == job;
        assert(here.jobs[k] == job);
        if here.fault is None {
            lemma_jobs_stay_below(input, output, parts, listing, 0, entries@.len(), here, job);
        }
    }
}

/// What was collected stays, one entry after the other.
proof fn lemma_jobs_stay_below(
    input: Seq<u8>,
    output: Seq<u8>,
    parts: Seq<Seq<u8>>,
    listing: Listing,
    m: nat,
    n: nat,
    so_far: Collected,
    job: JobView,
)
    requires
        m <= n <= entry_count(listing),
        below(input, output, parts, listing, m, so_far).jobs.contains(job),
    ensures
        below(input, output, parts, listing, n, so_far).jobs.contains(job),
    decreases listing, n,
{
    if let Listing::Entries(entries) = listing {
        if m < n {
            let fewer = (n - 1) as nat;
            lemma_jobs_stay_below(input, output, parts, listing, m, fewer, so_far, job);
            if let Entry::Dir(name, inner) = entries@[n - 1] {
                let before = below(input, output, parts, listing, fewer, so_far);
                lemma_jobs_stay(input, output, parts.push(name@), inner, before, job);
            }
        }
    }
}

/// The job of the directory that a route leads to is collected.
proof fn lemma_collects(
    input: Seq<u8>,
    output: Seq<u8>,
    above: Seq<Seq<u8>>,
    listing: Listing,
    so_far: Collected,
    route: Seq<int>,
    job: JobView,
)
    requires
        collected(input, output, above, listing, so_far).fault is None,
        is_job_at(job, input, output, above, listing, route),
    ensures
        collected(input, output, above, listing, so_far).jobs.contains(job),
    decreases route.len(),
{
    if let Listing::Entries(entries) = listing {
        let here = with_directory(input, output, above, scan_of(entries@, None), so_far);
        if route.len() == 0 {
            assert(above + Seq::empty() =~= above);
            assert(here.jobs.last() == job);
            lemma_jobs_stay_below(input, output, above, listing, 0, entries@.len(), here, job);
        } else {
            let n = (route[0] + 1) as nat;
            if below(input, output, above, listing, n, here).fault is Some {
                lemma_fault_stays(input, output, above, listing, n, entries@.len(), here);
            }
            if let Entry::Dir(name, inner) = entries@[route[0]] {
                let before = below(input, output, above, listing, route[0] as nat, here);
                let (parts, _) = directory_at(inner, route.drop_first())->0;
                assert(above + (seq![name@] + parts) =~= above.push(name@) + parts);
                lemma_collects(
                    input,
                    output,
                    above.push(name@),
                    inner,
                    before,
                    route.drop_first(),
                    job,
                );
                lemma_jobs_stay_below(input, output, above, listing, n, entries@.len(), here, job);
            }
        }
    }
}

/// What is collected is the job of a directory that some route leads to.
proof fn lemma_collects_only(
    input: Seq<u8>,
    output: Seq<u8>,
    above: Seq<Seq<u8>>,
    listing: Listing,
    so_far: Collected,
    job: JobView,
)
    requires
        collected(input, output, above, listing, so_far).jobs.contains(job),
    ensures
        so_far.jobs.contains(job) || exists|route: Seq<int>| #[trigger]
            is_job_at(job, input, output, above, listing, route),
    decreases listing, entry_count(listing) + 1,
{
    if let Listing::Entries(entries) = listing {
        let here = with_directory(input, output, above, scan_of(entries@, None), so_far);
        if here.fault is None {
            lemma_collects_only_below(input, output, above, listing, entries@.len(), here, job);
        }
        if here.jobs.contains(job) && !so_far.jobs.contains(job) {
            let k = choose|k: int| 0 <= k < here.jobs.len() && here.jobs[k] == job;
            if k < so_far.jobs.len() {
                assert(so_far.jobs[k] == job);
            }
            assert(above + Seq::empty() =~= above);
            assert(is_job_at(job, input, output, above, listing, Seq::empty()));
        }
    }
}

/// What is collected from the first entries is the job of a directory that some route leads to.
proof fn lemma_collects_only_below(
    input: Seq<u8>,
    output: Seq<u8>,
    above: Seq<Seq<u8>>,
    listing: Listing,
    n: nat,
    so_far: Collected,
    job: JobView,
)
    requires
        n <= entry_count(listing),
        below(input, output, above, listing, n, so_far).jobs.contains(job),
    ensures
        so_far.jobs.contains(job) || exists|route: Seq<int>| #[trigger]
            is_job_at(job, input, output, above, listing, route),
    decreases listing, n,
{
    if let Listing::Entries(entries) = listing {
        if 0 < n {
            let fewer = (n - 1) as nat;
            let before = below(input, output, above, listing, fewer, so_far);
            if before.jobs.contains(job) {
                lemma_collects_only_below(input, output, above, listing, fewer, so_far, job);
            } else if let Entry::Dir(name, inner) = entries@[n - 1] {
                let under = above.push(name@);
                lemma_collects_only(input, output, under, inner, before, job);
                let rest = choose|route: Seq<int>| #[trigger]
                    is_job_at(job, input, output, under, inner, route);
                let route = seq![n - 1] + rest;
                assert(route.drop_first() =~= rest);
                let (parts, _) = directory_at(inner, rest)->0;
                assert(above + (seq![name@] + parts) =~= under + parts);
                assert(is_job_at(job, input, output, above, listing, route));
            }
        }
    }
}

/// An import of every directory has a job for each directory of the tree that holds CSV files,
/// and no other.
pub proof fn every_directory_is_imported(
    args: Args,
    dir_given: bool,
    db_given: bool,
    listing: Listing,
    ignored: Seq<IgnoredFile>,
    jobs: Seq<ImportJob>,
    job: JobView,
)
    requires
        whole_tree(args, dir_given, db_given, listing, ignored).fault is None,
        are_in_order(jobs, whole_tree(args, dir_given, db_given, listing, ignored).jobs),
    ensures
        job_views(jobs).contains(job) <==> exists|route: Seq<int>| #[trigger]
            is_job_at(
                job,
                input_root(args, dir_given),
                output_root(args, db_given),
                Seq::empty(),
                listing,
                route,
            ),
{
    let tree = whole_tree(args, dir_given, db_given, listing, ignored);
    let input = input_root(args, dir_given);
    let output = output_root(args, db_given);
    let none = collected_in(Seq::empty(), ignored);
    let unsorted = choose|unsorted: Seq<ImportJob>|
        job_views(unsorted) == tree.jobs && #[trigger] is_stable_sort(unsorted, jobs);
    stable_sort_keeps_everything(unsorted, jobs);
    if job_views(jobs).contains(job) {
        let i = choose|i: int| 0 <= i < jobs.len() && job_views(jobs)[i] == job;
        assert(unsorted.contains(jobs[i]));
        let k = choose|k: int| 0 <= k < unsorted.len() && unsorted[k] == jobs[i];
        assert(tree.jobs[k] == job);
        lemma_collects_only(input, output, Seq::empty(), listing, none, job);
    }
    if exists|route: Seq<int>| #[trigger]
        is_job_at(job, input, output, Seq::empty(), listing, route) {
        let route = choose|route: Seq<int>| #[trigger]
            is_job_at(job, input, output, Seq::empty(), listing, route);
        lemma_collects(input, output, Seq::empty(), listing, none, route, job);
        let k = choose|k: int| 0 <= k < tree.jobs.len() && tree.jobs[k] == job;
        assert(job_views(unsorted)[k] == unsorted[k]@);
        assert(unsorted.contains(unsorted[k]));
        let i = choose|i: int| 0 <= i < jobs.len() && jobs[i] == unsorted[k];
        assert(job_views(jobs)[i] == job);
    }
}

// ---------------------------------------------------------------------------------------------
// No directory counts twice
// ---------------------------------------------------------------------------------------------
/// Do the directories in each directory of a tree have different names?
pub open spec fn names_differ(listing: Listing) -> bool
    decreases listing,
{
    match listing {
        Listing::Unreadable(_) => true,
        Listing::Entries(entries) => {
            &&& forall|i: int, j: int|
                0 <= i < j < entries@.len() ==> match (
                    #[trigger] entries@[i],
                    #[trigger] entries@[j],
                ) {
                    (Entry::Dir(one, _), Entry::Dir(other, _)) => one@ != other@,
                    _ => true,
                }
            &&& forall|i: int|
                0 <= i < entries@.len() ==> match #[trigger] entries@[i] {
                    Entry::Dir(_, inner) => names_differ(inner),
                    _ => true,
                }
        },
    }
}

/// Is `jobs` made of those before and of others, no two of which are of the same directory?
spec fn adds_different(before: Seq<JobView>, jobs: Seq<JobView>) -> bool {
    &&& before.len() <= jobs.len()
    &&& forall|i: int, j: int|
        before.len() <= i < j < jobs.len() ==> (#[trigger] jobs[i]).dir.parts != (
        #[trigger] jobs[j]).dir.parts
}

/// Are the jobs from `from` on of directories below this one?
spec fn are_under(jobs: Seq<JobView>, from: nat, parts: Seq<Seq<u8>>) -> bool {
    forall|i: int| from <= i < jobs.len() ==> parts.is_prefix_of((#[trigger] jobs[i]).dir.parts)
}

/// Is a directory reached through one of the first `n` entries of another one?
spec fn is_through(dir: Seq<Seq<u8>>, parts: Seq<Seq<u8>>, listing: Listing, n: nat) -> bool {
    &&& dir.len() > parts.len()
    &&& listing matches Listing::Entries(entries) && exists|k: int|
        0 <= k < n && k < entries@.len() && (#[trigger] entries@[k] matches Entry::Dir(name, _)
            && dir[parts.len() as int] == name@)
}

proof fn lemma_collected_different(
    input: Seq<u8>,
    output: Seq<u8>,
    parts: Seq<Seq<u8>>,
    listing: Listing,
    so_far: Collected,
)
    requires
        names_differ(listing),
    ensures
        ({
            let jobs = collected(input, output, parts, listing, so_far).jobs;
            &&& adds_different(so_far.jobs, jobs)
            &&& are_under(jobs, so_far.jobs.len(), parts)
            &&& jobs.take(so_far.jobs.len() as int) == so_far.jobs
        }),
    decreases listing, entry_count(listing) + 1,
{
    let all = collected(input, output, parts, listing, so_far).jobs;
    let old = so_far.jobs.len();
    match listing {
        Listing::Unreadable(_) => {
            assert(all.take(old as int) =~= so_far.jobs);
        },
        Listing::Entries(entries) => {
            let here = with_directory(input, output, parts, scan_of(entries@, None), so_far);
            assert(here.jobs.take(old as int) =~= so_far.jobs);
            if here.fault is None {
                lemma_below_different(input, output, parts, listing, entries@.len(), here);
                let n = here.jobs.len();
                assert forall|i: int| old <= i < n implies (#[trigger] all[i]).dir.parts
                    == parts by {
                    assert(all.take(n as int)[i] == here.jobs[i]);
                }
                assert forall|i: int, j: int| old <= i < j < all.len() implies (
                #[trigger] all[i]).dir.parts != (#[trigger] all[j]).dir.parts by {
                    if i < n {
                        assert(is_through(all[j].dir.parts, parts, listing, entries@.len()));
                    }
                }
                assert(all.take(old as int) =~= all.take(n as int).take(old as int));
            }
        },
    }
}

proof fn lemma_below_different(
    input: Seq<u8>,
    output: Seq<u8>,
    parts: Seq<Seq<u8>>,
    listing: Listing,
    n: nat,
    so_far: Collected,
)
    requires
        names_differ(listing),
        n <= entry_count(listing),
    ensures
        ({
            let jobs = below(input, output, parts, listing, n, so_far).jobs;
            &&& adds_different(so_far.jobs, jobs)
            &&& are_under(jobs, so_far.jobs.len(), parts)
            &&& jobs.take(so_far.jobs.len() as int) == so_far.jobs
            &&& forall|i: int|
                so_far.jobs.len() <= i < jobs.len() ==> is_through(
                    (#[trigger] jobs[i]).dir.parts,
                    parts,
                    listing,
                    n,
                )
        }),
    decreases listing, n,
{
    let all = below(input, output, parts, listing, n, so_far).jobs;
    let old = so_far.jobs.len();
    if let Listing::Entries(entries) = listing {
        if n == 0 {
            assert(all.take(old as int) =~= so_far.jobs);
        } else {
            let fewer = (n - 1) as nat;
            lemma_below_different(input, output, parts, listing, fewer, so_far);
            let before = below(input, output, parts, listing, fewer, so_far);
            let m = before.jobs.len();
            assert forall|i: int| old <= i < m implies is_through(
                (#[trigger] before.jobs[i]).dir.parts,
                parts,
                listing,
                n,
            ) by {
                lemma_still_through(before.jobs[i].dir.parts, parts, listing, fewer, n);
            }
            if before.fault is None {
                if let Entry::Dir(name, inner) = entries@[n - 1] {
                    let under = parts.push(name@);
                    assert(names_differ(inner));
                    lemma_collected_different(input, output, under, inner, before);
                    assert(all == collected(input, output, under, inner, before).jobs);
                    assert forall|i: int| 0 <= i < m implies #[trigger] all[i]
                        == before.jobs[i] by {
                        assert(all.take(m as int)[i] == before.jobs[i]);
                    }
                    assert forall|i: int| m <= i < all.len() implies {
                        &&& (#[trigger] all[i]).dir.parts.len() > parts.len()
                        &&& all[i].dir.parts[parts.len() as int] == name@
                        &&& parts.is_prefix_of(all[i].dir.parts)
                        &&& is_through(all[i].dir.parts, parts, listing, n)
                    } by {
                        let dir = all[i].dir.parts;
                        assert(under.is_prefix_of(dir));
                        assert(dir[parts.len() as int] == under[parts.len() as int]);
                        assert(parts =~= dir.take(parts.len() as int)) by {
                            assert(under =~= dir.take(under.len() as int));
                            assert forall|k: int| 0 <= k < parts.len() implies parts[k]
                                == dir[k] by {
                                assert(under[k] == parts[k]);
                            }
                        }
                        assert(entries@[n - 1] matches Entry::Dir(x, _) && dir[parts.len() as int]
                            == x@);
                    }
                    assert forall|i: int, j: int| old <= i < j < all.len() implies (
                    #[trigger] all[i]).dir.parts != (#[trigger] all[j]).dir.parts by {
                        if i < m && j < m {
                            assert(before.jobs[i].dir.parts != before.jobs[j].dir.parts);
                        } else if i < m {
                            let one = before.jobs[i].dir.parts;
                            assert(is_through(one, parts, listing, fewer));
                            let k = choose|k: int|
                                0 <= k < fewer && k < entries@.len() && (
                                #[trigger] entries@[k] matches Entry::Dir(x, _)
                                    && one[parts.len() as int] == x@);
                            assert(entries@[k] is Dir && entries@[n - 1] is Dir);
                        }
                    }
                    assert(all.take(old as int) =~= all.take(m as int).take(old as int));
                }
            }
        }
    } else {
        assert(all.take(old as int) =~= so_far.jobs);
    }
}

/// What is reached through the first entries is reached through more of them.
proof fn lemma_still_through(
    dir: Seq<Seq<u8>>,
    parts: Seq<Seq<u8>>,
    listing: Listing,
    n: nat,
    more: nat,
)
    requires
        n <= more,
        is_through(dir, parts, listing, n),
    ensures
        is_through(dir, parts, listing, more),
{
}

/// An import of every directory has no two jobs for one directory, where the names in each
/// directory differ.
pub proof fn no_directory_is_imported_twice(
    args: Args,
    dir_given: bool,
    db_given: bool,
    listing: Listing,
    ignored: Seq<IgnoredFile>,
    jobs: Seq<ImportJob>,
)
    requires
        names_differ(listing),
        are_in_order(jobs, whole_tree(args, dir_given, db_given, listing, ignored).jobs),
    ensures
        forall|i: int, j: int|
            0 <= i < j < jobs.len() ==> (#[trigger] jobs[i])@.dir != (#[trigger] jobs[j])@.dir,
{
    let tree = whole_tree(args, dir_given, db_given, listing, ignored);
    lemma_collected_different(
        input_root(args, dir_given),
        output_root(args, db_given),
        Seq::empty(),
        listing,
        collected_in(Seq::empty(), ignored),
    );
    let unsorted = choose|unsorted: Seq<ImportJob>|
        job_views(unsorted) == tree.jobs && #[trigger] is_stable_sort(unsorted, jobs);
    let order = choose|order: Seq<int>| #[trigger]
        sorts(order, unsorted) && jobs == arranged(order, unsorted);
    assert forall|i: int, j: int| 0 <= i < j < jobs.len() implies (#[trigger] jobs[i])@.dir != (
    #[trigger] jobs[j])@.dir by {
        let a = order[i];
        let b = order[j];
        assert(a != b);
        assert(tree.jobs[a] == jobs[i]@ && tree.jobs[b] == jobs[j]@);
        assert(tree.jobs[a].dir.parts != tree.jobs[b].dir.parts);
    }
}

// ---------------------------------------------------------------------------------------------
// Messages
// ---------------------------------------------------------------------------------------------
/// The warning about a CSV file whose name does not follow the pattern.
pub fn ignored_message(dir: &str, file_name: &str) -> (text: String)
    ensures
        text@ == "Warning: ignoring CSV with unexpected name in "@ + dir@ + ": "@ + file_name@,
{
    let mut text = "Warning: ignoring CSV with unexpected name in ".to_owned();
    text.append(dir);
    text.append(": ");
    text.append(file_name);
    text
}

/// The wording of what is wrong with a directory. In a single import the interval is named too.
/// The failure to read an entry speaks for itself.
pub open spec fn directory_error_text(
    error: DirectoryFault,
    interval: Option<Seq<char>>,
    dir: Seq<char>,
) -> Option<Seq<char>> {
    match error {
        DirectoryFault::Unreadable(_) => Some("Cannot read "@ + dir),
        DirectoryFault::BadEntry(_) => None,
        DirectoryFault::MixedSymbols { existing, found } => Some(
            "Mixed symbols"@ + (match interval {
                Some(i) => " for interval "@ + i,
                None => Seq::empty(),
            }) + " in "@ + dir + ": found both "@ + existing + " and "@ + found,
        ),
        DirectoryFault::MixedIntervals { existing, found } => Some(
            "Mixed intervals in "@ + dir + ": found both "@ + existing + " and "@ + found,
        ),
    }
}

/// The wording of why there are no jobs.
pub open spec fn build_error_text(error: BuildError, args: Args, dir: Seq<char>) -> Option<
    Seq<char>,
> {
    match error {
        BuildError::NoDirectories => Some("No CSV directories found in "@ + dir),
        BuildError::NoMatch => Some(
            "No files found matching *-"@ + args.interval@ + "-YYYY-MM.csv in "@ + dir,
        ),
        BuildError::Directory(e) => directory_error_text(
            e.error@,
            if args.all {
                None
            } else {
                Some(args.interval@)
            },
            dir,
        ),
    }
}

impl DirectoryError {
    /// The wording of the error, if it has one of its own.
    pub fn message(&self, interval: Option<&str>, dir: &str) -> (text: Option<String>)
        ensures
            optional_text(text) == directory_error_text(
                self@,
                match interval {
                    Some(i) => Some(i@),
                    None => None,
                },
                dir@,
            ),
            text is None <==> self is BadEntry,
            self is Unreadable ==> text->0@ == "Cannot read "@ + dir@,
            self matches DirectoryError::MixedSymbols { existing, found } ==> {
                &&& interval is None ==> text->0@ == "Mixed symbols in "@ + dir@ + ": found both "@
                    + existing@ + " and "@ + found@
                &&& interval matches Some(i) ==> text->0@ == "Mixed symbols for interval "@ + i@
                    + " in "@ + dir@ + ": found both "@ + existing@ + " and "@ + found@
            },
            self matches DirectoryError::MixedIntervals { existing, found } ==> text->0@
                == "Mixed intervals in "@ + dir@ + ": found both "@ + existing@ + " and "@ + found@,
    {
        proof {
            reveal_strlit("Mixed symbols");
            reveal_strlit(" for interval ");
            reveal_strlit(" in ");
            reveal_strlit("Mixed symbols in ");
            reveal_strlit("Mixed symbols for interval ");
            assert("Mixed symbols in "@ =~= "Mixed symbols"@ + " in "@);
            assert("Mixed symbols for interval "@ =~= "Mixed symbols"@ + " for interval "@);
        }
        let mut text = String::new();
        match self {
            DirectoryError::Unreadable(_) => {
                text.append("Cannot read ");
                text.append(dir);
            },
            DirectoryError::BadEntry(_) => {
                return None;
            },
            DirectoryError::MixedSymbols { existing, found } => {
                text.append("Mixed symbols");
                if let Some(i) = interval {
                    text.append(" for interval ");
                    text.append(i);
                }
                text.append(" in ");
                text.append(dir);
                text.append(": found both ");
                text.append(existing.as_str());
                text.append(" and ");
                text.append(found.as_str());
            },
            DirectoryError::MixedIntervals { existing, found } => {
                text.append("Mixed intervals in ");
                text.append(dir);
                text.append(": found both ");
                text.append(existing.as_str());
                text.append(" and ");
                text.append(found.as_str());
            },
        }
        assert(text@ =~= directory_error_text(
            self@,
            match interval {
                Some(i) => Some(i@),
                None => None,
            },
            dir@,
        )->0);
        Some(text)
    }
}

impl BuildError {
    /// The wording of the error, if it has one of its own. `dir` is the directory at fault, or the
    /// first one.
    pub fn message(&self, args: &Args, dir: &str) -> (text: Option<String>)
        ensures
            optional_text(text) == build_error_text(*self, *args, dir@),
            self is NoDirectories ==> text is Some && text->0@ == "No CSV directories found in "@
                + dir@,
            self is NoMatch ==> text is Some && text->0@ == "No files found matching *-"@
                + args.interval@ + "-YYYY-MM.csv in "@ + dir@,
    {
        match self {
            BuildError::NoDirectories => {
                let mut text = "No CSV directories found in ".to_owned();
                text.append(dir);
                Some(text)
            },
            BuildError::NoMatch => {
                let mut text = "No files found matching *-".to_owned();
                text.append(args.interval.as_str());
                text.append("-YYYY-MM.csv in ");
                text.append(dir);
                Some(text)
            },
            BuildError::Directory(e) => if args.all {
                e.error.message(None, dir)
            } else {
                e.error.message(Some(args.interval.as_str()), dir)
            },
        }
    }
}

} // verus!
