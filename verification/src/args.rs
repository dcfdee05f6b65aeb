//! The options of an import, what they exclude, and what the command line itself decides.

use crate::text::{append_decimal, begins_with, characters, decimal, same_text};
use vstd::prelude::*;

verus! {

/// The input directory of a single import when none is given.
pub const DEFAULT_SINGLE_DIR: &'static str = "../data/BTCUSDT/";

/// The database of a single import when none is given.
pub const DEFAULT_SINGLE_DB: &'static str = "../db/BTCUSDT/BTCUSDT.duckdb";

/// The input root of an import of every directory when none is given.
pub const DEFAULT_ALL_DIR: &'static str = "../data/";

/// The output root of an import of every directory when none is given.
pub const DEFAULT_ALL_DB_DIR: &'static str = "../db/";

/// A single import without options is one of the directories of an import of every directory without
/// options, and its database is the one that it has there.
pub proof fn defaults_go_together()
    ensures
        DEFAULT_SINGLE_DIR@ == DEFAULT_ALL_DIR@ + "BTCUSDT/"@,
        DEFAULT_SINGLE_DB@ == DEFAULT_ALL_DB_DIR@ + "BTCUSDT/"@ + "BTCUSDT"@ + ".duckdb"@,
        DEFAULT_ALL_DIR@ == "../data/"@,
        DEFAULT_ALL_DB_DIR@ == "../db/"@,
{
    reveal_strlit("../data/BTCUSDT/");
    reveal_strlit("../db/BTCUSDT/BTCUSDT.duckdb");
    reveal_strlit("../data/");
    reveal_strlit("../db/");
    reveal_strlit("BTCUSDT/");
    reveal_strlit("BTCUSDT");
    reveal_strlit(".duckdb");
    assert(DEFAULT_SINGLE_DIR@ =~= DEFAULT_ALL_DIR@ + "BTCUSDT/"@);
    assert(DEFAULT_SINGLE_DB@ =~= DEFAULT_ALL_DB_DIR@ + "BTCUSDT/"@ + "BTCUSDT"@ + ".duckdb"@);
}

/// How rows go into the database.
#[derive(Clone, Copy, Debug, PartialEq, Eq, Structural)]
pub enum ImportMode {
    /// Prepared statements with periodic commits.
    Safe,
    /// Bulk appends with periodic flushes.
    Balanced,
    /// Bulk appends with a single flush at the end.
    Unsafe,
}

/// The options of an import. Paths are held as the bytes that the operating system uses.
pub struct Args {
    pub dir: Vec<u8>,
    pub db: String,
    pub interval: String,
    pub table: String,
    pub batch_size: usize,
    pub progress_every: usize,
    pub has_header: bool,
    pub recreate: bool,
    pub recreate_pragmatic: bool,
    pub import_mode: ImportMode,
    pub replace_existing: bool,
    pub skip_order_check: bool,
    pub auto: Option<usize>,
    pub all: bool,
    pub jobs: usize,
}

/// Why a set of options is refused.
#[derive(Clone, Copy, Debug, PartialEq, Eq, Structural)]
pub enum ArgsError {
    BatchSizeZero,
    ProgressEveryZero,
    JobsZero,
    BothRecreates,
    AutoZero,
    AutoWithRecreate,
}

/// The first rule that a set of options breaks.
pub open spec fn first_args_error(args: Args) -> Option<ArgsError> {
    if args.batch_size == 0 {
        Some(ArgsError::BatchSizeZero)
    } else if args.progress_every == 0 {
        Some(ArgsError::ProgressEveryZero)
    } else if args.jobs == 0 {
        Some(ArgsError::JobsZero)
    } else if args.recreate && args.recreate_pragmatic {
        Some(ArgsError::BothRecreates)
    } else if args.auto == Some(0usize) {
        Some(ArgsError::AutoZero)
    } else if args.auto is Some && (args.recreate || args.recreate_pragmatic) {
        Some(ArgsError::AutoWithRecreate)
    } else {
        None
    }
}

/// Checks a set of options.
pub fn validate_args(args: &Args) -> (result: Result<(), ArgsError>)
    ensures
        match result {
            Ok(_) => first_args_error(*args) is None,
            Err(e) => first_args_error(*args) == Some(e),
        },
        result is Ok <==> {
            &&& args.batch_size > 0
            &&& args.progress_every > 0
            &&& args.jobs > 0
            &&& !(args.recreate && args.recreate_pragmatic)
            &&& args.auto matches Some(limit) ==> limit > 0 && !args.recreate
                && !args.recreate_pragmatic
        },
{
    if args.batch_size == 0 {
        return Err(ArgsError::BatchSizeZero);
    }
    if args.progress_every == 0 {
        return Err(ArgsError::ProgressEveryZero);
    }
    if args.jobs == 0 {
        return Err(ArgsError::JobsZero);
    }
    if args.recreate && args.recreate_pragmatic {
        return Err(ArgsError::BothRecreates);
    }
    if let Some(limit) = args.auto {
        if limit == 0 {
            return Err(ArgsError::AutoZero);
        }
        if args.recreate || args.recreate_pragmatic {
            return Err(ArgsError::AutoWithRecreate);
        }
    }
    Ok(())
}

/// Options are in order exactly where every number counts something, at most one way to recreate is
/// asked for, and none together with the newest files only. What is wrong with others is so.
pub proof fn options_are_judged_by_every_rule(args: Args)
    ensures
        first_args_error(args) is None <==> {
            &&& args.batch_size > 0
            &&& args.progress_every > 0
            &&& args.jobs > 0
            &&& !(args.recreate && args.recreate_pragmatic)
            &&& args.auto matches Some(limit) ==> limit > 0 && !args.recreate
                && !args.recreate_pragmatic
        },
        first_args_error(args) == Some(ArgsError::BatchSizeZero) <==> args.batch_size == 0,
        first_args_error(args) == Some(ArgsError::ProgressEveryZero) <==> args.progress_every == 0
            && args.batch_size > 0,
        first_args_error(args) == Some(ArgsError::JobsZero) <==> args.jobs == 0 && args.batch_size
            > 0 && args.progress_every > 0,
        first_args_error(args) == Some(ArgsError::BothRecreates) <==> args.recreate
            && args.recreate_pragmatic && args.batch_size > 0 && args.progress_every > 0
            && args.jobs > 0,
        first_args_error(args) == Some(ArgsError::AutoZero) <==> args.auto == Some(0usize) && !(
        args.recreate && args.recreate_pragmatic) && args.batch_size > 0 && args.progress_every > 0
            && args.jobs > 0,
        first_args_error(args) == Some(ArgsError::AutoWithRecreate) ==> args.auto is Some && (
        args.recreate || args.recreate_pragmatic),
{
}

/// The wording of an options error.
pub open spec fn args_error_text(error: ArgsError) -> Seq<char> {
    match error {
        ArgsError::BatchSizeZero => "--batch-size must be greater than 0"@,
        ArgsError::ProgressEveryZero => "--progress-every must be greater than 0"@,
        ArgsError::JobsZero => "--jobs must be greater than 0"@,
        ArgsError::BothRecreates => "--recreate and --recreate-pragmatic cannot be used together"@,
        ArgsError::AutoZero => "--auto must be greater than 0"@,
        ArgsError::AutoWithRecreate => "--auto cannot be combined with recreate options"@,
    }
}

impl ArgsError {
    /// The wording of the error.
    pub fn message(&self) -> (text: &'static str)
        ensures
            text@ == args_error_text(*self),
            self == ArgsError::BatchSizeZero ==> text@ == "--batch-size must be greater than 0"@,
            self == ArgsError::ProgressEveryZero ==> text@
                == "--progress-every must be greater than 0"@,
            self == ArgsError::JobsZero ==> text@ == "--jobs must be greater than 0"@,
            self == ArgsError::BothRecreates ==> text@
                == "--recreate and --recreate-pragmatic cannot be used together"@,
            self == ArgsError::AutoZero ==> text@ == "--auto must be greater than 0"@,
            self == ArgsError::AutoWithRecreate ==> text@
                == "--auto cannot be combined with recreate options"@,
    {
        match self {
            ArgsError::BatchSizeZero => "--batch-size must be greater than 0",
            ArgsError::ProgressEveryZero => "--progress-every must be greater than 0",
            ArgsError::JobsZero => "--jobs must be greater than 0",
            ArgsError::BothRecreates => {
                "--recreate and --recreate-pragmatic cannot be used together"
            },
            ArgsError::AutoZero => "--auto must be greater than 0",
            ArgsError::AutoWithRecreate => "--auto cannot be combined with recreate options",
        }
    }
}

// ---------------------------------------------------------------------------------------------
// SQL identifiers
// ---------------------------------------------------------------------------------------------
/// Why a name cannot stand in an SQL statement.
#[derive(Clone, Copy, Debug, PartialEq, Eq, Structural)]
pub enum IdentError {
    Empty,
    Unsafe,
}

/// An ASCII letter or digit, or an underscore.
pub open spec fn is_ident_char(c: char) -> bool {
    ('a' <= c <= 'z') || ('A' <= c <= 'Z') || ('0' <= c <= '9') || c == '_'
}

/// A name of ASCII letters, digits and underscores, with at least one of them.
pub open spec fn is_ident(name: Seq<char>) -> bool {
    name.len() > 0 && forall|i: int| 0 <= i < name.len() ==> is_ident_char(#[trigger] name[i])
}

/// Checks that a name can stand in an SQL statement as it is.
pub fn validate_ident(name: &str) -> (result: Result<(), IdentError>)
    ensures
        result is Ok <==> is_ident(name@),
        result is Ok ==> forall|i: int|
            0 <= i < name@.len() ==> {
                ||| 'a' <= #[trigger] name@[i] <= 'z'
                ||| 'A' <= name@[i] <= 'Z'
                ||| '0' <= name@[i] <= '9'
                ||| name@[i] == '_'
            },
        result == Err::<(), IdentError>(IdentError::Empty) <==> name@.len() == 0,
{
    let chars = characters(name);
    if chars.len() == 0 {
        return Err(IdentError::Empty);
    }
    let mut i: usize = 0;
    while i < chars.len()
        invariant
            i <= chars@.len(),
            chars@ == name@,
            chars@.len() > 0,
            forall|k: int| 0 <= k < i ==> is_ident_char(#[trigger] name@[k]),
        decreases chars@.len() - i,
    {
        let c = chars[i];
        let fits = ('a' <= c && c <= 'z') || ('A' <= c && c <= 'Z') || ('0' <= c && c <= '9') || c
            == '_';
        if !fits {
            assert(!is_ident_char(name@[i as int]));
            return Err(IdentError::Unsafe);
        }
        i += 1;
    }
    Ok(())
}

/// A name is accepted exactly where each of its characters is, alone. An accepted character is a
/// letter, a digit or an underscore, and all of those are accepted.
pub proof fn identifiers_are_judged_by_their_characters(name: Seq<char>, c: char)
    ensures
        is_ident(name.push(c)) <==> is_ident(seq![c]) && (name.len() == 0 || is_ident(name)),
        !is_ident(Seq::empty()),
        is_ident(seq![c]) <==> {
            ||| 'a' <= c <= 'z'
            ||| 'A' <= c <= 'Z'
            ||| '0' <= c <= '9'
            ||| c == '_'
        },
{
    let more = name.push(c);
    assert(seq![c][0] == c);
    assert(more[name.len() as int] == c);
    if is_ident(more) {
        assert forall|i: int| 0 <= i < name.len() implies is_ident_char(#[trigger] name[i]) by {
            assert(more[i] == name[i]);
        }
    }
    if is_ident(seq![c]) && (name.len() == 0 || is_ident(name)) {
        assert forall|i: int| 0 <= i < more.len() implies is_ident_char(#[trigger] more[i]) by {
            if i < name.len() {
                assert(more[i] == name[i]);
            }
        }
    }
}

/// The wording of an identifier error.
pub open spec fn ident_error_text(error: IdentError, name: Seq<char>) -> Seq<char> {
    match error {
        IdentError::Empty => "SQL identifier cannot be empty"@,
        IdentError::Unsafe => "Unsafe SQL identifier: "@ + name,
    }
}

impl IdentError {
    /// The wording of the error for the name that was refused.
    pub fn message(&self, name: &str) -> (text: String)
        ensures
            text@ == ident_error_text(*self, name@),
            self == IdentError::Empty ==> text@ == "SQL identifier cannot be empty"@,
            self == IdentError::Unsafe ==> text@ == "Unsafe SQL identifier: "@ + name@,
    {
        match self {
            IdentError::Empty => "SQL identifier cannot be empty".to_owned(),
            IdentError::Unsafe => {
                let mut text = "Unsafe SQL identifier: ".to_owned();
                text.append(name);
                text
            },
        }
    }
}

// ---------------------------------------------------------------------------------------------
// The command line
// ---------------------------------------------------------------------------------------------
/// Does one word of the command line give the option with this short and this long name?
pub open spec fn gives_option(word: Seq<char>, short: Seq<char>, long: Seq<char>) -> bool {
    word == short || word == long || (long + "="@).is_prefix_of(word)
}

/// Does a word behind the first one give the option with this short and this long name?
pub open spec fn has_option(words: Seq<String>, short: Seq<char>, long: Seq<char>) -> bool {
    exists|i: int| 1 <= i < words.len() && #[trigger] gives_option(words[i]@, short, long)
}

/// Is the option among the words of a command line, which begins with the program's name?
pub fn arg_was_provided(words: &Vec<String>, short: &str, long: &str) -> (yes: bool)
    ensures
        yes == has_option(words@, short@, long@),
        forall|i: int| 1 <= i < words@.len() && #[trigger] words@[i]@ == short@ ==> yes,
        forall|i: int| 1 <= i < words@.len() && #[trigger] words@[i]@ == long@ ==> yes,
        forall|i: int|
            1 <= i < words@.len() && (long@ + "="@).is_prefix_of(#[trigger] words@[i]@) ==> yes,
        yes ==> exists|i: int|
            1 <= i < words@.len() && (#[trigger] words@[i]@ == short@ || words@[i]@ == long@ || (
            long@ + "="@).is_prefix_of(words@[i]@)),
{
    let mut assigned = long.to_owned();
    assigned.append("=");
    let mut i: usize = 1;
    while i < words.len()
        invariant
            1 <= i,
            assigned@ == long@ + "="@,
            forall|k: int| 1 <= k < i && k < words@.len() ==> !#[trigger] gives_option(
                words@[k]@,
                short@,
                long@,
            ),
        decreases words@.len() - i,
    {
        let word = words[i].as_str();
        if same_text(word, short) || same_text(word, long) || begins_with(word, assigned.as_str()) {
            assert(gives_option(words@[i as int]@, short@, long@));
            return true;
        }
        i += 1;
    }
    assert forall|k: int| 1 <= k < words@.len() implies #[trigger] words@[k]@ != short@
        && words@[k]@ != long@ && !(long@ + "="@).is_prefix_of(words@[k]@) by {
        assert(!gives_option(words@[k]@, short@, long@));
    }
    false
}

/// An option counts as given by its short name, by its long name, and by its long name with a value
/// behind an equals sign, wherever on the command line that stands behind the program's name.
pub proof fn every_form_of_an_option_counts(
    words: Seq<String>,
    i: int,
    short: Seq<char>,
    long: Seq<char>,
    value: Seq<char>,
)
    requires
        1 <= i < words.len(),
    ensures
        words[i]@ == short ==> has_option(words, short, long),
        words[i]@ == long ==> has_option(words, short, long),
        words[i]@ == long + "="@ + value ==> has_option(words, short, long),
{
    if words[i]@ == long + "="@ + value {
        assert((long + "="@ + value).take((long + "="@).len() as int) =~= long + "="@);
        assert((long + "="@).is_prefix_of(words[i]@));
    }
    if words[i]@ == short || words[i]@ == long || words[i]@ == long + "="@ + value {
        assert(gives_option(words[i]@, short, long));
    }
}

/// An option counts as given in no other way: not by the program's name, and not by a word that
/// neither is one of its names nor begins with the long one and an equals sign.
pub proof fn nothing_else_gives_an_option(words: Seq<String>, short: Seq<char>, long: Seq<char>)
    requires
        forall|i: int|
            1 <= i < words.len() ==> #[trigger] words[i]@ != short && words[i]@ != long && !(long
                + "="@).is_prefix_of(words[i]@),
    ensures
        !has_option(words, short, long),
{
}

/// What a command line asks for before its options are looked at one by one.
#[derive(Clone, Copy, Debug, PartialEq, Eq, Structural)]
pub enum Startup {
    /// Print the version, and nothing else.
    Version,
    /// Nothing was asked for.
    NoArguments,
    /// Import; the flags say whether the input and the output path were given.
    Import { dir_given: bool, db_given: bool },
}

/// Is one of the words a request for the version?
pub open spec fn asks_version(words: Seq<String>) -> bool {
    exists|i: int|
        1 <= i < words.len() && (#[trigger] words[i]@ == "-v"@ || words[i]@ == "--version"@)
}

/// Decides what a command line, which begins with the program's name, asks for.
pub fn startup(words: &Vec<String>) -> (decision: Startup)
    ensures
        decision == (if asks_version(words@) {
            Startup::Version
        } else if words@.len() == 1 {
            Startup::NoArguments
        } else {
            Startup::Import {
                dir_given: has_option(words@, "-d"@, "--dir"@),
                db_given: has_option(words@, "-o"@, "--db"@),
            }
        }),
        decision is NoArguments <==> words@.len() == 1,
        forall|i: int|
            1 <= i < words@.len() && (#[trigger] words@[i]@ == "-v"@ || words@[i]@ == "--version"@)
                ==> decision is Version,
        decision is Version ==> exists|i: int|
            1 <= i < words@.len() && (#[trigger] words@[i]@ == "-v"@ || words@[i]@
                == "--version"@),
        decision matches Startup::Import { dir_given, db_given } ==> {
            &&& forall|i: int|
                1 <= i < words@.len() && (#[trigger] words@[i]@ == "-d"@ || words@[i]@ == "--dir"@
                    || ("--dir"@ + "="@).is_prefix_of(words@[i]@)) ==> dir_given
            &&& forall|i: int|
                1 <= i < words@.len() && (#[trigger] words@[i]@ == "-o"@ || words@[i]@ == "--db"@
                    || ("--db"@ + "="@).is_prefix_of(words@[i]@)) ==> db_given
            &&& dir_given ==> exists|i: int|
                1 <= i < words@.len() && (#[trigger] words@[i]@ == "-d"@ || words@[i]@ == "--dir"@
                    || ("--dir"@ + "="@).is_prefix_of(words@[i]@))
            &&& db_given ==> exists|i: int|
                1 <= i < words@.len() && (#[trigger] words@[i]@ == "-o"@ || words@[i]@ == "--db"@
                    || ("--db"@ + "="@).is_prefix_of(words@[i]@))
        },
{
    let mut i: usize = 1;
    while i < words.len()
        invariant
            1 <= i,
            forall|k: int|
                1 <= k < i && k < words@.len() ==> #[trigger] words@[k]@ != "-v"@ && words@[k]@
                    != "--version"@,
        decreases words@.len() - i,
    {
        if same_text(words[i].as_str(), "-v") || same_text(words[i].as_str(), "--version") {
            assert(words@[i as int]@ == "-v"@ || words@[i as int]@ == "--version"@);
            return Startup::Version;
        }
        i += 1;
    }
    if words.len() == 1 {
        return Startup::NoArguments;
    }
    let dir_given = arg_was_provided(words, "-d", "--dir");
    let db_given = arg_was_provided(words, "-o", "--db");
    Startup::Import { dir_given, db_given }
}

/// What is said when nothing was asked for.
pub fn no_arguments_message() -> (text: &'static str)
    ensures
        text@ == "no arguments provided; use --help for usage"@,
{
    "no arguments provided; use --help for usage"
}

// ---------------------------------------------------------------------------------------------
// Parallel jobs
// ---------------------------------------------------------------------------------------------
/// The number of jobs that are allowed at once: never more than the system has threads, where
/// jobs run at once at all.
pub fn capped_jobs(all: bool, jobs: usize, threads: usize) -> (allowed: usize)
    ensures
        allowed == (if all && jobs > threads { threads } else { jobs }),
        allowed <= jobs,
        all ==> allowed <= threads,
        allowed < jobs ==> all && allowed == threads,
{
    if all && jobs > threads {
        threads
    } else {
        jobs
    }
}

/// What is said when the number of jobs is cut down to `threads`.
pub fn capped_jobs_warning(jobs: usize, threads: usize) -> (text: String)
    ensures
        text@ == "Warning: --jobs "@ + decimal(jobs as nat) + " exceeds available system threads ("@
            + decimal(threads as nat) + "); capped to "@ + decimal(threads as nat),
{
    let mut text = "Warning: --jobs ".to_owned();
    append_decimal(&mut text, jobs as u64);
    text.append(" exceeds available system threads (");
    append_decimal(&mut text, threads as u64);
    text.append("); capped to ");
    append_decimal(&mut text, threads as u64);
    text
}

} // verus!
