//! The records of CSV data, and the number of RSI columns that they call for.

use crate::row::BINANCE_COLS;
use crate::text::{append_decimal, decimal, parsed_integer, read_i64, texts};
use vstd::prelude::*;

verus! {

// ---------------------------------------------------------------------------------------------
// The `csv` crate
// ---------------------------------------------------------------------------------------------
/// The reader of the `csv` crate.
#[verifier::external_type_specification]
#[verifier::external_body]
#[verifier::reject_recursive_types(R)]
pub struct ExCsvReader<R>(csv::Reader<R>);

/// The error of the `csv` crate.
#[verifier::external_type_specification]
#[verifier::external_body]
pub struct ExCsvError(csv::Error);

/// What `csv::Reader::read_record` gives on some data, one call after the other: the fields of
/// each record up to the end of the data, or up to the first call that fails, which is `None`.
pub uninterp spec fn csv_rows(data: Seq<u8>, has_headers: bool) -> Seq<Option<Seq<Seq<char>>>>;

/// What a reader has still to give, as in `csv_rows`.
pub uninterp spec fn pending_rows(reader: csv::Reader<&[u8]>) -> Seq<Option<Seq<Seq<char>>>>;

/// `csv::ReaderBuilder::from_reader`, on a builder of which only `has_headers` was called: the
/// reader that it makes has yet to give all that the data hold.
#[verifier::external_body]
fn open_reader<'a>(data: &'a [u8], has_headers: bool) -> (reader: csv::Reader<&'a [u8]>)
    ensures
        pending_rows(reader) == csv_rows(data@, has_headers),
{
    csv::ReaderBuilder::new().has_headers(has_headers).from_reader(data)
}

/// `csv::Reader::read_record`, with the fields of the record taken out: it gives `true` and the
/// next record, fails where that cannot be read, and gives `false` once there is none left.
/// Nothing is said of a reader that has failed.
#[verifier::external_body]
fn read_fields<'a>(reader: &mut csv::Reader<&'a [u8]>) -> (result: Result<
    (bool, Vec<String>),
    csv::Error,
>)
    ensures
        match result {
            Ok((true, fields)) => {
                &&& pending_rows(*old(reader)).len() > 0
                &&& pending_rows(*old(reader))[0] == Some(texts(fields@))
                &&& pending_rows(*final(reader)) == pending_rows(*old(reader)).drop_first()
            },
            Ok((false, _)) => {
                &&& pending_rows(*old(reader)).len() == 0
                &&& pending_rows(*final(reader)).len() == 0
            },
            Err(_) => {
                &&& pending_rows(*old(reader)).len() > 0
                &&& pending_rows(*old(reader))[0] is None
            },
        },
{
    let mut record = csv::StringRecord::new();
    let more = reader.read_record(&mut record)?;
    Ok((more, record.iter().map(String::from).collect()))
}

// ---------------------------------------------------------------------------------------------
// Records
// ---------------------------------------------------------------------------------------------
/// A record that cannot be read, and why.
pub struct RecordError {
    pub error: csv::Error,
}

/// Reads the records of CSV data, one after the other.
pub struct RecordReader<'a> {
    reader: csv::Reader<&'a [u8]>,
}

impl<'a> RecordReader<'a> {
    /// The records that are still to come; the last may be one that cannot be read.
    pub closed spec fn pending(self) -> Seq<Option<Seq<Seq<char>>>> {
        pending_rows(self.reader)
    }

    /// Begins with the first record, or behind it if it is a header.
    pub fn new(data: &'a [u8], has_header: bool) -> (records: RecordReader<'a>)
        ensures
            records.pending() == csv_rows(data@, has_header),
    {
        RecordReader { reader: open_reader(data, has_header) }
    }

    /// The next record; nothing behind the last one. There is no going on behind a failure.
    pub fn next_record(&mut self) -> (record: Result<Option<Vec<String>>, RecordError>)
        ensures
            match record {
                Ok(Some(fields)) => {
                    &&& old(self).pending().len() > 0
                    &&& old(self).pending()[0] == Some(texts(fields@))
                    &&& final(self).pending() == old(self).pending().drop_first()
                },
                Ok(None) => old(self).pending().len() == 0 && final(self).pending().len() == 0,
                Err(_) => old(self).pending().len() > 0 && old(self).pending()[0] is None,
            },
    {
        match read_fields(&mut self.reader) {
            Ok((more, fields)) => if more {
                Ok(Some(fields))
            } else {
                Ok(None)
            },
            Err(error) => Err(RecordError { error }),
        }
    }
}

// ---------------------------------------------------------------------------------------------
// Open times
// ---------------------------------------------------------------------------------------------
/// The open times of the records with anything in them, which stand in their first fields; none
/// if a record cannot be read or does not begin with an open time.
pub open spec fn record_times(rows: Seq<Option<Seq<Seq<char>>>>) -> Option<Seq<i64>>
    decreases rows.len(),
{
    if rows.len() == 0 {
        Some(Seq::empty())
    } else {
        match (rows[0], record_times(rows.drop_first())) {
            (Some(fields), Some(rest)) => if fields.len() == 0 {
                Some(rest)
            } else {
                match parsed_integer(fields[0], i64::MIN as int, i64::MAX as int) {
                    Some(time) => Some(seq![time as i64] + rest),
                    None => None,
                }
            },
            _ => None,
        }
    }
}

/// The open times of records are those of each record, one behind the other: the integer in its
/// first field, or nothing where there is nothing in it. One that cannot be read, or does not begin
/// with an integer, leaves none.
pub proof fn times_stand_in_first_fields(
    a: Seq<Option<Seq<Seq<char>>>>,
    b: Seq<Option<Seq<Seq<char>>>>,
    fields: Seq<Seq<char>>,
)
    ensures
        record_times(a + b) == (match (record_times(a), record_times(b)) {
            (Some(one), Some(other)) => Some(one + other),
            _ => None,
        }),
        record_times(Seq::empty()) == Some(Seq::<i64>::empty()),
        record_times(seq![None]) is None,
        fields.len() == 0 ==> record_times(seq![Some(fields)]) == Some(Seq::<i64>::empty()),
        fields.len() > 0 ==> match parsed_integer(fields[0], i64::MIN as int, i64::MAX as int) {
            Some(time) => record_times(seq![Some(fields)]) == Some(seq![time as i64]),
            None => record_times(seq![Some(fields)]) is None,
        },
    decreases a.len(),
{
    let single: Seq<Option<Seq<Seq<char>>>> = seq![Some(fields)];
    let unreadable: Seq<Option<Seq<Seq<char>>>> = seq![None];
    assert(single.drop_first() =~= Seq::empty());
    assert(record_times(single.drop_first()) == Some(Seq::<i64>::empty()));
    assert(single[0] == Some(fields));
    assert(unreadable[0] is None);
    if fields.len() > 0 {
        let time = parsed_integer(fields[0], i64::MIN as int, i64::MAX as int);
        if time is Some {
            let alone = seq![time->0 as i64];
            assert(alone + Seq::<i64>::empty() =~= alone);
        }
    }
    if a.len() == 0 {
        assert(a + b =~= b);
        if record_times(b) is Some {
            assert(Seq::<i64>::empty() + record_times(b)->0 =~= record_times(b)->0);
        }
    } else {
        times_stand_in_first_fields(a.drop_first(), b, fields);
        assert((a + b).drop_first() =~= a.drop_first() + b);
        assert((a + b)[0] == a[0]);
        if record_times(a) is Some && record_times(b) is Some && a[0]->0.len() > 0 {
            let time = parsed_integer(a[0]->0[0], i64::MIN as int, i64::MAX as int)->0 as i64;
            let rest = record_times(a.drop_first())->0;
            assert(seq![time] + (rest + record_times(b)->0) =~= (seq![time] + rest) + record_times(
                b,
            )->0);
        }
    }
}

/// Do the records of the data open at these times, one after the other?
pub fn records_open_at(data: &[u8], has_header: bool, times: &Vec<i64>) -> (yes: bool)
    ensures
        yes == (record_times(csv_rows(data@, has_header)) == Some(times@)),
{
    let mut records = RecordReader::new(data, has_header);
    let mut n: usize = 0;
    let ghost all = record_times(csv_rows(data@, has_header));
    assert(times@.skip(0) =~= times@);
    loop
        invariant
            n <= times@.len(),
            all == record_times(csv_rows(data@, has_header)),
            all == Some(times@) <==> record_times(records.pending()) == Some(times@.skip(n as int)),
        decreases records.pending().len(),
    {
        let ghost pending = records.pending();
        let ghost wanted = times@.skip(n as int);
        let fields = match records.next_record() {
            Err(_) => return false,
            Ok(None) => {
                assert(record_times(pending) == Some(Seq::<i64>::empty()));
                if n == times.len() {
                    assert(wanted =~= Seq::empty());
                } else {
                    assert(wanted.len() > 0);
                }
                return n == times.len();
            },
            Ok(Some(fields)) => fields,
        };
        let ghost rest = record_times(records.pending());
        assert(texts(fields@).len() == fields@.len());
        if fields.len() > 0 {
            assert(texts(fields@)[0] == fields@[0]@);
            let time: i64 = match read_i64(fields[0].as_str()) {
                Some(time) => time,
                None => return false,
            };
            proof {
                if rest is Some {
                    assert((seq![time] + rest->0)[0] == time);
                    assert((seq![time] + rest->0).skip(1) =~= rest->0);
                }
                if n < times@.len() {
                    assert(wanted[0] == times@[n as int]);
                    assert(wanted.skip(1) =~= times@.skip(n + 1));
                    assert(wanted =~= seq![times@[n as int]] + times@.skip(n + 1));
                }
            }
            if n == times.len() || times[n] != time {
                return false;
            }
            n += 1;
        }
    }
}

// ---------------------------------------------------------------------------------------------
// RSI columns
// ---------------------------------------------------------------------------------------------
/// What the first record with anything in it says about the columns of a file.
pub enum Width {
    /// There is no such record.
    Nothing,
    /// It has this many columns.
    Columns(nat),
    /// It, or a record before it, cannot be read.
    Unreadable,
}

/// The number of columns of the first record with anything in it.
pub open spec fn width_of(rows: Seq<Option<Seq<Seq<char>>>>) -> Width
    decreases rows.len(),
{
    if rows.len() == 0 {
        Width::Nothing
    } else {
        match rows[0] {
            None => Width::Unreadable,
            Some(fields) => if fields.len() == 0 {
                width_of(rows.drop_first())
            } else {
                Width::Columns(fields.len())
            },
        }
    }
}

/// The first record with anything in it tells the width, whatever comes behind it; records with
/// nothing in them tell nothing.
pub proof fn the_first_filled_record_tells_the_width(rows: Seq<Option<Seq<Seq<char>>>>, k: int)
    requires
        0 <= k <= rows.len(),
        forall|i: int| 0 <= i < k ==> #[trigger] rows[i] is Some && rows[i]->0.len() == 0,
    ensures
        k == rows.len() ==> width_of(rows) is Nothing,
        k < rows.len() && rows[k] is None ==> width_of(rows) is Unreadable,
        k < rows.len() && rows[k] is Some && rows[k]->0.len() > 0 ==> width_of(rows)
            == Width::Columns(rows[k]->0.len()),
    decreases k,
{
    if k > 0 {
        let rest = rows.drop_first();
        assert(rows[0] is Some);
        assert forall|i: int| 0 <= i < k - 1 implies #[trigger] rest[i] is Some && rest[i]->0.len()
            == 0 by {
            assert(rest[i] == rows[i + 1]);
        }
        the_first_filled_record_tells_the_width(rest, k - 1);
    }
}

/// Why the number of RSI columns cannot be told.
pub enum WidthError {
    /// A record cannot be read.
    Unreadable(RecordError),
    /// A record has too few columns, namely this many.
    TooFewColumns(usize),
}

/// The number of RSI columns of a table that has room for `max_rsi` of them and for a record with
/// this many columns; none if the record has too few columns.
pub open spec fn widened(max_rsi: nat, columns: nat) -> Option<nat> {
    if columns < BINANCE_COLS {
        None
    } else if columns - BINANCE_COLS > max_rsi {
        Some((columns - BINANCE_COLS) as nat)
    } else {
        Some(max_rsi)
    }
}

/// Makes room for the RSI columns of a record with this many columns.
pub fn widen_rsi_columns(max_rsi: usize, columns: usize) -> (count: Option<usize>)
    ensures
        match count {
            Some(n) => widened(max_rsi as nat, columns as nat) == Some(n as nat),
            None => widened(max_rsi as nat, columns as nat) is None,
        },
        count is Some <==> columns >= 12,
        count matches Some(n) ==> n >= max_rsi && n >= columns - 12 && (n == max_rsi || n == columns
            - 12),
        max_rsi + BINANCE_COLS <= usize::MAX && count is Some ==> count->0 + BINANCE_COLS
            <= usize::MAX,
{
    if columns < BINANCE_COLS {
        return None;
    }
    let rsi: usize = columns - BINANCE_COLS;
    if rsi > max_rsi {
        Some(rsi)
    } else {
        Some(max_rsi)
    }
}

/// Makes room for the RSI columns of one more file, which is known by its first record with
/// anything in it.
pub fn infer_max_rsi_columns(max_rsi: usize, data: &[u8], has_header: bool) -> (count: Result<
    usize,
    WidthError,
>)
    ensures
        match width_of(csv_rows(data@, has_header)) {
            Width::Nothing => count matches Ok(n) && n == max_rsi,
            Width::Unreadable => count matches Err(WidthError::Unreadable(_)),
            Width::Columns(columns) => match widened(max_rsi as nat, columns) {
                Some(n) => count matches Ok(c) && c == n,
                None => count matches Err(WidthError::TooFewColumns(c)) && c == columns,
            },
        },
        count matches Ok(n) ==> n >= max_rsi,
        width_of(csv_rows(data@, has_header)) matches Width::Columns(columns) ==> {
            &&& count is Ok <==> columns >= 12
            &&& count matches Ok(n) ==> n + 12 >= columns && (n == max_rsi || n + 12 == columns)
        },
        max_rsi + BINANCE_COLS <= usize::MAX && count is Ok ==> count->Ok_0 + BINANCE_COLS
            <= usize::MAX,
{
    let mut records = RecordReader::new(data, has_header);
    let ghost width = width_of(csv_rows(data@, has_header));
    loop
        invariant
            width == width_of(csv_rows(data@, has_header)),
            width == width_of(records.pending()),
        decreases records.pending().len(),
    {
        let fields = match records.next_record() {
            Err(e) => return Err(WidthError::Unreadable(e)),
            Ok(None) => return Ok(max_rsi),
            Ok(Some(fields)) => fields,
        };
        assert(texts(fields@).len() == fields@.len());
        if fields.len() > 0 {
            return match widen_rsi_columns(max_rsi, fields.len()) {
                Some(n) => Ok(n),
                None => Err(WidthError::TooFewColumns(fields.len())),
            };
        }
    }
}

/// The number of RSI columns that records with these numbers of columns call for.
pub open spec fn widest(columns: Seq<nat>) -> Option<nat>
    decreases columns.len(),
{
    if columns.len() == 0 {
        Some(0)
    } else {
        match widest(columns.drop_last()) {
            Some(max_rsi) => widened(max_rsi, columns.last()),
            None => None,
        }
    }
}

/// The table has room for the extra columns of every file, and no column that no file calls for.
/// There is such a table exactly where every file has the kline columns.
pub proof fn every_extra_column_has_room(columns: Seq<nat>)
    ensures
        widest(columns) is Some <==> forall|i: int|
            0 <= i < columns.len() ==> #[trigger] columns[i] >= BINANCE_COLS,
        widest(columns) matches Some(n) ==> {
            &&& forall|i: int|
                0 <= i < columns.len() ==> #[trigger] columns[i] <= BINANCE_COLS + n
            &&& n > 0 ==> exists|i: int|
                0 <= i < columns.len() && #[trigger] columns[i] == BINANCE_COLS + n
        },
    decreases columns.len(),
{
    if columns.len() > 0 {
        let fewer = columns.drop_last();
        every_extra_column_has_room(fewer);
        assert(forall|i: int| 0 <= i < fewer.len() ==> #[trigger] fewer[i] == columns[i]);
        assert(columns.last() == columns[columns.len() - 1]);
        if forall|i: int| 0 <= i < columns.len() ==> #[trigger] columns[i] >= BINANCE_COLS {
            assert forall|i: int| 0 <= i < fewer.len() implies #[trigger] fewer[i]
                >= BINANCE_COLS by {
                assert(columns[i] >= BINANCE_COLS);
            }
        }
        if widest(columns) is Some {
            let n = widest(columns)->0;
            assert forall|i: int| 0 <= i < columns.len() implies #[trigger] columns[i]
                >= BINANCE_COLS && columns[i] <= BINANCE_COLS + n by {
                if i < fewer.len() {
                    assert(fewer[i] == columns[i]);
                }
            }
            if n > 0 && columns.last() != BINANCE_COLS + n {
                let k = choose|i: int|
                    0 <= i < fewer.len() && #[trigger] fewer[i] == BINANCE_COLS + n;
                assert(columns[k] == BINANCE_COLS + n);
            }
        }
    }
}

/// What is said about a file with a record of too few columns.
pub fn too_few_columns_message(path: &str, columns: usize) -> (text: String)
    ensures
        text@ == path@ + " has "@ + decimal(columns as nat) + " columns, expected at least "@
            + decimal(BINANCE_COLS as nat),
{
    let mut text = path.to_owned();
    text.append(" has ");
    append_decimal(&mut text, columns as u64);
    text.append(" columns, expected at least ");
    append_decimal(&mut text, BINANCE_COLS as u64);
    text
}

} // verus!
