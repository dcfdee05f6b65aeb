//! Kline rows: what a CSV record must hold, and the values that it contributes to the table.

use crate::text::{
    append_decimal, blank, decimal, integer_fault, integer_fault_text, is_blank, parsed_integer,
    read_i64, texts, why_no_i64,
};
use vstd::prelude::*;

verus! {

/// The number of columns that every kline record has.
pub const BINANCE_COLS: usize = 12;

/// One field of a CSV record: its text, and the bits of the double that the text denotes, if it
/// denotes one.
pub struct Field {
    pub text: String,
    pub double: Option<u64>,
}

/// One row of the kline table. Doubles are held as their bits.
pub struct ParsedRow {
    pub open_time: i64,
    pub open: u64,
    pub high: u64,
    pub low: u64,
    pub close: u64,
    pub volume: u64,
    pub close_time: i64,
    pub quote_asset_volume: u64,
    pub number_of_trades: i64,
    pub taker_buy_base_asset_volume: u64,
    pub taker_buy_quote_asset_volume: u64,
    pub ignore_col: String,
    pub rsi_values: Vec<Option<u64>>,
}

/// The values of a row.
pub struct RowView {
    pub open_time: i64,
    pub open: u64,
    pub high: u64,
    pub low: u64,
    pub close: u64,
    pub volume: u64,
    pub close_time: i64,
    pub quote_asset_volume: u64,
    pub number_of_trades: i64,
    pub taker_buy_base_asset_volume: u64,
    pub taker_buy_quote_asset_volume: u64,
    pub ignore_col: Seq<char>,
    pub rsi_values: Seq<Option<u64>>,
}

impl View for ParsedRow {
    type V = RowView;

    open spec fn view(&self) -> RowView {
        RowView {
            open_time: self.open_time,
            open: self.open,
            high: self.high,
            low: self.low,
            close: self.close,
            volume: self.volume,
            close_time: self.close_time,
            quote_asset_volume: self.quote_asset_volume,
            number_of_trades: self.number_of_trades,
            taker_buy_base_asset_volume: self.taker_buy_base_asset_volume,
            taker_buy_quote_asset_volume: self.taker_buy_quote_asset_volume,
            ignore_col: self.ignore_col@,
            rsi_values: self.rsi_values@,
        }
    }
}

/// Why a record is not a kline row. The number is the position of the column at fault.
#[derive(Clone, Copy, Debug, PartialEq, Eq, Structural)]
pub enum RowError {
    TooFewColumns,
    Missing(usize),
    Invalid(usize),
    InvalidRsi(usize),
}

/// The name of a kline column; the last one's for every position behind it.
pub open spec fn column_text(index: int) -> Seq<char> {
    if index == 0 {
        "open_time"@
    } else if index == 1 {
        "open"@
    } else if index == 2 {
        "high"@
    } else if index == 3 {
        "low"@
    } else if index == 4 {
        "close"@
    } else if index == 5 {
        "volume"@
    } else if index == 6 {
        "close_time"@
    } else if index == 7 {
        "quote_asset_volume"@
    } else if index == 8 {
        "number_of_trades"@
    } else if index == 9 {
        "taker_buy_base_asset_volume"@
    } else if index == 10 {
        "taker_buy_quote_asset_volume"@
    } else {
        "ignore_col"@
    }
}

/// The name of a kline column.
pub fn column_name(index: usize) -> (name: &'static str)
    ensures
        name@ == column_text(index as int),
{
    match index {
        0 => "open_time",
        1 => "open",
        2 => "high",
        3 => "low",
        4 => "close",
        5 => "volume",
        6 => "close_time",
        7 => "quote_asset_volume",
        8 => "number_of_trades",
        9 => "taker_buy_base_asset_volume",
        10 => "taker_buy_quote_asset_volume",
        _ => "ignore_col",
    }
}

/// The columns that hold integers: both times and the number of trades.
pub open spec fn is_integer_column(index: int) -> bool {
    index == 0 || index == 6 || index == 8
}

/// The integer that a column of a record holds.
pub open spec fn integer_at(record: Seq<Field>, index: int) -> Result<i64, RowError> {
    if index >= record.len() {
        Err(RowError::Missing(index as usize))
    } else {
        match parsed_integer(record[index].text@, i64::MIN as int, i64::MAX as int) {
            Some(v) => Ok(v as i64),
            None => Err(RowError::Invalid(index as usize)),
        }
    }
}

/// The bits of the double that a column of a record holds.
pub open spec fn double_at(record: Seq<Field>, index: int) -> Result<u64, RowError> {
    if index >= record.len() {
        Err(RowError::Missing(index as usize))
    } else {
        match record[index].double {
            Some(bits) => Ok(bits),
            None => Err(RowError::Invalid(index as usize)),
        }
    }
}

/// Reads a column as an integer.
pub fn parse_i64(record: &Vec<Field>, index: usize) -> (value: Result<i64, RowError>)
    ensures
        value == integer_at(record@, index as int),
        index >= record@.len() <==> value == Err::<i64, RowError>(RowError::Missing(index)),
        value matches Ok(v) ==> index < record@.len() && parsed_integer(
            record@[index as int].text@,
            i64::MIN as int,
            i64::MAX as int,
        ) == Some(v as int),
{
    if index >= record.len() {
        return Err(RowError::Missing(index));
    }
    match read_i64(record[index].text.as_str()) {
        Some(v) => Ok(v),
        None => Err(RowError::Invalid(index)),
    }
}

/// Reads a column as a double.
pub fn parse_double(record: &Vec<Field>, index: usize) -> (bits: Result<u64, RowError>)
    ensures
        bits == double_at(record@, index as int),
        index >= record@.len() <==> bits == Err::<u64, RowError>(RowError::Missing(index)),
        bits matches Ok(b) ==> index < record@.len() && record@[index as int].double == Some(b),
{
    if index >= record.len() {
        return Err(RowError::Missing(index));
    }
    match record[index].double {
        Some(bits) => Ok(bits),
        None => Err(RowError::Invalid(index)),
    }
}

/// What is wrong with a kline column of a record.
pub open spec fn column_error(record: Seq<Field>, index: int) -> Option<RowError> {
    if is_integer_column(index) {
        match integer_at(record, index) {
            Ok(_) => None,
            Err(e) => Some(e),
        }
    } else {
        match double_at(record, index) {
            Ok(_) => None,
            Err(e) => Some(e),
        }
    }
}

/// What is wrong with the first faulty one of the first `n` kline columns.
pub open spec fn first_column_error(record: Seq<Field>, n: nat) -> Option<RowError>
    decreases n,
{
    if n == 0 {
        None
    } else {
        match first_column_error(record, (n - 1) as nat) {
            Some(e) => Some(e),
            None => column_error(record, n - 1),
        }
    }
}

/// The value of an RSI column: none where the record ends before it or leaves it blank.
pub open spec fn rsi_at(record: Seq<Field>, index: int) -> Option<u64> {
    let at = BINANCE_COLS + index;
    if at < record.len() && !is_blank(record[at].text@) {
        record[at].double
    } else {
        None
    }
}

/// Does an RSI column hold something that is not a double?
pub open spec fn rsi_is_faulty(record: Seq<Field>, index: int) -> bool {
    let at = BINANCE_COLS + index;
    at < record.len() && !is_blank(record[at].text@) && record[at].double is None
}

/// What is wrong with the first faulty one of the first `n` RSI columns.
pub open spec fn first_rsi_error(record: Seq<Field>, n: nat) -> Option<RowError>
    decreases n,
{
    if n == 0 {
        None
    } else {
        match first_rsi_error(record, (n - 1) as nat) {
            Some(e) => Some(e),
            None => if rsi_is_faulty(record, n - 1) {
                Some(RowError::InvalidRsi((BINANCE_COLS + n - 1) as usize))
            } else {
                None
            },
        }
    }
}

/// The row that a record holds, for a table with `rsi_count` RSI columns.
pub open spec fn row_of(record: Seq<Field>, rsi_count: nat) -> Result<RowView, RowError> {
    if record.len() < BINANCE_COLS {
        Err(RowError::TooFewColumns)
    } else {
        match first_column_error(record, 11) {
            Some(e) => Err(e),
            None => match first_rsi_error(record, rsi_count) {
                Some(e) => Err(e),
                None => Ok(
                    RowView {
                        open_time: integer_at(record, 0)->Ok_0,
                        open: double_at(record, 1)->Ok_0,
                        high: double_at(record, 2)->Ok_0,
                        low: double_at(record, 3)->Ok_0,
                        close: double_at(record, 4)->Ok_0,
                        volume: double_at(record, 5)->Ok_0,
                        close_time: integer_at(record, 6)->Ok_0,
                        quote_asset_volume: double_at(record, 7)->Ok_0,
                        number_of_trades: integer_at(record, 8)->Ok_0,
                        taker_buy_base_asset_volume: double_at(record, 9)->Ok_0,
                        taker_buy_quote_asset_volume: double_at(record, 10)->Ok_0,
                        ignore_col: record[11].text@,
                        rsi_values: Seq::new(rsi_count, |i: int| rsi_at(record, i)),
                    },
                ),
            },
        }
    }
}

/// A column up to the first faulty one is in order.
proof fn lemma_no_column_error(record: Seq<Field>, n: nat, index: int)
    requires
        first_column_error(record, n) is None,
        0 <= index < n,
    ensures
        column_error(record, index) is None,
    decreases n,
{
    if index < n - 1 {
        lemma_no_column_error(record, (n - 1) as nat, index);
    }
}

/// The first faulty kline column stays the first, however many columns follow.
proof fn lemma_column_error_stays(record: Seq<Field>, n: nat, m: nat)
    requires
        n <= m,
        first_column_error(record, n) is Some,
    ensures
        first_column_error(record, m) == first_column_error(record, n),
    decreases m,
{
    if n < m {
        lemma_column_error_stays(record, n, (m - 1) as nat);
    }
}

/// The first faulty RSI column stays the first, however many columns follow.
proof fn lemma_rsi_error_stays(record: Seq<Field>, n: nat, m: nat)
    requires
        n <= m,
        first_rsi_error(record, n) is Some,
    ensures
        first_rsi_error(record, m) == first_rsi_error(record, n),
    decreases m,
{
    if n < m {
        lemma_rsi_error_stays(record, n, (m - 1) as nat);
    }
}

/// What is wrong with the first faulty one of the columns with a number in them.
fn check_columns(record: &Vec<Field>) -> (error: Option<RowError>)
    ensures
        error == first_column_error(record@, 11),
{
    let mut i: usize = 0;
    while i < 11
        invariant
            i <= 11,
            first_column_error(record@, i as nat) is None,
        decreases 11 - i,
    {
        let fault = if i == 0 || i == 6 || i == 8 {
            match parse_i64(record, i) {
                Ok(_) => None,
                Err(e) => Some(e),
            }
        } else {
            match parse_double(record, i) {
                Ok(_) => None,
                Err(e) => Some(e),
            }
        };
        if fault.is_some() {
            proof {
                lemma_column_error_stays(record@, (i + 1) as nat, 11);
            }
            return fault;
        }
        i += 1;
    }
    None
}

/// The integer of a column that is known to hold one.
fn integer(record: &Vec<Field>, index: usize) -> (value: i64)
    requires
        integer_at(record@, index as int) is Ok,
    ensures
        value == integer_at(record@, index as int)->Ok_0,
{
    match parse_i64(record, index) {
        Ok(v) => v,
        Err(_) => 0,
    }
}

/// The double of a column that is known to hold one.
fn double(record: &Vec<Field>, index: usize) -> (bits: u64)
    requires
        double_at(record@, index as int) is Ok,
    ensures
        bits == double_at(record@, index as int)->Ok_0,
{
    match parse_double(record, index) {
        Ok(bits) => bits,
        Err(_) => 0,
    }
}

/// The values of the RSI columns, up to the first one that is not a double.
fn read_rsi_values(record: &Vec<Field>, rsi_count: usize) -> (values: Result<
    Vec<Option<u64>>,
    RowError,
>)
    ensures
        match values {
            Ok(v) => first_rsi_error(record@, rsi_count as nat) is None && v@ == Seq::new(
                rsi_count as nat,
                |i: int| rsi_at(record@, i),
            ),
            Err(e) => first_rsi_error(record@, rsi_count as nat) == Some(e),
        },
{
    let mut values: Vec<Option<u64>> = Vec::new();
    let mut i: usize = 0;
    while i < rsi_count
        invariant
            i <= rsi_count,
            first_rsi_error(record@, i as nat) is None,
            values@ =~= Seq::new(i as nat, |k: int| rsi_at(record@, k)),
        decreases rsi_count - i,
    {
        let value = if record.len() > BINANCE_COLS && i < record.len() - BINANCE_COLS && !blank(
            record[BINANCE_COLS + i].text.as_str(),
        ) {
            match record[BINANCE_COLS + i].double {
                Some(bits) => Some(bits),
                None => {
                    proof {
                        lemma_rsi_error_stays(record@, (i + 1) as nat, rsi_count as nat);
                    }
                    return Err(RowError::InvalidRsi(BINANCE_COLS + i));
                },
            }
        } else {
            None
        };
        values.push(value);
        i += 1;
    }
    Ok(values)
}

/// Turns a record into a row of a table with `rsi_count` RSI columns.
pub fn record_to_row(record: &Vec<Field>, rsi_count: usize) -> (row: Result<ParsedRow, RowError>)
    ensures
        match row {
            Ok(r) => row_of(record@, rsi_count as nat) == Ok::<RowView, RowError>(r@),
            Err(e) => row_of(record@, rsi_count as nat) == Err::<RowView, RowError>(e),
        },
        row matches Ok(r) ==> {
            &&& record@.len() >= 12
            &&& integer_text(record@[0]) == Some(r.open_time as int)
            &&& record@[1].double == Some(r.open)
            &&& record@[2].double == Some(r.high)
            &&& record@[3].double == Some(r.low)
            &&& record@[4].double == Some(r.close)
            &&& record@[5].double == Some(r.volume)
            &&& integer_text(record@[6]) == Some(r.close_time as int)
            &&& record@[7].double == Some(r.quote_asset_volume)
            &&& integer_text(record@[8]) == Some(r.number_of_trades as int)
            &&& record@[9].double == Some(r.taker_buy_base_asset_volume)
            &&& record@[10].double == Some(r.taker_buy_quote_asset_volume)
            &&& record@[11].text@ == r.ignore_col@
            &&& r.rsi_values@.len() == rsi_count
            &&& forall|i: int|
                0 <= i < rsi_count ==> #[trigger] r.rsi_values@[i] == (if 12 + i < record@.len()
                    && !is_blank(record@[12 + i].text@) {
                    record@[12 + i].double
                } else {
                    None
                })
        },
{
    if record.len() < BINANCE_COLS {
        return Err(RowError::TooFewColumns);
    }
    if let Some(e) = check_columns(record) {
        return Err(e);
    }
    let rsi_values = match read_rsi_values(record, rsi_count) {
        Ok(values) => values,
        Err(e) => return Err(e),
    };
    proof {
        assert forall|i: int| 0 <= i < 11 implies #[trigger] column_error(record@, i) is None by {
            lemma_no_column_error(record@, 11, i);
        }
        assert(column_error(record@, 0) is None);
        assert(column_error(record@, 1) is None);
        assert(column_error(record@, 2) is None);
        assert(column_error(record@, 3) is None);
        assert(column_error(record@, 4) is None);
        assert(column_error(record@, 5) is None);
        assert(column_error(record@, 6) is None);
        assert(column_error(record@, 7) is None);
        assert(column_error(record@, 8) is None);
        assert(column_error(record@, 9) is None);
        assert(column_error(record@, 10) is None);
    }
    proof {
        rows_hold_their_columns(record@, rsi_count as nat);
    }
    Ok(
        ParsedRow {
            open_time: integer(record, 0),
            open: double(record, 1),
            high: double(record, 2),
            low: double(record, 3),
            close: double(record, 4),
            volume: double(record, 5),
            close_time: integer(record, 6),
            quote_asset_volume: double(record, 7),
            number_of_trades: integer(record, 8),
            taker_buy_base_asset_volume: double(record, 9),
            taker_buy_quote_asset_volume: double(record, 10),
            ignore_col: record[11].text.clone(),
            rsi_values,
        },
    )
}

// ---------------------------------------------------------------------------------------------
// What a row is made of
// ---------------------------------------------------------------------------------------------
/// The signed 64-bit integer that a field denotes.
pub open spec fn integer_text(field: Field) -> Option<int> {
    parsed_integer(field.text@, i64::MIN as int, i64::MAX as int)
}

/// Every column with a number in it is in order where none is faulty.
proof fn lemma_columns_in_order(record: Seq<Field>, n: nat)
    ensures
        first_column_error(record, n) is None <==> forall|k: int|
            0 <= k < n ==> #[trigger] column_error(record, k) is None,
        first_column_error(record, n) matches Some(e) ==> exists|k: int|
            0 <= k < n && #[trigger] column_error(record, k) == Some(e) && forall|j: int|
                0 <= j < k ==> #[trigger] column_error(record, j) is None,
    decreases n,
{
    if n > 0 {
        let fewer = (n - 1) as nat;
        lemma_columns_in_order(record, fewer);
        if first_column_error(record, fewer) is None {
            assert(column_error(record, n - 1) == first_column_error(record, n));
        }
    }
}

/// Every RSI column is in order where none is faulty.
proof fn lemma_rsi_in_order(record: Seq<Field>, n: nat)
    ensures
        first_rsi_error(record, n) is None <==> forall|i: int|
            0 <= i < n ==> !#[trigger] rsi_is_faulty(record, i),
        first_rsi_error(record, n) matches Some(e) ==> exists|i: int|
            0 <= i < n && #[trigger] rsi_is_faulty(record, i) && e == RowError::InvalidRsi(
                (12 + i) as usize,
            ) && forall|j: int| 0 <= j < i ==> !#[trigger] rsi_is_faulty(record, j),
    decreases n,
{
    if n > 0 {
        let fewer = (n - 1) as nat;
        lemma_rsi_in_order(record, fewer);
        if first_rsi_error(record, fewer) is None && rsi_is_faulty(record, n - 1) {
            assert(first_rsi_error(record, n) == Some(
                RowError::InvalidRsi((12 + (n - 1)) as usize),
            ));
        }
    }
}

/// A record is a row exactly where it has the kline columns, those of them that hold integers or
/// doubles denote such, and each RSI column of the table is missing, blank or a double.
pub proof fn records_with_every_column_are_rows(record: Seq<Field>, rsi_count: nat)
    ensures
        row_of(record, rsi_count) is Ok <==> {
            &&& record.len() >= 12
            &&& integer_text(record[0]) is Some && integer_text(record[6]) is Some && integer_text(
                record[8],
            ) is Some
            &&& record[1].double is Some && record[2].double is Some && record[3].double is Some
            &&& record[4].double is Some && record[5].double is Some && record[7].double is Some
            &&& record[9].double is Some && record[10].double is Some
            &&& forall|i: int|
                12 <= i < record.len() && i < 12 + rsi_count ==> is_blank(
                    (#[trigger] record[i]).text@,
                ) || record[i].double is Some
        },
{
    lemma_columns_in_order(record, 11);
    lemma_rsi_in_order(record, rsi_count);
    if record.len() >= 12 {
        if first_column_error(record, 11) is None {
            assert(column_error(record, 0) is None && column_error(record, 1) is None
                && column_error(record, 2) is None && column_error(record, 3) is None
                && column_error(record, 4) is None && column_error(record, 5) is None
                && column_error(record, 6) is None && column_error(record, 7) is None
                && column_error(record, 8) is None && column_error(record, 9) is None
                && column_error(record, 10) is None);
        }
        if forall|i: int|
            12 <= i < record.len() && i < 12 + rsi_count ==> is_blank((#[trigger] record[i]).text@)
                || record[i].double is Some {
            assert forall|i: int| 0 <= i < rsi_count implies !#[trigger] rsi_is_faulty(
                record,
                i,
            ) by {
                if 12 + i < record.len() {
                    assert(is_blank(record[12 + i].text@) || record[12 + i].double is Some);
                }
            }
        }
        if forall|i: int| 0 <= i < rsi_count ==> !#[trigger] rsi_is_faulty(record, i) {
            assert forall|i: int|
                12 <= i < record.len() && i < 12 + rsi_count implies is_blank(
                (#[trigger] record[i]).text@,
            ) || record[i].double is Some by {
                assert(!rsi_is_faulty(record, i - 12));
            }
        }
    }
}

/// What is wrong with a record that is no row is wrong with its first faulty column; the RSI columns
/// come behind all others.
pub proof fn the_first_faulty_column_is_told(record: Seq<Field>, rsi_count: nat)
    requires
        12 + rsi_count <= usize::MAX,
    ensures
        match row_of(record, rsi_count) {
            Ok(_) => true,
            Err(RowError::TooFewColumns) => record.len() < 12,
            Err(RowError::Missing(_)) => false,
            Err(RowError::Invalid(k)) => {
                &&& k < 11 && record.len() >= 12
                &&& column_error(record, k as int) is Some
                &&& if k == 0 || k == 6 || k == 8 {
                    integer_text(record[k as int]) is None
                } else {
                    record[k as int].double is None
                }
                &&& forall|j: int| 0 <= j < k ==> #[trigger] column_error(record, j) is None
            },
            Err(RowError::InvalidRsi(k)) => {
                &&& 12 <= k < record.len() && k < 12 + rsi_count
                &&& record[k as int].double is None && !is_blank(record[k as int].text@)
                &&& forall|j: int|
                    12 <= j < k ==> is_blank((#[trigger] record[j]).text@) || record[j].double
                        is Some
                &&& forall|j: int| 0 <= j < 11 ==> #[trigger] column_error(record, j) is None
            },
        },
{
    lemma_columns_in_order(record, 11);
    lemma_rsi_in_order(record, rsi_count);
    if let Err(RowError::InvalidRsi(k)) = row_of(record, rsi_count) {
        if first_column_error(record, 11) is Some {
            let j = choose|j: int|
                0 <= j < 11 && #[trigger] column_error(record, j) == first_column_error(record, 11);
            assert(column_error(record, j) != Some(RowError::InvalidRsi(k)));
        }
        let i = choose|i: int|
            0 <= i < rsi_count && #[trigger] rsi_is_faulty(record, i) && RowError::InvalidRsi(k)
                == RowError::InvalidRsi((12 + i) as usize) && forall|j: int|
                0 <= j < i ==> !#[trigger] rsi_is_faulty(record, j);
        assert forall|j: int| 12 <= j < k implies is_blank((#[trigger] record[j]).text@)
            || record[j].double is Some by {
            assert(!rsi_is_faulty(record, j - 12));
        }
    }
}

/// Each value of a row is that of the column in the same place: the kline columns one by one, and
/// the i-th RSI value that of the i-th column behind them. A missing or blank RSI column has none.
pub proof fn rows_hold_their_columns(record: Seq<Field>, rsi_count: nat)
    requires
        row_of(record, rsi_count) is Ok,
    ensures
        ({
            let row = row_of(record, rsi_count)->Ok_0;
            &&& record.len() >= 12
            &&& integer_text(record[0]) == Some(row.open_time as int)
            &&& record[1].double == Some(row.open)
            &&& record[2].double == Some(row.high)
            &&& record[3].double == Some(row.low)
            &&& record[4].double == Some(row.close)
            &&& record[5].double == Some(row.volume)
            &&& integer_text(record[6]) == Some(row.close_time as int)
            &&& record[7].double == Some(row.quote_asset_volume)
            &&& integer_text(record[8]) == Some(row.number_of_trades as int)
            &&& record[9].double == Some(row.taker_buy_base_asset_volume)
            &&& record[10].double == Some(row.taker_buy_quote_asset_volume)
            &&& record[11].text@ == row.ignore_col
            &&& row.rsi_values.len() == rsi_count
            &&& forall|i: int|
                0 <= i < rsi_count ==> #[trigger] row.rsi_values[i] == (if 12 + i < record.len()
                    && !is_blank(record[12 + i].text@) {
                    record[12 + i].double
                } else {
                    None
                })
        }),
{
    records_with_every_column_are_rows(record, rsi_count);
    lemma_columns_in_order(record, 11);
    assert(column_error(record, 0) is None);
    assert(column_error(record, 6) is None);
    assert(column_error(record, 8) is None);
}

/// An RSI value depends on its own column alone: two rows whose records agree there agree in it, and
/// they differ in it where the doubles of a filled column do.
pub proof fn rsi_values_depend_on_their_own_columns(
    a: Seq<Field>,
    b: Seq<Field>,
    rsi_count: nat,
    i: int,
)
    requires
        row_of(a, rsi_count) is Ok,
        row_of(b, rsi_count) is Ok,
        0 <= i < rsi_count,
        12 + i < a.len(),
        12 + i < b.len(),
    ensures
        ({
            let one = row_of(a, rsi_count)->Ok_0.rsi_values[i];
            let other = row_of(b, rsi_count)->Ok_0.rsi_values[i];
            &&& a[12 + i] == b[12 + i] ==> one == other
            &&& !is_blank(a[12 + i].text@) && !is_blank(b[12 + i].text@) && a[12 + i].double
                != b[12 + i].double ==> one != other
        }),
{
    rows_hold_their_columns(a, rsi_count);
    rows_hold_their_columns(b, rsi_count);
}

/// The values that go into the table stand in the order of the record's columns: what goes into the
/// k-th column of the table is what the k-th column of the record denotes.
pub proof fn parameters_keep_the_columns(record: Seq<Field>, rsi_count: nat, k: int)
    requires
        row_of(record, rsi_count) is Ok,
        0 <= k < 12 + rsi_count,
    ensures
        ({
            let params = params_of(row_of(record, rsi_count)->Ok_0);
            &&& params.len() == 12 + rsi_count
            &&& match params[k] {
                ParamView::BigInt(v) => (k == 0 || k == 6 || k == 8) && integer_text(record[k])
                    == Some(v as int),
                ParamView::Double(bits) => k < record.len() && k != 0 && k != 6 && k != 8 && k != 11
                    && record[k].double == Some(bits) && (k >= 12 ==> !is_blank(record[k].text@)),
                ParamView::Text(text) => k == 11 && record[k].text@ == text,
                ParamView::Null => k >= 12 && (k >= record.len() || is_blank(record[k].text@)),
            }
        }),
{
    rows_hold_their_columns(record, rsi_count);
    records_with_every_column_are_rows(record, rsi_count);
    let row = row_of(record, rsi_count)->Ok_0;
    let params = params_of(row);
    if k >= 12 {
        assert(params[k] == rsi_param(row.rsi_values[k - 12]));
        if k < record.len() {
            assert(is_blank(record[k].text@) || record[k].double is Some);
        }
    } else {
        assert(k == 0 || k == 1 || k == 2 || k == 3 || k == 4 || k == 5 || k == 6 || k == 7 || k
            == 8 || k == 9 || k == 10 || k == 11);
    }
}

// ---------------------------------------------------------------------------------------------
// Messages
// ---------------------------------------------------------------------------------------------
/// The text of a column, or nothing behind the last one.
pub open spec fn raw_text(record: Seq<Field>, index: int) -> Seq<char> {
    if index < record.len() {
        record[index].text@
    } else {
        Seq::empty()
    }
}

/// The wording of why a text denotes no double.
pub open spec fn double_fault_text(raw: Seq<char>) -> Seq<char> {
    if raw.len() == 0 {
        "cannot parse float from empty string"@
    } else {
        "invalid float literal"@
    }
}

/// The wording of a row error of a record, and of its cause.
pub open spec fn row_error_text(error: RowError, record: Seq<Field>) -> Seq<Seq<char>> {
    match error {
        RowError::TooFewColumns => seq![
            "row has "@ + decimal(record.len()) + " columns, expected at least "@ + decimal(
                BINANCE_COLS as nat,
            ),
        ],
        RowError::Missing(index) => seq!["missing "@ + column_text(index as int)],
        RowError::Invalid(index) => seq![
            "invalid "@ + column_text(index as int) + ": "@ + raw_text(record, index as int),
            if is_integer_column(index as int) {
                integer_fault_text(integer_fault(raw_text(record, index as int)))
            } else {
                double_fault_text(raw_text(record, index as int))
            },
        ],
        RowError::InvalidRsi(index) => seq![double_fault_text(raw_text(record, index as int))],
    }
}

/// The text of a column, or nothing behind the last one.
fn raw(record: &Vec<Field>, index: usize) -> (text: &str)
    ensures
        text@ == raw_text(record@, index as int),
{
    proof {
        reveal_strlit("");
    }
    if index < record.len() {
        record[index].text.as_str()
    } else {
        ""
    }
}

/// The wording of why a text denotes no double.
fn why_no_double(text: &str) -> (cause: &'static str)
    ensures
        cause@ == double_fault_text(text@),
{
    if text.unicode_len() == 0 {
        "cannot parse float from empty string"
    } else {
        "invalid float literal"
    }
}

impl RowError {
    /// The wording of the error, and of its cause.
    pub fn messages(&self, record: &Vec<Field>) -> (parts: Vec<String>)
        ensures
            texts(parts@) == row_error_text(*self, record@),
            self == RowError::TooFewColumns ==> parts@.len() == 1 && parts@[0]@ == "row has "@
                + decimal(record@.len()) + " columns, expected at least "@ + decimal(12),
            self matches RowError::Missing(k) ==> parts@.len() == 1 && parts@[0]@ == "missing "@
                + column_text(*k as int),
            self matches RowError::Invalid(k) ==> parts@.len() == 2 && (*k < record@.len()
                ==> parts@[0]@ == "invalid "@ + column_text(*k as int) + ": "@
                + record@[*k as int].text@),
            self is InvalidRsi ==> parts@.len() == 1,
    {
        let mut parts: Vec<String> = Vec::new();
        match self {
            RowError::TooFewColumns => {
                let mut text = "row has ".to_owned();
                append_decimal(&mut text, record.len() as u64);
                text.append(" columns, expected at least ");
                append_decimal(&mut text, BINANCE_COLS as u64);
                parts.push(text);
            },
            RowError::Missing(index) => {
                let mut text = "missing ".to_owned();
                text.append(column_name(*index));
                parts.push(text);
            },
            RowError::Invalid(index) => {
                let mut text = "invalid ".to_owned();
                text.append(column_name(*index));
                text.append(": ");
                text.append(raw(record, *index));
                parts.push(text);
                if *index == 0 || *index == 6 || *index == 8 {
                    parts.push(why_no_i64(raw(record, *index)).message().to_owned());
                } else {
                    parts.push(why_no_double(raw(record, *index)).to_owned());
                }
            },
            RowError::InvalidRsi(index) => {
                parts.push(why_no_double(raw(record, *index)).to_owned());
            },
        }
        assert(texts(parts@) =~= row_error_text(*self, record@));
        parts
    }
}

// ---------------------------------------------------------------------------------------------
// Parameters
// ---------------------------------------------------------------------------------------------
/// One value of a row as it goes into the database.
pub enum Param {
    BigInt(i64),
    Double(u64),
    Text(String),
    Null,
}

/// One value of a row as it goes into the database.
pub enum ParamView {
    BigInt(i64),
    Double(u64),
    Text(Seq<char>),
    Null,
}

impl View for Param {
    type V = ParamView;

    open spec fn view(&self) -> ParamView {
        match self {
            Param::BigInt(v) => ParamView::BigInt(*v),
            Param::Double(bits) => ParamView::Double(*bits),
            Param::Text(s) => ParamView::Text(s@),
            Param::Null => ParamView::Null,
        }
    }
}

/// The values of a list of parameters.
pub open spec fn param_views(params: Seq<Param>) -> Seq<ParamView> {
    Seq::new(params.len(), |i: int| params[i]@)
}

/// An RSI value as a parameter: a missing one is a null.
pub open spec fn rsi_param(value: Option<u64>) -> ParamView {
    match value {
        Some(bits) => ParamView::Double(bits),
        None => ParamView::Null,
    }
}

/// The values of a row in the order of the table's columns.
pub open spec fn params_of(row: RowView) -> Seq<ParamView> {
    seq![
        ParamView::BigInt(row.open_time),
        ParamView::Double(row.open),
        ParamView::Double(row.high),
        ParamView::Double(row.low),
        ParamView::Double(row.close),
        ParamView::Double(row.volume),
        ParamView::BigInt(row.close_time),
        ParamView::Double(row.quote_asset_volume),
        ParamView::BigInt(row.number_of_trades),
        ParamView::Double(row.taker_buy_base_asset_volume),
        ParamView::Double(row.taker_buy_quote_asset_volume),
        ParamView::Text(row.ignore_col),
    ] + Seq::new(row.rsi_values.len(), |i: int| rsi_param(row.rsi_values[i]))
}

/// The values of a row in the order of the table's columns.
pub fn row_to_params(row: &ParsedRow) -> (params: Vec<Param>)
    ensures
        param_views(params@) == params_of(row@),
        params@.len() == 12 + row.rsi_values@.len(),
        params@[0]@ == ParamView::BigInt(row.open_time),
        params@[1]@ == ParamView::Double(row.open),
        params@[2]@ == ParamView::Double(row.high),
        params@[3]@ == ParamView::Double(row.low),
        params@[4]@ == ParamView::Double(row.close),
        params@[5]@ == ParamView::Double(row.volume),
        params@[6]@ == ParamView::BigInt(row.close_time),
        params@[7]@ == ParamView::Double(row.quote_asset_volume),
        params@[8]@ == ParamView::BigInt(row.number_of_trades),
        params@[9]@ == ParamView::Double(row.taker_buy_base_asset_volume),
        params@[10]@ == ParamView::Double(row.taker_buy_quote_asset_volume),
        params@[11]@ == ParamView::Text(row.ignore_col@),
        forall|i: int|
            12 <= i < params@.len() ==> (#[trigger] params@[i])@ == (match row.rsi_values@[i - 12] {
                Some(bits) => ParamView::Double(bits),
                None => ParamView::Null,
            }),
{
    let mut params: Vec<Param> = Vec::new();
    params.push(Param::BigInt(row.open_time));
    params.push(Param::Double(row.open));
    params.push(Param::Double(row.high));
    params.push(Param::Double(row.low));
    params.push(Param::Double(row.close));
    params.push(Param::Double(row.volume));
    params.push(Param::BigInt(row.close_time));
    params.push(Param::Double(row.quote_asset_volume));
    params.push(Param::BigInt(row.number_of_trades));
    params.push(Param::Double(row.taker_buy_base_asset_volume));
    params.push(Param::Double(row.taker_buy_quote_asset_volume));
    params.push(Param::Text(row.ignore_col.clone()));
    let mut i: usize = 0;
    let ghost all = params_of(row@);
    assert(param_views(params@) =~= all.take(12));
    while i < row.rsi_values.len()
        invariant
            i <= row.rsi_values@.len(),
            all == params_of(row@),
            param_views(params@) =~= all.take(12 + i),
        decreases row.rsi_values@.len() - i,
    {
        let param = match row.rsi_values[i] {
            Some(bits) => Param::Double(bits),
            None => Param::Null,
        };
        let ghost before = params@;
        params.push(param);
        assert(all[12 + i] == param@);
        assert(param_views(params@) =~= param_views(before).push(param@));
        i += 1;
    }
    assert(all.take(12 + i) =~= all);
    assert forall|k: int| 0 <= k < params@.len() implies (#[trigger] params@[k])@ == all[k] by {
        assert(param_views(params@)[k] == params@[k]@);
    }
    params
}

} // verus!
