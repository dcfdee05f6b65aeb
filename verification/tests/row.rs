use csv_to_duckdb::row::{
    column_name, parse_double, parse_i64, record_to_row, row_to_params, Field, Param, RowError,
};

fn record(texts: &[&str]) -> Vec<Field> {
    texts
        .iter()
        .map(|s| Field { text: s.to_string(), double: s.parse::<f64>().ok().map(f64::to_bits) })
        .collect()
}

const KLINE: [&str; 12] =
    ["1704067200000", "1.5", "2.5", "0.5", "2", "10", "1704067200999", "15", "3", "4", "5", "0"];

fn kline_with(extra: &[&str]) -> Vec<Field> {
    let mut texts = KLINE.to_vec();
    texts.extend_from_slice(extra);
    record(&texts)
}

fn kline_but(index: usize, text: &str) -> Vec<Field> {
    let mut texts = KLINE.to_vec();
    texts[index] = text;
    record(&texts)
}

#[test]
fn a_record_becomes_a_row() {
    let row = record_to_row(&kline_with(&["30.25", "", " "]), 4).ok().unwrap();
    assert_eq!(row.open_time, 1704067200000);
    assert_eq!(f64::from_bits(row.open), 1.5);
    assert_eq!(f64::from_bits(row.high), 2.5);
    assert_eq!(f64::from_bits(row.low), 0.5);
    assert_eq!(f64::from_bits(row.close), 2.0);
    assert_eq!(f64::from_bits(row.volume), 10.0);
    assert_eq!(row.close_time, 1704067200999);
    assert_eq!(f64::from_bits(row.quote_asset_volume), 15.0);
    assert_eq!(row.number_of_trades, 3);
    assert_eq!(f64::from_bits(row.taker_buy_base_asset_volume), 4.0);
    assert_eq!(f64::from_bits(row.taker_buy_quote_asset_volume), 5.0);
    assert_eq!(row.ignore_col, "0");
    assert_eq!(row.rsi_values, vec![Some(30.25f64.to_bits()), None, None, None]);
}

#[test]
fn columns_behind_the_table_are_left_out() {
    let row = record_to_row(&kline_with(&["1", "x"]), 1).ok().unwrap();
    assert_eq!(row.rsi_values, vec![Some(1f64.to_bits())]);
    assert!(record_to_row(&kline_with(&["x"]), 0).is_ok());
}

#[test]
fn short_records_are_refused() {
    let short = record(&KLINE[..11]);
    let e = record_to_row(&short, 0).err().unwrap();
    assert_eq!(e, RowError::TooFewColumns);
    assert_eq!(e.messages(&short), vec!["row has 11 columns, expected at least 12"]);
}

#[test]
fn every_kline_column_is_checked() {
    let names = [
        "open_time", "open", "high", "low", "close", "volume", "close_time", "quote_asset_volume",
        "number_of_trades", "taker_buy_base_asset_volume", "taker_buy_quote_asset_volume",
    ];
    for (i, name) in names.iter().enumerate() {
        assert_eq!(column_name(i), *name);
        let bad = kline_but(i, "?");
        let e = record_to_row(&bad, 0).err().unwrap();
        assert_eq!(e, RowError::Invalid(i));
        let cause = match "?".parse::<i64>() {
            Err(cause) if [0, 6, 8].contains(&i) => format!("{}", cause),
            _ => format!("{}", "?".parse::<f64>().unwrap_err()),
        };
        assert_eq!(e.messages(&bad), vec![format!("invalid {}: ?", name), cause]);
    }
    assert_eq!(column_name(11), "ignore_col");
    assert!(record_to_row(&kline_but(11, "?"), 0).is_ok());
}

#[test]
fn the_first_faulty_column_counts() {
    let mut texts = KLINE.to_vec();
    texts[8] = "3.5";
    texts[2] = "";
    assert_eq!(record_to_row(&record(&texts), 0).err().unwrap(), RowError::Invalid(2));
    assert_eq!(record_to_row(&kline_but(8, "3.5"), 0).err().unwrap(), RowError::Invalid(8));
}

#[test]
fn rsi_values_must_be_doubles() {
    let bad = kline_with(&["1", "abc", "def"]);
    let e = record_to_row(&bad, 3).err().unwrap();
    assert_eq!(e, RowError::InvalidRsi(13));
    assert_eq!(e.messages(&bad), vec!["invalid float literal"]);
    assert_eq!(record_to_row(&kline_with(&[" 1"]), 1).err().unwrap(), RowError::InvalidRsi(12));
}

#[test]
fn single_columns_are_read() {
    let fields = record(&["5", "x"]);
    assert_eq!(parse_i64(&fields, 0), Ok(5));
    assert_eq!(parse_i64(&fields, 1), Err(RowError::Invalid(1)));
    let e = parse_i64(&fields, 6).unwrap_err();
    assert_eq!(e, RowError::Missing(6));
    assert_eq!(e.messages(&fields), vec!["missing close_time"]);
    assert_eq!(parse_double(&fields, 0), Ok(5f64.to_bits()));
    assert_eq!(parse_double(&fields, 1), Err(RowError::Invalid(1)));
    assert_eq!(parse_double(&fields, 2), Err(RowError::Missing(2)));
    let empty = kline_but(9, "");
    assert_eq!(
        record_to_row(&empty, 0).err().unwrap().messages(&empty),
        vec!["invalid taker_buy_base_asset_volume: ", "cannot parse float from empty string"]
    );
    let empty = kline_but(8, "");
    assert_eq!(
        record_to_row(&empty, 0).err().unwrap().messages(&empty),
        vec!["invalid number_of_trades: ", "cannot parse integer from empty string"]
    );
}

#[test]
fn a_row_becomes_parameters() {
    let row = record_to_row(&kline_with(&["30.25"]), 2).ok().unwrap();
    let params = row_to_params(&row);
    let shown: Vec<String> = params
        .iter()
        .map(|p| match p {
            Param::BigInt(v) => format!("i{}", v),
            Param::Double(bits) => format!("d{}", f64::from_bits(*bits)),
            Param::Text(s) => format!("t{}", s),
            Param::Null => "null".to_string(),
        })
        .collect();
    assert_eq!(
        shown,
        vec![
            "i1704067200000", "d1.5", "d2.5", "d0.5", "d2", "d10", "i1704067200999", "d15", "i3",
            "d4", "d5", "t0", "d30.25", "null",
        ]
    );
}
