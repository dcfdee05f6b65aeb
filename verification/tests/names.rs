use csv_to_duckdb::names::parse_filename;

fn parts(symbol: &str, interval: &str, year: i32, month: u32) -> Option<(String, String, i32, u32)> {
    Some((symbol.to_string(), interval.to_string(), year, month))
}

#[test]
fn names_by_the_pattern() {
    assert_eq!(parse_filename("BTCUSDT-1s-2024-01.csv"), parts("BTCUSDT", "1s", 2024, 1));
    assert_eq!(parse_filename("ETHUSDT-5m-2023-12.csv"), parts("ETHUSDT", "5m", 2023, 12));
}

#[test]
fn symbols_may_hold_dashes() {
    assert_eq!(parse_filename("BTC-USD-PERP-1h-2020-06.csv"), parts("BTC-USD-PERP", "1h", 2020, 6));
    assert_eq!(parse_filename("-1h-2020-06.csv"), parts("", "1h", 2020, 6));
    assert_eq!(parse_filename("---2020-06.csv"), parts("-", "", 2020, 6));
}

#[test]
fn names_off_the_pattern() {
    for name in [
        "", ".csv", "BTCUSDT-1s-2024-01.CSV", "BTCUSDT-1s-2024-01", "BTCUSDT-2024-01.csv",
        "BTCUSDT-1s-2024-00.csv", "BTCUSDT-1s-2024-13.csv", "BTCUSDT-1s-2024-x.csv",
        "BTCUSDT-1s-y-01.csv", "BTCUSDT-1s-2024-.csv", "BTCUSDT-1s-99999999999-01.csv",
        "BTCUSDT-1s-2024-01.csv.bak", "BTCUSDT-1s-2024-1.csv", "BTCUSDT-1s-24-01.csv",
        "BTCUSDT-1s-02024-01.csv", "BTCUSDT-1s-2024-001.csv", "BTCUSDT-1s-+024-01.csv",
        "BTCUSDT-1s-2024-+1.csv",
    ] {
        assert_eq!(parse_filename(name), None, "{}", name);
    }
}

#[test]
fn pattern_names_are_understood_for_every_month() {
    for year in [0, 7, 999, 2024, 9999] {
        for month in 1..=12 {
            let name = format!("S-1m-{:04}-{:02}.csv", year, month);
            assert_eq!(parse_filename(&name), parts("S", "1m", year, month));
        }
    }
}

#[test]
fn understood_names_are_made_of_what_they_say() {
    for name in ["BTC-USD-1h-0020-06.csv", "S-1m--2024-01.csv", "-1h-2020-12.csv"] {
        let (symbol, interval, year, month) = parse_filename(name).unwrap();
        assert_eq!(format!("{}-{}-{:04}-{:02}.csv", symbol, interval, year, month), name);
    }
}
