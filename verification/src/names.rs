//! CSV file names: `SYMBOL-INTERVAL-YYYY-MM.csv`.

use crate::text::{
    all_digits, decimal, digit_char, digits_value, fixed_digits, greatest_of, is_digit,
    last_position, lemma_digits_bound, lemma_last_position, pad_left, read_digits, repeated,
    split_at_last, split_last, strip_suffix, without_suffix,
};
use vstd::prelude::*;

verus! {

/// What a CSV file name says.
pub struct NameParts {
    pub symbol: Seq<char>,
    pub interval: Seq<char>,
    pub year: i32,
    pub month: u32,
}

/// The year and the month of a file: four digits, and two digits that denote a month.
pub open spec fn year_and_month(year: Seq<char>, month: Seq<char>) -> Option<(i32, u32)> {
    match (fixed_digits(year, 4), fixed_digits(month, 2)) {
        (Some(y), Some(m)) => if 1 <= m <= 12 {
            Some((y as i32, m as u32))
        } else {
            None
        },
        _ => None,
    }
}

/// What a file name without its extension says. The last three dashes separate the parts, so the
/// symbol may hold dashes of its own.
pub open spec fn stem_parts(stem: Seq<char>) -> Option<NameParts> {
    match split_at_last(stem, '-') {
        None => None,
        Some((before_month, month)) => match split_at_last(before_month, '-') {
            None => None,
            Some((before_year, year)) => match split_at_last(before_year, '-') {
                None => None,
                Some((symbol, interval)) => match year_and_month(year, month) {
                    None => None,
                    Some((y, m)) => Some(NameParts { symbol, interval, year: y, month: m }),
                },
            },
        },
    }
}

/// What a CSV file name says, if it follows the pattern.
pub open spec fn name_parts(file_name: Seq<char>) -> Option<NameParts> {
    match without_suffix(file_name, ".csv"@) {
        None => None,
        Some(stem) => stem_parts(stem),
    }
}

/// Takes a CSV file name apart into symbol, interval, year and month.
pub fn parse_filename(file_name: &str) -> (parts: Option<(String, String, i32, u32)>)
    ensures
        match parts {
            Some(p) => name_parts(file_name@) == Some(
                NameParts { symbol: p.0@, interval: p.1@, year: p.2, month: p.3 },
            ),
            None => name_parts(file_name@) is None,
        },
{
    let stem = match strip_suffix(file_name, ".csv") {
        Some(stem) => stem,
        None => return None,
    };
    let (before_month, month_text) = match split_last(stem, '-') {
        Some(parts) => parts,
        None => return None,
    };
    let (before_year, year_text) = match split_last(before_month, '-') {
        Some(parts) => parts,
        None => return None,
    };
    let (symbol, interval) = match split_last(before_year, '-') {
        Some(parts) => parts,
        None => return None,
    };
    proof {
        reveal_with_fuel(greatest_of, 5);
    }
    let month: u64 = match read_digits(month_text, 2) {
        Some(month) => month,
        None => return None,
    };
    let year: u64 = match read_digits(year_text, 4) {
        Some(year) => year,
        None => return None,
    };
    proof {
        lemma_digits_bound(year_text@);
    }
    if month < 1 || month > 12 {
        return None;
    }
    Some((symbol.to_owned(), interval.to_owned(), year as i32, month as u32))
}

// ---------------------------------------------------------------------------------------------
// Names that follow the pattern
// ---------------------------------------------------------------------------------------------
/// The name of a file by the pattern: a year of four digits, and a month of two.
pub open spec fn pattern_name(
    symbol: Seq<char>,
    interval: Seq<char>,
    year: nat,
    month: nat,
) -> Seq<char> {
    symbol + "-"@ + interval + "-"@ + pad_left(decimal(year), 4, '0') + "-"@ + pad_left(
        decimal(month),
        2,
        '0',
    ) + ".csv"@
}

/// Digits denote the number that they were made of.
pub proof fn lemma_decimal_denotes(n: nat)
    ensures
        all_digits(decimal(n)),
        digits_value(decimal(n)) == n,
    decreases n,
{
    if n < 10 {
        let s = decimal(n);
        assert(s.drop_last() =~= Seq::empty());
        assert(digits_value(s.drop_last()) == 0);
        assert(s.last() == digit_char(n as int));
    } else {
        lemma_decimal_denotes(n / 10);
        let s = decimal(n);
        assert(s.drop_last() =~= decimal(n / 10));
        assert(s.last() == digit_char((n % 10) as int));
        assert forall|i: int| 0 <= i < s.len() implies is_digit(#[trigger] s[i]) by {
            if i < s.len() - 1 {
                assert(decimal(n / 10)[i] == s[i]);
            }
        }
    }
}

/// Zeros in front of digits do not change the number.
proof fn lemma_leading_zeros(count: nat, s: Seq<char>)
    requires
        all_digits(s),
    ensures
        all_digits(repeated('0', count) + s),
        digits_value(repeated('0', count) + s) == digits_value(s),
    decreases s.len(),
{
    let padded = repeated('0', count) + s;
    assert(padded.drop_last() =~= repeated('0', count) + s.drop_last());
    assert(padded.last() == s.last());
    if s.len() == 1 {
        lemma_only_zeros(count);
        assert(repeated('0', count) + s.drop_last() =~= repeated('0', count));
        assert(digits_value(s.drop_last()) == 0);
    } else {
        assert forall|i: int| 0 <= i < s.drop_last().len() implies is_digit(
            #[trigger] s.drop_last()[i],
        ) by {
            assert(s[i] == s.drop_last()[i]);
        }
        lemma_leading_zeros(count, s.drop_last());
    }
    assert forall|i: int| 0 <= i < padded.len() implies is_digit(#[trigger] padded[i]) by {
        if i >= count {
            assert(padded[i] == s[i - count]);
        }
    }
}

/// Zeros alone denote zero.
proof fn lemma_only_zeros(count: nat)
    ensures
        digits_value(repeated('0', count)) == 0,
    decreases count,
{
    if count > 0 {
        assert(repeated('0', count).drop_last() =~= repeated('0', (count - 1) as nat));
        lemma_only_zeros((count - 1) as nat);
    }
}

/// A filled up number reads as the number.
proof fn lemma_padded_reads(n: nat, width: nat)
    requires
        decimal(n).len() <= width,
    ensures
        fixed_digits(pad_left(decimal(n), width, '0'), width) == Some(n),
{
    lemma_decimal_denotes(n);
    if decimal(n).len() < width {
        lemma_leading_zeros((width - decimal(n).len()) as nat, decimal(n));
    }
}

/// Digits are the number that they denote, filled up with zeros.
proof fn lemma_digits_are_padded(s: Seq<char>)
    requires
        all_digits(s),
    ensures
        pad_left(decimal(digits_value(s)), s.len(), '0') == s,
    decreases s.len(),
{
    let front = s.drop_last();
    let last = s.last();
    let digit = (last as int - 48) as nat;
    assert(is_digit(s[s.len() - 1]));
    assert(digit_char(digit as int) == last);
    if s.len() == 1 {
        assert(digits_value(front) == 0);
        assert(decimal(digit) =~= s);
    } else {
        assert forall|i: int| 0 <= i < front.len() implies is_digit(#[trigger] front[i]) by {
            assert(front[i] == s[i]);
        }
        lemma_digits_are_padded(front);
        let value = digits_value(front);
        assert(front.push(last) =~= s);
        if value == 0 {
            assert(pad_left(decimal(digit), s.len(), '0') =~= pad_left(
                decimal(0),
                front.len(),
                '0',
            ).push(last)) by {
                assert(decimal(digit) =~= seq![last]);
                assert(decimal(0) =~= seq!['0']);
            }
        } else {
            assert(decimal(10 * value + digit) == decimal(value).push(last));
            assert(decimal(value).len() <= front.len());
            assert(pad_left(decimal(value).push(last), s.len(), '0') =~= pad_left(
                decimal(value),
                front.len(),
                '0',
            ).push(last));
        }
    }
}

/// A text without a character, behind that character, is what stands behind the last one.
proof fn lemma_split_behind(before: Seq<char>, behind: Seq<char>, c: char)
    requires
        forall|i: int| 0 <= i < behind.len() ==> #[trigger] behind[i] != c,
    ensures
        split_at_last(before.push(c) + behind, c) == Some((before, behind)),
{
    let s = before.push(c) + behind;
    lemma_last_position(s, c);
    let at = last_position(s, c);
    assert(s[before.len() as int] == c);
    if at > before.len() {
        assert(s[at] == behind[at - before.len() - 1]);
    }
    assert(s.take(at) =~= before);
    assert(s.skip(at + 1) =~= behind);
}

/// Every name by the pattern is taken apart into what it was made of. The interval has no dash;
/// the symbol may have some.
pub proof fn pattern_names_are_understood(
    symbol: Seq<char>,
    interval: Seq<char>,
    year: nat,
    month: nat,
)
    requires
        forall|i: int| 0 <= i < interval.len() ==> #[trigger] interval[i] != '-',
        year <= 9999,
        1 <= month <= 12,
    ensures
        name_parts(pattern_name(symbol, interval, year, month)) == Some(
            NameParts { symbol, interval, year: year as i32, month: month as u32 },
        ),
{
    reveal_strlit("-");
    reveal_strlit(".csv");
    let y = pad_left(decimal(year), 4, '0');
    let m = pad_left(decimal(month), 2, '0');
    reveal_with_fuel(decimal, 4);
    lemma_padded_reads(year, 4);
    lemma_padded_reads(month, 2);
    let name = pattern_name(symbol, interval, year, month);
    let before_year = symbol.push('-') + interval;
    let before_month = before_year.push('-') + y;
    let stem = before_month.push('-') + m;
    assert(name =~= stem + ".csv"@);
    assert(".csv"@.is_suffix_of(name));
    assert(name.take(name.len() - ".csv"@.len()) =~= stem);
    assert forall|i: int| 0 <= i < y.len() implies #[trigger] y[i] != '-' by {
        assert(is_digit(y[i]));
    }
    assert forall|i: int| 0 <= i < m.len() implies #[trigger] m[i] != '-' by {
        assert(is_digit(m[i]));
    }
    lemma_split_behind(before_month, m, '-');
    lemma_split_behind(before_year, y, '-');
    lemma_split_behind(symbol, interval, '-');
}

/// A name that is understood follows the pattern: it is made of what it says, with a year of four
/// digits, a month between 1 and 12, and an interval without dashes.
pub proof fn understood_names_follow_the_pattern(file_name: Seq<char>)
    ensures
        name_parts(file_name) matches Some(parts) ==> {
            &&& 1 <= parts.month <= 12
            &&& 0 <= parts.year <= 9999
            &&& forall|i: int| 0 <= i < parts.interval.len() ==> #[trigger] parts.interval[i] != '-'
            &&& file_name == pattern_name(
                parts.symbol,
                parts.interval,
                parts.year as nat,
                parts.month as nat,
            )
        },
{
    if name_parts(file_name) is Some {
        reveal_strlit("-");
        reveal_strlit(".csv");
        reveal_with_fuel(greatest_of, 5);
        let parts = name_parts(file_name)->0;
        let stem = without_suffix(file_name, ".csv"@)->0;
        let (before_month, month) = split_at_last(stem, '-')->0;
        let (before_year, year) = split_at_last(before_month, '-')->0;
        lemma_last_position(stem, '-');
        lemma_last_position(before_month, '-');
        lemma_last_position(before_year, '-');
        lemma_digits_bound(year);
        lemma_digits_are_padded(year);
        lemma_digits_are_padded(month);
        assert(stem =~= before_month.push('-') + month);
        assert(before_month =~= before_year.push('-') + year);
        assert(before_year =~= parts.symbol.push('-') + parts.interval);
        assert(file_name =~= stem + ".csv"@);
        assert(file_name =~= pattern_name(
            parts.symbol,
            parts.interval,
            parts.year as nat,
            parts.month as nat,
        ));
    }
}

} // verus!
