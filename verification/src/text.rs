//! Text building blocks: decimal numbers, padding, white space, joining and splitting.

use crate::names::lemma_decimal_denotes;
use vstd::prelude::*;

verus! {

/// `String::push` appends one character to the end of the string.
pub assume_specification[ String::push ](s: &mut String, c: char)
    ensures
        final(s)@ == old(s)@.push(c),
;

// ---------------------------------------------------------------------------------------------
// Decimal numbers
// ---------------------------------------------------------------------------------------------
/// The character of a decimal digit.
pub open spec fn digit_char(d: int) -> char {
    (48 + d) as char
}

/// Is `c` one of the ten decimal digits?
pub open spec fn is_digit(c: char) -> bool {
    '0' <= c <= '9'
}

/// The value of a decimal digit.
pub open spec fn digit_value(c: char) -> int {
    c as int - 48
}

/// The decimal representation of a natural number, without leading zeros.
pub open spec fn decimal(n: nat) -> Seq<char>
    decreases n,
{
    if n < 10 {
        seq![digit_char(n as int)]
    } else {
        decimal(n / 10).push(digit_char((n % 10) as int))
    }
}

/// The decimal representation of an integer: a minus sign in front of a negative one.
pub open spec fn signed_decimal(n: int) -> Seq<char> {
    if n < 0 {
        seq!['-'] + decimal((-n) as nat)
    } else {
        decimal(n as nat)
    }
}

/// The number that a run of decimal digits denotes.
pub open spec fn digits_value(s: Seq<char>) -> nat
    decreases s.len(),
{
    if s.len() == 0 {
        0
    } else {
        (10 * digits_value(s.drop_last()) + digit_value(s.last())) as nat
    }
}

/// At least one character, and decimal digits only.
pub open spec fn all_digits(s: Seq<char>) -> bool {
    s.len() > 0 && forall|i: int| 0 <= i < s.len() ==> is_digit(#[trigger] s[i])
}

/// `count` copies of one character.
pub open spec fn repeated(c: char, count: nat) -> Seq<char> {
    Seq::new(count, |i: int| c)
}

/// Text filled up on the left to a minimal width.
pub open spec fn pad_left(s: Seq<char>, width: nat, fill: char) -> Seq<char> {
    if s.len() >= width {
        s
    } else {
        repeated(fill, (width - s.len()) as nat) + s
    }
}

/// An integer filled up with zeros to a minimal width; the sign counts and stays in front.
pub open spec fn zero_padded(n: int, width: nat) -> Seq<char> {
    if n < 0 {
        seq!['-'] + pad_left(decimal((-n) as nat), if width > 0 { (width - 1) as nat } else { 0 }, '0')
    } else {
        pad_left(decimal(n as nat), width, '0')
    }
}

/// Appends the decimal representation of `n`.
pub fn append_decimal(out: &mut String, n: u64)
    ensures
        final(out)@ == old(out)@ + decimal(n as nat),
    decreases n,
{
    if n >= 10 {
        append_decimal(out, n / 10);
    }
    let digit: u8 = (n % 10) as u8;
    out.push((48u8 + digit) as char);
    assert(out@ =~= old(out)@ + decimal(n as nat));
}

/// Appends the decimal representation of `n`, with its sign if it is negative.
pub fn append_signed_decimal(out: &mut String, n: i64)
    ensures
        final(out)@ == old(out)@ + signed_decimal(n as int),
{
    if n < 0 {
        out.push('-');
        append_decimal(out, magnitude(n));
        assert(out@ =~= old(out)@ + signed_decimal(n as int));
    } else {
        append_decimal(out, n as u64);
    }
}

/// The distance of a negative number from zero.
fn magnitude(n: i64) -> (m: u64)
    requires
        n < 0,
    ensures
        m == -n,
{
    ((-(n + 1)) as u64) + 1
}

/// Appends `count` copies of one character.
fn append_repeated(out: &mut String, c: char, count: usize)
    ensures
        final(out)@ == old(out)@ + repeated(c, count as nat),
{
    let mut i: usize = 0;
    assert(out@ =~= old(out)@ + repeated(c, 0));
    while i < count
        invariant
            i <= count,
            out@ =~= old(out)@ + repeated(c, i as nat),
        decreases count - i,
    {
        out.push(c);
        i += 1;
    }
}

/// Appends the decimal representation of `n`, filled up with `fill` on the left.
pub fn append_padded(out: &mut String, n: u64, width: usize, fill: char)
    ensures
        final(out)@ == old(out)@ + pad_left(decimal(n as nat), width as nat, fill),
{
    let mut digits = String::new();
    append_decimal(&mut digits, n);
    assert(digits@ =~= decimal(n as nat));
    let length: usize = digits.as_str().unicode_len();
    if length < width {
        append_repeated(out, fill, width - length);
    }
    out.append(digits.as_str());
    assert(out@ =~= old(out)@ + pad_left(decimal(n as nat), width as nat, fill));
}

/// Appends an integer filled up with zeros to a minimal width, the sign included.
pub fn append_zero_padded(out: &mut String, n: i32, width: usize)
    ensures
        final(out)@ == old(out)@ + zero_padded(n as int, width as nat),
{
    if n < 0 {
        out.push('-');
        append_padded(out, magnitude(n as i64), if width > 0 { width - 1 } else { 0 }, '0');
        assert(out@ =~= old(out)@ + zero_padded(n as int, width as nat));
    } else {
        append_padded(out, n as u64, width, '0');
    }
}

// ---------------------------------------------------------------------------------------------
// Reading integers
// ---------------------------------------------------------------------------------------------
/// The characters of a text.
pub fn characters(s: &str) -> (chars: Vec<char>)
    ensures
        chars@ == s@,
{
    let mut chars: Vec<char> = Vec::new();
    for c in it: s.chars()
        invariant
            chars@ == it.seq().take(it.index()),
            it.seq() == s@,
    {
        chars.push(c);
        assert(chars@ =~= it.seq().take(it.index() + 1));
    }
    assert(chars@ =~= s@);
    chars
}

/// The integer that a text denotes, if it is one between `low` and `high`: an optional sign, of
/// which the minus is for types with negative values only, and then decimal digits.
pub open spec fn parsed_integer(s: Seq<char>, low: int, high: int) -> Option<int> {
    let negative = low < 0 && s.len() > 0 && s[0] == '-';
    let signed = negative || (s.len() > 0 && s[0] == '+');
    let digits = if signed { s.skip(1) } else { s };
    let value = if negative { -(digits_value(digits) as int) } else { digits_value(digits) as int };
    if all_digits(digits) && low <= value <= high {
        Some(value)
    } else {
        None
    }
}

/// A longer run of digits denotes a number that is not smaller.
proof fn lemma_digits_value_grows(s: Seq<char>, n: int)
    requires
        0 <= n <= s.len(),
        forall|i: int| 0 <= i < s.len() ==> is_digit(#[trigger] s[i]),
    ensures
        digits_value(s.take(n)) <= digits_value(s),
    decreases s.len(),
{
    if n == s.len() {
        assert(s.take(n) =~= s);
    } else {
        lemma_digits_value_grows(s.drop_last(), n);
        assert(s.drop_last().take(n) =~= s.take(n));
        assert(is_digit(s[s.len() - 1]));
    }
}

/// The number that the digits of `chars` from `from` on denote, if they are digits and the
/// number fits.
fn digits_from(chars: &Vec<char>, from: usize) -> (value: Option<u64>)
    requires
        from <= chars@.len(),
    ensures
        value matches Some(v) ==> all_digits(chars@.skip(from as int)) && v == digits_value(
            chars@.skip(from as int),
        ),
        value is None ==> !all_digits(chars@.skip(from as int)) || digits_value(
            chars@.skip(from as int),
        ) > u64::MAX,
{
    let ghost digits = chars@.skip(from as int);
    if from == chars.len() {
        return None;
    }
    let mut value: u64 = 0;
    let mut i: usize = from;
    assert(digits.take(0) =~= Seq::<char>::empty());
    while i < chars.len()
        invariant
            from <= i <= chars@.len(),
            digits == chars@.skip(from as int),
            forall|k: int| 0 <= k < i - from ==> is_digit(#[trigger] digits[k]),
            value == digits_value(digits.take(i - from)),
        decreases chars@.len() - i,
    {
        let c = chars[i];
        assert(digits[i - from] == c);
        if c < '0' || c > '9' {
            return None;
        }
        let digit: u64 = (c as u32 - 48) as u64;
        let ghost next = digits.take(i - from + 1);
        proof {
            assert(next.drop_last() =~= digits.take(i - from));
            if all_digits(digits) {
                lemma_digits_value_grows(digits, i - from + 1);
            }
        }
        if value > (u64::MAX - digit) / 10 {
            return None;
        }
        value = value * 10 + digit;
        i += 1;
    }
    assert(digits.take(digits.len() as int) =~= digits);
    Some(value)
}

/// Reads a text as a signed 64-bit integer.
pub fn read_i64(s: &str) -> (value: Option<i64>)
    ensures
        (match value {
            Some(v) => Some(v as int),
            None => None,
        }) == parsed_integer(s@, i64::MIN as int, i64::MAX as int),
{
    let chars = characters(s);
    let negative = chars.len() > 0 && chars[0] == '-';
    let signed = negative || (chars.len() > 0 && chars[0] == '+');
    let from: usize = if signed { 1 } else { 0 };
    proof {
        assert(chars@.skip(0) =~= chars@);
    }
    match digits_from(&chars, from) {
        Some(v) => {
            if negative {
                if v <= 9223372036854775808 {
                    if v == 9223372036854775808 {
                        Some(i64::MIN)
                    } else {
                        Some(-(v as i64))
                    }
                } else {
                    None
                }
            } else if v <= i64::MAX as u64 {
                Some(v as i64)
            } else {
                None
            }
        },
        None => None,
    }
}

/// The greatest number of so many decimal digits.
pub open spec fn greatest_of(digits: nat) -> nat
    decreases digits,
{
    if digits == 0 {
        0
    } else {
        10 * greatest_of((digits - 1) as nat) + 9
    }
}

/// Digits denote no more than as many nines.
pub proof fn lemma_digits_bound(s: Seq<char>)
    requires
        forall|i: int| 0 <= i < s.len() ==> is_digit(#[trigger] s[i]),
    ensures
        digits_value(s) <= greatest_of(s.len()),
    decreases s.len(),
{
    if s.len() > 0 {
        lemma_digits_bound(s.drop_last());
        assert(is_digit(s[s.len() - 1]));
    }
}

/// The number that exactly `width` digits denote.
pub open spec fn fixed_digits(s: Seq<char>, width: nat) -> Option<nat> {
    if s.len() == width && all_digits(s) {
        Some(digits_value(s))
    } else {
        None
    }
}

/// Reads exactly `width` digits.
pub fn read_digits(s: &str, width: usize) -> (value: Option<u64>)
    requires
        greatest_of(width as nat) <= u64::MAX,
    ensures
        (match value {
            Some(v) => Some(v as nat),
            None => None,
        }) == fixed_digits(s@, width as nat),
{
    let chars = characters(s);
    if chars.len() != width {
        return None;
    }
    proof {
        assert(chars@.skip(0) =~= chars@);
        if all_digits(s@) {
            lemma_digits_bound(s@);
        }
    }
    digits_from(&chars, 0)
}

/// Why a text is not an integer.
#[derive(Clone, Copy, Debug, PartialEq, Eq, Structural)]
pub enum IntegerFault {
    Empty,
    InvalidDigit,
    TooLarge,
    TooSmall,
}

/// The number of digits that a text begins with.
pub open spec fn leading_digits(s: Seq<char>) -> nat
    decreases s.len(),
{
    if s.len() == 0 || !is_digit(s[0]) {
        0
    } else {
        1 + leading_digits(s.skip(1))
    }
}

/// Why a text that denotes no signed 64-bit integer does not. The digits in front of the first
/// character that is none decide first: they may already denote too much.
pub open spec fn integer_fault(s: Seq<char>) -> IntegerFault {
    let negative = s.len() > 0 && s[0] == '-';
    let signed = negative || (s.len() > 0 && s[0] == '+');
    let digits = if signed { s.skip(1) } else { s };
    let front = digits_value(digits.take(leading_digits(digits) as int));
    if s.len() == 0 {
        IntegerFault::Empty
    } else if negative && front > -(i64::MIN as int) {
        IntegerFault::TooSmall
    } else if !negative && front > i64::MAX {
        IntegerFault::TooLarge
    } else {
        IntegerFault::InvalidDigit
    }
}

/// The digits that a text begins with are digits, and what follows them is none.
proof fn lemma_leading_digits(s: Seq<char>)
    ensures
        leading_digits(s) <= s.len(),
        forall|i: int| 0 <= i < leading_digits(s) ==> is_digit(#[trigger] s[i]),
        leading_digits(s) < s.len() ==> !is_digit(s[leading_digits(s) as int]),
    decreases s.len(),
{
    if s.len() > 0 && is_digit(s[0]) {
        lemma_leading_digits(s.skip(1));
        assert forall|i: int| 0 <= i < leading_digits(s) implies is_digit(#[trigger] s[i]) by {
            if i > 0 {
                assert(s.skip(1)[i - 1] == s[i]);
            }
        }
    }
}

/// Does what the digits of `chars` from `from` on begin with denote more than `limit`?
fn front_exceeds(chars: &Vec<char>, from: usize, limit: u64) -> (yes: bool)
    requires
        from <= chars@.len(),
    ensures
        ({
            let digits = chars@.skip(from as int);
            yes == (digits_value(digits.take(leading_digits(digits) as int)) > limit)
        }),
{
    let ghost digits = chars@.skip(from as int);
    let ghost front = digits.take(leading_digits(digits) as int);
    proof {
        lemma_leading_digits(digits);
        assert(digits.take(0) =~= Seq::<char>::empty());
    }
    let mut value: u64 = 0;
    let mut i: usize = from;
    while i < chars.len()
        invariant
            from <= i <= chars@.len(),
            digits == chars@.skip(from as int),
            front == digits.take(leading_digits(digits) as int),
            i - from <= leading_digits(digits) <= digits.len(),
            forall|k: int| 0 <= k < leading_digits(digits) ==> is_digit(#[trigger] digits[k]),
            leading_digits(digits) < digits.len() ==> !is_digit(
                digits[leading_digits(digits) as int],
            ),
            value == digits_value(digits.take(i - from)),
            value <= limit,
        decreases chars@.len() - i,
    {
        let c = chars[i];
        assert(digits[i - from] == c);
        if c < '0' || c > '9' {
            assert(i - from == leading_digits(digits));
            return false;
        }
        let digit: u64 = (c as u32 - 48) as u64;
        let ghost next = digits.take(i - from + 1);
        proof {
            assert(next.drop_last() =~= digits.take(i - from));
            assert(next =~= front.take(i - from + 1));
            lemma_digits_value_grows(front, i - from + 1);
        }
        if digit > limit || value > (limit - digit) / 10 {
            return true;
        }
        value = value * 10 + digit;
        i += 1;
    }
    false
}

/// Says why a text denotes no signed 64-bit integer.
pub fn why_no_i64(s: &str) -> (fault: IntegerFault)
    ensures
        fault == integer_fault(s@),
{
    let chars = characters(s);
    proof {
        assert(chars@.skip(0) =~= chars@);
    }
    if chars.len() == 0 {
        return IntegerFault::Empty;
    }
    if chars[0] == '-' {
        if front_exceeds(&chars, 1, 9223372036854775808) {
            return IntegerFault::TooSmall;
        }
    } else {
        let from: usize = if chars[0] == '+' { 1 } else { 0 };
        if front_exceeds(&chars, from, i64::MAX as u64) {
            return IntegerFault::TooLarge;
        }
    }
    IntegerFault::InvalidDigit
}

/// The wording of why a text is not an integer.
pub open spec fn integer_fault_text(fault: IntegerFault) -> Seq<char> {
    match fault {
        IntegerFault::Empty => "cannot parse integer from empty string"@,
        IntegerFault::InvalidDigit => "invalid digit found in string"@,
        IntegerFault::TooLarge => "number too large to fit in target type"@,
        IntegerFault::TooSmall => "number too small to fit in target type"@,
    }
}

impl IntegerFault {
    /// The wording of the fault.
    pub fn message(&self) -> (text: &'static str)
        ensures
            text@ == integer_fault_text(*self),
            self == IntegerFault::Empty ==> text@ == "cannot parse integer from empty string"@,
            self == IntegerFault::InvalidDigit ==> text@ == "invalid digit found in string"@,
            self == IntegerFault::TooLarge ==> text@ == "number too large to fit in target type"@,
            self == IntegerFault::TooSmall ==> text@ == "number too small to fit in target type"@,
    {
        match self {
            IntegerFault::Empty => "cannot parse integer from empty string",
            IntegerFault::InvalidDigit => "invalid digit found in string",
            IntegerFault::TooLarge => "number too large to fit in target type",
            IntegerFault::TooSmall => "number too small to fit in target type",
        }
    }
}

// ---------------------------------------------------------------------------------------------
// White space
// ---------------------------------------------------------------------------------------------
/// Does the character have the Unicode property `White_Space`?
pub open spec fn is_white_space(c: char) -> bool {
    ||| '\u{9}' <= c <= '\u{d}'
    ||| c == ' '
    ||| c == '\u{85}'
    ||| c == '\u{a0}'
    ||| c == '\u{1680}'
    ||| '\u{2000}' <= c <= '\u{200a}'
    ||| c == '\u{2028}'
    ||| c == '\u{2029}'
    ||| c == '\u{202f}'
    ||| c == '\u{205f}'
    ||| c == '\u{3000}'
}

/// White space only, or nothing at all.
pub open spec fn is_blank(s: Seq<char>) -> bool {
    forall|i: int| 0 <= i < s.len() ==> is_white_space(#[trigger] s[i])
}

/// The text from its first character on that is not white space.
pub open spec fn trim_start(s: Seq<char>) -> Seq<char>
    decreases s.len(),
{
    if s.len() > 0 && is_white_space(s[0]) {
        trim_start(s.skip(1))
    } else {
        s
    }
}

/// The text up to its last character that is not white space.
pub open spec fn trim_end(s: Seq<char>) -> Seq<char>
    decreases s.len(),
{
    if s.len() > 0 && is_white_space(s.last()) {
        trim_end(s.drop_last())
    } else {
        s
    }
}

/// The text without white space at either end.
pub open spec fn trimmed(s: Seq<char>) -> Seq<char> {
    trim_end(trim_start(s))
}

/// Does the character have the Unicode property `White_Space`?
pub fn white_space(c: char) -> (yes: bool)
    ensures
        yes == is_white_space(c),
{
    ('\u{9}' <= c && c <= '\u{d}') || c == ' ' || c == '\u{85}' || c == '\u{a0}' || c == '\u{1680}'
        || ('\u{2000}' <= c && c <= '\u{200a}') || c == '\u{2028}' || c == '\u{2029}' || c
        == '\u{202f}' || c == '\u{205f}' || c == '\u{3000}'
}

/// Is the text white space only, or empty?
pub fn blank(s: &str) -> (yes: bool)
    ensures
        yes == is_blank(s@),
{
    let chars = characters(s);
    let mut i: usize = 0;
    while i < chars.len()
        invariant
            i <= chars@.len(),
            chars@ == s@,
            forall|k: int| 0 <= k < i ==> is_white_space(#[trigger] s@[k]),
        decreases chars@.len() - i,
    {
        if !white_space(chars[i]) {
            assert(!is_white_space(s@[i as int]));
            return false;
        }
        i += 1;
    }
    true
}

/// The text without white space at either end.
pub fn trim(s: &str) -> (inner: &str)
    ensures
        inner@ == trimmed(s@),
{
    let chars = characters(s);
    let mut from: usize = 0;
    assert(s@.skip(0) =~= s@);
    while from < chars.len() && white_space(chars[from])
        invariant
            from <= chars@.len(),
            chars@ == s@,
            trim_start(s@) == trim_start(s@.skip(from as int)),
        decreases chars@.len() - from,
    {
        assert(s@.skip(from as int).skip(1) =~= s@.skip(from + 1));
        from += 1;
    }
    let mut to: usize = chars.len();
    let ghost rest = s@.skip(from as int);
    assert(trim_start(s@) == rest);
    assert(s@.subrange(from as int, to as int) =~= rest);
    while to > from && white_space(chars[to - 1])
        invariant
            from <= to <= chars@.len(),
            chars@ == s@,
            trim_end(rest) == trim_end(s@.subrange(from as int, to as int)),
        decreases to,
    {
        assert(s@.subrange(from as int, to as int).drop_last() =~= s@.subrange(
            from as int,
            to - 1,
        ));
        to -= 1;
    }
    s.substring_char(from, to)
}

// ---------------------------------------------------------------------------------------------
// Splitting, comparing and joining
// ---------------------------------------------------------------------------------------------
/// The position of the last `c` in `s`, or -1 where there is none.
pub open spec fn last_position(s: Seq<char>, c: char) -> int
    decreases s.len(),
{
    if s.len() == 0 {
        -1
    } else if s.last() == c {
        s.len() - 1
    } else {
        last_position(s.drop_last(), c)
    }
}

/// What stands before and behind the last `c` in `s`.
pub open spec fn split_at_last(s: Seq<char>, c: char) -> Option<(Seq<char>, Seq<char>)> {
    let at = last_position(s, c);
    if at < 0 {
        None
    } else {
        Some((s.take(at), s.skip(at + 1)))
    }
}

/// The last position is a position of the character, and the last one.
pub proof fn lemma_last_position(s: Seq<char>, c: char)
    ensures
        -1 <= last_position(s, c) < s.len(),
        last_position(s, c) >= 0 ==> s[last_position(s, c)] == c,
        forall|i: int| last_position(s, c) < i < s.len() ==> #[trigger] s[i] != c,
    decreases s.len(),
{
    if s.len() > 0 && s.last() != c {
        lemma_last_position(s.drop_last(), c);
        assert forall|i: int| last_position(s, c) < i < s.len() implies #[trigger] s[i] != c by {
            if i < s.len() - 1 {
                assert(s.drop_last()[i] == s[i]);
            }
        }
    }
}

/// What stands before and behind the last `c` in `s`.
pub fn split_last<'a>(s: &'a str, c: char) -> (parts: Option<(&'a str, &'a str)>)
    ensures
        (match parts {
            Some(p) => Some((p.0@, p.1@)),
            None => None,
        }) == split_at_last(s@, c),
{
    let chars = characters(s);
    let mut i: usize = chars.len();
    assert(s@.take(s@.len() as int) =~= s@);
    while i > 0
        invariant
            i <= chars@.len(),
            chars@ == s@,
            last_position(s@, c) == last_position(s@.take(i as int), c),
        decreases i,
    {
        assert(s@.take(i as int).drop_last() =~= s@.take(i - 1));
        if chars[i - 1] == c {
            let before = s.substring_char(0, i - 1);
            let behind = s.substring_char(i, chars.len());
            assert(before@ =~= s@.take(i - 1));
            assert(behind@ =~= s@.skip(i as int));
            return Some((before, behind));
        }
        i -= 1;
    }
    None
}

/// Do two texts hold the same characters?
pub fn same_text(a: &str, b: &str) -> (yes: bool)
    ensures
        yes == (a@ == b@),
{
    a.to_owned() == b.to_owned()
}

/// Does `s` begin with `prefix`?
pub fn begins_with(s: &str, prefix: &str) -> (yes: bool)
    ensures
        yes == prefix@.is_prefix_of(s@),
{
    let length: usize = prefix.unicode_len();
    if s.unicode_len() < length {
        return false;
    }
    let head = s.substring_char(0, length);
    assert(prefix@.is_prefix_of(s@) <==> head@ =~= prefix@);
    same_text(head, prefix)
}

/// What stands before `suffix` at the end of `s`.
pub open spec fn without_suffix(s: Seq<char>, suffix: Seq<char>) -> Option<Seq<char>> {
    if suffix.is_suffix_of(s) {
        Some(s.take(s.len() - suffix.len()))
    } else {
        None
    }
}

/// What stands before `suffix` at the end of `s`.
pub fn strip_suffix<'a>(s: &'a str, suffix: &str) -> (stem: Option<&'a str>)
    ensures
        (match stem {
            Some(t) => Some(t@),
            None => None,
        }) == without_suffix(s@, suffix@),
{
    let total: usize = s.unicode_len();
    let length: usize = suffix.unicode_len();
    if total < length {
        return None;
    }
    let tail = s.substring_char(total - length, total);
    assert(suffix@.is_suffix_of(s@) <==> tail@ =~= suffix@);
    if same_text(tail, suffix) {
        let stem = s.substring_char(0, total - length);
        assert(stem@ =~= s@.take(total - length));
        Some(stem)
    } else {
        None
    }
}

/// The text of an optional string.
pub open spec fn optional_text(text: Option<String>) -> Option<Seq<char>> {
    match text {
        Some(t) => Some(t@),
        None => None,
    }
}

/// The characters of each text of a list.
pub open spec fn texts(list: Seq<String>) -> Seq<Seq<char>> {
    Seq::new(list.len(), |i: int| list[i]@)
}

/// The parts of a list one after the other, with `separator` between neighbours.
pub open spec fn joined(parts: Seq<Seq<char>>, separator: Seq<char>) -> Seq<char>
    decreases parts.len(),
{
    if parts.len() == 0 {
        Seq::empty()
    } else {
        let gap = if parts.len() == 1 { Seq::empty() } else { separator };
        joined(parts.drop_last(), separator) + gap + parts.last()
    }
}

/// The texts of a list one after the other, with `separator` between neighbours.
pub fn join(list: &Vec<String>, separator: &str) -> (text: String)
    ensures
        text@ == joined(texts(list@), separator@),
{
    let mut text = String::new();
    let mut i: usize = 0;
    let ghost parts = texts(list@);
    assert(parts.take(0) =~= Seq::empty());
    while i < list.len()
        invariant
            i <= list@.len(),
            parts == texts(list@),
            text@ == joined(parts.take(i as int), separator@),
        decreases list@.len() - i,
    {
        assert(parts.take(i + 1).drop_last() =~= parts.take(i as int));
        if i > 0 {
            text.append(separator);
        }
        text.append(list[i].as_str());
        assert(text@ =~= joined(parts.take(i + 1), separator@));
        i += 1;
    }
    assert(parts.take(parts.len() as int) =~= parts);
    text
}

// ---------------------------------------------------------------------------------------------
// Bytes
// ---------------------------------------------------------------------------------------------
/// The wording that the error of `std::str::from_utf8` shows for these bytes.
pub uninterp spec fn utf8_fault_text(bytes: Seq<u8>) -> Seq<char>;

/// `std::str::from_utf8` gives the text whose UTF-8 encoding the bytes are, and fails exactly
/// where they are not valid UTF-8. Of its error only the wording is kept; nothing is said about
/// how that reads.
#[verifier::external_body]
pub(crate) fn utf8_text(bytes: &[u8]) -> (text: Result<&str, String>)
    ensures
        text is Ok <==> vstd::utf8::valid_utf8(bytes@),
        match text {
            Ok(t) => vstd::utf8::encode_utf8(t@) == bytes@,
            Err(e) => e@ == utf8_fault_text(bytes@),
        },
{
    match std::str::from_utf8(bytes) {
        Ok(text) => Ok(text),
        Err(error) => Err(format!("{}", error)),
    }
}

// ---------------------------------------------------------------------------------------------
// What the building blocks are for
// ---------------------------------------------------------------------------------------------
/// A number that is written out reads back as itself, and is written without needless zeros.
pub proof fn written_numbers_read_back(n: i64)
    ensures
        parsed_integer(signed_decimal(n as int), i64::MIN as int, i64::MAX as int) == Some(n as int),
        n >= 0 ==> all_digits(signed_decimal(n as int)),
        n >= 10 ==> signed_decimal(n as int)[0] != '0',
        n < 0 ==> signed_decimal(n as int)[0] == '-' && signed_decimal(n as int)[1] != '0',
{
    let magnitude: nat = if n < 0 { (-n) as nat } else { n as nat };
    lemma_decimal_denotes(magnitude);
    lemma_no_leading_zero(magnitude);
    let digits = decimal(magnitude);
    if n < 0 {
        let text = signed_decimal(n as int);
        assert(text.skip(1) =~= digits);
        assert(text[1] == digits[0]);
    } else {
        assert(is_digit(digits[0]));
    }
}

proof fn lemma_no_leading_zero(n: nat)
    ensures
        decimal(n).len() > 0,
        n > 0 ==> decimal(n)[0] != '0',
    decreases n,
{
    if n >= 10 {
        lemma_no_leading_zero(n / 10);
        assert(decimal(n)[0] == decimal(n / 10)[0]);
    }
}

/// An integer is made of digits and at most one sign in front of them. A plus sign changes nothing,
/// a minus sign is for types with negative values only, and leading zeros do not count.
pub proof fn integers_are_signs_and_digits(s: Seq<char>, low: int, high: int)
    requires
        low <= 0 <= high,
    ensures
        parsed_integer(s, low, high) matches Some(v) ==> {
            &&& low <= v <= high
            &&& s.len() > 0
            &&& forall|i: int| 1 <= i < s.len() ==> '0' <= #[trigger] s[i] <= '9'
            &&& '0' <= s[0] <= '9' || (s.len() > 1 && (s[0] == '+' || (s[0] == '-' && low < 0)))
        },
        all_digits(s) ==> {
            &&& parsed_integer(seq!['+'] + s, low, high) == parsed_integer(s, low, high)
            &&& parsed_integer(s, low, high) matches Some(v) ==> v == digits_value(s)
            &&& parsed_integer(s, low, high) is Some <==> digits_value(s) <= high
            &&& parsed_integer(seq!['-'] + s, low, high) is Some <==> low < 0 && -(digits_value(
                s,
            ) as int) >= low
            &&& parsed_integer(seq!['-'] + s, low, high) matches Some(v) ==> v == -(digits_value(
                s,
            ) as int)
            &&& digits_value(seq!['0'] + s) == digits_value(s)
        },
{
    let negative = low < 0 && s.len() > 0 && s[0] == '-';
    let signed = negative || (s.len() > 0 && s[0] == '+');
    let digits = if signed { s.skip(1) } else { s };
    if parsed_integer(s, low, high) is Some {
        assert forall|i: int| 1 <= i < s.len() implies '0' <= #[trigger] s[i] <= '9' by {
            if signed {
                assert(digits[i - 1] == s[i]);
            }
            assert(is_digit(digits[if signed { i - 1 } else { i }]));
        }
        assert(is_digit(digits[0]));
    }
    if all_digits(s) {
        assert(is_digit(s[0]));
        assert((seq!['+'] + s).skip(1) =~= s);
        assert((seq!['-'] + s).skip(1) =~= s);
        if low >= 0 {
            assert((seq!['-'] + s)[0] == '-');
            assert(!all_digits(seq!['-'] + s)) by {
                assert(!is_digit((seq!['-'] + s)[0]));
            }
        }
        lemma_zero_in_front(s);
    }
}

proof fn lemma_zero_in_front(s: Seq<char>)
    ensures
        digits_value(seq!['0'] + s) == digits_value(s),
    decreases s.len(),
{
    let t = seq!['0'] + s;
    if s.len() == 0 {
        assert(t.drop_last() =~= Seq::empty());
        assert(digits_value(t.drop_last()) == 0);
    } else {
        assert(t.drop_last() =~= seq!['0'] + s.drop_last());
        lemma_zero_in_front(s.drop_last());
    }
}

/// Digits denote a number by their places: one more digit behind makes ten times as much of those in
/// front of it, and digits are '0' to '9'.
pub proof fn digits_count_by_their_places(s: Seq<char>, d: int)
    requires
        0 <= d < 10,
    ensures
        digits_value(s.push(digit_char(d))) == 10 * digits_value(s) + d,
        digits_value(Seq::empty()) == 0,
        '0' <= digit_char(d) <= '9',
        digit_char(d) as int == '0' as int + d,
{
    assert(s.push(digit_char(d)).drop_last() =~= s);
}

/// Text that is filled up is at least as long as asked for, ends with the text, and has nothing but
/// the fill in front of it; text that is long enough stays as it is.
pub proof fn padding_fills_up_in_front(s: Seq<char>, width: nat, fill: char)
    ensures
        ({
            let padded = pad_left(s, width, fill);
            &&& padded.len() == if s.len() < width { width } else { s.len() }
            &&& s.is_suffix_of(padded)
            &&& forall|i: int| 0 <= i < padded.len() - s.len() ==> #[trigger] padded[i] == fill
        }),
{
    let padded = pad_left(s, width, fill);
    assert(padded.skip(padded.len() - s.len()) =~= s);
    assert(s =~= padded.subrange(padded.len() - s.len(), padded.len() as int));
}

/// A year or another number that is filled up with zeros is at least as long as asked for; a minus
/// sign stays in front.
pub proof fn zeros_fill_up_behind_the_sign(n: int, width: nat)
    ensures
        zero_padded(n, width).len() >= width,
        n >= 0 ==> zero_padded(n, width) == pad_left(decimal(n as nat), width, '0'),
        n < 0 ==> zero_padded(n, width)[0] == '-' && zero_padded(n, width).skip(1) == pad_left(
            decimal((-n) as nat),
            (if width > 0 { width - 1 } else { 0 }) as nat,
            '0',
        ),
{
    if n < 0 {
        let rest = pad_left(
            decimal((-n) as nat),
            (if width > 0 { width - 1 } else { 0 }) as nat,
            '0',
        );
        assert(zero_padded(n, width) =~= seq!['-'] + rest);
        assert((seq!['-'] + rest).skip(1) =~= rest);
    }
}

proof fn lemma_trim_start(s: Seq<char>)
    ensures
        ({
            let n = s.len() - trim_start(s).len();
            &&& 0 <= n
            &&& trim_start(s) == s.skip(n)
            &&& forall|i: int| 0 <= i < n ==> is_white_space(#[trigger] s[i])
            &&& trim_start(s).len() > 0 ==> !is_white_space(trim_start(s)[0])
        }),
    decreases s.len(),
{
    if s.len() > 0 && is_white_space(s[0]) {
        let rest = s.skip(1);
        lemma_trim_start(rest);
        let n = s.len() - trim_start(s).len();
        assert(s.skip(n) =~= rest.skip(n - 1));
        assert forall|i: int| 0 <= i < n implies is_white_space(#[trigger] s[i]) by {
            if i > 0 {
                assert(rest[i - 1] == s[i]);
            }
        }
    } else {
        assert(s.skip(0) =~= s);
    }
}

proof fn lemma_trim_end(s: Seq<char>)
    ensures
        ({
            let n = trim_end(s).len();
            &&& n <= s.len()
            &&& trim_end(s) == s.take(n as int)
            &&& forall|i: int| n <= i < s.len() ==> is_white_space(#[trigger] s[i])
            &&& n > 0 ==> !is_white_space(trim_end(s).last())
        }),
    decreases s.len(),
{
    if s.len() > 0 && is_white_space(s.last()) {
        let rest = s.drop_last();
        lemma_trim_end(rest);
        let n = trim_end(s).len() as int;
        assert(s.take(n) =~= rest.take(n));
        assert forall|i: int| n <= i < s.len() implies is_white_space(#[trigger] s[i]) by {
            if i < s.len() - 1 {
                assert(rest[i] == s[i]);
            }
        }
    } else {
        assert(s.take(s.len() as int) =~= s);
    }
}

/// Trimming takes white space off both ends, all of it, and nothing else; nothing is left exactly
/// where the text is blank.
pub proof fn trimming_takes_white_space_only(s: Seq<char>)
    ensures
        exists|from: int, to: int|
            0 <= from <= to <= s.len() && trimmed(s) == #[trigger] s.subrange(from, to) && (forall|
                i: int,
            | 0 <= i < from || to <= i < s.len() ==> is_white_space(#[trigger] s[i])),
        trimmed(s).len() > 0 ==> !is_white_space(trimmed(s)[0]) && !is_white_space(
            trimmed(s).last(),
        ),
        trimmed(s).len() == 0 <==> is_blank(s),
{
    lemma_trim_start(s);
    let start = trim_start(s);
    lemma_trim_end(start);
    let from = s.len() - start.len();
    let to = from + trimmed(s).len();
    assert(trimmed(s) =~= s.subrange(from, to));
    assert forall|i: int| 0 <= i < from || to <= i < s.len() implies is_white_space(
        #[trigger] s[i],
    ) by {
        if i >= to {
            assert(start[i - from] == s[i]);
        }
    }
    if trimmed(s).len() > 0 {
        assert(trimmed(s)[0] == start[0]);
        assert(trimmed(s)[0] == s[from]);
    }
}

/// A text is split at the last separator: the parts with the separator between them are the text,
/// there is none in the part behind it, and a text without one is not split.
pub proof fn texts_are_split_at_the_last_separator(s: Seq<char>, c: char)
    ensures
        split_at_last(s, c) matches Some((before, behind)) ==> s == before.push(c) + behind
            && !behind.contains(c),
        split_at_last(s, c) is None <==> !s.contains(c),
{
    lemma_last_position(s, c);
    let at = last_position(s, c);
    if at >= 0 {
        assert(s =~= s.take(at).push(c) + s.skip(at + 1));
        assert(s[at] == c);
        assert forall|i: int| 0 <= i < s.skip(at + 1).len() implies #[trigger] s.skip(at + 1)[i]
            != c by {
            assert(s[at + 1 + i] != c);
        }
    }
}

/// A suffix is taken off exactly where it is there, and then it is all that is taken off.
pub proof fn suffixes_are_taken_off(stem: Seq<char>, s: Seq<char>, suffix: Seq<char>)
    ensures
        without_suffix(stem + suffix, suffix) == Some(stem),
        without_suffix(s, suffix) matches Some(rest) ==> rest + suffix == s,
{
    let whole = stem + suffix;
    assert(suffix =~= whole.subrange(whole.len() - suffix.len(), whole.len() as int));
    assert(whole.take(whole.len() - suffix.len()) =~= stem);
    if without_suffix(s, suffix) is Some {
        assert(s.take(s.len() - suffix.len()) + suffix =~= s);
    }
}

/// Parts are joined in their order, with the separator between neighbours and nowhere else.
pub proof fn parts_are_joined_in_order(
    a: Seq<Seq<char>>,
    b: Seq<Seq<char>>,
    part: Seq<char>,
    separator: Seq<char>,
)
    requires
        a.len() > 0,
        b.len() > 0,
    ensures
        joined(Seq::empty(), separator) == Seq::<char>::empty(),
        joined(seq![part], separator) == part,
        joined(a + b, separator) == joined(a, separator) + separator + joined(b, separator),
    decreases b.len(),
{
    assert(seq![part].drop_last() =~= Seq::empty());
    assert(joined(seq![part].drop_last(), separator) == Seq::<char>::empty());
    assert(joined(seq![part], separator) =~= part);
    let all = a + b;
    assert(all.drop_last() =~= a + b.drop_last());
    if b.len() == 1 {
        assert(a + b.drop_last() =~= a);
        assert(joined(b.drop_last(), separator) == Seq::<char>::empty());
        assert(joined(b, separator) =~= b.last());
    } else {
        parts_are_joined_in_order(a, b.drop_last(), part, separator);
        assert(joined(all, separator) =~= joined(a, separator) + separator + joined(b, separator));
    }
}

/// White space by its code points: the controls from tab to carriage return, the space, the next
/// line, the no-break space, and the spaces and separators of other scripts.
pub proof fn white_space_has_these_code_points(c: char)
    ensures
        is_white_space(c) <==> {
            let code = c as int;
            ||| 9 <= code <= 13
            ||| code == 32 || code == 133 || code == 160 || code == 5760
            ||| 8192 <= code <= 8202
            ||| code == 8232 || code == 8233 || code == 8239 || code == 8287 || code == 12288
        },
{
}

/// Why a text is no integer: it is empty, its digits denote too much in one direction or the other,
/// or there is something in it that is no digit.
pub proof fn integer_faults_are_told_apart(s: Seq<char>, digits: Seq<char>)
    ensures
        integer_fault(s) == IntegerFault::Empty <==> s.len() == 0,
        all_digits(digits) && digits_value(digits) > i64::MAX ==> integer_fault(digits)
            == IntegerFault::TooLarge && integer_fault(seq!['+'] + digits)
            == IntegerFault::TooLarge,
        all_digits(digits) && digits_value(digits) > 9223372036854775808 ==> integer_fault(
            seq!['-'] + digits,
        ) == IntegerFault::TooSmall,
        0 < s.len() <= 18 ==> integer_fault(s) == IntegerFault::InvalidDigit,
        integer_fault(s) == IntegerFault::TooSmall ==> s[0] == '-',
        integer_fault(s) == IntegerFault::TooLarge ==> s[0] != '-',
{
    if all_digits(digits) {
        lemma_leading_digits(digits);
        assert(leading_digits(digits) == digits.len()) by {
            if leading_digits(digits) < digits.len() {
                assert(is_digit(digits[leading_digits(digits) as int]));
            }
        }
        assert(digits.take(digits.len() as int) =~= digits);
        assert((seq!['+'] + digits).skip(1) =~= digits);
        assert((seq!['-'] + digits).skip(1) =~= digits);
        assert(is_digit(digits[0]));
    }
    if 0 < s.len() <= 18 {
        let signed = s[0] == '-' || s[0] == '+';
        let rest = if signed { s.skip(1) } else { s };
        lemma_leading_digits(rest);
        let front = rest.take(leading_digits(rest) as int);
        assert forall|i: int| 0 <= i < front.len() implies is_digit(#[trigger] front[i]) by {
            assert(front[i] == rest[i]);
        }
        lemma_digits_bound(front);
        lemma_greatest_grows(front.len(), 18);
        assert(greatest_of(18) == 999_999_999_999_999_999) by {
            reveal_with_fuel(greatest_of, 19);
        }
    }
}

/// More digits can denote more.
proof fn lemma_greatest_grows(n: nat, m: nat)
    requires
        n <= m,
    ensures
        greatest_of(n) <= greatest_of(m),
    decreases m,
{
    if n < m {
        lemma_greatest_grows(n, (m - 1) as nat);
    }
}

} // verus!
