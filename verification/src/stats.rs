//! A first pass over the raw bytes of a CSV file: how many rows it has and when they open.

use crate::records::{csv_rows, record_times, records_open_at};
use crate::text::{
    integer_fault, integer_fault_text, integers_are_signs_and_digits, is_white_space,
    parsed_integer, read_i64, signed_decimal, texts, trim, trimmed,
    trimming_takes_white_space_only, utf8_fault_text, utf8_text, why_no_i64,
    written_numbers_read_back,
};
use vstd::prelude::*;
use vstd::slice::slice_subrange;
use vstd::utf8::{
    decode_utf8, encode_utf8, encode_utf8_decode_utf8, encode_utf8_valid_utf8, is_ascii_chars,
    is_ascii_chars_encode_utf8, valid_utf8,
};

verus! {

/// What the first pass over a file finds.
#[derive(Clone, Copy, Debug, PartialEq, Eq, Structural)]
pub struct FileStats {
    /// The number of rows.
    pub row_count: usize,
    /// The open time of the last row.
    pub last_open_time: Option<i64>,
    /// The open time of the first row.
    pub first_open_time: Option<i64>,
    /// Do the open times increase strictly from row to row?
    pub increasing: bool,
    /// Are the lines that were counted the records of the file? They are not where a record goes
    /// over several lines.
    pub described: bool,
}

impl FileStats {
    /// A file has a first row if it has a last one, which does not open before it where the open
    /// times increase.
    pub open spec fn wf(self) -> bool {
        match (self.first_open_time, self.last_open_time) {
            (Some(first), Some(last)) => self.increasing ==> first <= last,
            (None, None) => true,
            _ => false,
        }
    }
}

/// Do the numbers increase strictly?
pub open spec fn times_increase(times: Seq<i64>) -> bool {
    forall|i: int, j: int| 0 <= i < j < times.len() ==> #[trigger] times[i] < #[trigger] times[j]
}

/// Is this what rows that open at these times come to?
pub open spec fn summarises(stats: FileStats, times: Seq<i64>) -> bool {
    &&& stats.row_count == times.len()
    &&& stats.last_open_time == (if times.len() > 0 {
        Some(times.last())
    } else {
        None
    })
    &&& stats.first_open_time == (if times.len() > 0 {
        Some(times[0])
    } else {
        None
    })
    &&& stats.increasing == times_increase(times)
}

/// Why the open time of a line cannot be read: the wording of what is wrong with its bytes, or the
/// text that stands in its place.
pub enum OpenTimeError {
    NotUtf8(String),
    Invalid(String),
}

/// Why the open time of a line cannot be read.
pub enum OpenTimeFault {
    NotUtf8(Seq<char>),
    Invalid(Seq<char>),
}

impl View for OpenTimeError {
    type V = OpenTimeFault;

    open spec fn view(&self) -> OpenTimeFault {
        match self {
            OpenTimeError::NotUtf8(cause) => OpenTimeFault::NotUtf8(cause@),
            OpenTimeError::Invalid(raw) => OpenTimeFault::Invalid(raw@),
        }
    }
}

/// The wording of an open time error, and of its cause.
pub open spec fn open_time_error_text(error: OpenTimeFault) -> Seq<Seq<char>> {
    match error {
        OpenTimeFault::NotUtf8(cause) => seq!["open_time is not valid UTF-8"@, cause],
        OpenTimeFault::Invalid(raw) => seq![
            "invalid open_time: "@ + raw,
            integer_fault_text(integer_fault(raw)),
        ],
    }
}

impl OpenTimeError {
    /// The wording of the error, and of its cause.
    pub fn messages(&self) -> (parts: Vec<String>)
        ensures
            texts(parts@) == open_time_error_text(self@),
            parts@.len() == 2,
            self@ matches OpenTimeFault::NotUtf8(cause) ==> parts@[0]@
                == "open_time is not valid UTF-8"@ && parts@[1]@ == cause,
            self@ matches OpenTimeFault::Invalid(raw) ==> parts@[0]@ == "invalid open_time: "@ + raw
                && parts@[1]@ == integer_fault_text(integer_fault(raw)),
    {
        let mut parts: Vec<String> = Vec::new();
        match self {
            OpenTimeError::NotUtf8(cause) => {
                parts.push("open_time is not valid UTF-8".to_owned());
                parts.push(cause.clone());
            },
            OpenTimeError::Invalid(raw) => {
                let mut text = "invalid open_time: ".to_owned();
                text.append(raw.as_str());
                parts.push(text);
                parts.push(why_no_i64(raw.as_str()).message().to_owned());
            },
        }
        assert(texts(parts@) =~= open_time_error_text(self@));
        parts
    }
}

// ---------------------------------------------------------------------------------------------
// One line
// ---------------------------------------------------------------------------------------------
/// A line feed or a carriage return.
pub open spec fn is_line_end(b: u8) -> bool {
    b == 10 || b == 13
}

/// An ASCII white space byte: space, tab, line feed, form feed or carriage return.
pub open spec fn is_ascii_space(b: u8) -> bool {
    b == 32 || b == 9 || b == 10 || b == 12 || b == 13
}

/// A line without the line feeds and carriage returns at its end.
pub open spec fn without_line_end(line: Seq<u8>) -> Seq<u8>
    decreases line.len(),
{
    if line.len() > 0 && is_line_end(line.last()) {
        without_line_end(line.drop_last())
    } else {
        line
    }
}

/// ASCII white space only, or nothing at all.
pub open spec fn is_blank_line(line: Seq<u8>) -> bool {
    forall|i: int| 0 <= i < line.len() ==> is_ascii_space(#[trigger] line[i])
}

/// What a line holds: nothing where it is blank, else all of it but its end.
pub open spec fn line_content(line: Seq<u8>) -> Seq<u8> {
    if is_blank_line(without_line_end(line)) {
        Seq::empty()
    } else {
        without_line_end(line)
    }
}

/// What a line holds: nothing where it is blank, else all of it but its end.
pub fn trim_csv_line(line: &[u8]) -> (content: &[u8])
    ensures
        content@ == line_content(line@),
{
    let mut end: usize = line.len();
    assert(line@.take(end as int) =~= line@);
    while end > 0 && (line[end - 1] == 10 || line[end - 1] == 13)
        invariant
            end <= line@.len(),
            without_line_end(line@) == without_line_end(line@.take(end as int)),
        decreases end,
    {
        assert(line@.take(end as int).drop_last() =~= line@.take(end - 1));
        end -= 1;
    }
    let kept = slice_subrange(line, 0, end);
    assert(kept@ =~= without_line_end(line@));
    let mut i: usize = 0;
    while i < kept.len()
        invariant
            i <= kept@.len(),
            kept@ == without_line_end(line@),
            forall|k: int| 0 <= k < i ==> is_ascii_space(#[trigger] kept@[k]),
        decreases kept@.len() - i,
    {
        let b = kept[i];
        if !(b == 32 || b == 9 || b == 10 || b == 12 || b == 13) {
            assert(!is_ascii_space(kept@[i as int]));
            return kept;
        }
        i += 1;
    }
    let nothing = slice_subrange(line, 0, 0);
    assert(nothing@ =~= Seq::empty());
    nothing
}

/// A line without its end is the line up to where only line feeds and carriage returns follow.
proof fn lemma_without_line_end(line: Seq<u8>)
    ensures
        ({
            let kept = without_line_end(line);
            &&& kept.len() <= line.len()
            &&& kept == line.take(kept.len() as int)
            &&& forall|i: int|
                kept.len() <= i < line.len() ==> #[trigger] line[i] == 10 || line[i] == 13
            &&& kept.len() > 0 ==> kept.last() != 10 && kept.last() != 13
        }),
    decreases line.len(),
{
    if line.len() > 0 && is_line_end(line.last()) {
        lemma_without_line_end(line.drop_last());
        let kept = without_line_end(line);
        assert(kept =~= line.take(kept.len() as int));
        assert forall|i: int| kept.len() <= i < line.len() implies #[trigger] line[i] == 10
            || line[i] == 13 by {
            if i < line.len() - 1 {
                assert(line.drop_last()[i] == line[i]);
            }
        }
    } else {
        assert(line.take(line.len() as int) =~= line);
    }
}

/// A line holds nothing exactly where it is made of spaces, tabs, form feeds and line ends. Else it
/// holds all of itself but for the line feeds and carriage returns at its very end.
pub proof fn lines_hold_all_but_their_ends(line: Seq<u8>)
    ensures
        ({
            let content = line_content(line);
            &&& content.len() == 0 <==> forall|i: int|
                0 <= i < line.len() ==> #[trigger] line[i] == 32 || line[i] == 9 || line[i] == 10
                    || line[i] == 12 || line[i] == 13
            &&& content.len() <= line.len()
            &&& content == line.take(content.len() as int)
            &&& content.len() > 0 ==> {
                &&& content.last() != 10 && content.last() != 13
                &&& forall|i: int|
                    content.len() <= i < line.len() ==> #[trigger] line[i] == 10 || line[i] == 13
            }
        }),
{
    lemma_without_line_end(line);
    let kept = without_line_end(line);
    let content = line_content(line);
    if content.len() == 0 {
        assert(content =~= line.take(0));
        assert forall|i: int| 0 <= i < line.len() implies #[trigger] line[i] == 32 || line[i] == 9
            || line[i] == 10 || line[i] == 12 || line[i] == 13 by {
            if i < kept.len() {
                assert(is_blank_line(kept));
                assert(kept[i] == line[i]);
                assert(is_ascii_space(kept[i]));
            }
        }
    } else {
        let k = choose|k: int| 0 <= k < kept.len() && !is_ascii_space(#[trigger] kept[k]);
        assert(line[k] == kept[k]);
    }
}

/// The position of the first `b` in `s`, or its length where there is none.
pub open spec fn first_position(s: Seq<u8>, b: u8) -> int
    decreases s.len(),
{
    if s.len() == 0 || s[0] == b {
        0
    } else {
        1 + first_position(s.skip(1), b)
    }
}

/// The position of the first `b` in `s` from `from` on, or its length where there is none.
fn find_byte(s: &[u8], b: u8, from: usize) -> (at: usize)
    requires
        from <= s@.len(),
    ensures
        at == from + first_position(s@.skip(from as int), b),
        from <= at <= s@.len(),
        at < s@.len() ==> s@[at as int] == b,
{
    let mut at: usize = from;
    while at < s.len() && s[at] != b
        invariant
            from <= at <= s@.len(),
            from + first_position(s@.skip(from as int), b) == at + first_position(
                s@.skip(at as int),
                b,
            ),
        decreases s@.len() - at,
    {
        assert(s@.skip(at as int).skip(1) =~= s@.skip(at + 1));
        at += 1;
    }
    at
}

/// The first of the comma-separated fields of a line.
pub open spec fn first_field(line: Seq<u8>) -> Seq<u8> {
    line.take(first_position(line, 44))
}

/// The open time that a line begins with.
pub open spec fn open_time_of(line: Seq<u8>) -> Result<i64, OpenTimeFault> {
    let field = first_field(line);
    if !valid_utf8(field) {
        Err(OpenTimeFault::NotUtf8(utf8_fault_text(field)))
    } else {
        let raw = trimmed(decode_utf8(field));
        match parsed_integer(raw, i64::MIN as int, i64::MAX as int) {
            Some(v) => Ok(v as i64),
            None => Err(OpenTimeFault::Invalid(raw)),
        }
    }
}

/// Reads the open time that a line begins with.
pub fn parse_open_time_bytes(line: &[u8]) -> (open_time: Result<i64, OpenTimeError>)
    ensures
        match open_time {
            Ok(v) => open_time_of(line@) == Ok::<i64, OpenTimeFault>(v),
            Err(e) => open_time_of(line@) == Err::<i64, OpenTimeFault>(e@),
        },
{
    let end: usize = find_byte(line, 44, 0);
    assert(line@.skip(0) =~= line@);
    let field = slice_subrange(line, 0, end);
    assert(field@ =~= first_field(line@));
    match utf8_text(field) {
        Err(cause) => Err(OpenTimeError::NotUtf8(cause)),
        Ok(text) => {
            proof {
                encode_utf8_decode_utf8(text@);
            }
            let raw = trim(text);
            match read_i64(raw) {
                Some(v) => Ok(v),
                None => Err(OpenTimeError::Invalid(raw.to_owned())),
            }
        },
    }
}

/// The open time of a line stands in front of its first comma, and nothing behind that counts. It is
/// readable exactly where that field is UTF-8 and, white space around it apart, an integer.
pub proof fn open_times_stand_before_the_first_comma(field: Seq<u8>, rest: Seq<u8>)
    requires
        !field.contains(44),
    ensures
        first_field(field) == field,
        first_field(field.push(44) + rest) == field,
        open_time_of(field.push(44) + rest) == open_time_of(field),
        open_time_of(field) is Ok <==> valid_utf8(field) && parsed_integer(
            trimmed(decode_utf8(field)),
            i64::MIN as int,
            i64::MAX as int,
        ) is Some,
        open_time_of(field) matches Ok(v) ==> parsed_integer(
            trimmed(decode_utf8(field)),
            i64::MIN as int,
            i64::MAX as int,
        ) == Some(v as int),
        !valid_utf8(field) ==> open_time_of(field) == Err::<i64, OpenTimeFault>(
            OpenTimeFault::NotUtf8(utf8_fault_text(field)),
        ),
        valid_utf8(field) && open_time_of(field) is Err ==> open_time_of(field) == Err::<
            i64,
            OpenTimeFault,
        >(OpenTimeFault::Invalid(trimmed(decode_utf8(field)))),
{
    let line = field.push(44) + rest;
    lemma_first_position(field, 44);
    lemma_first_position(line, 44);
    let at = first_position(line, 44);
    assert(line[field.len() as int] == 44);
    if at < field.len() {
        assert(field[at] == line[at]);
    }
    assert(line.take(at) =~= field);
    assert(first_position(field, 44) == field.len()) by {
        if first_position(field, 44) < field.len() {
            assert(field[first_position(field, 44)] == 44);
        }
    }
    assert(field.take(field.len() as int) =~= field);
}

/// The open time that a row was written with is the one that is read.
pub proof fn written_open_times_are_read(n: i64, rest: Seq<u8>)
    ensures
        open_time_of(encode_utf8(signed_decimal(n as int)).push(44) + rest) == Ok::<
            i64,
            OpenTimeFault,
        >(n),
        open_time_of(encode_utf8(signed_decimal(n as int))) == Ok::<i64, OpenTimeFault>(n),
{
    let text = signed_decimal(n as int);
    let field = encode_utf8(text);
    written_numbers_read_back(n);
    integers_are_signs_and_digits(text, i64::MIN as int, i64::MAX as int);
    assert(is_ascii_chars(text)) by {
        assert forall|i: int| 0 <= i < text.len() implies '\0' <= #[trigger] text[i] <= '\u{7f}' by {
            if i > 0 {
                assert('0' <= text[i] <= '9');
            }
        }
    }
    is_ascii_chars_encode_utf8(text);
    encode_utf8_decode_utf8(text);
    encode_utf8_valid_utf8(text);
    assert(!field.contains(44)) by {
        if field.contains(44) {
            let i = choose|i: int| 0 <= i < field.len() && field[i] == 44;
            assert(text[i] as u8 == 44);
            if i > 0 {
                assert('0' <= text[i] <= '9');
            }
        }
    }
    trimming_takes_white_space_only(text);
    let (from, to) = choose|from: int, to: int|
        0 <= from <= to <= text.len() && trimmed(text) == #[trigger] text.subrange(from, to) && (
        forall|i: int|
            0 <= i < from || to <= i < text.len() ==> is_white_space(#[trigger] text[i]));
    assert(!is_white_space(text[0]) && !is_white_space(text[text.len() - 1]));
    assert(trimmed(text) =~= text);
    open_times_stand_before_the_first_comma(field, rest);
}

// ---------------------------------------------------------------------------------------------
// One file
// ---------------------------------------------------------------------------------------------
/// Where the first line of `data` ends: behind its line feed, or at the end of the data.
pub open spec fn first_line_end(data: Seq<u8>) -> int {
    let at = first_position(data, 10);
    if at < data.len() {
        at + 1
    } else {
        data.len() as int
    }
}

/// The first line feed is one, and there is none before it.
pub proof fn lemma_first_position(s: Seq<u8>, b: u8)
    ensures
        0 <= first_position(s, b) <= s.len(),
        first_position(s, b) < s.len() ==> s[first_position(s, b)] == b,
        forall|i: int| 0 <= i < first_position(s, b) ==> #[trigger] s[i] != b,
    decreases s.len(),
{
    if s.len() > 0 && s[0] != b {
        lemma_first_position(s.skip(1), b);
        assert forall|i: int| 0 <= i < first_position(s, b) implies #[trigger] s[i] != b by {
            if i > 0 {
                assert(s.skip(1)[i - 1] == s[i]);
            }
        }
    }
}

/// The content of each line that is not blank.
pub open spec fn content_lines(data: Seq<u8>) -> Seq<Seq<u8>>
    decreases data.len(),
    via content_lines_shrinks
{
    if data.len() == 0 {
        Seq::empty()
    } else {
        let end = first_line_end(data);
        let content = line_content(data.take(end));
        let rest = content_lines(data.skip(end));
        if content.len() == 0 {
            rest
        } else {
            seq![content] + rest
        }
    }
}

#[via_fn]
proof fn content_lines_shrinks(data: Seq<u8>) {
    lemma_first_position(data, 10);
}

/// The lines of a file that hold rows: all that are not blank, but for a header.
pub open spec fn row_lines(data: Seq<u8>, has_header: bool) -> Seq<Seq<u8>> {
    without_header(content_lines(data), has_header)
}

/// A list of lines but for its first one, where that is a header.
pub open spec fn without_header(lines: Seq<Seq<u8>>, has_header: bool) -> Seq<Seq<u8>> {
    if has_header && lines.len() > 0 {
        lines.skip(1)
    } else {
        lines
    }
}

/// A file is read line by line: each line in front of a line feed adds what it holds, unless that is
/// nothing, in front of what the rest holds. The last line may do without a line feed.
pub proof fn files_are_read_line_by_line(line: Seq<u8>, rest: Seq<u8>)
    requires
        !line.contains(10),
    ensures
        content_lines(line.push(10) + rest) == content_lines(line) + content_lines(rest),
        content_lines(line) == (if line_content(line).len() == 0 {
            Seq::empty()
        } else {
            seq![line_content(line)]
        }),
{
    let data = line.push(10) + rest;
    lemma_first_position(data, 10);
    lemma_first_position(line, 10);
    let at = first_position(data, 10);
    assert(data[line.len() as int] == 10);
    if at < line.len() {
        assert(line[at] == data[at]);
    }
    assert(at == line.len());
    assert(data.take(at + 1) =~= line.push(10));
    assert(data.skip(at + 1) =~= rest);
    assert(line.push(10).drop_last() =~= line);
    assert(line_content(line.push(10)) == line_content(line));
    if first_position(line, 10) < line.len() {
        assert(line[first_position(line, 10)] == 10);
    }
    assert(first_line_end(line) == line.len());
    assert(line.take(line.len() as int) =~= line);
    assert(line.skip(line.len() as int) =~= Seq::empty());
    assert(content_lines(Seq::<u8>::empty()) =~= Seq::empty());
    if line.len() == 0 {
        lemma_without_line_end(line);
        assert(line_content(line).len() == 0);
        assert(content_lines(line) =~= Seq::empty());
    } else {
        assert(content_lines(line) =~= (if line_content(line).len() == 0 {
            Seq::empty()
        } else {
            seq![line_content(line)]
        }));
    }
    assert(content_lines(data) =~= content_lines(line) + content_lines(rest));
}

/// A header is the first line that holds anything, and that line alone is no row.
pub proof fn headers_are_no_rows(data: Seq<u8>)
    ensures
        row_lines(data, false) == content_lines(data),
        content_lines(data).len() > 0 ==> row_lines(data, false) == seq![content_lines(data)[0]]
            + row_lines(data, true),
        content_lines(data).len() == 0 ==> row_lines(data, true).len() == 0,
{
    if content_lines(data).len() > 0 {
        assert(row_lines(data, false) =~= seq![content_lines(data)[0]] + row_lines(data, true));
    }
}

/// The open times of a list of rows, unless one has no readable open time.
pub open spec fn times_of(rows: Seq<Seq<u8>>) -> Result<Seq<i64>, OpenTimeFault>
    decreases rows.len(),
{
    if rows.len() == 0 {
        Ok(Seq::empty())
    } else {
        match times_of(rows.drop_last()) {
            Err(e) => Err(e),
            Ok(times) => match open_time_of(rows.last()) {
                Err(e) => Err(e),
                Ok(t) => Ok(times.push(t)),
            },
        }
    }
}

/// A row without a readable open time spoils every list that begins with the rows up to it.
proof fn lemma_time_fault_stays(rows: Seq<Seq<u8>>, n: int)
    requires
        0 <= n <= rows.len(),
        times_of(rows.take(n)) is Err,
    ensures
        times_of(rows) == times_of(rows.take(n)),
    decreases rows.len(),
{
    if n == rows.len() {
        assert(rows.take(n) =~= rows);
    } else {
        assert(rows.drop_last().take(n) =~= rows.take(n));
        lemma_time_fault_stays(rows.drop_last(), n);
    }
}

/// There is one open time for each row, namely its own. The first row without one is what is told.
pub proof fn every_row_has_its_own_time(rows: Seq<Seq<u8>>)
    ensures
        times_of(rows) matches Ok(times) ==> times.len() == rows.len() && forall|i: int|
            0 <= i < rows.len() ==> open_time_of(#[trigger] rows[i]) == Ok::<i64, OpenTimeFault>(
                times[i],
            ),
        times_of(rows) matches Err(fault) ==> exists|k: int|
            0 <= k < rows.len() && open_time_of(#[trigger] rows[k]) == Err::<i64, OpenTimeFault>(
                fault,
            ) && forall|i: int| 0 <= i < k ==> open_time_of(#[trigger] rows[i]) is Ok,
    decreases rows.len(),
{
    if rows.len() > 0 {
        let fewer = rows.drop_last();
        every_row_has_its_own_time(fewer);
        assert(forall|i: int| 0 <= i < fewer.len() ==> #[trigger] fewer[i] == rows[i]);
        match times_of(fewer) {
            Err(fault) => {
                let k = choose|k: int|
                    0 <= k < fewer.len() && open_time_of(#[trigger] fewer[k]) == Err::<
                        i64,
                        OpenTimeFault,
                    >(fault) && forall|i: int| 0 <= i < k ==> open_time_of(#[trigger] fewer[i]) is Ok;
                assert(fewer[k] == rows[k]);
                assert forall|i: int| 0 <= i < k implies open_time_of(#[trigger] rows[i]) is Ok by {
                    assert(open_time_of(fewer[i]) is Ok);
                }
            },
            Ok(times) => {
                assert forall|i: int| 0 <= i < fewer.len() implies open_time_of(#[trigger] rows[i])
                    == Ok::<i64, OpenTimeFault>(times[i]) by {
                    assert(fewer[i] == rows[i]);
                }
                assert(rows.last() == rows[rows.len() - 1]);
            },
        }
    }
}

/// One more row.
proof fn lemma_one_more_time(times: Seq<i64>, time: i64)
    ensures
        times_increase(times.push(time)) <==> times_increase(times) && (times.len() > 0
            ==> times.last() < time),
{
    let more = times.push(time);
    if times_increase(more) {
        assert forall|i: int, j: int| 0 <= i < j < times.len() implies #[trigger] times[i]
            < #[trigger] times[j] by {
            assert(more[i] < more[j]);
        }
        if times.len() > 0 {
            assert(more[times.len() - 1] < more[times.len() as int]);
        }
    }
    if times_increase(times) && (times.len() > 0 ==> times.last() < time) {
        assert forall|i: int, j: int| 0 <= i < j < more.len() implies #[trigger] more[i]
            < #[trigger] more[j] by {
            if j == times.len() {
                assert(times[i] <= times.last());
            } else {
                assert(times[i] < times[j]);
            }
        }
    }
}

/// The result of a first pass over the bytes of a file: what it found, or why it stopped.
pub open spec fn is_scan_of(
    result: Result<FileStats, OpenTimeFault>,
    data: Seq<u8>,
    has_header: bool,
) -> bool {
    match (result, times_of(row_lines(data, has_header))) {
        (Ok(stats), Ok(times)) => {
            &&& summarises(stats, times)
            &&& stats.described == (record_times(csv_rows(data, has_header)) == Some(times))
        },
        (Err(e), Err(fault)) => e == fault,
        _ => false,
    }
}

/// What the first pass finds is in order.
pub proof fn scans_are_well_formed(stats: FileStats, times: Seq<i64>)
    requires
        summarises(stats, times),
    ensures
        stats.wf(),
{
    if times.len() > 1 && stats.increasing {
        assert(times[0] < times[times.len() - 1]);
    }
}

/// What the first pass over a file says of it: there are as many rows as lines that are not blank,
/// but for a header; the first and the last open time are those of the first and the last row; and
/// they increase exactly where each row opens after the one before it. The file is described by its
/// lines exactly where its records open at the times of its rows.
pub proof fn scans_tell_of_every_row(stats: FileStats, data: Seq<u8>, has_header: bool)
    requires
        is_scan_of(Ok(stats), data, has_header),
    ensures
        ({
            let rows = row_lines(data, has_header);
            &&& stats.row_count == rows.len()
            &&& stats.first_open_time is Some <==> rows.len() > 0
            &&& stats.last_open_time is Some <==> rows.len() > 0
            &&& rows.len() > 0 ==> open_time_of(rows[0]) == Ok::<i64, OpenTimeFault>(
                stats.first_open_time->0,
            ) && open_time_of(rows.last()) == Ok::<i64, OpenTimeFault>(stats.last_open_time->0)
            &&& forall|i: int| 0 <= i < rows.len() ==> open_time_of(#[trigger] rows[i]) is Ok
            &&& stats.increasing <==> forall|i: int|
                1 <= i < rows.len() ==> open_time_of(rows[i - 1])->Ok_0 < open_time_of(
                    #[trigger] rows[i],
                )->Ok_0
            &&& stats.described <==> {
                &&& record_times(csv_rows(data, has_header)) matches Some(times)
                &&& times.len() == rows.len()
                &&& forall|i: int|
                    0 <= i < rows.len() ==> open_time_of(#[trigger] rows[i]) == Ok::<
                        i64,
                        OpenTimeFault,
                    >(times[i])
            }
        }),
{
    let rows = row_lines(data, has_header);
    let times = times_of(rows)->Ok_0;
    every_row_has_its_own_time(rows);
    if let Some(other) = record_times(csv_rows(data, has_header)) {
        if other.len() == rows.len() && forall|i: int|
            0 <= i < rows.len() ==> open_time_of(#[trigger] rows[i]) == Ok::<i64, OpenTimeFault>(
                other[i],
            ) {
            assert forall|i: int| 0 <= i < rows.len() implies other[i] == times[i] by {
                assert(open_time_of(rows[i]) == Ok::<i64, OpenTimeFault>(other[i]));
            }
            assert(other =~= times);
        }
    }
    if rows.len() > 0 {
        assert(open_time_of(rows[rows.len() - 1]) == Ok::<i64, OpenTimeFault>(times.last()));
        assert(open_time_of(rows[0]) == Ok::<i64, OpenTimeFault>(times[0]));
    }
    if stats.increasing {
        assert forall|i: int| 1 <= i < rows.len() implies open_time_of(rows[i - 1])->Ok_0
            < open_time_of(#[trigger] rows[i])->Ok_0 by {
            assert(open_time_of(rows[i - 1]) == Ok::<i64, OpenTimeFault>(times[i - 1]));
            assert(times[i - 1] < times[i]);
        }
    }
    if forall|i: int|
        1 <= i < rows.len() ==> open_time_of(rows[i - 1])->Ok_0 < open_time_of(
            #[trigger] rows[i],
        )->Ok_0 {
        assert forall|i: int| 1 <= i < times.len() implies times[i - 1] < #[trigger] times[i] by {
            assert(open_time_of(rows[i]) == Ok::<i64, OpenTimeFault>(times[i]));
            assert(open_time_of(rows[i - 1]) == Ok::<i64, OpenTimeFault>(times[i - 1]));
        }
        lemma_neighbours_increase(times);
    }
}

/// Where each number is greater than its neighbour, each is greater than all before it.
proof fn lemma_neighbours_increase(times: Seq<i64>)
    requires
        forall|i: int| 1 <= i < times.len() ==> times[i - 1] < #[trigger] times[i],
    ensures
        times_increase(times),
    decreases times.len(),
{
    if times.len() > 0 {
        let fewer = times.drop_last();
        assert forall|i: int| 1 <= i < fewer.len() implies fewer[i - 1] < #[trigger] fewer[i] by {
            assert(times[i - 1] < times[i]);
        }
        lemma_neighbours_increase(fewer);
        lemma_one_more_time(fewer, times.last());
        assert(fewer.push(times.last()) =~= times);
        if fewer.len() > 0 {
            assert(times[times.len() - 2] < times[times.len() - 1]);
        }
    }
}

/// Counts the rows of a file, looks at when they open, and holds them against its records.
pub fn scan_file_stats(data: &[u8], has_header: bool) -> (stats: Result<FileStats, OpenTimeError>)
    ensures
        match stats {
            Ok(s) => is_scan_of(Ok(s), data@, has_header) && s.wf(),
            Err(e) => is_scan_of(Err(e@), data@, has_header),
        },
        stats matches Ok(s) ==> s.row_count == row_lines(data@, has_header).len()
            && s.first_open_time is Some == (s.row_count > 0) && s.last_open_time is Some == (
        s.row_count > 0),
{
    let mut pos: usize = 0;
    let mut skipped_header = false;
    let mut times: Vec<i64> = Vec::new();
    let mut increasing = true;
    let ghost mut seen: Seq<Seq<u8>> = Seq::empty();
    assert(data@.skip(0) =~= data@);
    assert(content_lines(data@) =~= seen + content_lines(data@.skip(0)));
    while pos < data.len()
        invariant
            pos <= data@.len(),
            content_lines(data@) == seen + content_lines(data@.skip(pos as int)),
            skipped_header == (has_header && seen.len() > 0),
            times_of(without_header(seen, has_header)) == Ok::<Seq<i64>, OpenTimeFault>(times@),
            increasing == times_increase(times@),
        decreases data@.len() - pos,
    {
        let at: usize = find_byte(data, 10, pos);
        let end: usize = if at < data.len() { at + 1 } else { at };
        let ghost rest = data@.skip(pos as int);
        let line = slice_subrange(data, pos, end);
        let content = trim_csv_line(line);
        proof {
            lemma_first_position(rest, 10);
            assert(first_line_end(rest) == end - pos);
            assert(rest.take(end - pos) =~= line@);
            assert(rest.skip(end - pos) =~= data@.skip(end as int));
        }
        pos = end;
        if content.len() == 0 {
            continue;
        }
        let ghost before = seen;
        proof {
            seen = seen.push(content@);
            assert(content_lines(data@) =~= seen + content_lines(data@.skip(pos as int)));
        }
        if has_header && !skipped_header {
            skipped_header = true;
            assert(without_header(seen, has_header) =~= Seq::empty());
            continue;
        }
        let ghost rows = without_header(seen, has_header);
        assert(rows.drop_last() =~= without_header(before, has_header));
        assert(rows.last() == content@);
        let open_time: i64 = match parse_open_time_bytes(content) {
            Ok(t) => t,
            Err(e) => {
                proof {
                    let all = row_lines(data@, has_header);
                    assert(all.take(rows.len() as int) =~= rows);
                    lemma_time_fault_stays(all, rows.len() as int);
                }
                return Err(e);
            },
        };
        proof {
            lemma_one_more_time(times@, open_time);
        }
        if times.len() > 0 {
            increasing = increasing && times[times.len() - 1] < open_time;
        }
        times.push(open_time);
    }
    let n: usize = times.len();
    let stats = FileStats {
        row_count: n,
        last_open_time: if n > 0 { Some(times[n - 1]) } else { None },
        first_open_time: if n > 0 { Some(times[0]) } else { None },
        increasing,
        described: records_open_at(data, has_header, &times),
    };
    proof {
        assert(data@.skip(pos as int).len() == 0);
        assert(seen + content_lines(data@.skip(pos as int)) =~= seen);
        scans_are_well_formed(stats, times@);
        scans_tell_of_every_row(stats, data@, has_header);
    }
    Ok(stats)
}

/// Adds what the first pass finds in one more file to the findings so far.
pub fn collect_file_stats(stats: &mut Vec<FileStats>, data: &[u8], has_header: bool) -> (result:
    Result<(), OpenTimeError>)
    ensures
        match result {
            Ok(_) => {
                &&& final(stats)@.len() == old(stats)@.len() + 1
                &&& final(stats)@.drop_last() == old(stats)@
                &&& is_scan_of(Ok(final(stats)@.last()), data@, has_header)
                &&& final(stats)@.last().wf()
            },
            Err(e) => {
                &&& final(stats)@ == old(stats)@
                &&& is_scan_of(Err(e@), data@, has_header)
            },
        },
{
    match scan_file_stats(data, has_header) {
        Ok(found) => {
            stats.push(found);
            assert(stats@.drop_last() =~= old(stats)@);
            Ok(())
        },
        Err(e) => Err(e),
    }
}

// ---------------------------------------------------------------------------------------------
// All files
// ---------------------------------------------------------------------------------------------
/// The number of rows of all files together.
pub open spec fn total_rows(stats: Seq<FileStats>) -> nat
    decreases stats.len(),
{
    if stats.len() == 0 {
        0
    } else {
        total_rows(stats.drop_last()) + stats.last().row_count as nat
    }
}

/// The rows of all files are those of each file, added up.
pub proof fn rows_add_up(stats: FileStats, a: Seq<FileStats>, b: Seq<FileStats>)
    ensures
        total_rows(Seq::empty()) == 0,
        total_rows(seq![stats]) == stats.row_count,
        total_rows(a + b) == total_rows(a) + total_rows(b),
    decreases b.len(),
{
    assert(seq![stats].drop_last() =~= Seq::empty());
    assert(total_rows(seq![stats].drop_last()) == 0);
    if b.len() == 0 {
        assert(a + b =~= a);
    } else {
        assert((a + b).drop_last() =~= a + b.drop_last());
        rows_add_up(stats, a, b.drop_last());
    }
}

/// Files in front have no more rows than all files.
proof fn lemma_total_rows_grows(stats: Seq<FileStats>, n: int)
    requires
        0 <= n <= stats.len(),
    ensures
        total_rows(stats.take(n)) <= total_rows(stats),
    decreases stats.len(),
{
    if n == stats.len() {
        assert(stats.take(n) =~= stats);
    } else {
        assert(stats.drop_last().take(n) =~= stats.take(n));
        lemma_total_rows_grows(stats.drop_last(), n);
    }
}

/// The number of rows of all files together, unless it is too large to be counted.
pub fn expected_rows(stats: &Vec<FileStats>) -> (rows: Option<usize>)
    ensures
        match rows {
            Some(n) => n == total_rows(stats@),
            None => total_rows(stats@) > usize::MAX,
        },
{
    let mut sum: usize = 0;
    let mut i: usize = 0;
    while i < stats.len()
        invariant
            i <= stats@.len(),
            sum == total_rows(stats@.take(i as int)),
        decreases stats@.len() - i,
    {
        assert(stats@.take(i + 1).drop_last() =~= stats@.take(i as int));
        if stats[i].row_count > usize::MAX - sum {
            proof {
                lemma_total_rows_grows(stats@, i + 1);
            }
            return None;
        }
        sum = sum + stats[i].row_count;
        i += 1;
    }
    assert(stats@.take(i as int) =~= stats@);
    Some(sum)
}

/// Does a table whose last row opens at `resume_open_time` hold a row that opens at `open_time`?
pub open spec fn already_stored(open_time: i64, resume_open_time: Option<i64>) -> bool {
    match resume_open_time {
        Some(resume) => open_time <= resume,
        None => false,
    }
}

/// Is the last row of a file already stored?
pub open spec fn is_skipped(stats: FileStats, resume_open_time: Option<i64>) -> bool {
    match stats.last_open_time {
        Some(last) => already_stored(last, resume_open_time),
        None => false,
    }
}

/// Can a file be passed over whole where its rows open one after the other? Its last row is already
/// stored, and so is every row before it.
pub fn should_skip_file(stats: &FileStats, resume_open_time: Option<i64>) -> (skip: bool)
    ensures
        skip == is_skipped(*stats, resume_open_time),
        skip <==> stats.last_open_time is Some && resume_open_time is Some
            && stats.last_open_time->0 <= resume_open_time->0,
{
    match (stats.last_open_time, resume_open_time) {
        (Some(last), Some(resume)) => last <= resume,
        _ => false,
    }
}

} // verus!
